use sigo::{CompletedTask, ReadyTask, Task, WaitingTask};

fn ready(id: u32, description: &str) -> ReadyTask {
    ReadyTask { id, description: description.to_owned() }
}

fn waiting(id: u32, description: &str) -> WaitingTask {
    WaitingTask { id, description: description.to_owned() }
}

fn completed(id: u32, description: &str) -> CompletedTask {
    CompletedTask { id, description: description.to_owned() }
}

#[test]
fn issue_task_id_on_empty_stores_returns_one() {
    let id = Task::issue_task_id(&Vec::new(), &Vec::new());
    assert_eq!(id, 1);
}

#[test]
fn issue_task_id_extends_a_dense_range() {
    let r = vec![ready(1, "a"), ready(3, "c")];
    let w = vec![waiting(2, "b")];
    assert_eq!(Task::issue_task_id(&r, &w), 4);
}

#[test]
fn issue_task_id_reclaims_the_smallest_gap() {
    let r = vec![ready(2, "a")];
    let w = vec![waiting(3, "b")];
    assert_eq!(Task::issue_task_id(&r, &w), 1);
    let r2 = vec![ready(1, "a"), ready(3, "b")];
    assert_eq!(Task::issue_task_id(&r2, &Vec::new()), 2);
    // A sparse id set: 2 is the smallest unused id, and is issued even though
    // 4 and more are unused too.
    let r3 = vec![ready(1, "a"), ready(5, "b")];
    assert_eq!(Task::issue_task_id(&r3, &Vec::new()), 2);
}

#[test]
fn issue_task_id_counts_duplicate_ids_once() {
    let r = vec![ready(1, "a"), ready(1, "b")];
    assert_eq!(Task::issue_task_id(&r, &Vec::new()), 2);
}

#[test]
fn new_task_gets_a_fresh_id_and_the_description() {
    let r = vec![ready(1, "a")];
    let w = vec![waiting(2, "b")];
    let t = ReadyTask::new(&r, &w, "write more tests");
    assert_eq!(t.id, 3);
    assert_eq!(t.description, "write more tests");
}

#[test]
fn wait_moves_the_task_and_back_reverses_it() {
    let r0 = vec![ready(1, "other")];
    let w0: Vec<WaitingTask> = Vec::new();
    let t = ReadyTask::new(&r0, &w0, "moving");
    assert_eq!(t.id, 2);
    let mut r1 = r0;
    sigo::store::add_task(&mut r1, ready(t.id, &t.description));
    // wait: gone from ready, present in waiting with identical id and text
    let (r2, w2) = t.wait(r1, w0);
    assert!(r2.iter().all(|x| x.id != t.id));
    assert_eq!(r2.len(), 1);
    assert_eq!(w2.len(), 1);
    assert_eq!(w2[0].id, t.id);
    assert_eq!(w2[0].description, "moving");
    // back: both stores exactly as just after the add
    let (r3, w3) = w2[0].back(r2, Vec::new());
    assert!(w3.is_empty());
    assert_eq!(r3.len(), 2);
    assert_eq!(r3[0].id, 1);
    assert_eq!(r3[0].description, "other");
    assert_eq!(r3[1].id, 2);
    assert_eq!(r3[1].description, "moving");
}

#[test]
fn complete_on_a_ready_task_moves_it_to_completed() {
    let r = vec![ready(7, "x"), ready(2, "stay")];
    let w = vec![waiting(3, "waiting")];
    let c: Vec<CompletedTask> = Vec::new();
    let task = Task::Ready(ready(7, "x"));
    let (r1, w1, c1) = task.complete(r, w, c);
    assert!(r1.iter().all(|t| t.id != 7));
    assert_eq!(r1.len(), 1);
    assert_eq!(w1.len(), 1);
    assert_eq!(c1.len(), 1);
    assert_eq!(c1[0].id, 7);
    assert_eq!(c1[0].description, "x");
}

#[test]
fn complete_on_a_waiting_task_deletes_from_waiting_not_ready() {
    let r = vec![ready(5, "untouched")];
    let w = vec![waiting(5, "the waiting one")];
    let c: Vec<CompletedTask> = Vec::new();
    let task = Task::Waiting(waiting(5, "the waiting one"));
    let (r1, w1, c1) = task.complete(r, w, c);
    assert_eq!(r1.len(), 1);
    assert_eq!(r1[0].description, "untouched");
    assert!(w1.is_empty());
    assert_eq!(c1.len(), 1);
    assert_eq!(c1[0].id, 5);
    assert_eq!(c1[0].description, "the waiting one");
}

#[test]
fn complete_on_a_completed_task_appends_a_duplicate() {
    let c = vec![completed(9, "done")];
    let task = Task::Completed(completed(9, "done"));
    let (r1, w1, c1) = task.complete(Vec::new(), Vec::new(), c);
    assert!(r1.is_empty());
    assert!(w1.is_empty());
    assert_eq!(c1.len(), 2);
    assert_eq!(c1[0].id, 9);
    assert_eq!(c1[1].id, 9);
    assert_eq!(c1[1].description, "done");
}

#[test]
fn get_by_id_prefers_ready_over_waiting_over_completed() {
    let r = vec![ready(1, "ready one")];
    let w = vec![waiting(1, "waiting one"), waiting(2, "waiting two")];
    let c = vec![completed(1, "completed one"), completed(2, "completed two"), completed(
        3,
        "completed three",
    )];
    match Task::get_by_id(&r, &w, &c, 1) {
        Some(Task::Ready(t)) => {
            assert_eq!(t.id, 1);
            assert_eq!(t.description, "ready one");
        },
        _ => panic!("expected the ready variant"),
    }
    match Task::get_by_id(&r, &w, &c, 2) {
        Some(Task::Waiting(t)) => assert_eq!(t.description, "waiting two"),
        _ => panic!("expected the waiting variant"),
    }
    match Task::get_by_id(&r, &w, &c, 3) {
        Some(Task::Completed(t)) => assert_eq!(t.description, "completed three"),
        _ => panic!("expected the completed variant"),
    }
}

#[test]
fn get_by_id_returns_none_when_no_store_holds_the_id() {
    let r = vec![ready(1, "a")];
    let w = vec![waiting(2, "b")];
    let c = vec![completed(3, "c")];
    assert!(Task::get_by_id(&r, &w, &c, 4).is_none());
}

#[test]
fn task_accessors_project_the_held_record() {
    let t = Task::Ready(ready(11, "projected"));
    assert_eq!(t.id(), 11);
    assert_eq!(t.description(), "projected");
    let t = Task::Waiting(waiting(12, "w"));
    assert_eq!(t.id(), 12);
    assert_eq!(t.description(), "w");
    let t = Task::Completed(completed(13, "c"));
    assert_eq!(t.id(), 13);
    assert_eq!(t.description(), "c");
}

#[test]
fn conversions_keep_id_and_description() {
    let r = ready(4, "swap");
    let w = WaitingTask::from_ready(&r);
    assert_eq!(w.id, 4);
    assert_eq!(w.description, "swap");
    let r2 = ReadyTask::from_waiting(&w);
    assert_eq!(r2.id, 4);
    assert_eq!(r2.description, "swap");
}
