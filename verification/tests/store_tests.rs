use sigo::store::{add_task, delete_by_id, get_by_id, read_tasks, write_tasks};
use sigo::{ReadyTask, StoreError};

fn ready(id: u32, description: &str) -> ReadyTask {
    ReadyTask { id, description: description.to_owned() }
}

#[test]
fn write_then_read_returns_the_same_list() {
    let tasks = vec![
        ready(1, "buy milk"),
        ready(2, ""),
        ready(7, "multi\nline description"),
        ready(4294967295, "edge id"),
        ready(5, "unicode: žluťoučký 猫"),
    ];
    let doc = write_tasks(&tasks);
    let back: Vec<ReadyTask> = read_tasks(&doc).unwrap();
    assert_eq!(back.len(), tasks.len());
    for (a, b) in tasks.iter().zip(back.iter()) {
        assert_eq!(a.id, b.id);
        assert_eq!(a.description, b.description);
    }
}

#[test]
fn write_produces_the_exact_document() {
    assert_eq!(write_tasks(&Vec::<ReadyTask>::new()), "");
    assert_eq!(write_tasks(&vec![ready(1, "a")]), "1 1 a\n");
    assert_eq!(write_tasks(&vec![ready(10, ""), ready(2, "x y")]), "10 0 \n2 3 x y\n");
}

#[test]
fn read_of_empty_document_is_the_empty_list() {
    let tasks: Vec<ReadyTask> = read_tasks("").unwrap();
    assert!(tasks.is_empty());
}

#[test]
fn read_of_garbage_reports_corrupt_storage() {
    let r: Result<Vec<ReadyTask>, StoreError> = read_tasks("not a store file");
    assert_eq!(r.unwrap_err(), StoreError::Corrupt);
}

#[test]
fn read_rejects_truncated_and_overflowing_documents() {
    let cases = [
        "1",                     // no space after the id
        "1 ",                    // no length
        "1 2 a\n",               // length runs past the content
        "1 1 ab",                // the closing newline is missing
        "4294967296 1 a\n",      // id too large for u32
        "01x",                   // digit run ends on a letter
        "1 1 a\ntrailing",       // trailing garbage after a good record
        "-1 1 a\n",              // a sign is not a digit
        " 1 1 a\n",              // leading blank
    ];
    for case in cases {
        let r: Result<Vec<ReadyTask>, StoreError> = read_tasks(case);
        assert_eq!(r.unwrap_err(), StoreError::Corrupt, "case: {:?}", case);
    }
}

#[test]
fn read_takes_the_description_by_count_not_by_line() {
    let doc = "3 12 first\nsecond\n";
    let tasks: Vec<ReadyTask> = read_tasks(doc).unwrap();
    assert_eq!(tasks.len(), 1);
    assert_eq!(tasks[0].id, 3);
    assert_eq!(tasks[0].description, "first\nsecond");
}

#[test]
fn add_task_appends_at_the_end() {
    let mut tasks = vec![ready(1, "a")];
    add_task(&mut tasks, ready(2, "b"));
    assert_eq!(tasks.len(), 2);
    assert_eq!(tasks[1].id, 2);
    assert_eq!(tasks[1].description, "b");
}

#[test]
fn get_by_id_returns_the_first_match() {
    let tasks = vec![ready(1, "first"), ready(2, "second"), ready(1, "shadowed")];
    let hit = get_by_id(&tasks, 1).unwrap();
    assert_eq!(hit.description, "first");
    assert!(get_by_id(&tasks, 9).is_none());
}

#[test]
fn delete_by_id_removes_every_match_and_keeps_order() {
    let tasks = vec![ready(1, "a"), ready(2, "b"), ready(1, "c"), ready(3, "d")];
    let left = delete_by_id(tasks, 1);
    let ids: Vec<u32> = left.iter().map(|t| t.id).collect();
    assert_eq!(ids, vec![2, 3]);
}

#[test]
fn interrupted_write_leaves_the_original_readable() {
    // The caller publishes a new document by renaming it over the old file;
    // a crash before that point leaves the old content in place. Simulated:
    // the new document is produced but never published.
    let old_tasks = vec![ready(1, "kept")];
    let old_content = write_tasks(&old_tasks);
    let _unpublished = write_tasks(&vec![ready(2, "lost")]);
    let seen: Vec<ReadyTask> = read_tasks(&old_content).unwrap();
    assert_eq!(seen.len(), 1);
    assert_eq!(seen[0].id, 1);
    assert_eq!(seen[0].description, "kept");
}
