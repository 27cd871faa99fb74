//! The lifecycle coordinator: one tagged union over the three task kinds,
//! lookup across the three stores with a fixed precedence, the transitions
//! into the completed store, and id issuance over ready and waiting tasks.

use crate::record::CompletedTask;
use crate::record::ReadyTask;
use crate::record::RecModel;
use crate::record::WaitingTask;
use crate::store;
use crate::store::remove_id;
use crate::store::spec_find;
use vstd::prelude::*;

verus! {

/// A task in whichever lifecycle state it currently holds.
#[derive(Debug)]
pub enum Task {
    Ready(ReadyTask),
    Waiting(WaitingTask),
    Completed(CompletedTask),
}

/// The model of a task: its state and its record.
pub enum TaskModel {
    Ready(RecModel),
    Waiting(RecModel),
    Completed(RecModel),
}

impl TaskModel {
    /// The record under whichever state tag is held.
    pub open spec fn rec(self) -> RecModel {
        match self {
            TaskModel::Ready(m) => m,
            TaskModel::Waiting(m) => m,
            TaskModel::Completed(m) => m,
        }
    }
}

impl View for Task {
    type V = TaskModel;

    open spec fn view(&self) -> TaskModel {
        match self {
            Task::Ready(t) => TaskModel::Ready(t@),
            Task::Waiting(t) => TaskModel::Waiting(t@),
            Task::Completed(t) => TaskModel::Completed(t@),
        }
    }
}

impl DeepView for Task {
    type V = TaskModel;

    open spec fn deep_view(&self) -> TaskModel {
        self@
    }
}

/// Does some ready or waiting task carry this id?
pub open spec fn id_used(r: Seq<RecModel>, w: Seq<RecModel>, id: u32) -> bool {
    (exists|k: int| 0 <= k < r.len() && #[trigger] r[k].id == id) || (exists|k: int|
        0 <= k < w.len() && #[trigger] w[k].id == id)
}

impl Task {
    /// The id of the task, whichever state it is in.
    pub fn id(&self) -> (r: u32)
        ensures
            r == self@.rec().id,
    {
        match self {
            Task::Ready(task) => task.id,
            Task::Waiting(task) => task.id,
            Task::Completed(task) => task.id,
        }
    }

    /// The description of the task, whichever state it is in.
    pub fn description(&self) -> (r: String)
        ensures
            r@ == self@.rec().description,
    {
        match self {
            Task::Ready(task) => task.description.clone(),
            Task::Waiting(task) => task.description.clone(),
            Task::Completed(task) => task.description.clone(),
        }
    }

    /// Lookup across the three stores: Ready is probed first, then Waiting,
    /// then Completed, so a ready match shadows the other stores.
    pub open spec fn spec_get_by_id(
        r: Seq<RecModel>,
        w: Seq<RecModel>,
        c: Seq<RecModel>,
        id: u32,
    ) -> Option<TaskModel> {
        if spec_find(r, id) is Some {
            Some(TaskModel::Ready(spec_find(r, id)->Some_0))
        } else if spec_find(w, id) is Some {
            Some(TaskModel::Waiting(spec_find(w, id)->Some_0))
        } else if spec_find(c, id) is Some {
            Some(TaskModel::Completed(spec_find(c, id)->Some_0))
        } else {
            None
        }
    }

    /// The task with the given id, probing Ready, then Waiting, then
    /// Completed; None exactly when no store holds the id.
    pub fn get_by_id(
        ready: &Vec<ReadyTask>,
        waiting: &Vec<WaitingTask>,
        completed: &Vec<CompletedTask>,
        id: u32,
    ) -> (r: Option<Task>)
        ensures
            (match r {
                Some(t) => Self::spec_get_by_id(
                    ready.deep_view(),
                    waiting.deep_view(),
                    completed.deep_view(),
                    id,
                ) == Some(t@),
                None => Self::spec_get_by_id(
                    ready.deep_view(),
                    waiting.deep_view(),
                    completed.deep_view(),
                    id,
                ) is None,
            }),
    {
        if let Some(task) = store::get_by_id(ready, id) {
            return Some(Task::Ready(task));
        }
        if let Some(task) = store::get_by_id(waiting, id) {
            return Some(Task::Waiting(task));
        }
        if let Some(task) = store::get_by_id(completed, id) {
            return Some(Task::Completed(task));
        }
        None
    }

    /// The transition to Completed. The record leaves the store its state
    /// names — a ready task leaves Ready, a waiting task leaves Waiting — and
    /// a completed copy of it is appended to the Completed store. Completing
    /// an already completed task appends a duplicate; nothing guards that.
    pub fn complete(
        &self,
        ready: Vec<ReadyTask>,
        waiting: Vec<WaitingTask>,
        completed: Vec<CompletedTask>,
    ) -> (r: (Vec<ReadyTask>, Vec<WaitingTask>, Vec<CompletedTask>))
        ensures
            r.2.deep_view() == completed.deep_view().push(self@.rec()),
            self@ is Ready ==> r.0.deep_view() == remove_id(ready.deep_view(), self@.rec().id)
                && r.1 == waiting,
            self@ is Waiting ==> r.1.deep_view() == remove_id(
                waiting.deep_view(),
                self@.rec().id,
            ) && r.0 == ready,
            self@ is Completed ==> r.0 == ready && r.1 == waiting,
    {
        let mut completed = completed;
        match self {
            Task::Ready(task) => {
                let new_ready = store::delete_by_id(ready, task.id);
                let done = CompletedTask { id: task.id, description: task.description.clone() };
                store::add_task(&mut completed, done);
                (new_ready, waiting, completed)
            },
            Task::Waiting(task) => {
                let new_waiting = store::delete_by_id(waiting, task.id);
                let done = CompletedTask { id: task.id, description: task.description.clone() };
                store::add_task(&mut completed, done);
                (ready, new_waiting, completed)
            },
            Task::Completed(task) => {
                let done = CompletedTask { id: task.id, description: task.description.clone() };
                store::add_task(&mut completed, done);
                (ready, waiting, completed)
            },
        }
    }

    /// The smallest positive id that no ready or waiting task carries.
    pub fn issue_task_id(ready: &Vec<ReadyTask>, waiting: &Vec<WaitingTask>) -> (r: u32)
        requires
            ready@.len() + waiting@.len() < u32::MAX,
        ensures
            1 <= r,
            !id_used(ready.deep_view(), waiting.deep_view(), r),
            forall|j: u32| 1 <= j < r ==> id_used(ready.deep_view(), waiting.deep_view(), j),
    {
        let ghost rs = ready.deep_view();
        let ghost ws = waiting.deep_view();
        let mut i: u32 = 1;
        loop
            invariant
                1 <= i,
                rs == ready.deep_view(),
                ws == waiting.deep_view(),
                rs.len() == ready@.len(),
                ws.len() == waiting@.len(),
                rs.len() + ws.len() < u32::MAX,
                i <= rs.len() + ws.len() + 1,
                forall|j: u32| 1 <= j < i ==> id_used(rs, ws, j),
            decreases rs.len() + ws.len() + 1 - i,
        {
            let in_ready = contains_id(ready, i);
            let in_waiting = contains_id(waiting, i);
            if !in_ready && !in_waiting {
                return i;
            }
            proof {
                assert(id_used(rs, ws, i));
                lemma_used_ids_bound(rs, ws, i);
            }
            i = i + 1;
        }
    }
}

/// Does any record in the list carry this id?
fn contains_id<R: crate::record::Record>(tasks: &Vec<R>, id: u32) -> (b: bool)
    ensures
        b == (exists|k: int|
            0 <= k < tasks.deep_view().len() && #[trigger] tasks.deep_view()[k].id == id),
{
    let ghost l = tasks.deep_view();
    let mut k: usize = 0;
    while k < tasks.len()
        invariant
            k <= tasks.len(),
            l == tasks.deep_view(),
            l.len() == tasks@.len(),
            forall|m: int| 0 <= m < k ==> #[trigger] l[m].id != id,
        decreases tasks.len() - k,
    {
        if tasks[k].record_id() == id {
            proof {
                assert(l[k as int].id == id);
            }
            return true;
        }
        k = k + 1;
    }
    false
}

/// The ids 1..=m form a set of exactly m elements.
proof fn lemma_id_range_len(m: u32)
    ensures
        Set::new(|j: u32| 1 <= j && j <= m).finite(),
        Set::new(|j: u32| 1 <= j && j <= m).len() == m,
    decreases m,
{
    broadcast use vstd::set::group_set_axioms;

    let s = Set::new(|j: u32| 1 <= j && j <= m);
    if m == 0 {
        assert(s =~= Set::<u32>::empty());
    } else {
        let prev = (m - 1) as u32;
        lemma_id_range_len(prev);
        let p = Set::new(|j: u32| 1 <= j && j <= prev);
        assert(!p.contains(m));
        assert(s =~= p.insert(m));
    }
}

/// Pigeonhole for id issuance: where every id in 1..=m is in use, the two
/// stores hold at least m records between them.
proof fn lemma_used_ids_bound(r: Seq<RecModel>, w: Seq<RecModel>, m: u32)
    requires
        forall|j: u32| 1 <= j <= m ==> id_used(r, w, j),
    ensures
        m <= r.len() + w.len(),
{
    broadcast use vstd::set::group_set_axioms;
    broadcast use vstd::seq_lib::seq_to_set_is_finite;

    let ids = r.map_values(|x: RecModel| x.id) + w.map_values(|x: RecModel| x.id);
    assert(ids.len() == r.len() + w.len());
    let range = Set::new(|j: u32| 1 <= j && j <= m);
    lemma_id_range_len(m);
    assert forall|j: u32| range.contains(j) implies ids.to_set().contains(j) by {
        assert(id_used(r, w, j));
        if exists|k: int| 0 <= k < r.len() && #[trigger] r[k].id == j {
            let k = choose|k: int| 0 <= k < r.len() && #[trigger] r[k].id == j;
            assert(ids[k] == j);
            assert(ids.contains(j));
        } else {
            let k = choose|k: int| 0 <= k < w.len() && #[trigger] w[k].id == j;
            assert(ids[r.len() + k] == j);
            assert(ids.contains(j));
        }
    }
    assert(range.subset_of(ids.to_set()));
    vstd::set_lib::lemma_len_subset(range, ids.to_set());
    ids.lemma_cardinality_of_set();
}

/// Lookup precedence across the stores: a ready match wins over any waiting
/// or completed record with the same id, and the lookup is None exactly when
/// no store holds the id.
pub proof fn lemma_get_by_id_precedence(
    r: Seq<RecModel>,
    w: Seq<RecModel>,
    c: Seq<RecModel>,
    id: u32,
)
    ensures
        spec_find(r, id) is Some ==> Task::spec_get_by_id(r, w, c, id) == Some(
            TaskModel::Ready(spec_find(r, id)->Some_0),
        ),
        (spec_find(r, id) is None && spec_find(w, id) is None && spec_find(c, id) is None)
            <==> Task::spec_get_by_id(r, w, c, id) is None,
{
}

/// Moving a task to waiting and back restores both stores exactly. For a task
/// whose id is fresh — as issue_task_id guarantees for ready and waiting —
/// adding it to ready and calling wait leaves ready as it was and appends the
/// unchanged record to waiting; calling back then undoes that in turn.
pub proof fn lemma_wait_back_round_trip(r: Seq<RecModel>, w: Seq<RecModel>, t: RecModel)
    requires
        forall|k: int| 0 <= k < r.len() ==> #[trigger] r[k].id != t.id,
        forall|k: int| 0 <= k < w.len() ==> #[trigger] w[k].id != t.id,
    ensures
        remove_id(r.push(t), t.id) == r,
        w.push(t)[w.len() as int] == t,
        remove_id(w.push(t), t.id) == w,
{
    assert(r.push(t).drop_last() =~= r);
    assert(r.push(t).last() == t);
    store::lemma_remove_id_noop(r, t.id);
    assert(w.push(t).drop_last() =~= w);
    assert(w.push(t).last() == t);
    store::lemma_remove_id_noop(w, t.id);
}

impl ReadyTask {
    /// A fresh ready task: the smallest unused positive id, the given
    /// description. The caller persists it separately with add_task.
    pub fn new(ready: &Vec<ReadyTask>, waiting: &Vec<WaitingTask>, description: &str) -> (r: Self)
        requires
            ready@.len() + waiting@.len() < u32::MAX,
        ensures
            1 <= r@.id,
            !id_used(ready.deep_view(), waiting.deep_view(), r@.id),
            forall|j: u32| 1 <= j < r@.id ==> id_used(ready.deep_view(), waiting.deep_view(), j),
            r@.description == description@,
    {
        let id = Task::issue_task_id(ready, waiting);
        Self { id, description: description.to_owned() }
    }

    /// The transition Ready -> Waiting: the id leaves the ready store and an
    /// equivalent record is appended to the waiting store.
    pub fn wait(&self, ready: Vec<ReadyTask>, waiting: Vec<WaitingTask>) -> (r: (
        Vec<ReadyTask>,
        Vec<WaitingTask>,
    ))
        ensures
            r.0.deep_view() == remove_id(ready.deep_view(), self.id),
            r.1.deep_view() == waiting.deep_view().push(self@),
    {
        let new_ready = store::delete_by_id(ready, self.id);
        let mut new_waiting = waiting;
        store::add_task(&mut new_waiting, WaitingTask::from_ready(self));
        (new_ready, new_waiting)
    }
}

impl WaitingTask {
    /// The transition Waiting -> Ready: the id leaves the waiting store and an
    /// equivalent record is appended to the ready store.
    pub fn back(&self, ready: Vec<ReadyTask>, waiting: Vec<WaitingTask>) -> (r: (
        Vec<ReadyTask>,
        Vec<WaitingTask>,
    ))
        ensures
            r.1.deep_view() == remove_id(waiting.deep_view(), self.id),
            r.0.deep_view() == ready.deep_view().push(self@),
    {
        let new_waiting = store::delete_by_id(waiting, self.id);
        let mut new_ready = ready;
        store::add_task(&mut new_ready, ReadyTask::from_waiting(self));
        (new_ready, new_waiting)
    }
}

} // verus!
