use vstd::prelude::*;

verus! {

/// Mathematical model of one task record: an id and the characters of its
/// description.
pub struct RecModel {
    pub id: u32,
    pub description: Seq<char>,
}

/// How reading a store can fail: the backing file could not be reached, or its
/// content is not a valid encoding of a record list.
#[derive(Clone, Copy, Debug, PartialEq, Eq, Structural)]
pub enum StoreError {
    Unavailable,
    Corrupt,
}

/// A task that is ready to be worked on.
#[derive(Debug, Clone)]
pub struct ReadyTask {
    pub id: u32,
    pub description: String,
}

/// A task that waits on something else before it can be worked on.
#[derive(Debug, Clone)]
pub struct WaitingTask {
    pub id: u32,
    pub description: String,
}

/// A task that was finished; completed records are never removed.
#[derive(Debug, Clone)]
pub struct CompletedTask {
    pub id: u32,
    pub description: String,
}

impl View for ReadyTask {
    type V = RecModel;

    open spec fn view(&self) -> RecModel {
        RecModel { id: self.id, description: self.description@ }
    }
}

impl DeepView for ReadyTask {
    type V = RecModel;

    open spec fn deep_view(&self) -> RecModel {
        self@
    }
}

impl View for WaitingTask {
    type V = RecModel;

    open spec fn view(&self) -> RecModel {
        RecModel { id: self.id, description: self.description@ }
    }
}

impl DeepView for WaitingTask {
    type V = RecModel;

    open spec fn deep_view(&self) -> RecModel {
        self@
    }
}

impl View for CompletedTask {
    type V = RecModel;

    open spec fn view(&self) -> RecModel {
        RecModel { id: self.id, description: self.description@ }
    }
}

impl DeepView for CompletedTask {
    type V = RecModel;

    open spec fn deep_view(&self) -> RecModel {
        self@
    }
}

/// One kind of stored record. The three stores hold records of the same shape;
/// this trait lets one store implementation serve all three kinds.
pub trait Record: DeepView<V = RecModel> + Sized {
    fn record_id(&self) -> (r: u32)
        ensures
            r == self.deep_view().id,
    ;

    fn record_description(&self) -> (r: &str)
        ensures
            r@ == self.deep_view().description,
    ;

    fn record_new(id: u32, description: String) -> (r: Self)
        ensures
            r.deep_view() == (RecModel { id, description: description@ }),
    ;
}

/// Record kinds that may leave their store again: ready and waiting tasks are
/// deleted as part of a transition. Completed records are permanent, so the
/// completed kind does not implement this and no delete can touch its store.
pub trait Removable: Record {

}

impl Removable for ReadyTask {

}

impl Removable for WaitingTask {

}

impl Record for ReadyTask {
    fn record_id(&self) -> (r: u32) {
        self.id
    }

    fn record_description(&self) -> (r: &str) {
        self.description.as_str()
    }

    fn record_new(id: u32, description: String) -> (r: Self) {
        ReadyTask { id, description }
    }
}

impl Record for WaitingTask {
    fn record_id(&self) -> (r: u32) {
        self.id
    }

    fn record_description(&self) -> (r: &str) {
        self.description.as_str()
    }

    fn record_new(id: u32, description: String) -> (r: Self) {
        WaitingTask { id, description }
    }
}

impl Record for CompletedTask {
    fn record_id(&self) -> (r: u32) {
        self.id
    }

    fn record_description(&self) -> (r: &str) {
        self.description.as_str()
    }

    fn record_new(id: u32, description: String) -> (r: Self) {
        CompletedTask { id, description }
    }
}

impl ReadyTask {
    /// The ready record a waiting task turns back into: same id, same description.
    pub fn from_waiting(waiting_task: &WaitingTask) -> (r: Self)
        ensures
            r@ == waiting_task@,
    {
        ReadyTask { id: waiting_task.id, description: waiting_task.description.clone() }
    }
}

impl WaitingTask {
    /// The waiting record a ready task turns into: same id, same description.
    pub fn from_ready(ready_task: &ReadyTask) -> (r: Self)
        ensures
            r@ == ready_task@,
    {
        WaitingTask { id: ready_task.id, description: ready_task.description.clone() }
    }
}

} // verus!
