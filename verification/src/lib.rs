//! A small task tracker: records move between three stores (ready, waiting,
//! completed), each persisted as one encoded text document. This crate holds
//! the verified core — the encoding of a record list, the store operations,
//! id issuance and the lifecycle transitions — as pure functions over plain
//! values; reading and writing the files themselves is left to the caller.

pub mod codec;
pub mod record;
pub mod store;
pub mod task;

pub use record::CompletedTask;
pub use record::ReadyTask;
pub use record::StoreError;
pub use record::WaitingTask;
pub use task::Task;
