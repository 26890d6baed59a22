//! The fragment manager: the store of all streaming jobs and the operations
//! on it.
//!
//! An operation that changes the store runs in two steps. The first step
//! reads the store and stages its edits, together with the messages for the
//! frontends, in a [`store::PendingCommit`]; it changes nothing. The caller
//! writes the batch of the pending commit to the meta store and hands the
//! outcome to [`store::FragmentManager::commit`], which applies the edits if
//! the write went through and drops them if it did not.

pub mod infos;
pub mod lifecycle;
pub mod migrate;
pub mod prepare;
pub mod queries;
pub mod removal;
pub mod reschedule;
pub mod splits;
pub mod store;
pub mod transaction;
