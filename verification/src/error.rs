//! The ways in which an operation of the manager can fail.

use crate::model::common::{FragmentId, State, TableId, WorkerId};
use vstd::prelude::*;

verus! {

/// Why an operation of the fragment manager did not go through.
#[derive(Clone, Copy, Debug, PartialEq, Eq, Structural)]
pub enum MetaError {
    /// The job with this id is not in the store.
    JobNotFound(TableId),
    /// A job with this id is in the store already.
    JobExists(TableId),
    /// No job has a fragment with this id.
    FragmentNotFound(FragmentId),
    /// The job is not in the lifecycle state that the operation needs.
    IllegalState { expected: State, actual: State },
    /// The worker has no free parallel unit left to migrate an actor to.
    NoCapacity(WorkerId),
    /// The meta store did not take the write; nothing was changed.
    MetaStoreFailure,
    /// The request contradicts the stored state in a way that the caller is
    /// bound to prevent; the manager must not go on.
    ConsistencyBug,
}

} // verus!
