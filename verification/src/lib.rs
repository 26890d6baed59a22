//! The fragment manager of a streaming database's meta node, verified.
//!
//! The manager owns the state of all streaming jobs: the fragments of each
//! job, the actors that realise the fragments, where each actor runs, how
//! the partitions of a fragment are spread over parallel units, and which
//! source splits each actor reads. It creates, activates and drops jobs,
//! moves actors between workers and applies reschedule plans.
//!
//! Everything here is a function of plain values. The store is the map
//! that [`manager::store::FragmentManager`] holds; an operation that
//! changes it stages its edits and its messages in a
//! [`manager::store::PendingCommit`] and leaves it to the caller to write
//! the batch to the meta store, to report the outcome, and to publish the
//! messages. The contracts speak of the models of the data ([`model`]),
//! and [`laws`] states what the operations keep true of the store.

pub mod error;
pub mod laws;
pub mod manager;
pub mod model;
pub mod notification;
pub mod ord_map;
