//! The data model of a streaming job: fragments, their actors, the status of
//! each actor and the splits assigned to it.

pub mod common;
pub mod created;
pub mod dispatch;
pub mod grouping;
pub mod mapping;
pub mod placement;
pub mod reschedule;
pub mod stream;
pub mod table_fragments;
