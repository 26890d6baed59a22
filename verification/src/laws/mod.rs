//! What holds of the manager's operations, stated over the models of the
//! store and proved from the operations' contracts.

pub mod invariants;
pub mod kept;
pub mod lifecycle;
pub mod migrate;
pub mod prepare;
pub mod preserved;
pub mod removal;
pub mod reschedule;
pub mod rewired;
pub mod shrunk;
