//! Laws of creating a job and cancelling its creation.

use crate::manager::lifecycle::{cancel_create_edits, start_create_edits};
use crate::manager::transaction::{applied, StoreView};
use crate::model::common::TableId;
use crate::model::table_fragments::TableFragmentsView;
use vstd::prelude::*;

verus! {

/// Cancelling the creation of a job twice leaves the store as cancelling it
/// once does.
pub proof fn law_cancel_create_idempotent(store: StoreView, id: TableId)
    ensures
        applied(applied(store, cancel_create_edits(id)), cancel_create_edits(id)) == applied(
            store,
            cancel_create_edits(id),
        ),
{
    let once = applied(store, cancel_create_edits(id));
    let twice = applied(once, cancel_create_edits(id));
    assert(twice =~= once);
}

/// Cancelling the creation of a job removes the job and nothing else.
pub proof fn law_cancel_create_removes(store: StoreView, id: TableId)
    ensures
        applied(store, cancel_create_edits(id)) == store.remove(id),
{
    assert(applied(store, cancel_create_edits(id)) =~= store.remove(id));
}

/// Starting the creation of a job that the store does not hold and then
/// cancelling it leaves the store as it was.
pub proof fn law_create_then_cancel_is_noop(store: StoreView, job: TableFragmentsView)
    requires
        !store.contains_key(job.table_id),
    ensures
        applied(
            applied(store, start_create_edits(job)),
            cancel_create_edits(job.table_id),
        ) == store,
{
    let created = applied(store, start_create_edits(job));
    let cancelled = applied(created, cancel_create_edits(job.table_id));
    assert(cancelled =~= store);
}

} // verus!
