//! The invariants of the store under the operations of the lifecycle, the
//! drop of jobs and the update of splits.

use crate::laws::invariants::{
    actors_unique, closed, consistent, covering, dispatchers_closed, every_job, has_actor,
    lemma_same_actors_has_actor, lists, targets_at,
};
use crate::model::dispatch::DispatcherPatchView;
use crate::laws::kept::{
    kept, lemma_activated_kept, lemma_kept_reflexive, lemma_kept_transitive, lemma_patched_kept,
    lemma_pruned_kept, lemma_splits_kept, lemma_state_kept, lemma_store_kept,
    lemma_store_kept_closed,
};
use crate::manager::lifecycle::{
    activated, cancel_create_edits, first_absent_dependent, mark_created_edits, post_create_edits,
    puts_of, start_create_edits, DependentsView,
};
use crate::manager::removal::drop_edits;
use crate::manager::splits::split_edits;
use crate::manager::transaction::{applied, StoreView};
use crate::model::common::{ActorId, FragmentId, State, TableId};
use crate::model::mapping::SplitsView;
use crate::model::table_fragments::TableFragmentsView;
use crate::laws::invariants::targets_within;
use vstd::prelude::*;

verus! {

/// The job lists no actor twice and no actor that a job of the store lists.
pub open spec fn joins(store: StoreView, job: TableFragmentsView) -> bool {
    &&& forall|f1: FragmentId, i1: int, f2: FragmentId, i2: int, a: ActorId|
        #[trigger] lists(job, f1, i1, a) && #[trigger] lists(job, f2, i2, a) ==> f1 == f2 && i1
            == i2
    &&& forall|f1: FragmentId, i1: int, k: TableId, f2: FragmentId, i2: int, a: ActorId|
        #[trigger] lists(job, f1, i1, a) && store.contains_key(k) && #[trigger] lists(
            store[k],
            f2,
            i2,
            a,
        ) ==> false
}

/// Starting the creation of a job keeps the store's invariants, provided
/// the new job satisfies those that speak of one job and lists only actors
/// that are new and distinct.
pub proof fn law_start_create_keeps_invariants(store: StoreView, job: TableFragmentsView)
    requires
        !store.contains_key(job.table_id),
    ensures
        actors_unique(store) && joins(store, job) ==> actors_unique(
            applied(store, start_create_edits(job)),
        ),
        forall|holds: spec_fn(TableFragmentsView) -> bool|
            every_job(store, holds) && holds(job) ==> #[trigger] every_job(
                applied(store, start_create_edits(job)),
                holds,
            ),
{
    let after = applied(store, start_create_edits(job));
    assert(after =~= store.insert(job.table_id, job));
    if actors_unique(store) && joins(store, job) {
        assert forall|
            k1: TableId,
            f1: FragmentId,
            i1: int,
            k2: TableId,
            f2: FragmentId,
            i2: int,
            a: ActorId,
        |
            after.contains_key(k1) && #[trigger] lists(after[k1], f1, i1, a) && after.contains_key(
                k2,
            ) && #[trigger] lists(after[k2], f2, i2, a) implies k1 == k2 && f1 == f2 && i1
            == i2 by {
            if k1 == job.table_id && k2 == job.table_id {
            } else if k1 == job.table_id {
                assert(lists(job, f1, i1, a) && store.contains_key(k2) && lists(
                    store[k2],
                    f2,
                    i2,
                    a,
                ));
            } else if k2 == job.table_id {
                assert(lists(job, f2, i2, a) && store.contains_key(k1) && lists(
                    store[k1],
                    f1,
                    i1,
                    a,
                ));
            } else {
                assert(lists(store[k1], f1, i1, a) && lists(store[k2], f2, i2, a));
            }
        }
    }
    assert forall|holds: spec_fn(TableFragmentsView) -> bool|
        every_job(store, holds) && holds(job) implies #[trigger] every_job(after, holds) by {
        assert forall|k: TableId| #[trigger] after.contains_key(k) implies holds(after[k]) by {
            if k != job.table_id {
                assert(store.contains_key(k));
            }
        }
    }
}

/// Cancelling the creation of a job keeps the store's invariants.
pub proof fn law_cancel_create_keeps_invariants(store: StoreView, id: TableId)
    ensures
        actors_unique(store) ==> actors_unique(applied(store, cancel_create_edits(id))),
        forall|holds: spec_fn(TableFragmentsView) -> bool|
            every_job(store, holds) ==> #[trigger] every_job(
                applied(store, cancel_create_edits(id)),
                holds,
            ),
{
    let after = applied(store, cancel_create_edits(id));
    assert(after =~= store.remove(id));
    assert forall|k: TableId| #[trigger] after.contains_key(k) implies store.contains_key(k)
        && kept(store[k], after[k]) by {
        lemma_kept_reflexive(store[k]);
    }
    lemma_store_kept(store, after);
    assert forall|holds: spec_fn(TableFragmentsView) -> bool|
        every_job(store, holds) implies #[trigger] every_job(after, holds) by {
        assert forall|k: TableId| #[trigger] after.contains_key(k) implies holds(after[k]) by {
            assert(store.contains_key(k));
        }
    }
}

/// Marking a job created keeps the store's invariants.
pub proof fn law_mark_created_keeps_invariants(store: StoreView, id: TableId)
    requires
        store.contains_key(id),
    ensures
        actors_unique(store) ==> actors_unique(applied(store, mark_created_edits(store, id))),
        every_job(store, covering()) ==> every_job(
            applied(store, mark_created_edits(store, id)),
            covering(),
        ),
        every_job(store, closed()) ==> every_job(
            applied(store, mark_created_edits(store, id)),
            closed(),
        ),
        every_job(store, consistent()) ==> every_job(
            applied(store, mark_created_edits(store, id)),
            consistent(),
        ),
{
    let after = applied(store, mark_created_edits(store, id));
    assert forall|k: TableId| #[trigger] after.contains_key(k) implies store.contains_key(k)
        && kept(store[k], after[k]) && targets_within(store[k], after[k]) by {
        if k == id {
            lemma_state_kept(store[id], State::Created);
        } else {
            lemma_kept_reflexive(store[k]);
        }
    }
    lemma_store_kept(store, after);
    if every_job(store, closed()) {
        lemma_store_kept_closed(store, after);
    }
}

/// If no dependent is absent, all are present.
pub proof fn lemma_dependents_present(store: StoreView, deps: DependentsView, from: nat)
    requires
        first_absent_dependent(store, deps, from) is None,
    ensures
        forall|i: int| from <= i < deps.len() ==> store.contains_key(#[trigger] deps[i].0),
    decreases deps.len() - from,
{
    if from < deps.len() {
        lemma_dependents_present(store, deps, from + 1);
    }
}

/// While a job is activated, every edit is a put of a kept job of the
/// store.
pub proof fn lemma_post_create_kept(
    store: StoreView,
    id: TableId,
    deps: DependentsView,
    assignment: Map<FragmentId, Map<ActorId, SplitsView>>,
    n: nat,
)
    requires
        store.contains_key(id),
        n <= deps.len(),
        forall|i: int| 0 <= i < deps.len() ==> store.contains_key(#[trigger] deps[i].0),
    ensures
        forall|k: TableId| #[trigger]
            post_create_edits(store, id, deps, assignment, n).contains_key(k)
                ==> store.contains_key(k) && post_create_edits(store, id, deps, assignment, n)[k]
                is Some && kept(
                store[k],
                post_create_edits(store, id, deps, assignment, n)[k]->Some_0,
            ),
    decreases n,
{
    let edits = post_create_edits(store, id, deps, assignment, n);
    if n == 0 {
        lemma_activated_kept(store[id], assignment);
    } else {
        let prev = post_create_edits(store, id, deps, assignment, (n - 1) as nat);
        lemma_post_create_kept(store, id, deps, assignment, (n - 1) as nat);
        let (d, patch) = deps[n - 1];
        assert(store.contains_key(deps[n - 1].0));
        let base = applied(store, prev)[d];
        assert(kept(store[d], base)) by {
            if prev.contains_key(d) {
            } else {
                lemma_kept_reflexive(store[d]);
            }
        }
        lemma_patched_kept(base, patch);
        lemma_kept_transitive(store[d], base, base.with_dispatchers_added(patch));
        assert forall|k: TableId| #[trigger] edits.contains_key(k) implies store.contains_key(k)
            && edits[k] is Some && kept(store[k], edits[k]->Some_0) by {
            if k != d {
                assert(prev.contains_key(k));
            }
        }
    }
}

/// Activating a job keeps that no actor is listed twice, that the statuses
/// cover the actors, and that the vnode mappings are consistent.
pub proof fn law_post_create_keeps_invariants(
    store: StoreView,
    id: TableId,
    deps: DependentsView,
    assignment: Map<FragmentId, Map<ActorId, SplitsView>>,
)
    requires
        store.contains_key(id),
        first_absent_dependent(store, deps, 0) is None,
    ensures
        actors_unique(store) ==> actors_unique(
            applied(store, post_create_edits(store, id, deps, assignment, deps.len())),
        ),
        every_job(store, covering()) ==> every_job(
            applied(store, post_create_edits(store, id, deps, assignment, deps.len())),
            covering(),
        ),
        every_job(store, consistent()) ==> every_job(
            applied(store, post_create_edits(store, id, deps, assignment, deps.len())),
            consistent(),
        ),
{
    let edits = post_create_edits(store, id, deps, assignment, deps.len());
    let after = applied(store, edits);
    lemma_dependents_present(store, deps, 0);
    lemma_post_create_kept(store, id, deps, assignment, deps.len());
    assert forall|k: TableId| #[trigger] after.contains_key(k) implies store.contains_key(k)
        && kept(store[k], after[k]) by {
        if edits.contains_key(k) {
        } else {
            lemma_kept_reflexive(store[k]);
        }
    }
    lemma_store_kept(store, after);
}

/// Dropping jobs keeps the store's invariants.
pub proof fn law_drop_keeps_invariants(store: StoreView, ids: Set<TableId>)
    ensures
        actors_unique(store) ==> actors_unique(applied(store, drop_edits(store, ids))),
        every_job(store, covering()) ==> every_job(
            applied(store, drop_edits(store, ids)),
            covering(),
        ),
        every_job(store, closed()) ==> every_job(applied(store, drop_edits(store, ids)), closed()),
        every_job(store, consistent()) ==> every_job(
            applied(store, drop_edits(store, ids)),
            consistent(),
        ),
{
    let edits = drop_edits(store, ids);
    let after = applied(store, edits);
    assert forall|k: TableId| #[trigger] after.contains_key(k) implies store.contains_key(k)
        && kept(store[k], after[k]) && targets_within(store[k], after[k]) by {
        if edits.contains_key(k) {
            lemma_pruned_kept(store[k], crate::manager::removal::cut_from(store, ids, k));
        } else {
            lemma_kept_reflexive(store[k]);
        }
    }
    lemma_store_kept(store, after);
    if every_job(store, closed()) {
        lemma_store_kept_closed(store, after);
    }
}

/// Taking in a split assignment keeps the store's invariants.
pub proof fn law_update_splits_keeps_invariants(
    store: StoreView,
    assignment: Map<FragmentId, Map<ActorId, SplitsView>>,
)
    ensures
        actors_unique(store) ==> actors_unique(applied(store, split_edits(store, assignment))),
        every_job(store, covering()) ==> every_job(
            applied(store, split_edits(store, assignment)),
            covering(),
        ),
        every_job(store, closed()) ==> every_job(
            applied(store, split_edits(store, assignment)),
            closed(),
        ),
        every_job(store, consistent()) ==> every_job(
            applied(store, split_edits(store, assignment)),
            consistent(),
        ),
{
    let edits = split_edits(store, assignment);
    let after = applied(store, edits);
    assert forall|k: TableId| #[trigger] after.contains_key(k) implies store.contains_key(k)
        && kept(store[k], after[k]) && targets_within(store[k], after[k]) by {
        if edits.contains_key(k) {
            lemma_splits_kept(
                store[k],
                store[k].actor_splits.union_prefer_right(store[k].assigned_splits(assignment)),
            );
        } else {
            lemma_kept_reflexive(store[k]);
        }
    }
    lemma_store_kept(store, after);
    if every_job(store, closed()) {
        lemma_store_kept_closed(store, after);
    }
}

/// Every put of a bulk replacement is one of the given jobs, under its own
/// id.
pub proof fn lemma_puts_of(jobs: Seq<TableFragmentsView>, n: nat)
    requires
        n <= jobs.len(),
    ensures
        forall|k: TableId| #[trigger]
            puts_of(jobs, n).contains_key(k) ==> exists|i: int|
                0 <= i < n && (#[trigger] jobs[i]).table_id == k && puts_of(jobs, n)[k] == Some(
                    jobs[i],
                ),
    decreases n,
{
    if n > 0 {
        lemma_puts_of(jobs, (n - 1) as nat);
        let prev = puts_of(jobs, (n - 1) as nat);
        assert forall|k: TableId| #[trigger] puts_of(jobs, n).contains_key(k) implies exists|i: int|
            0 <= i < n && (#[trigger] jobs[i]).table_id == k && puts_of(jobs, n)[k] == Some(
                jobs[i],
            ) by {
            if k == jobs[n - 1].table_id {
                assert(jobs[n - 1].table_id == k);
            } else {
                assert(prev.contains_key(k));
                let i = choose|i: int|
                    0 <= i < n - 1 && (#[trigger] jobs[i]).table_id == k && prev[k] == Some(jobs[i]);
                assert(0 <= i < n && jobs[i].table_id == k);
            }
        }
    }
}

/// Replacing stored jobs in bulk keeps that no actor is listed twice, that
/// the statuses cover the actors, and that the vnode mappings are
/// consistent, provided each given job keeps the job it replaces.
pub proof fn law_batch_update_keeps_invariants(store: StoreView, jobs: Seq<TableFragmentsView>)
    requires
        forall|i: int|
            0 <= i < jobs.len() ==> store.contains_key((#[trigger] jobs[i]).table_id) && kept(
                store[jobs[i].table_id],
                jobs[i],
            ),
    ensures
        actors_unique(store) ==> actors_unique(applied(store, puts_of(jobs, jobs.len()))),
        every_job(store, covering()) ==> every_job(
            applied(store, puts_of(jobs, jobs.len())),
            covering(),
        ),
        every_job(store, consistent()) ==> every_job(
            applied(store, puts_of(jobs, jobs.len())),
            consistent(),
        ),
{
    let edits = puts_of(jobs, jobs.len());
    let after = applied(store, edits);
    lemma_puts_of(jobs, jobs.len());
    assert forall|k: TableId| #[trigger] after.contains_key(k) implies store.contains_key(k)
        && kept(store[k], after[k]) by {
        if edits.contains_key(k) {
            let i = choose|i: int|
                0 <= i < jobs.len() && (#[trigger] jobs[i]).table_id == k && edits[k] == Some(
                    jobs[i],
                );
            assert(kept(store[jobs[i].table_id], jobs[i]));
        } else {
            lemma_kept_reflexive(store[k]);
        }
    }
    lemma_store_kept(store, after);
}

/// Replacing stored jobs in bulk keeps the dispatchers closed, provided
/// each given job keeps the job it replaces and has no dispatcher target
/// that the replaced job does not have.
pub proof fn law_batch_update_keeps_closed(store: StoreView, jobs: Seq<TableFragmentsView>)
    requires
        forall|i: int|
            0 <= i < jobs.len() ==> store.contains_key((#[trigger] jobs[i]).table_id) && kept(
                store[jobs[i].table_id],
                jobs[i],
            ) && targets_within(store[jobs[i].table_id], jobs[i]),
        every_job(store, closed()),
    ensures
        every_job(applied(store, puts_of(jobs, jobs.len())), closed()),
{
    let edits = puts_of(jobs, jobs.len());
    let after = applied(store, edits);
    lemma_puts_of(jobs, jobs.len());
    assert forall|k: TableId| #[trigger] after.contains_key(k) implies store.contains_key(k)
        && kept(store[k], after[k]) && targets_within(store[k], after[k]) by {
        if edits.contains_key(k) {
            let i = choose|i: int|
                0 <= i < jobs.len() && (#[trigger] jobs[i]).table_id == k && edits[k] == Some(
                    jobs[i],
                );
            assert(kept(store[jobs[i].table_id], jobs[i]));
        } else {
            lemma_kept_reflexive(store[k]);
        }
    }
    lemma_store_kept_closed(store, after);
}

/// The `t`-th target of the `d`-th dispatcher that `patch` brings for
/// actor `a`.
pub open spec fn patch_target(patch: DispatcherPatchView, a: ActorId, d: int, t: int) -> ActorId {
    patch[a][d].downstream_actor_id[t]
}

/// Every dispatcher that `patch` brings leads to an actor of `job`.
pub open spec fn patch_leads_into(patch: DispatcherPatchView, job: TableFragmentsView) -> bool {
    forall|a: ActorId, d: int, t: int|
        patch.contains_key(a) && 0 <= d < patch[a].len() && 0 <= t
            < patch[a][d].downstream_actor_id.len() ==> has_actor(
            job,
            #[trigger] patch_target(patch, a, d, t),
        )
}

/// Every patch of the dependents leads into the job that it is for.
pub open spec fn patches_closed(store: StoreView, deps: DependentsView) -> bool {
    forall|i: int|
        0 <= i < deps.len() ==> patch_leads_into((#[trigger] deps[i]).1, store[deps[i].0])
}

/// Appending dispatchers that lead into the job keeps the dispatchers
/// closed.
pub proof fn lemma_patched_closed(
    origin: TableFragmentsView,
    job: TableFragmentsView,
    patch: DispatcherPatchView,
)
    requires
        kept(origin, job),
        dispatchers_closed(job),
        patch_leads_into(patch, origin),
    ensures
        dispatchers_closed(job.with_dispatchers_added(patch)),
{
    let now = job.with_dispatchers_added(patch);
    lemma_patched_kept(job, patch);
    assert forall|fid: FragmentId, i: int, d: int, t: int, x: ActorId| #[trigger]
        targets_at(now, fid, i, d, t, x) implies has_actor(now, x) by {
        assert(job.fragments.contains_key(fid));
        let a0 = job.fragments[fid].actors[i];
        let a1 = now.fragments[fid].actors[i];
        if patch.contains_key(a0.actor_id) && d >= a0.dispatcher.len() {
            let dd = d - a0.dispatcher.len();
            assert(a1.dispatcher[d] == patch[a0.actor_id][dd]);
            assert(patch_target(patch, a0.actor_id, dd, t) == x);
            assert(has_actor(origin, x));
            lemma_same_actors_has_actor(origin, job, x);
        } else {
            assert(a1.dispatcher[d] == a0.dispatcher[d]);
            assert(targets_at(job, fid, i, d, t, x));
        }
        lemma_same_actors_has_actor(job, now, x);
    }
}

/// While a job is activated with patches that lead into their jobs, every
/// edit is a put of a job with closed dispatchers.
pub proof fn lemma_post_create_closed(
    store: StoreView,
    id: TableId,
    deps: DependentsView,
    assignment: Map<FragmentId, Map<ActorId, SplitsView>>,
    n: nat,
)
    requires
        store.contains_key(id),
        n <= deps.len(),
        forall|i: int| 0 <= i < deps.len() ==> store.contains_key(#[trigger] deps[i].0),
        every_job(store, closed()),
        patches_closed(store, deps),
    ensures
        forall|k: TableId| #[trigger]
            post_create_edits(store, id, deps, assignment, n).contains_key(k)
                ==> post_create_edits(store, id, deps, assignment, n)[k] is Some
                && dispatchers_closed(post_create_edits(store, id, deps, assignment, n)[k]->Some_0),
    decreases n,
{
    let edits = post_create_edits(store, id, deps, assignment, n);
    lemma_post_create_kept(store, id, deps, assignment, n);
    if n == 0 {
        lemma_activated_kept(store[id], assignment);
        assert(closed()(store[id]));
        crate::laws::invariants::lemma_closed_kept(store[id], activated(store[id], assignment));
    } else {
        let prev = post_create_edits(store, id, deps, assignment, (n - 1) as nat);
        lemma_post_create_closed(store, id, deps, assignment, (n - 1) as nat);
        lemma_post_create_kept(store, id, deps, assignment, (n - 1) as nat);
        let (d, patch) = deps[n - 1];
        assert(store.contains_key(deps[n - 1].0));
        assert(patch_leads_into(deps[n - 1].1, store[deps[n - 1].0]));
        let base = applied(store, prev)[d];
        assert(kept(store[d], base) && dispatchers_closed(base)) by {
            if prev.contains_key(d) {
            } else {
                lemma_kept_reflexive(store[d]);
                assert(closed()(store[d]));
            }
        }
        lemma_patched_closed(store[d], base, patch);
        assert forall|k: TableId| #[trigger] edits.contains_key(k) implies edits[k] is Some
            && dispatchers_closed(edits[k]->Some_0) by {
            if k != d {
                assert(prev.contains_key(k));
            }
        }
    }
}

/// Activating a job keeps the dispatchers closed, provided every
/// dispatcher that is spliced into a dependent job leads into that job.
pub proof fn law_post_create_keeps_closed(
    store: StoreView,
    id: TableId,
    deps: DependentsView,
    assignment: Map<FragmentId, Map<ActorId, SplitsView>>,
)
    requires
        store.contains_key(id),
        first_absent_dependent(store, deps, 0) is None,
        every_job(store, closed()),
        patches_closed(store, deps),
    ensures
        every_job(
            applied(store, post_create_edits(store, id, deps, assignment, deps.len())),
            closed(),
        ),
{
    let edits = post_create_edits(store, id, deps, assignment, deps.len());
    let after = applied(store, edits);
    lemma_dependents_present(store, deps, 0);
    lemma_post_create_closed(store, id, deps, assignment, deps.len());
    assert forall|k: TableId| #[trigger] after.contains_key(k) implies closed()(after[k]) by {
        if edits.contains_key(k) {
        } else {
            assert(store.contains_key(k));
            assert(closed()(store[k]));
        }
    }
}

} // verus!
