//! Edits of a job that keep what the store's invariants speak of.

use crate::laws::invariants::{
    actors_unique, closed, consistent, covering, every_job, lemma_closed_kept,
    lemma_consistent_kept, lemma_covering_kept, lemma_unique_kept, lists, maps_to, same_actors,
    same_placement, targets_at, targets_within,
};
use crate::manager::lifecycle::activated;
use crate::manager::transaction::StoreView;
use crate::model::common::{ActorId, FragmentId, ParallelUnitId, State, TableId};
use crate::model::dispatch::{pruned_dispatchers, DispatcherPatchView};
use crate::model::mapping::SplitsView;

use crate::model::table_fragments::TableFragmentsView;
use vstd::prelude::*;

verus! {

/// `b` lists and places its actors as `a` does and has the same vnode
/// mappings.
pub open spec fn kept(a: TableFragmentsView, b: TableFragmentsView) -> bool {
    same_actors(a, b) && same_placement(a, b)
}

/// A job keeps itself.
pub proof fn lemma_kept_reflexive(a: TableFragmentsView)
    ensures
        kept(a, a),
        targets_within(a, a),
{
    assert forall|fid: FragmentId, i: int, d: int, t: int, x: ActorId| #[trigger]
        targets_at(a, fid, i, d, t, x) implies exists|d0: int, t0: int| #[trigger]
        targets_at(a, fid, i, d0, t0, x) by {
        assert(targets_at(a, fid, i, d, t, x));
    }
}

/// Keeping composes.
pub proof fn lemma_kept_transitive(a: TableFragmentsView, b: TableFragmentsView, c: TableFragmentsView)
    requires
        kept(a, b),
        kept(b, c),
    ensures
        kept(a, c),
{
    assert forall|fid: FragmentId, i: int, x: ActorId|
        #![trigger lists(a, fid, i, x)]
        #![trigger lists(c, fid, i, x)]
        lists(a, fid, i, x) <==> lists(c, fid, i, x) by {
        assert(lists(a, fid, i, x) <==> lists(b, fid, i, x));
    }
    assert forall|x: ActorId|
        #![trigger a.actor_status.contains_key(x)]
        #![trigger c.actor_status.contains_key(x)]
        a.actor_status.contains_key(x) <==> c.actor_status.contains_key(x) by {
        assert(a.actor_status.contains_key(x) <==> b.actor_status.contains_key(x));
    }
    assert forall|fid: FragmentId, x: int, p: ParallelUnitId|
        #![trigger maps_to(a, fid, x, p)]
        #![trigger maps_to(c, fid, x, p)]
        maps_to(a, fid, x, p) <==> maps_to(c, fid, x, p) by {
        assert(maps_to(a, fid, x, p) <==> maps_to(b, fid, x, p));
    }
    assert forall|x: ActorId|
        #![trigger a.actor_status[x]]
        #![trigger c.actor_status[x]]
        a.actor_status.contains_key(x) implies a.actor_status[x].parallel_unit
        == c.actor_status[x].parallel_unit by {
        assert(b.actor_status.contains_key(x));
        assert(a.actor_status[x].parallel_unit == b.actor_status[x].parallel_unit);
        assert(b.actor_status[x].parallel_unit == c.actor_status[x].parallel_unit);
    }
}

/// Setting every actor running and replacing the actor splits keeps the
/// job.
pub proof fn lemma_activated_kept(
    job: TableFragmentsView,
    assignment: Map<FragmentId, Map<ActorId, SplitsView>>,
)
    ensures
        kept(job, activated(job, assignment)),
        targets_within(job, activated(job, assignment)),
{
    let now = activated(job, assignment);
    assert(now.fragments == job.fragments);
    assert forall|fid: FragmentId, i: int, d: int, t: int, x: ActorId| #[trigger]
        targets_at(now, fid, i, d, t, x) implies exists|d0: int, t0: int| #[trigger]
        targets_at(job, fid, i, d0, t0, x) by {
        assert(targets_at(job, fid, i, d, t, x));
    }
}

/// Changing the lifecycle state of a job keeps the job.
pub proof fn lemma_state_kept(job: TableFragmentsView, state: State)
    ensures
        kept(job, TableFragmentsView { state, ..job }),
        targets_within(job, TableFragmentsView { state, ..job }),
{
    let now = TableFragmentsView { state, ..job };
    assert forall|fid: FragmentId, i: int, d: int, t: int, x: ActorId| #[trigger]
        targets_at(now, fid, i, d, t, x) implies exists|d0: int, t0: int| #[trigger]
        targets_at(job, fid, i, d0, t0, x) by {
        assert(targets_at(job, fid, i, d, t, x));
    }
}

/// Replacing the actor splits of a job keeps the job.
pub proof fn lemma_splits_kept(job: TableFragmentsView, splits: Map<ActorId, SplitsView>)
    ensures
        kept(job, job.with_actor_splits(splits)),
        targets_within(job, job.with_actor_splits(splits)),
{
    let now = job.with_actor_splits(splits);
    assert forall|fid: FragmentId, i: int, d: int, t: int, x: ActorId| #[trigger]
        targets_at(now, fid, i, d, t, x) implies exists|d0: int, t0: int| #[trigger]
        targets_at(job, fid, i, d0, t0, x) by {
        assert(targets_at(job, fid, i, d, t, x));
    }
}

/// Appending dispatchers to the actors of a job keeps the job.
pub proof fn lemma_patched_kept(job: TableFragmentsView, patch: DispatcherPatchView)
    ensures
        kept(job, job.with_dispatchers_added(patch)),
{
    let now = job.with_dispatchers_added(patch);
    assert(now.fragments.dom() =~= job.fragments.dom());
    assert forall|fid: FragmentId, i: int, x: ActorId|
        #![trigger lists(job, fid, i, x)]
        #![trigger lists(now, fid, i, x)]
        lists(job, fid, i, x) <==> lists(now, fid, i, x) by {
        if job.fragments.contains_key(fid) {
            assert(now.fragments[fid].actors.len() == job.fragments[fid].actors.len());
        }
    }
    assert forall|fid: FragmentId, x: int, p: ParallelUnitId|
        #![trigger maps_to(job, fid, x, p)]
        #![trigger maps_to(now, fid, x, p)]
        maps_to(job, fid, x, p) <==> maps_to(now, fid, x, p) by {
        if job.fragments.contains_key(fid) {
            assert(now.fragments[fid].vnode_mapping == job.fragments[fid].vnode_mapping);
        }
    }
}

/// Cutting targets from the dispatchers of the sink fragments of a job
/// keeps the job and adds no target.
pub proof fn lemma_pruned_kept(job: TableFragmentsView, gone: Set<ActorId>)
    ensures
        kept(job, job.with_sink_targets_cut(gone)),
        targets_within(job, job.with_sink_targets_cut(gone)),
{
    let now = job.with_sink_targets_cut(gone);
    assert(now.fragments.dom() =~= job.fragments.dom());
    assert forall|fid: FragmentId, i: int, x: ActorId|
        #![trigger lists(job, fid, i, x)]
        #![trigger lists(now, fid, i, x)]
        lists(job, fid, i, x) <==> lists(now, fid, i, x) by {
        if job.fragments.contains_key(fid) {
            assert(now.fragments[fid].actors.len() == job.fragments[fid].actors.len());
        }
    }
    assert forall|fid: FragmentId, x: int, p: ParallelUnitId|
        #![trigger maps_to(job, fid, x, p)]
        #![trigger maps_to(now, fid, x, p)]
        maps_to(job, fid, x, p) <==> maps_to(now, fid, x, p) by {
        if job.fragments.contains_key(fid) {
            assert(now.fragments[fid].vnode_mapping == job.fragments[fid].vnode_mapping);
        }
    }
    assert forall|fid: FragmentId, i: int, d: int, t: int, x: ActorId| #[trigger]
        targets_at(now, fid, i, d, t, x) implies exists|d0: int, t0: int| #[trigger]
        targets_at(job, fid, i, d0, t0, x) by {
        let f0 = job.fragments[fid];
        if f0.fragment_type == crate::model::common::FragmentType::Sink {
            let ds = f0.actors[i].dispatcher;
            assert(now.fragments[fid].actors[i].dispatcher == pruned_dispatchers(ds, gone));
            crate::laws::removal::lemma_pruned_target(ds, gone, d, t);
            let (d0, t0) = choose|d0: int, t0: int|
                0 <= d0 < ds.len() && 0 <= t0 < ds[d0].downstream_actor_id.len()
                    && #[trigger] ds[d0].downstream_actor_id[t0] == x;
            assert(targets_at(job, fid, i, d0, t0, x));
        } else {
            assert(targets_at(job, fid, i, d, t, x));
        }
    }
}

/// A store whose jobs are kept jobs of a store keeps what held of that
/// store: no actor is listed twice, the statuses cover the actors, and the
/// vnode mappings are consistent.
pub proof fn lemma_store_kept(before: StoreView, after: StoreView)
    requires
        forall|k: TableId| #[trigger]
            after.contains_key(k) ==> before.contains_key(k) && kept(before[k], after[k]),
    ensures
        actors_unique(before) ==> actors_unique(after),
        every_job(before, covering()) ==> every_job(after, covering()),
        every_job(before, consistent()) ==> every_job(after, consistent()),
{
    if actors_unique(before) {
        lemma_unique_kept(before, after);
    }
    if every_job(before, covering()) {
        assert forall|k: TableId| #[trigger] after.contains_key(k) implies covering()(after[k]) by {
            assert(before.contains_key(k));
            assert(covering()(before[k]));
            lemma_covering_kept(before[k], after[k]);
        }
    }
    if every_job(before, consistent()) {
        assert forall|k: TableId| #[trigger] after.contains_key(k) implies consistent()(
            after[k],
        ) by {
            assert(before.contains_key(k));
            assert(consistent()(before[k]));
            lemma_consistent_kept(before[k], after[k]);
        }
    }
}

/// A store whose jobs are kept jobs of a store, none with a new dispatcher
/// target, keeps closed dispatchers.
pub proof fn lemma_store_kept_closed(before: StoreView, after: StoreView)
    requires
        forall|k: TableId| #[trigger]
            after.contains_key(k) ==> before.contains_key(k) && kept(before[k], after[k])
                && targets_within(before[k], after[k]),
        every_job(before, closed()),
    ensures
        every_job(after, closed()),
{
    assert forall|k: TableId| #[trigger] after.contains_key(k) implies closed()(after[k]) by {
        assert(before.contains_key(k));
        assert(closed()(before[k]));
        lemma_closed_kept(before[k], after[k]);
    }
}

} // verus!
