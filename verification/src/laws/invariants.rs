//! What a store of jobs is expected to satisfy, and the relations between a
//! job before and after an operation from which the operations' laws
//! follow.

use crate::manager::transaction::StoreView;
use crate::model::common::{ActorId, FragmentId, ParallelUnitId, TableId};
use crate::model::table_fragments::TableFragmentsView;
use vstd::prelude::*;

verus! {

/// Fragment `fid` of `job` lists actor `a` at position `i`.
pub open spec fn lists(job: TableFragmentsView, fid: FragmentId, i: int, a: ActorId) -> bool {
    &&& job.fragments.contains_key(fid)
    &&& 0 <= i < job.fragments[fid].actors.len()
    &&& job.fragments[fid].actors[i].actor_id == a
}

/// Some fragment of `job` lists actor `a`.
pub open spec fn has_actor(job: TableFragmentsView, a: ActorId) -> bool {
    exists|fid: FragmentId, i: int| lists(job, fid, i, a)
}

/// In `job`, dispatcher `d` of the `i`-th actor of fragment `fid` has actor
/// `a` as its `t`-th target.
pub open spec fn targets_at(
    job: TableFragmentsView,
    fid: FragmentId,
    i: int,
    d: int,
    t: int,
    a: ActorId,
) -> bool {
    &&& job.fragments.contains_key(fid)
    &&& 0 <= i < job.fragments[fid].actors.len()
    &&& 0 <= d < job.fragments[fid].actors[i].dispatcher.len()
    &&& 0 <= t < job.fragments[fid].actors[i].dispatcher[d].downstream_actor_id.len()
    &&& job.fragments[fid].actors[i].dispatcher[d].downstream_actor_id[t] == a
}

/// Some actor that fragment `fid` of `job` lists is placed on the parallel
/// unit `p`.
pub open spec fn serves(job: TableFragmentsView, fid: FragmentId, p: ParallelUnitId) -> bool {
    exists|i: int, a: ActorId|
        #[trigger] lists(job, fid, i, a) && job.actor_status.contains_key(a)
            && job.actor_status[a].parallel_unit is Some
            && job.actor_status[a].parallel_unit->Some_0.id == p
}

/// The vnode mapping of fragment `fid` of `job` names the parallel unit `p`
/// at position `x`.
pub open spec fn maps_to(job: TableFragmentsView, fid: FragmentId, x: int, p: ParallelUnitId) -> bool {
    &&& job.fragments.contains_key(fid)
    &&& job.fragments[fid].vnode_mapping is Some
    &&& 0 <= x < job.fragments[fid].vnode_mapping->Some_0.data.len()
    &&& job.fragments[fid].vnode_mapping->Some_0.data[x] == p
}

/// No actor is listed twice: not in two jobs, not in two fragments of a
/// job, not at two positions of a fragment.
pub open spec fn actors_unique(store: StoreView) -> bool {
    forall|k1: TableId, f1: FragmentId, i1: int, k2: TableId, f2: FragmentId, i2: int, a: ActorId|
        store.contains_key(k1) && #[trigger] lists(store[k1], f1, i1, a) && store.contains_key(k2)
            && #[trigger] lists(store[k2], f2, i2, a) ==> k1 == k2 && f1 == f2 && i1 == i2
}

/// The job has a status for exactly the actors that its fragments list.
pub open spec fn status_covers(job: TableFragmentsView) -> bool {
    forall|a: ActorId| #[trigger] job.actor_status.contains_key(a) <==> has_actor(job, a)
}

/// Every target of a dispatcher of the job is an actor of the job.
pub open spec fn dispatchers_closed(job: TableFragmentsView) -> bool {
    forall|fid: FragmentId, i: int, d: int, t: int, a: ActorId| #[trigger]
        targets_at(job, fid, i, d, t, a) ==> has_actor(job, a)
}

/// Every parallel unit that a vnode mapping of the job names serves an
/// actor of the mapping's fragment.
pub open spec fn mappings_consistent(job: TableFragmentsView) -> bool {
    forall|fid: FragmentId, x: int, p: ParallelUnitId| #[trigger]
        maps_to(job, fid, x, p) ==> serves(job, fid, p)
}

/// Every job of the store satisfies `holds`.
pub open spec fn every_job(store: StoreView, holds: spec_fn(TableFragmentsView) -> bool) -> bool {
    forall|k: TableId| #[trigger] store.contains_key(k) ==> holds(store[k])
}

/// The predicate [`status_covers`].
pub open spec fn covering() -> spec_fn(TableFragmentsView) -> bool {
    |job: TableFragmentsView| status_covers(job)
}

/// The predicate [`dispatchers_closed`].
pub open spec fn closed() -> spec_fn(TableFragmentsView) -> bool {
    |job: TableFragmentsView| dispatchers_closed(job)
}

/// The predicate [`mappings_consistent`].
pub open spec fn consistent() -> spec_fn(TableFragmentsView) -> bool {
    |job: TableFragmentsView| mappings_consistent(job)
}

/// The two jobs list the same actors at the same places and have statuses
/// for the same actors.
pub open spec fn same_actors(a: TableFragmentsView, b: TableFragmentsView) -> bool {
    &&& forall|fid: FragmentId, i: int, x: ActorId|
        #![trigger lists(a, fid, i, x)]
        #![trigger lists(b, fid, i, x)]
        lists(a, fid, i, x) <==> lists(b, fid, i, x)
    &&& forall|x: ActorId|
        #![trigger a.actor_status.contains_key(x)]
        #![trigger b.actor_status.contains_key(x)]
        a.actor_status.contains_key(x) <==> b.actor_status.contains_key(x)
}

/// Every dispatcher target of `b` is one of `a`, at the same fragment and
/// actor.
pub open spec fn targets_within(a: TableFragmentsView, b: TableFragmentsView) -> bool {
    forall|fid: FragmentId, i: int, d: int, t: int, x: ActorId| #[trigger]
        targets_at(b, fid, i, d, t, x) ==> exists|d0: int, t0: int|
            #[trigger] targets_at(a, fid, i, d0, t0, x)
}

/// The two jobs have the same vnode mappings and place every actor on the
/// same parallel unit.
pub open spec fn same_placement(a: TableFragmentsView, b: TableFragmentsView) -> bool {
    &&& forall|fid: FragmentId, x: int, p: ParallelUnitId|
        #![trigger maps_to(a, fid, x, p)]
        #![trigger maps_to(b, fid, x, p)]
        maps_to(a, fid, x, p) <==> maps_to(b, fid, x, p)
    &&& forall|x: ActorId|
        #![trigger a.actor_status[x]]
        #![trigger b.actor_status[x]]
        a.actor_status.contains_key(x) ==> a.actor_status[x].parallel_unit
            == b.actor_status[x].parallel_unit
}

/// Jobs that list the same actors have the same actors.
pub proof fn lemma_same_actors_has_actor(a: TableFragmentsView, b: TableFragmentsView, x: ActorId)
    requires
        same_actors(a, b),
    ensures
        has_actor(a, x) <==> has_actor(b, x),
{
    if has_actor(a, x) {
        let (fid, i) = choose|fid: FragmentId, i: int| lists(a, fid, i, x);
        assert(lists(b, fid, i, x));
    }
    if has_actor(b, x) {
        let (fid, i) = choose|fid: FragmentId, i: int| lists(b, fid, i, x);
        assert(lists(a, fid, i, x));
    }
}

/// A job that lists the same actors as one whose statuses cover its actors
/// has statuses that cover its actors.
pub proof fn lemma_covering_kept(a: TableFragmentsView, b: TableFragmentsView)
    requires
        same_actors(a, b),
        status_covers(a),
    ensures
        status_covers(b),
{
    assert forall|x: ActorId| #[trigger] b.actor_status.contains_key(x) <==> has_actor(b, x) by {
        lemma_same_actors_has_actor(a, b, x);
        assert(a.actor_status.contains_key(x) <==> has_actor(a, x));
    }
}

/// A job whose dispatcher targets are among those of a job with closed
/// dispatchers, and which lists the same actors, has closed dispatchers.
pub proof fn lemma_closed_kept(a: TableFragmentsView, b: TableFragmentsView)
    requires
        same_actors(a, b),
        targets_within(a, b),
        dispatchers_closed(a),
    ensures
        dispatchers_closed(b),
{
    assert forall|fid: FragmentId, i: int, d: int, t: int, x: ActorId| #[trigger]
        targets_at(b, fid, i, d, t, x) implies has_actor(b, x) by {
        let (d0, t0) = choose|d0: int, t0: int| #[trigger] targets_at(a, fid, i, d0, t0, x);
        assert(has_actor(a, x));
        lemma_same_actors_has_actor(a, b, x);
    }
}

/// A job that lists and places its actors as one with consistent mappings
/// does, and has the same mappings, has consistent mappings.
pub proof fn lemma_consistent_kept(a: TableFragmentsView, b: TableFragmentsView)
    requires
        same_actors(a, b),
        same_placement(a, b),
        mappings_consistent(a),
    ensures
        mappings_consistent(b),
{
    assert forall|fid: FragmentId, x: int, p: ParallelUnitId| #[trigger]
        maps_to(b, fid, x, p) implies serves(b, fid, p) by {
        assert(maps_to(a, fid, x, p));
        assert(serves(a, fid, p));
        let (i, act) = choose|i: int, act: ActorId|
            #[trigger] lists(a, fid, i, act) && a.actor_status.contains_key(act)
                && a.actor_status[act].parallel_unit is Some
                && a.actor_status[act].parallel_unit->Some_0.id == p;
        assert(lists(b, fid, i, act));
        assert(b.actor_status.contains_key(act));
        assert(a.actor_status[act].parallel_unit == b.actor_status[act].parallel_unit);
    }
}

/// A store whose jobs are jobs of a store without doubly listed actors,
/// each listing the same actors as before, has no doubly listed actors.
pub proof fn lemma_unique_kept(before: StoreView, after: StoreView)
    requires
        actors_unique(before),
        forall|k: TableId| #[trigger]
            after.contains_key(k) ==> before.contains_key(k) && same_actors(before[k], after[k]),
    ensures
        actors_unique(after),
{
    assert forall|
        k1: TableId,
        f1: FragmentId,
        i1: int,
        k2: TableId,
        f2: FragmentId,
        i2: int,
        a: ActorId,
    |
        after.contains_key(k1) && #[trigger] lists(after[k1], f1, i1, a) && after.contains_key(k2)
            && #[trigger] lists(after[k2], f2, i2, a) implies k1 == k2 && f1 == f2 && i1 == i2 by {
        assert(lists(before[k1], f1, i1, a));
        assert(lists(before[k2], f2, i2, a));
    }
}

} // verus!
