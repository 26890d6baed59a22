//! The invariants of the store under the migration of actors.

use crate::laws::invariants::{
    actors_unique, closed, consistent, covering, every_job, lemma_closed_kept,
    lemma_covering_kept, lemma_unique_kept, lists, mappings_consistent, maps_to, same_actors,
    serves, targets_at, targets_within,
};
use crate::manager::migrate::{
    free_units, job_after, job_migrated_upto, migrated, migrated_upto, placed_on, JobMigration,
    Migration,
};
use crate::manager::reschedule::{job_at, job_ids};
use crate::manager::transaction::{applied, StoreView};
use crate::model::common::{
    ActorId, FragmentId, ParallelUnit, ParallelUnitId, TableId, WorkerId, WorkerNodeView,
};
use crate::model::table_fragments::TableFragmentsView;
use crate::ord_map::{ascending, lemma_ascending_total};
use vstd::prelude::*;

verus! {

/// A migration gives every actor of the job a status and no one else.
pub proof fn lemma_job_migrated_statuses(
    job: TableFragmentsView,
    migrate: Map<ActorId, WorkerId>,
    start: Migration,
    n: nat,
)
    requires
        n <= ascending(job.actor_status.dom()).len(),
        job_migrated_upto(job, migrate, start, n) is Ok,
    ensures
        job_migrated_upto(job, migrate, start, n)->Ok_0.status.dom() == job.actor_status.dom(),
    decreases n,
{
    lemma_ascending_total(job.actor_status.dom());
    let ids = ascending(job.actor_status.dom());
    if n > 0 {
        let was = job_migrated_upto(job, migrate, start, (n - 1) as nat);
        lemma_job_migrated_statuses(job, migrate, start, (n - 1) as nat);
        let a = ids[n - 1];
        assert(ids.to_set().contains(ids[n - 1]));
        assert(job.actor_status.contains_key(a));
        let now = job_migrated_upto(job, migrate, start, n)->Ok_0;
        assert(now.status.dom() =~= job.actor_status.dom());
    }
}

/// A migrated job lists the same actors, has statuses for the same actors
/// and has the same dispatchers as before.
pub proof fn lemma_job_after_same_actors(job: TableFragmentsView, done: JobMigration)
    requires
        done.status.dom() == job.actor_status.dom(),
    ensures
        same_actors(job, job_after(job, done)),
        targets_within(job, job_after(job, done)),
{
    let now = job_after(job, done);
    assert(now.fragments.dom() =~= job.fragments.dom());
    assert forall|fid: FragmentId, i: int, x: ActorId|
        #![trigger lists(job, fid, i, x)]
        #![trigger lists(now, fid, i, x)]
        lists(job, fid, i, x) <==> lists(now, fid, i, x) by {
        if job.fragments.contains_key(fid) {
            assert(now.fragments[fid].actors == job.fragments[fid].actors);
        }
    }
    assert forall|fid: FragmentId, i: int, d: int, t: int, x: ActorId| #[trigger]
        targets_at(now, fid, i, d, t, x) implies exists|d0: int, t0: int| #[trigger]
        targets_at(job, fid, i, d0, t0, x) by {
        assert(now.fragments[fid].actors == job.fragments[fid].actors);
        assert(targets_at(job, fid, i, d, t, x));
    }
}

/// While actors migrate, every edit is a put of a stored job that lists
/// the same actors, has statuses for the same actors and has the same
/// dispatchers as before.
pub proof fn lemma_migrated_same_actors(
    store: StoreView,
    migrate: Map<ActorId, WorkerId>,
    start: Migration,
    m: nat,
)
    requires
        m <= job_ids(store).len(),
        migrated_upto(store, migrate, start, m) is Ok,
    ensures
        forall|k: TableId| #[trigger]
            migrated_upto(store, migrate, start, m)->Ok_0.edits.contains_key(k)
                ==> store.contains_key(k) && migrated_upto(store, migrate, start, m)->Ok_0.edits[k]
                is Some && same_actors(
                store[k],
                migrated_upto(store, migrate, start, m)->Ok_0.edits[k]->Some_0,
            ) && targets_within(
                store[k],
                migrated_upto(store, migrate, start, m)->Ok_0.edits[k]->Some_0,
            ),
    decreases m,
{
    lemma_ascending_total(store.dom());
    if m > 0 {
        let was = migrated_upto(store, migrate, start, (m - 1) as nat)->Ok_0;
        lemma_migrated_same_actors(store, migrate, start, (m - 1) as nat);
        let job = job_at(store, m - 1);
        let key = job_ids(store)[m - 1];
        assert(job_ids(store).to_set().contains(job_ids(store)[m - 1]));
        let n = ascending(job.actor_status.dom()).len();
        let done = job_migrated_upto(job, migrate, was.state, n)->Ok_0;
        lemma_job_migrated_statuses(job, migrate, was.state, n);
        lemma_job_after_same_actors(job, done);
        let now = migrated_upto(store, migrate, start, m)->Ok_0;
        assert forall|k: TableId| #[trigger] now.edits.contains_key(k) implies store.contains_key(
            k,
        ) && now.edits[k] is Some && same_actors(store[k], now.edits[k]->Some_0)
            && targets_within(store[k], now.edits[k]->Some_0) by {
            if done.touched && k == key {
            } else {
                assert(was.edits.contains_key(k));
            }
        }
    }
}

/// Migrating actors keeps that no actor is listed twice, that the statuses
/// cover the actors and that the dispatchers are closed.
pub proof fn law_migrate_keeps_invariants(
    store: StoreView,
    migrate: Map<ActorId, WorkerId>,
    nodes: Map<WorkerId, WorkerNodeView>,
)
    requires
        migrated(store, migrate, nodes) is Ok,
    ensures
        ({
            let after = applied(store, migrated(store, migrate, nodes)->Ok_0.edits);
            &&& actors_unique(store) ==> actors_unique(after)
            &&& every_job(store, covering()) ==> every_job(after, covering())
            &&& every_job(store, closed()) ==> every_job(after, closed())
        }),
{
    let start = Migration { pools: free_units(nodes), moves: Map::empty() };
    let edits = migrated(store, migrate, nodes)->Ok_0.edits;
    let after = applied(store, edits);
    lemma_migrated_same_actors(store, migrate, start, job_ids(store).len());
    assert forall|k: TableId| #[trigger] after.contains_key(k) implies store.contains_key(k)
        && same_actors(store[k], after[k]) && targets_within(store[k], after[k]) by {
        if edits.contains_key(k) {
        } else {
            crate::laws::kept::lemma_kept_reflexive(store[k]);
        }
    }
    if actors_unique(store) {
        lemma_unique_kept(store, after);
    }
    if every_job(store, covering()) {
        assert forall|k: TableId| #[trigger] after.contains_key(k) implies covering()(after[k]) by {
            assert(covering()(store[k]));
            lemma_covering_kept(store[k], after[k]);
        }
    }
    if every_job(store, closed()) {
        assert forall|k: TableId| #[trigger] after.contains_key(k) implies closed()(after[k]) by {
            assert(closed()(store[k]));
            lemma_closed_kept(store[k], after[k]);
        }
    }
}

/// Actor `a` of `job` moves: `migrate` names it and it has a parallel unit.
pub open spec fn moves_actor(migrate: Map<ActorId, WorkerId>, job: TableFragmentsView, a: ActorId) -> bool {
    job.actor_status.contains_key(a) && migrate.contains_key(a)
        && job.actor_status[a].parallel_unit is Some
}

/// The parallel unit `p` is the unit of an actor that moves.
pub open spec fn unit_moves(store: StoreView, migrate: Map<ActorId, WorkerId>, p: ParallelUnitId) -> bool {
    exists|k: TableId, a: ActorId|
        store.contains_key(k) && #[trigger] moves_actor(migrate, store[k], a)
            && store[k].actor_status[a].parallel_unit->Some_0.id == p
}

/// Actors that share a parallel unit move together: if `migrate` names one
/// of them, it names all.
pub open spec fn moves_together(store: StoreView, migrate: Map<ActorId, WorkerId>) -> bool {
    forall|k1: TableId, a1: ActorId, k2: TableId, a2: ActorId|
        store.contains_key(k1) && #[trigger] store[k1].actor_status.contains_key(a1)
            && store[k1].actor_status[a1].parallel_unit is Some && store.contains_key(k2)
            && #[trigger] store[k2].actor_status.contains_key(a2)
            && store[k2].actor_status[a2].parallel_unit is Some
            && store[k1].actor_status[a1].parallel_unit->Some_0.id
            == store[k2].actor_status[a2].parallel_unit->Some_0.id ==> (migrate.contains_key(a1)
            <==> migrate.contains_key(a2))
}

/// Every unit that `moves` replaces is the unit of an actor that moves.
pub open spec fn sourced(
    store: StoreView,
    migrate: Map<ActorId, WorkerId>,
    moves: Map<ParallelUnitId, ParallelUnit>,
) -> bool {
    forall|p: ParallelUnitId| #[trigger] moves.contains_key(p) ==> unit_moves(store, migrate, p)
}

/// What the migration of a job has done after `n` of its actors.
pub proof fn lemma_job_migrated(
    job: TableFragmentsView,
    migrate: Map<ActorId, WorkerId>,
    start: Migration,
    n: nat,
)
    requires
        n <= ascending(job.actor_status.dom()).len(),
        job_migrated_upto(job, migrate, start, n) is Ok,
    ensures
        ({
            let ids = ascending(job.actor_status.dom());
            let now = job_migrated_upto(job, migrate, start, n)->Ok_0;
            &&& now.status.dom() == job.actor_status.dom()
            &&& forall|p: ParallelUnitId| #[trigger]
                start.moves.contains_key(p) ==> now.state.moves.contains_key(p)
                    && now.state.moves[p] == start.moves[p]
            &&& forall|p: ParallelUnitId| #[trigger]
                now.state.moves.contains_key(p) ==> start.moves.contains_key(p) || exists|q: int|
                    0 <= q < n && moves_actor(migrate, job, #[trigger] ids[q])
                        && job.actor_status[ids[q]].parallel_unit->Some_0.id == p
            &&& forall|q: int|
                0 <= q < n && moves_actor(migrate, job, #[trigger] ids[q])
                    ==> now.state.moves.contains_key(
                    job.actor_status[ids[q]].parallel_unit->Some_0.id,
                ) && now.status[ids[q]] == placed_on(
                    job.actor_status[ids[q]],
                    now.state.moves[job.actor_status[ids[q]].parallel_unit->Some_0.id],
                )
            &&& forall|q: int|
                0 <= q < ids.len() && !(q < n && moves_actor(migrate, job, #[trigger] ids[q]))
                    ==> now.status[ids[q]] == job.actor_status[ids[q]]
        }),
    decreases n,
{
    lemma_ascending_total(job.actor_status.dom());
    let ids = ascending(job.actor_status.dom());
    assert forall|q: int| 0 <= q < ids.len() implies job.actor_status.contains_key(
        #[trigger] ids[q],
    ) by {
        assert(ids.to_set().contains(ids[q]));
    }
    if n > 0 {
        let m = (n - 1) as nat;
        let was = job_migrated_upto(job, migrate, start, m)->Ok_0;
        lemma_job_migrated(job, migrate, start, m);
        let now = job_migrated_upto(job, migrate, start, n)->Ok_0;
        let a = ids[n - 1];
        let s = job.actor_status[a];
        assert(forall|q: int| 0 <= q < m ==> ids[q] != a) by {
            assert forall|q: int| 0 <= q < m implies ids[q] != a by {
                assert(ids[q] < ids[n - 1]);
            }
        }
        assert(forall|q: int| n <= q < ids.len() ==> ids[q] != a) by {
            assert forall|q: int| n <= q < ids.len() implies ids[q] != a by {
                assert(ids[n - 1] < ids[q]);
            }
        }
        if !migrate.contains_key(a) || s.parallel_unit is None {
            assert(now == was);
            assert(!moves_actor(migrate, job, a));
            assert forall|p: ParallelUnitId| #[trigger]
                now.state.moves.contains_key(p) implies start.moves.contains_key(p) || exists|
                q: int,
            |
                0 <= q < n && moves_actor(migrate, job, #[trigger] ids[q])
                    && job.actor_status[ids[q]].parallel_unit->Some_0.id == p by {
                if !start.moves.contains_key(p) {
                    let q = choose|q: int|
                        0 <= q < m && moves_actor(migrate, job, #[trigger] ids[q])
                            && job.actor_status[ids[q]].parallel_unit->Some_0.id == p;
                    assert(0 <= q < n && moves_actor(migrate, job, ids[q]));
                }
            }
        } else {
            let old = s.parallel_unit->Some_0;
            assert(moves_actor(migrate, job, a));
            assert(now.status.dom() =~= job.actor_status.dom());
            assert forall|p: ParallelUnitId| #[trigger]
                now.state.moves.contains_key(p) implies start.moves.contains_key(p) || exists|
                q: int,
            |
                0 <= q < n && moves_actor(migrate, job, #[trigger] ids[q])
                    && job.actor_status[ids[q]].parallel_unit->Some_0.id == p by {
                if was.state.moves.contains_key(p) {
                    if !start.moves.contains_key(p) {
                        let q = choose|q: int|
                            0 <= q < m && moves_actor(migrate, job, #[trigger] ids[q])
                                && job.actor_status[ids[q]].parallel_unit->Some_0.id == p;
                        assert(0 <= q < n && moves_actor(migrate, job, ids[q]));
                    }
                } else {
                    assert(p == old.id);
                    assert(0 <= n - 1 < n && moves_actor(migrate, job, ids[n - 1]));
                }
            }
            assert forall|q: int|
                0 <= q < n && moves_actor(
                    migrate,
                    job,
                    #[trigger] ids[q],
                ) implies now.state.moves.contains_key(
                job.actor_status[ids[q]].parallel_unit->Some_0.id,
            ) && now.status[ids[q]] == placed_on(
                job.actor_status[ids[q]],
                now.state.moves[job.actor_status[ids[q]].parallel_unit->Some_0.id],
            ) by {
                if q < m {
                    assert(ids[q] != a);
                    assert(was.state.moves.contains_key(
                        job.actor_status[ids[q]].parallel_unit->Some_0.id,
                    ));
                }
            }
            assert forall|q: int|
                0 <= q < ids.len() && !(q < n && moves_actor(
                    migrate,
                    job,
                    #[trigger] ids[q],
                )) implies now.status[ids[q]] == job.actor_status[ids[q]] by {
                if q != n - 1 {
                    assert(ids[q] != a);
                }
            }
        }
    }
}

/// A migrated job has consistent vnode mappings if it had them before, the
/// units replaced so far were units of moving actors, and actors that
/// share a unit move together.
pub proof fn lemma_job_after_consistent(
    store: StoreView,
    k: TableId,
    migrate: Map<ActorId, WorkerId>,
    start: Migration,
)
    requires
        store.contains_key(k),
        mappings_consistent(store[k]),
        moves_together(store, migrate),
        sourced(store, migrate, start.moves),
        job_migrated_upto(
            store[k],
            migrate,
            start,
            ascending(store[k].actor_status.dom()).len(),
        ) is Ok,
    ensures
        mappings_consistent(
            job_after(
                store[k],
                job_migrated_upto(
                    store[k],
                    migrate,
                    start,
                    ascending(store[k].actor_status.dom()).len(),
                )->Ok_0,
            ),
        ),
        sourced(
            store,
            migrate,
            job_migrated_upto(
                store[k],
                migrate,
                start,
                ascending(store[k].actor_status.dom()).len(),
            )->Ok_0.state.moves,
        ),
{
    let job = store[k];
    lemma_ascending_total(job.actor_status.dom());
    let ids = ascending(job.actor_status.dom());
    let n = ids.len();
    lemma_job_migrated(job, migrate, start, n);
    let done = job_migrated_upto(job, migrate, start, n)->Ok_0;
    let moves = done.state.moves;
    let now = job_after(job, done);
    assert forall|p: ParallelUnitId| #[trigger] moves.contains_key(p) implies unit_moves(
        store,
        migrate,
        p,
    ) by {
        if !start.moves.contains_key(p) {
            let q = choose|q: int|
                0 <= q < n && moves_actor(migrate, job, #[trigger] ids[q])
                    && job.actor_status[ids[q]].parallel_unit->Some_0.id == p;
            assert(store.contains_key(k) && moves_actor(migrate, store[k], ids[q]));
        }
    }
    assert forall|fid: FragmentId, x: int, p2: ParallelUnitId| #[trigger]
        maps_to(now, fid, x, p2) implies serves(now, fid, p2) by {
        assert(job.fragments.contains_key(fid));
        let m0 = job.fragments[fid].vnode_mapping->Some_0;
        let p = m0.data[x];
        assert(maps_to(job, fid, x, p));
        assert(serves(job, fid, p));
        let (i, act) = choose|i: int, act: ActorId|
            #[trigger] lists(job, fid, i, act) && job.actor_status.contains_key(act)
                && job.actor_status[act].parallel_unit is Some
                && job.actor_status[act].parallel_unit->Some_0.id == p;
        assert(now.fragments[fid].actors == job.fragments[fid].actors);
        assert(lists(now, fid, i, act));
        assert(ids.to_set().contains(act));
        let q = choose|q: int| 0 <= q < ids.len() && ids[q] == act;
        if moves_actor(migrate, job, ids[q]) {
            assert(now.actor_status[act] == placed_on(job.actor_status[act], moves[p]));
        } else {
            assert(now.actor_status[act] == job.actor_status[act]);
            if moves.contains_key(p) {
                assert(unit_moves(store, migrate, p));
                let (k2, b) = choose|k2: TableId, b: ActorId|
                    store.contains_key(k2) && #[trigger] moves_actor(migrate, store[k2], b)
                        && store[k2].actor_status[b].parallel_unit->Some_0.id == p;
                assert(store[k2].actor_status.contains_key(b));
                assert(store[k].actor_status.contains_key(act));
                assert(migrate.contains_key(act) <==> migrate.contains_key(b));
            }
        }
    }
}

/// While actors migrate, every edit is a put of a job with consistent
/// vnode mappings.
pub proof fn lemma_migrated_consistent(
    store: StoreView,
    migrate: Map<ActorId, WorkerId>,
    start: Migration,
    m: nat,
)
    requires
        m <= job_ids(store).len(),
        migrated_upto(store, migrate, start, m) is Ok,
        every_job(store, consistent()),
        moves_together(store, migrate),
        sourced(store, migrate, start.moves),
    ensures
        sourced(store, migrate, migrated_upto(store, migrate, start, m)->Ok_0.state.moves),
        forall|k: TableId| #[trigger]
            migrated_upto(store, migrate, start, m)->Ok_0.edits.contains_key(k)
                ==> migrated_upto(store, migrate, start, m)->Ok_0.edits[k] is Some
                && mappings_consistent(
                migrated_upto(store, migrate, start, m)->Ok_0.edits[k]->Some_0,
            ),
    decreases m,
{
    lemma_ascending_total(store.dom());
    if m > 0 {
        let was = migrated_upto(store, migrate, start, (m - 1) as nat)->Ok_0;
        lemma_migrated_consistent(store, migrate, start, (m - 1) as nat);
        let key = job_ids(store)[m - 1];
        assert(job_ids(store).to_set().contains(job_ids(store)[m - 1]));
        assert(store.contains_key(key));
        assert(consistent()(store[key]));
        lemma_job_after_consistent(store, key, migrate, was.state);
        let job = job_at(store, m - 1);
        let done = job_migrated_upto(
            job,
            migrate,
            was.state,
            ascending(job.actor_status.dom()).len(),
        )->Ok_0;
        let now = migrated_upto(store, migrate, start, m)->Ok_0;
        assert forall|k: TableId| #[trigger] now.edits.contains_key(k) implies now.edits[k] is Some
            && mappings_consistent(now.edits[k]->Some_0) by {
            if done.touched && k == key {
            } else {
                assert(was.edits.contains_key(k));
            }
        }
    }
}

/// Migrating actors keeps the vnode mappings consistent: every parallel
/// unit that a mapping names after the migration serves an actor of the
/// mapping's fragment. This holds where actors that share a parallel unit
/// move together.
pub proof fn law_migrate_keeps_mappings_consistent(
    store: StoreView,
    migrate: Map<ActorId, WorkerId>,
    nodes: Map<WorkerId, WorkerNodeView>,
)
    requires
        migrated(store, migrate, nodes) is Ok,
        every_job(store, consistent()),
        moves_together(store, migrate),
    ensures
        every_job(applied(store, migrated(store, migrate, nodes)->Ok_0.edits), consistent()),
{
    let start = Migration { pools: free_units(nodes), moves: Map::empty() };
    let edits = migrated(store, migrate, nodes)->Ok_0.edits;
    let after = applied(store, edits);
    lemma_migrated_consistent(store, migrate, start, job_ids(store).len());
    assert forall|k: TableId| #[trigger] after.contains_key(k) implies consistent()(after[k]) by {
        if edits.contains_key(k) {
        } else {
            assert(store.contains_key(k));
            assert(consistent()(store[k]));
        }
    }
}

} // verus!
