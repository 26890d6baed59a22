//! Migrating actors to other workers.
//!
//! Each worker offers its parallel units as a pool. An actor that is to
//! move gives up its unit and gets one of the target worker; all actors that
//! shared a unit share the new one. Jobs are taken in ascending order of id,
//! the actors of a job in ascending order of id, and a pool hands out its
//! units from the end of the worker's list.

use crate::error::MetaError;
use crate::manager::reschedule::{job_at, job_ids};
use crate::manager::store::{current, FragmentManager, PendingCommit};
use crate::manager::transaction::{Edits, StoreView, Transaction};
use crate::model::common::{
    ActorId, ActorStatus, ParallelUnit, ParallelUnitId, WorkerId, WorkerNode, WorkerNodeView,
};
use crate::model::table_fragments::{TableFragments, TableFragmentsView};
use crate::notification::{announce, push_notifications, Notification, NotificationView, Operation};
use crate::ord_map::{ascending, DeepClone, OrdMap};
use vstd::prelude::*;

verus! {

/// The parallel units of a worker.
pub open spec fn units_of_node() -> spec_fn(WorkerNodeView) -> Seq<ParallelUnit> {
    |n: WorkerNodeView| n.parallel_units
}

/// The pools at the start of a migration: each worker offers all its units.
pub open spec fn free_units(nodes: Map<WorkerId, WorkerNodeView>) -> Map<
    WorkerId,
    Seq<ParallelUnit>,
> {
    nodes.map_values(units_of_node())
}

/// How far a migration has come.
pub struct Migration {
    /// The units that each worker still offers.
    pub pools: Map<WorkerId, Seq<ParallelUnit>>,
    /// For each unit that was given up, by id, the unit that replaces it.
    pub moves: Map<ParallelUnitId, ParallelUnit>,
}

/// How far the migration of one job has come.
pub struct JobMigration {
    pub state: Migration,
    /// The statuses of the job's actors as they are now.
    pub status: Map<ActorId, ActorStatus>,
    /// Whether an actor of the job was moved.
    pub touched: bool,
}

/// The status `s` with `unit` as its parallel unit.
pub open spec fn placed_on(s: ActorStatus, unit: ParallelUnit) -> ActorStatus {
    ActorStatus { parallel_unit: Some(unit), state: s.state }
}

/// The migration of `job` after the first `n` of its actors, in ascending
/// order of id, were looked at. An actor moves if `migrate` names it and it
/// has a parallel unit. `Err(w)` if worker `w` was to take an actor and had
/// no unit left to offer.
pub open spec fn job_migrated_upto(
    job: TableFragmentsView,
    migrate: Map<ActorId, WorkerId>,
    start: Migration,
    n: nat,
) -> Result<JobMigration, WorkerId>
    decreases n,
{
    let ids = ascending(job.actor_status.dom());
    if n == 0 || n > ids.len() {
        Ok(JobMigration { state: start, status: job.actor_status, touched: false })
    } else {
        match job_migrated_upto(job, migrate, start, (n - 1) as nat) {
            Err(w) => Err(w),
            Ok(was) => {
                let a = ids[n - 1];
                let s = job.actor_status[a];
                if !migrate.contains_key(a) || s.parallel_unit is None {
                    Ok(was)
                } else {
                    let old = s.parallel_unit->Some_0;
                    let target = migrate[a];
                    if was.state.moves.contains_key(old.id) {
                        Ok(
                            JobMigration {
                                state: was.state,
                                status: was.status.insert(
                                    a,
                                    placed_on(s, was.state.moves[old.id]),
                                ),
                                touched: true,
                            },
                        )
                    } else if was.state.pools.contains_key(target) && was.state.pools[target].len()
                        > 0 {
                        let unit = was.state.pools[target].last();
                        Ok(
                            JobMigration {
                                state: Migration {
                                    pools: was.state.pools.insert(
                                        target,
                                        was.state.pools[target].drop_last(),
                                    ),
                                    moves: was.state.moves.insert(old.id, unit),
                                },
                                status: was.status.insert(a, placed_on(s, unit)),
                                touched: true,
                            },
                        )
                    } else {
                        Err(target)
                    }
                }
            },
        }
    }
}

/// A job after its migration: its actors placed as the migration says and
/// its vnode mappings rewritten by the moves made so far.
pub open spec fn job_after(job: TableFragmentsView, done: JobMigration) -> TableFragmentsView {
    (TableFragmentsView { actor_status: done.status, ..job }).with_vnode_mapping_moved(
        done.state.moves,
    )
}

/// What a migration has staged.
pub struct StoreMigration {
    pub state: Migration,
    /// A put of every job of which an actor was moved.
    pub edits: Edits,
    /// The update of the mappings of the stateful fragments of those jobs.
    pub notes: Seq<NotificationView>,
}

/// What is staged after the first `m` jobs, in ascending order of id, were
/// migrated.
pub open spec fn migrated_upto(
    store: StoreView,
    migrate: Map<ActorId, WorkerId>,
    start: Migration,
    m: nat,
) -> Result<StoreMigration, WorkerId>
    decreases m,
{
    if m == 0 || m > job_ids(store).len() {
        Ok(StoreMigration { state: start, edits: Map::empty(), notes: Seq::empty() })
    } else {
        match migrated_upto(store, migrate, start, (m - 1) as nat) {
            Err(w) => Err(w),
            Ok(was) => {
                let job = job_at(store, m - 1);
                match job_migrated_upto(
                    job,
                    migrate,
                    was.state,
                    ascending(job.actor_status.dom()).len(),
                ) {
                    Err(w) => Err(w),
                    Ok(done) => if done.touched {
                        Ok(
                            StoreMigration {
                                state: done.state,
                                edits: was.edits.insert(
                                    job_ids(store)[m - 1],
                                    Some(job_after(job, done)),
                                ),
                                notes: was.notes + job_after(
                                    job,
                                    done,
                                ).stateful_mappings().map_values(announce(Operation::Update)),
                            },
                        )
                    } else {
                        Ok(StoreMigration { state: done.state, edits: was.edits, notes: was.notes })
                    },
                }
            },
        }
    }
}

/// What migrating the actors that `migrate` names stages, with the pools
/// that `nodes` offers.
pub open spec fn migrated(
    store: StoreView,
    migrate: Map<ActorId, WorkerId>,
    nodes: Map<WorkerId, WorkerNodeView>,
) -> Result<StoreMigration, WorkerId> {
    migrated_upto(
        store,
        migrate,
        Migration { pools: free_units(nodes), moves: Map::empty() },
        job_ids(store).len(),
    )
}

/// A job that ran out of units fails for good.
pub proof fn lemma_job_migration_fails(
    job: TableFragmentsView,
    migrate: Map<ActorId, WorkerId>,
    start: Migration,
    m: nat,
    n: nat,
)
    requires
        m <= n <= ascending(job.actor_status.dom()).len(),
        job_migrated_upto(job, migrate, start, m) is Err,
    ensures
        job_migrated_upto(job, migrate, start, n) == job_migrated_upto(job, migrate, start, m),
    decreases n,
{
    if m < n {
        lemma_job_migration_fails(job, migrate, start, m, (n - 1) as nat);
    }
}

/// A migration that ran out of units fails for good.
pub proof fn lemma_migration_fails(
    store: StoreView,
    migrate: Map<ActorId, WorkerId>,
    start: Migration,
    m: nat,
    n: nat,
)
    requires
        m <= n <= job_ids(store).len(),
        migrated_upto(store, migrate, start, m) is Err,
    ensures
        migrated_upto(store, migrate, start, n) == migrated_upto(store, migrate, start, m),
    decreases n,
{
    if m < n {
        lemma_migration_fails(store, migrate, start, m, (n - 1) as nat);
    }
}

/// Takes a unit from the pool of worker `target`, if it has one left.
fn take_unit(pools: &mut OrdMap<WorkerNode>, target: WorkerId) -> (r: Option<ParallelUnit>)
    ensures
        match r {
            Some(unit) => free_units(old(pools)@).contains_key(target) && free_units(
                old(pools)@,
            )[target].len() > 0 && unit == free_units(old(pools)@)[target].last() && free_units(
                final(pools)@,
            ) == free_units(old(pools)@).insert(
                target,
                free_units(old(pools)@)[target].drop_last(),
            ),
            None => final(pools)@ == old(pools)@ && !(free_units(old(pools)@).contains_key(target)
                && free_units(old(pools)@)[target].len() > 0),
        },
{
    let p = match pools.position(target) {
        Some(p) => p,
        None => {
            proof {
                pools.lemma_view();
            }
            return None;
        },
    };
    let ghost before = *pools;
    proof {
        before.lemma_view();
    }
    if pools.value_at(p).parallel_units.len() == 0 {
        return None;
    }
    let node = pools.value_at_mut(p);
    let unit = node.parallel_units.pop().unwrap();
    proof {
        before.lemma_view_updated(&*pools, p as int, pools.values()[p as int]);
        assert(pools.values()[p as int]@.parallel_units =~= before.values()[p as int]@.parallel_units.drop_last());
        assert(free_units(pools@) =~= free_units(before@).insert(
            target,
            free_units(before@)[target].drop_last(),
        ));
    }
    Some(unit)
}

impl FragmentManager {
    /// Migrates the actors that `migrate_map` names to the workers it names
    /// for them, with the parallel units that the workers of `node_map`
    /// offer. Stages every job of which an actor was moved, with its actors
    /// placed anew and its vnode mappings rewritten, and tells the frontends
    /// of the mappings of its stateful fragments.
    ///
    /// Fails with `NoCapacity`, staging nothing, if a worker is to take an
    /// actor and has no parallel unit left to offer.
    pub fn migrate_actors(
        &self,
        migrate_map: &OrdMap<WorkerId>,
        node_map: &OrdMap<WorkerNode>,
    ) -> (r: Result<PendingCommit, MetaError>)
        ensures
            match r {
                Ok(p) => migrated(self@, migrate_map@, node_map@) matches Ok(out) && p.edits()
                    == out.edits && p.notes() == out.notes,
                Err(e) => migrated(self@, migrate_map@, node_map@) matches Err(w) && e
                    == MetaError::NoCapacity(w),
            },
    {
        let store = &self.core.table_fragments;
        let mut pools = node_map.deep_clone();
        let mut moves: OrdMap<ParallelUnit> = OrdMap::new();
        let mut txn = Transaction::new();
        let mut notifications: Vec<Notification> = Vec::new();
        let n = store.len();
        let ghost start = Migration { pools: free_units(node_map@), moves: Map::empty() };
        let ghost migrate = migrate_map@;
        let mut i: usize = 0;
        proof {
            store.lemma_view();
            assert(notifications.deep_view() =~= Seq::<NotificationView>::empty());
        }
        while i < n
            invariant
                i <= n,
                n == store.keys().len(),
                store.wf(),
                store@ == self@,
                migrate == migrate_map@,
                start == (Migration { pools: free_units(node_map@), moves: Map::empty() }),
                store.keys() == job_ids(self@),
                migrated_upto(self@, migrate, start, i as nat) == Ok::<StoreMigration, WorkerId>(
                    StoreMigration {
                        state: Migration { pools: free_units(pools@), moves: moves@ },
                        edits: txn@,
                        notes: notifications.deep_view(),
                    },
                ),
            decreases n - i,
        {
            let key = store.key_at(i);
            let stored = store.value_at(i);
            let mut working: Option<TableFragments> = None;
            let na = stored.actor_status.len();
            let ghost begin = Migration { pools: free_units(pools@), moves: moves@ };
            let ghost ids = stored.actor_status.keys();
            let mut k: usize = 0;
            proof {
                store.lemma_view();
                stored.actor_status.lemma_view();
                assert(job_at(self@, i as int) == stored@);
            }
            while k < na
                invariant
                    k <= na,
                    na == stored.actor_status.keys().len(),
                    stored.actor_status.wf(),
                    i < n,
                    start == (Migration { pools: free_units(node_map@), moves: Map::empty() }),
                    n == job_ids(self@).len(),
                    job_at(self@, i as int) == stored@,
                    migrated_upto(self@, migrate, start, i as nat) == Ok::<
                        StoreMigration,
                        WorkerId,
                    >(
                        StoreMigration {
                            state: begin,
                            edits: txn@,
                            notes: notifications.deep_view(),
                        },
                    ),
                    migrate == migrate_map@,
                    ids == stored.actor_status.keys(),
                    ids == ascending(stored@.actor_status.dom()),
                    working matches Some(job) ==> job.actor_status.wf() && job.actor_status.keys()
                        == ids && job.table_id == stored.table_id && job.state == stored.state
                        && job.fragments@ == stored.fragments@ && job.actor_splits@
                        == stored.actor_splits@ && forall|q: int|
                        k <= q < na ==> stored@.actor_status[ids[q]]
                            == #[trigger] job.actor_status.values()[q],
                    job_migrated_upto(stored@, migrate, begin, k as nat) == Ok::<
                        JobMigration,
                        WorkerId,
                    >(
                        JobMigration {
                            state: Migration { pools: free_units(pools@), moves: moves@ },
                            status: current(working, stored@).actor_status,
                            touched: working is Some,
                        },
                    ),
                decreases na - k,
            {
                let a = stored.actor_status.key_at(k);
                let s = *stored.actor_status.value_at(k);
                proof {
                    stored.actor_status.lemma_view();
                    assert(stored@.actor_status[a] == s);
                }
                match (migrate_map.get(a), s.parallel_unit) {
                    (Some(target), Some(old)) => {
                        let unit = match moves.get(old.id) {
                            Some(unit) => *unit,
                            None => match take_unit(&mut pools, *target) {
                                Some(unit) => {
                                    moves.insert(old.id, unit);
                                    unit
                                },
                                None => {
                                    proof {
                                        assert(job_migrated_upto(
                                            stored@,
                                            migrate,
                                            begin,
                                            (k + 1) as nat,
                                        ) == Err::<JobMigration, WorkerId>(*target));
                                        lemma_job_migration_fails(
                                            stored@,
                                            migrate,
                                            begin,
                                            (k + 1) as nat,
                                            na as nat,
                                        );
                                        assert(migrated_upto(self@, migrate, start, (i + 1) as nat)
                                            == Err::<StoreMigration, WorkerId>(*target));
                                        lemma_migration_fails(
                                            self@,
                                            migrate,
                                            start,
                                            (i + 1) as nat,
                                            n as nat,
                                        );
                                    }
                                    return Err(MetaError::NoCapacity(*target));
                                },
                            },
                        };
                        if working.is_none() {
                            let copy = stored.deep_clone();
                            // Asking a map for its length brings along that it is
                            // well formed.
                            let _ = copy.actor_status.len();
                            proof {
                                copy.actor_status.lemma_view();
                                stored.actor_status.lemma_view();
                            }
                            working = Some(copy);
                        }
                        match &mut working {
                            Some(job) => {
                                let ghost status_before = job.actor_status;
                                let slot = job.actor_status.value_at_mut(k);
                                slot.parallel_unit = Some(unit);
                                proof {
                                    status_before.lemma_view();
                                    status_before.lemma_view_updated(
                                        &job.actor_status,
                                        k as int,
                                        job.actor_status.values()[k as int],
                                    );
                                }
                            },
                            None => {},
                        }
                    },
                    _ => {},
                }
                k += 1;
            }
            match working {
                Some(mut job) => {
                    let ghost done = JobMigration {
                        state: Migration { pools: free_units(pools@), moves: moves@ },
                        status: job.actor_status@,
                        touched: true,
                    };
                    assert(job@ == (TableFragmentsView { actor_status: done.status, ..stored@ }));
                    job.update_vnode_mapping(&moves);
                    push_notifications(
                        &mut notifications,
                        Operation::Update,
                        job.stateful_mappings(),
                    );
                    txn.insert(key, job);
                },
                None => {},
            }
            i += 1;
        }
        Ok(PendingCommit { txn, notifications })
    }
}

} // verus!
