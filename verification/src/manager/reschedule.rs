//! Applying reschedule plans to the stored jobs.
//!
//! A plan is keyed by the fragment it reschedules. It is applied to the job
//! with the smallest id that has a fragment with that id. Jobs are taken in
//! ascending order of id, the plans of one job in ascending order of
//! fragment id.

use crate::error::MetaError;
use crate::manager::store::{current, FragmentManager, PendingCommit};
use crate::manager::transaction::{Edits, StoreView, Transaction};
use crate::model::common::{
    ActorId, FragmentId, ParallelUnitMapping, ParallelUnitMappingView, TableId,
};
use crate::model::reschedule::{Reschedule, RescheduleView};
use crate::model::stream::append_ids;
use crate::model::table_fragments::{TableFragments, TableFragmentsView};
use crate::notification::{announce, push_notifications, Notification, NotificationView, Operation};
use crate::ord_map::{ascending, DeepClone, OrdMap};
use vstd::prelude::*;

verus! {

/// Model of a set of plans, by the fragment each reschedules.
pub type PlansView = Map<FragmentId, RescheduleView>;

/// The ids of the stored jobs, ascending.
pub open spec fn job_ids(store: StoreView) -> Seq<TableId> {
    ascending(store.dom())
}

/// The `i`-th stored job in ascending order of id.
pub open spec fn job_at(store: StoreView, i: int) -> TableFragmentsView {
    store[job_ids(store)[i]]
}

/// None of the first `n` jobs has a fragment with id `fid`.
pub open spec fn unclaimed(store: StoreView, fid: FragmentId, n: int) -> bool {
    forall|j: int| 0 <= j < n ==> !(#[trigger] job_at(store, j)).fragments.contains_key(fid)
}

/// The job at position `pos` is the first that has a fragment with id `fid`.
pub open spec fn claims(store: StoreView, pos: int, fid: FragmentId) -> bool {
    job_at(store, pos).fragments.contains_key(fid) && unclaimed(store, fid, pos)
}

/// Every plan is for a fragment of some stored job.
pub open spec fn all_claimed(store: StoreView, plans: PlansView) -> bool {
    forall|fid: FragmentId| #[trigger]
        plans.contains_key(fid) ==> !unclaimed(store, fid, job_ids(store).len() as int)
}

/// The actors that the plans add: they were built beforehand, with their
/// final wiring.
pub open spec fn fresh_actors(plans: PlansView) -> Set<ActorId> {
    Set::new(
        |a: ActorId|
            exists|fid: FragmentId| #[trigger]
                plans.contains_key(fid) && plans[fid].added_actors.contains(a),
    )
}

/// What became of one job while plans were applied to it.
pub struct JobOutcome {
    /// The job as it is now.
    pub job: TableFragmentsView,
    /// Whether a plan was applied to it.
    pub touched: bool,
    /// The vnode mappings to announce, in the order of the plans.
    pub updates: Seq<ParallelUnitMappingView>,
}

/// The job at position `pos` after those of the first `n` plans that it
/// claims were applied to it, in ascending order of fragment id. `None` if
/// one of them contradicts the job.
pub open spec fn job_rescheduled_upto(
    store: StoreView,
    pos: int,
    plans: PlansView,
    n: nat,
) -> Option<JobOutcome>
    decreases n,
{
    let fids = ascending(plans.dom());
    if n == 0 || n > fids.len() {
        Some(JobOutcome { job: job_at(store, pos), touched: false, updates: Seq::empty() })
    } else {
        match job_rescheduled_upto(store, pos, plans, (n - 1) as nat) {
            None => None,
            Some(was) => {
                let fid = fids[n - 1];
                if claims(store, pos, fid) {
                    match was.job.rescheduled(fid, plans[fid], fresh_actors(plans)) {
                        Some(job) => Some(
                            JobOutcome {
                                job,
                                touched: true,
                                updates: was.updates + was.job.resized(
                                    fid,
                                    plans[fid],
                                )->Some_0.mapping_update(fid),
                            },
                        ),
                        None => None,
                    }
                } else {
                    Some(was)
                }
            },
        }
    }
}

/// What applying plans has staged.
pub struct RescheduleOutcome {
    /// The staged edits: a put of every job that a plan was applied to.
    pub edits: Edits,
    /// The vnode mappings to announce, job by job.
    pub updates: Seq<ParallelUnitMappingView>,
}

/// What is staged after the plans were applied to the first `m` jobs.
/// `None` if a plan contradicts its job.
pub open spec fn rescheduled_upto(store: StoreView, plans: PlansView, m: nat) -> Option<
    RescheduleOutcome,
>
    decreases m,
{
    if m == 0 || m > job_ids(store).len() {
        Some(RescheduleOutcome { edits: Map::empty(), updates: Seq::empty() })
    } else {
        match rescheduled_upto(store, plans, (m - 1) as nat) {
            None => None,
            Some(was) => match job_rescheduled_upto(
                store,
                m - 1,
                plans,
                ascending(plans.dom()).len(),
            ) {
                None => None,
                Some(out) => Some(
                    RescheduleOutcome {
                        edits: if out.touched {
                            was.edits.insert(job_ids(store)[m - 1], Some(out.job))
                        } else {
                            was.edits
                        },
                        updates: was.updates + out.updates,
                    },
                ),
            },
        }
    }
}

/// What applying the plans stages, if every plan is for a fragment of some
/// job and none contradicts its job.
pub open spec fn rescheduled(store: StoreView, plans: PlansView) -> Option<RescheduleOutcome> {
    if all_claimed(store, plans) {
        rescheduled_upto(store, plans, job_ids(store).len())
    } else {
        None
    }
}

/// A plan that contradicts its job fails the whole job.
pub proof fn lemma_job_reschedule_fails(store: StoreView, pos: int, plans: PlansView, m: nat, n: nat)
    requires
        m <= n <= ascending(plans.dom()).len(),
        job_rescheduled_upto(store, pos, plans, m) is None,
    ensures
        job_rescheduled_upto(store, pos, plans, n) is None,
    decreases n,
{
    if m < n {
        lemma_job_reschedule_fails(store, pos, plans, m, (n - 1) as nat);
    }
}

/// A job that failed fails the whole batch.
pub proof fn lemma_reschedule_fails(store: StoreView, plans: PlansView, m: nat, n: nat)
    requires
        m <= n <= job_ids(store).len(),
        rescheduled_upto(store, plans, m) is None,
    ensures
        rescheduled_upto(store, plans, n) is None,
    decreases n,
{
    if m < n {
        lemma_reschedule_fails(store, plans, m, (n - 1) as nat);
    }
}

/// The actors that the plans add, plan by plan.
pub fn added_actors_of(reschedules: &OrdMap<Reschedule>) -> (r: Vec<ActorId>)
    ensures
        r@.to_set() == fresh_actors(reschedules@),
{
    let n = reschedules.len();
    let mut out: Vec<ActorId> = Vec::new();
    let mut i: usize = 0;
    while i < n
        invariant
            i <= n,
            n == reschedules.keys().len(),
            reschedules.wf(),
            forall|a: ActorId|
                out@.contains(a) <==> exists|p: int|
                    0 <= p < i && (#[trigger] reschedules.values()[p]).added_actors@.contains(a),
        decreases n - i,
    {
        let plan = reschedules.value_at(i);
        let ghost before = out@;
        append_ids(&mut out, &plan.added_actors);
        proof {
            assert forall|a: ActorId|
                out@.contains(a) <==> exists|p: int|
                    0 <= p < i + 1 && (#[trigger] reschedules.values()[p]).added_actors@.contains(
                        a,
                    ) by {
                if out@.contains(a) {
                    let k = choose|k: int| 0 <= k < out@.len() && out@[k] == a;
                    if k < before.len() {
                        assert(before[k] == a);
                        assert(before.contains(a));
                        let p = choose|p: int|
                            0 <= p < i && (#[trigger] reschedules.values()[p]).added_actors@.contains(
                                a,
                            );
                        assert(0 <= p < i + 1 && reschedules.values()[p].added_actors@.contains(a));
                    } else {
                        assert(plan.added_actors@[k - before.len()] == a);
                        assert(reschedules.values()[i as int].added_actors@.contains(a));
                    }
                }
                if exists|p: int|
                    0 <= p < i + 1 && (#[trigger] reschedules.values()[p]).added_actors@.contains(
                        a,
                    ) {
                    let p = choose|p: int|
                        0 <= p < i + 1 && (#[trigger] reschedules.values()[p]).added_actors@.contains(
                            a,
                        );
                    if p < i {
                        assert(before.contains(a));
                        let k = choose|k: int| 0 <= k < before.len() && before[k] == a;
                        assert(out@[k] == a);
                    } else {
                        let k = choose|k: int|
                            0 <= k < plan.added_actors@.len() && plan.added_actors@[k] == a;
                        assert(out@[before.len() + k] == a);
                    }
                }
            }
        }
        i += 1;
    }
    proof {
        reschedules.lemma_view();
        assert forall|a: ActorId| out@.to_set().contains(a) == fresh_actors(
            reschedules@,
        ).contains(a) by {
            if out@.contains(a) {
                let p = choose|p: int|
                    0 <= p < n && (#[trigger] reschedules.values()[p]).added_actors@.contains(a);
                let fid = reschedules.keys()[p];
                assert(reschedules@.contains_key(fid) && reschedules@[fid].added_actors.contains(
                    a,
                ));
            }
            if fresh_actors(reschedules@).contains(a) {
                let fid = choose|fid: FragmentId| #[trigger]
                    reschedules@.contains_key(fid) && reschedules@[fid].added_actors.contains(a);
                let p = reschedules.keys().index_of(fid);
                assert(reschedules.keys()[p] == fid);
                assert(reschedules.values()[p].added_actors@.contains(a));
            }
        }
        assert(out@.to_set() =~= fresh_actors(reschedules@));
    }
    out
}

impl FragmentManager {
    /// Applies reschedule plans to the stored jobs and stages every job that
    /// a plan was applied to; the frontends are told of the vnode mapping of
    /// each rescheduled fragment that keeps state and has one.
    ///
    /// Fails with `ConsistencyBug`, staging nothing, if a plan is for a
    /// fragment of no stored job or contradicts its job.
    pub fn post_apply_reschedules(&self, reschedules: &OrdMap<Reschedule>) -> (r: Result<
        PendingCommit,
        MetaError,
    >)
        ensures
            match r {
                Ok(p) => rescheduled(self@, reschedules@) matches Some(out) && p.edits()
                    == out.edits && p.notes() == out.updates.map_values(
                    announce(Operation::Update),
                ),
                Err(e) => e == MetaError::ConsistencyBug && rescheduled(self@, reschedules@) is None,
            },
    {
        let store = &self.core.table_fragments;
        let fresh = added_actors_of(reschedules);
        let np = reschedules.len();
        let nj = store.len();
        let ghost plans = reschedules@;
        let ghost fids = reschedules.keys();
        let mut claimed: Vec<bool> = Vec::new();
        let mut c: usize = 0;
        while c < np
            invariant
                c <= np,
                claimed.len() == c,
                forall|q: int| 0 <= q < c ==> !claimed@[q],
            decreases np - c,
        {
            claimed.push(false);
            c += 1;
        }
        let mut txn = Transaction::new();
        let mut updates: Vec<ParallelUnitMapping> = Vec::new();
        let mut i: usize = 0;
        proof {
            store.lemma_view();
            reschedules.lemma_view();
            assert(updates.deep_view() =~= Seq::<ParallelUnitMappingView>::empty());
        }
        while i < nj
            invariant
                i <= nj,
                nj == store.keys().len(),
                np == reschedules.keys().len(),
                store.wf(),
                reschedules.wf(),
                store@ == self@,
                plans == reschedules@,
                fids == reschedules.keys(),
                fids == ascending(plans.dom()),
                store.keys() == job_ids(self@),
                fresh@.to_set() == fresh_actors(plans),
                claimed.len() == np,
                forall|q: int| 0 <= q < np ==> (claimed@[q] <==> !unclaimed(self@, fids[q], i as int)),
                rescheduled_upto(self@, plans, i as nat) == Some(
                    RescheduleOutcome { edits: txn@, updates: updates.deep_view() },
                ),
            decreases nj - i,
        {
            let stored = store.value_at(i);
            let key = store.key_at(i);
            let mut working: Option<TableFragments> = None;
            let ghost base = updates.deep_view();
            let ghost edits0 = txn@;
            let mut p: usize = 0;
            proof {
                store.lemma_view();
                assert(job_at(self@, i as int) == stored@);
                assert(base + Seq::<ParallelUnitMappingView>::empty() =~= base);
            }
            while p < np
                invariant
                    p <= np,
                    i < nj,
                    nj == store.keys().len(),
                    np == reschedules.keys().len(),
                    store.wf(),
                    reschedules.wf(),
                    store@ == self@,
                    plans == reschedules@,
                    fids == reschedules.keys(),
                    fids == ascending(plans.dom()),
                    store.keys() == job_ids(self@),
                    fresh@.to_set() == fresh_actors(plans),
                    job_at(self@, i as int) == stored@,
                    claimed.len() == np,
                    forall|q: int|
                        p <= q < np ==> (claimed@[q] <==> !unclaimed(self@, fids[q], i as int)),
                    forall|q: int|
                        0 <= q < p ==> (claimed@[q] <==> !unclaimed(self@, fids[q], i as int + 1)),
                    txn@ == edits0,
                    rescheduled_upto(self@, plans, i as nat) == Some(
                        RescheduleOutcome { edits: edits0, updates: base },
                    ),
                    job_rescheduled_upto(self@, i as int, plans, p as nat) matches Some(out)
                        && out.job == current(working, stored@) && out.touched == (working
                        is Some) && updates.deep_view() == base + out.updates,
                decreases np - p,
            {
                let fid = reschedules.key_at(p);
                let plan = reschedules.value_at(p);
                let present = stored.fragments.contains_key(fid);
                proof {
                    reschedules.lemma_view();
                    assert(plans[fid] == plan@);
                    assert(fids[p as int] == fid);
                    lemma_unclaimed_step(self@, fid, i as int, present);
                }
                if !claimed[p] && present {
                    if working.is_none() {
                        working = Some(stored.deep_clone());
                    }
                    let ok = match &mut working {
                        Some(job) => job.apply_reschedule(fid, plan, &fresh, &mut updates),
                        None => false,
                    };
                    if !ok {
                        proof {
                            assert(job_rescheduled_upto(self@, i as int, plans, (p + 1) as nat) is None);
                            lemma_job_reschedule_fails(
                                self@,
                                i as int,
                                plans,
                                (p + 1) as nat,
                                np as nat,
                            );
                            assert(rescheduled_upto(self@, plans, (i + 1) as nat) is None);
                            lemma_reschedule_fails(self@, plans, (i + 1) as nat, nj as nat);
                        }
                        return Err(MetaError::ConsistencyBug);
                    }
                    claimed.set(p, true);
                    proof {
                        let out = job_rescheduled_upto(self@, i as int, plans, (p + 1) as nat)->Some_0;
                        assert(updates.deep_view() =~= base + out.updates);
                    }
                }
                p += 1;
            }
            match working {
                Some(job) => {
                    txn.insert(key, job);
                },
                None => {},
            }
            proof {
                assert(forall|q: int|
                    0 <= q < np ==> (claimed@[q] <==> !unclaimed(self@, fids[q], i as int + 1)));
            }
            i += 1;
        }
        let mut q: usize = 0;
        while q < np
            invariant
                q <= np,
                claimed.len() == np,
                np == reschedules.keys().len(),
                reschedules.wf(),
                plans == reschedules@,
                fids == reschedules.keys(),
                nj == job_ids(self@).len(),
                forall|k: int|
                    0 <= k < np ==> (claimed@[k] <==> !unclaimed(self@, fids[k], nj as int)),
                forall|k: int| 0 <= k < q ==> claimed@[k],
            decreases np - q,
        {
            if !claimed[q] {
                proof {
                    reschedules.lemma_view();
                    assert(plans.contains_key(fids[q as int]));
                    assert(unclaimed(self@, fids[q as int], nj as int));
                }
                return Err(MetaError::ConsistencyBug);
            }
            q += 1;
        }
        proof {
            reschedules.lemma_view();
            assert forall|fid: FragmentId| #[trigger] plans.contains_key(fid) implies !unclaimed(
                self@,
                fid,
                job_ids(self@).len() as int,
            ) by {
                let k = fids.index_of(fid);
                assert(fids[k] == fid);
                assert(claimed@[k]);
            }
        }
        let mut notifications: Vec<Notification> = Vec::new();
        assert(notifications.deep_view() =~= Seq::<NotificationView>::empty());
        push_notifications(&mut notifications, Operation::Update, updates);
        Ok(PendingCommit { txn, notifications })
    }
}

/// Whether a fragment id is still unclaimed after one more job.
pub proof fn lemma_unclaimed_step(store: StoreView, fid: FragmentId, i: int, present: bool)
    requires
        0 <= i,
        present == job_at(store, i).fragments.contains_key(fid),
    ensures
        unclaimed(store, fid, i + 1) <==> unclaimed(store, fid, i) && !present,
{
    if unclaimed(store, fid, i) && !present {
        assert forall|j: int| 0 <= j < i + 1 implies !(#[trigger] job_at(
            store,
            j,
        )).fragments.contains_key(fid) by {
            if j < i {
            }
        }
    }
    if unclaimed(store, fid, i + 1) {
        assert(!job_at(store, i).fragments.contains_key(fid));
        assert forall|j: int| 0 <= j < i implies !(#[trigger] job_at(
            store,
            j,
        )).fragments.contains_key(fid) by {}
    }
}

} // verus!
