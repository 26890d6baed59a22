//! Applying reschedule plans keeps that the statuses cover the actors.

use crate::laws::invariants::{
    consistent, covering, every_job, has_actor, lemma_consistent_kept, lists,
    mappings_consistent, maps_to, serves, status_covers,
};
use crate::laws::kept::kept;
use crate::laws::shrunk::{
    lemma_downstream_rewired_lists, lemma_filter_draws, lemma_job_rescheduled_shrunk,
    lemma_upstream_rewired_lists, shrunk,
};
use crate::manager::reschedule::{
    claims, fresh_actors, job_at, job_ids, job_rescheduled_upto, rescheduled, rescheduled_upto, PlansView,
};
use crate::manager::transaction::{applied, StoreView};
use crate::model::common::{ActorId, FragmentId, ParallelUnitId, TableId};
use crate::model::reschedule::{
    actor_units, has_actor_id, resized_actors, stays, with_bitmap, RescheduleView,
};
use crate::model::table_fragments::TableFragmentsView;
use crate::ord_map::{ascending, lemma_ascending_total};
use vstd::prelude::*;

verus! {

/// The actors that the plan removes are listed by no fragment of `job`
/// but `fid`.
pub open spec fn removes_own(job: TableFragmentsView, fid: FragmentId, plan: RescheduleView) -> bool {
    forall|f2: FragmentId, i: int, a: ActorId|
        plan.removed_actors.contains(a) && #[trigger] lists(job, f2, i, a) ==> f2 == fid
}

/// Every plan removes only actors of its own fragment: the job that a plan
/// is for lists the actors that the plan removes in no fragment but the
/// plan's.
pub open spec fn plans_remove_own(store: StoreView, plans: PlansView) -> bool {
    forall|pos: int, fid: FragmentId|
        0 <= pos < job_ids(store).len() && plans.contains_key(fid) && #[trigger] claims(
            store,
            pos,
            fid,
        ) ==> removes_own(job_at(store, pos), fid, plans[fid])
}

/// Rewiring the upstream dispatchers keeps the statuses.
pub proof fn lemma_upstream_rewired_status(
    job: TableFragmentsView,
    plan: RescheduleView,
    fresh: Set<ActorId>,
    n: nat,
)
    requires
        n <= plan.upstream_fragment_dispatcher_ids.len(),
        job.upstream_rewired_upto(plan, fresh, n) is Some,
    ensures
        job.upstream_rewired_upto(plan, fresh, n)->Some_0.actor_status == job.actor_status,
    decreases n,
{
    if n > 0 {
        lemma_upstream_rewired_status(job, plan, fresh, (n - 1) as nat);
    }
}

/// Applying a plan that removes only actors of its own fragment keeps that
/// the statuses cover the actors.
pub proof fn lemma_rescheduled_covering(
    job: TableFragmentsView,
    fid: FragmentId,
    plan: RescheduleView,
    fresh: Set<ActorId>,
)
    requires
        job.rescheduled(fid, plan, fresh) is Some,
        status_covers(job),
        removes_own(job, fid, plan),
    ensures
        status_covers(job.rescheduled(fid, plan, fresh)->Some_0),
{
    let j1 = job.status_rescheduled(plan)->Some_0;
    let j2 = job.resized(fid, plan)->Some_0;
    let n = plan.upstream_fragment_dispatcher_ids.len();
    let j3 = j2.upstream_rewired_upto(plan, fresh, n)->Some_0;
    let j4 = j3.downstream_rewired(fid, plan, fresh)->Some_0;
    lemma_upstream_rewired_lists(j2, plan, fresh, n);
    lemma_upstream_rewired_status(j2, plan, fresh, n);
    lemma_downstream_rewired_lists(j3, fid, plan, fresh);
    assert(j4.actor_status == j2.actor_status);
    let gone = plan.gone();
    let f = job.fragments[fid];
    let mapped = f.actors.map_values(with_bitmap(plan.vnode_bitmap_updates));
    let kept = mapped.filter(stays(gone));
    assert(j2.fragments[fid].actors == kept);
    assert(j2.fragments.dom() =~= job.fragments.dom());
    lemma_filter_draws(mapped, stays(gone));
    assert forall|a: ActorId| #[trigger] j4.actor_status.contains_key(a) <==> has_actor(j4, a) by {
        assert(j2.actor_status.contains_key(a) <==> job.actor_status.contains_key(a)
            && !gone.contains(a));
        assert(job.actor_status.contains_key(a) <==> has_actor(job, a));
        if has_actor(j4, a) {
            let (g, i) = choose|g: FragmentId, i: int| lists(j4, g, i, a);
            assert(lists(j3, g, i, a));
            assert(lists(j2, g, i, a));
            if g == fid {
                assert(mapped.contains(kept[i]));
                let j = choose|j: int| 0 <= j < mapped.len() && mapped[j] == kept[i];
                assert(lists(job, fid, j, a));
                mapped.lemma_filter_pred(stays(gone), i);
            } else {
                assert(j2.fragments[g] == job.fragments[g]);
                assert(lists(job, g, i, a));
                if gone.contains(a) {
                    assert(plan.removed_actors.contains(a));
                }
            }
        }
        if has_actor(job, a) && !gone.contains(a) {
            let (g, i) = choose|g: FragmentId, i: int| lists(job, g, i, a);
            if g == fid {
                assert(stays(gone)(mapped[i]));
                mapped.lemma_filter_contains(stays(gone), i);
                let h = choose|h: int| 0 <= h < kept.len() && kept[h] == mapped[i];
                assert(lists(j2, fid, h, a));
                assert(lists(j3, fid, h, a));
                assert(lists(j4, fid, h, a));
            } else {
                assert(j2.fragments[g] == job.fragments[g]);
                assert(lists(j2, g, i, a));
                assert(lists(j3, g, i, a));
                assert(lists(j4, g, i, a));
            }
        }
    }
}

/// A plan that removes only actors of its own fragment does so in a
/// shrunk job too.
pub proof fn lemma_removes_own_shrunk(
    origin: TableFragmentsView,
    job: TableFragmentsView,
    fid: FragmentId,
    plan: RescheduleView,
)
    requires
        shrunk(origin, job),
        removes_own(origin, fid, plan),
    ensures
        removes_own(job, fid, plan),
{
    assert forall|f2: FragmentId, i: int, a: ActorId|
        plan.removed_actors.contains(a) && #[trigger] lists(job, f2, i, a) implies f2 == fid by {
        let j = choose|j: int| #[trigger] lists(origin, f2, j, a);
        assert(lists(origin, f2, j, a));
    }
}

/// Applying the plans that a job claims keeps that its statuses cover its
/// actors.
pub proof fn lemma_job_rescheduled_covering(store: StoreView, pos: int, plans: PlansView, n: nat)
    requires
        0 <= pos < job_ids(store).len(),
        n <= ascending(plans.dom()).len(),
        job_rescheduled_upto(store, pos, plans, n) is Some,
        status_covers(job_at(store, pos)),
        plans_remove_own(store, plans),
    ensures
        status_covers(job_rescheduled_upto(store, pos, plans, n)->Some_0.job),
    decreases n,
{
    lemma_ascending_total(plans.dom());
    if n > 0 {
        let was = job_rescheduled_upto(store, pos, plans, (n - 1) as nat)->Some_0;
        lemma_job_rescheduled_covering(store, pos, plans, (n - 1) as nat);
        lemma_job_rescheduled_shrunk(store, pos, plans, (n - 1) as nat);
        let fids = ascending(plans.dom());
        let fid = fids[n - 1];
        assert(fids.to_set().contains(fids[n - 1]));
        if claims(store, pos, fid) {
            assert(removes_own(job_at(store, pos), fid, plans[fid]));
            lemma_removes_own_shrunk(job_at(store, pos), was.job, fid, plans[fid]);
            lemma_rescheduled_covering(was.job, fid, plans[fid], fresh_actors(plans));
        }
    }
}

/// While plans are applied, every edit is a put of a job whose statuses
/// cover its actors.
pub proof fn lemma_rescheduled_edits_covering(store: StoreView, plans: PlansView, m: nat)
    requires
        m <= job_ids(store).len(),
        rescheduled_upto(store, plans, m) is Some,
        every_job(store, covering()),
        plans_remove_own(store, plans),
    ensures
        forall|k: TableId| #[trigger]
            rescheduled_upto(store, plans, m)->Some_0.edits.contains_key(k) ==> rescheduled_upto(
                store,
                plans,
                m,
            )->Some_0.edits[k] is Some && status_covers(
                rescheduled_upto(store, plans, m)->Some_0.edits[k]->Some_0,
            ),
    decreases m,
{
    lemma_ascending_total(store.dom());
    if m > 0 {
        let was = rescheduled_upto(store, plans, (m - 1) as nat)->Some_0;
        lemma_rescheduled_edits_covering(store, plans, (m - 1) as nat);
        let np = ascending(plans.dom()).len();
        let key = job_ids(store)[m - 1];
        assert(job_ids(store).to_set().contains(job_ids(store)[m - 1]));
        assert(store.contains_key(key));
        assert(covering()(store[key]));
        lemma_job_rescheduled_covering(store, m - 1, plans, np);
        let out = job_rescheduled_upto(store, m - 1, plans, np)->Some_0;
        let now = rescheduled_upto(store, plans, m)->Some_0;
        assert forall|k: TableId| #[trigger] now.edits.contains_key(k) implies now.edits[k] is Some
            && status_covers(now.edits[k]->Some_0) by {
            if out.touched && k == key {
            } else {
                assert(was.edits.contains_key(k));
            }
        }
    }
}

/// Applying reschedule plans keeps that the statuses cover the actors.
/// This holds where every plan removes only actors of its own fragment.
pub proof fn law_post_apply_keeps_covering(store: StoreView, plans: PlansView)
    requires
        rescheduled(store, plans) is Some,
        every_job(store, covering()),
        plans_remove_own(store, plans),
    ensures
        every_job(
            applied(store, rescheduled(store, plans)->Some_0.edits),
            covering(),
        ),
{
    let edits = rescheduled_upto(store, plans, job_ids(store).len())->Some_0.edits;
    let after = applied(store, edits);
    lemma_rescheduled_edits_covering(store, plans, job_ids(store).len());
    assert forall|k: TableId| #[trigger] after.contains_key(k) implies covering()(after[k]) by {
        if edits.contains_key(k) {
        } else {
            assert(store.contains_key(k));
            assert(covering()(store[k]));
        }
    }
}

/// Rewiring the upstream dispatchers keeps the fragments' vnode mappings.
pub proof fn lemma_upstream_rewired_mappings(
    job: TableFragmentsView,
    plan: RescheduleView,
    fresh: Set<ActorId>,
    n: nat,
)
    requires
        n <= plan.upstream_fragment_dispatcher_ids.len(),
        job.upstream_rewired_upto(plan, fresh, n) is Some,
    ensures
        job.upstream_rewired_upto(plan, fresh, n)->Some_0.fragments.dom() == job.fragments.dom(),
        forall|g: FragmentId| #[trigger]
            job.fragments.contains_key(g) ==> job.upstream_rewired_upto(
                plan,
                fresh,
                n,
            )->Some_0.fragments[g].vnode_mapping == job.fragments[g].vnode_mapping,
    decreases n,
{
    if n > 0 {
        let was = job.upstream_rewired_upto(plan, fresh, (n - 1) as nat)->Some_0;
        lemma_upstream_rewired_mappings(job, plan, fresh, (n - 1) as nat);
        let now = job.upstream_rewired_upto(plan, fresh, n)->Some_0;
        let (u, id) = plan.upstream_fragment_dispatcher_ids[n - 1];
        assert(was.fragments.contains_key(u));
        assert(now.fragments.dom() =~= job.fragments.dom());
    }
}

/// Rewiring around the rescheduled fragment keeps the job.
pub proof fn lemma_rewired_kept(
    job: TableFragmentsView,
    fid: FragmentId,
    plan: RescheduleView,
    fresh: Set<ActorId>,
)
    requires
        job.upstream_rewired_upto(plan, fresh, plan.upstream_fragment_dispatcher_ids.len()) is Some,
        job.upstream_rewired_upto(
            plan,
            fresh,
            plan.upstream_fragment_dispatcher_ids.len(),
        )->Some_0.downstream_rewired(fid, plan, fresh) is Some,
    ensures
        kept(
            job,
            job.upstream_rewired_upto(
                plan,
                fresh,
                plan.upstream_fragment_dispatcher_ids.len(),
            )->Some_0.downstream_rewired(fid, plan, fresh)->Some_0,
        ),
{
    let n = plan.upstream_fragment_dispatcher_ids.len();
    let j3 = job.upstream_rewired_upto(plan, fresh, n)->Some_0;
    let j4 = j3.downstream_rewired(fid, plan, fresh)->Some_0;
    lemma_upstream_rewired_lists(job, plan, fresh, n);
    lemma_upstream_rewired_status(job, plan, fresh, n);
    lemma_upstream_rewired_mappings(job, plan, fresh, n);
    lemma_downstream_rewired_lists(j3, fid, plan, fresh);
    assert(j4.actor_status == job.actor_status);
    assert forall|g: FragmentId, i: int, x: ActorId|
        #![trigger lists(job, g, i, x)]
        #![trigger lists(j4, g, i, x)]
        lists(job, g, i, x) <==> lists(j4, g, i, x) by {
        assert(lists(j3, g, i, x) <==> lists(job, g, i, x));
        assert(lists(j4, g, i, x) <==> lists(j3, g, i, x));
    }
    assert forall|g: FragmentId, x: int, p: ParallelUnitId|
        #![trigger maps_to(job, g, x, p)]
        #![trigger maps_to(j4, g, x, p)]
        maps_to(job, g, x, p) <==> maps_to(j4, g, x, p) by {
        if job.fragments.contains_key(g) {
            assert(j3.fragments[g].vnode_mapping == job.fragments[g].vnode_mapping);
            assert(j3.fragments.contains_key(g));
        }
        if j4.fragments.contains_key(g) {
            match plan.downstream_fragment_id {
                None => {},
                Some(d) => {
                    assert(j4.fragments.dom() =~= j3.fragments.dom());
                    if g != d {
                        assert(j4.fragments[g] == j3.fragments[g]);
                    }
                },
            }
        }
    }
}

/// A plan that removes actors from a fragment with a vnode mapping brings
/// the mapping to replace it.
pub open spec fn brings_mapping(job: TableFragmentsView, fid: FragmentId, plan: RescheduleView) -> bool {
    job.fragments.contains_key(fid) && job.fragments[fid].vnode_mapping is Some
        && plan.removed_actors.len() > 0 ==> plan.upstream_dispatcher_mapping is Some
}

/// Applying the plan to the statuses and to the fragment itself keeps the
/// vnode mappings consistent, provided the plan removes only actors of its
/// own fragment and brings a mapping if it removes actors from a fragment
/// that has one.
pub proof fn lemma_resized_consistent(job: TableFragmentsView, fid: FragmentId, plan: RescheduleView)
    requires
        job.resized(fid, plan) is Some,
        mappings_consistent(job),
        removes_own(job, fid, plan),
        brings_mapping(job, fid, plan),
    ensures
        mappings_consistent(job.resized(fid, plan)->Some_0),
{
    let j1 = job.status_rescheduled(plan)->Some_0;
    let j2 = job.resized(fid, plan)->Some_0;
    let gone = plan.gone();
    let f = job.fragments[fid];
    let mapped = f.actors.map_values(with_bitmap(plan.vnode_bitmap_updates));
    let kept_actors = resized_actors(f.actors, plan);
    assert(kept_actors == mapped.filter(stays(gone)));
    assert(j2.fragments[fid].actors == kept_actors);
    assert(j2.actor_status == j1.actor_status);
    assert(j2.fragments.dom() =~= job.fragments.dom());
    let converted = f.vnode_mapping is Some && plan.upstream_dispatcher_mapping is Some;
    assert forall|g: FragmentId, x: int, p: ParallelUnitId| #[trigger]
        maps_to(j2, g, x, p) implies serves(j2, g, p) by {
        if g != fid {
            assert(j2.fragments[g] == job.fragments[g]);
            assert(maps_to(job, g, x, p));
            assert(serves(job, g, p));
            let (i, act) = choose|i: int, act: ActorId|
                #[trigger] lists(job, g, i, act) && job.actor_status.contains_key(act)
                    && job.actor_status[act].parallel_unit is Some
                    && job.actor_status[act].parallel_unit->Some_0.id == p;
            if gone.contains(act) {
                assert(plan.removed_actors.contains(act));
            }
            assert(lists(j2, g, i, act));
            assert(j2.actor_status.contains_key(act));
        } else if converted {
            let am = plan.upstream_dispatcher_mapping->Some_0;
            let units = actor_units(kept_actors, j1.actor_status);
            let act = am.data[x];
            assert(units.contains_key(act));
            assert(has_actor_id(kept_actors, act));
            let i = choose|i: int| 0 <= i < kept_actors.len() && (#[trigger] kept_actors[i]).actor_id == act;
            assert(lists(j2, fid, i, act));
        } else {
            assert(j2.fragments[fid].vnode_mapping == f.vnode_mapping);
            assert(maps_to(job, fid, x, p));
            assert(plan.removed_actors.len() == 0);
            assert(gone =~= Set::<ActorId>::empty()) by {
                assert forall|a: ActorId| !gone.contains(a) by {
                    if plan.removed_actors.contains(a) {
                        let q = choose|q: int|
                            0 <= q < plan.removed_actors.len() && plan.removed_actors[q] == a;
                    }
                }
            }
            crate::laws::prepare::lemma_filter_all(mapped, stays(gone));
            assert(serves(job, fid, p));
            let (i, act) = choose|i: int, act: ActorId|
                #[trigger] lists(job, fid, i, act) && job.actor_status.contains_key(act)
                    && job.actor_status[act].parallel_unit is Some
                    && job.actor_status[act].parallel_unit->Some_0.id == p;
            assert(kept_actors[i].actor_id == act);
            assert(lists(j2, fid, i, act));
            assert(j2.actor_status.contains_key(act));
        }
    }
}

/// Applying a plan keeps the vnode mappings consistent, under the
/// provisions of [`lemma_resized_consistent`].
pub proof fn lemma_rescheduled_consistent(
    job: TableFragmentsView,
    fid: FragmentId,
    plan: RescheduleView,
    fresh: Set<ActorId>,
)
    requires
        job.rescheduled(fid, plan, fresh) is Some,
        mappings_consistent(job),
        removes_own(job, fid, plan),
        brings_mapping(job, fid, plan),
    ensures
        mappings_consistent(job.rescheduled(fid, plan, fresh)->Some_0),
{
    let j2 = job.resized(fid, plan)->Some_0;
    lemma_resized_consistent(job, fid, plan);
    lemma_rewired_kept(j2, fid, plan, fresh);
    lemma_consistent_kept(j2, job.rescheduled(fid, plan, fresh)->Some_0);
}

/// Applying a plan keeps which fragments have a vnode mapping.
pub proof fn lemma_rescheduled_mapping_presence(
    job: TableFragmentsView,
    fid: FragmentId,
    plan: RescheduleView,
    fresh: Set<ActorId>,
)
    requires
        job.rescheduled(fid, plan, fresh) is Some,
    ensures
        same_mapped(job, job.rescheduled(fid, plan, fresh)->Some_0),
{
    let j2 = job.resized(fid, plan)->Some_0;
    let n = plan.upstream_fragment_dispatcher_ids.len();
    let j3 = j2.upstream_rewired_upto(plan, fresh, n)->Some_0;
    let j4 = j3.downstream_rewired(fid, plan, fresh)->Some_0;
    lemma_upstream_rewired_mappings(j2, plan, fresh, n);
    assert(j2.fragments.dom() =~= job.fragments.dom());
    assert(j4.fragments.dom() =~= j3.fragments.dom());
    assert forall|g: FragmentId| #[trigger] job.fragments.contains_key(g) implies (
    job.fragments[g].vnode_mapping is Some <==> j4.fragments[g].vnode_mapping is Some) by {
        assert(j3.fragments[g].vnode_mapping == j2.fragments[g].vnode_mapping);
        match plan.downstream_fragment_id {
            None => {},
            Some(d) => {
                if g != d {
                    assert(j4.fragments[g] == j3.fragments[g]);
                }
            },
        }
        if g != fid {
            assert(j2.fragments[g] == job.fragments[g]);
        }
    }
}

/// The two jobs have the same fragments, and a fragment has a vnode
/// mapping in one exactly if it has one in the other.
pub open spec fn same_mapped(a: TableFragmentsView, b: TableFragmentsView) -> bool {
    &&& a.fragments.dom() == b.fragments.dom()
    &&& forall|g: FragmentId| #[trigger]
        a.fragments.contains_key(g) ==> (a.fragments[g].vnode_mapping is Some
            <==> b.fragments[g].vnode_mapping is Some)
}

/// Every plan removes only actors of its own fragment and brings a mapping
/// if it removes actors from a fragment that has one.
pub open spec fn plans_settle(store: StoreView, plans: PlansView) -> bool {
    forall|pos: int, fid: FragmentId|
        0 <= pos < job_ids(store).len() && plans.contains_key(fid) && #[trigger] claims(
            store,
            pos,
            fid,
        ) ==> removes_own(job_at(store, pos), fid, plans[fid]) && brings_mapping(
            job_at(store, pos),
            fid,
            plans[fid],
        )
}

/// Applying the plans that a job claims keeps its vnode mappings
/// consistent.
pub proof fn lemma_job_rescheduled_consistent(store: StoreView, pos: int, plans: PlansView, n: nat)
    requires
        0 <= pos < job_ids(store).len(),
        n <= ascending(plans.dom()).len(),
        job_rescheduled_upto(store, pos, plans, n) is Some,
        mappings_consistent(job_at(store, pos)),
        plans_settle(store, plans),
    ensures
        mappings_consistent(job_rescheduled_upto(store, pos, plans, n)->Some_0.job),
        same_mapped(job_at(store, pos), job_rescheduled_upto(store, pos, plans, n)->Some_0.job),
    decreases n,
{
    lemma_ascending_total(plans.dom());
    if n > 0 {
        let was = job_rescheduled_upto(store, pos, plans, (n - 1) as nat)->Some_0;
        lemma_job_rescheduled_consistent(store, pos, plans, (n - 1) as nat);
        lemma_job_rescheduled_shrunk(store, pos, plans, (n - 1) as nat);
        let fids = ascending(plans.dom());
        let fid = fids[n - 1];
        assert(fids.to_set().contains(fids[n - 1]));
        if claims(store, pos, fid) {
            let origin = job_at(store, pos);
            assert(removes_own(origin, fid, plans[fid]) && brings_mapping(origin, fid, plans[fid]));
            lemma_removes_own_shrunk(origin, was.job, fid, plans[fid]);
            assert(brings_mapping(was.job, fid, plans[fid])) by {
                if was.job.fragments.contains_key(fid) {
                    assert(origin.fragments.contains_key(fid));
                }
            }
            lemma_rescheduled_consistent(was.job, fid, plans[fid], fresh_actors(plans));
            lemma_rescheduled_mapping_presence(was.job, fid, plans[fid], fresh_actors(plans));
            let now = job_rescheduled_upto(store, pos, plans, n)->Some_0.job;
            assert(same_mapped(origin, now)) by {
                assert forall|g: FragmentId| #[trigger] origin.fragments.contains_key(g) implies (
                origin.fragments[g].vnode_mapping is Some <==> now.fragments[g].vnode_mapping
                    is Some) by {
                    assert(was.job.fragments.contains_key(g));
                }
            }
        }
    }
}

/// While plans are applied, every edit is a put of a job with consistent
/// vnode mappings.
pub proof fn lemma_rescheduled_edits_consistent(store: StoreView, plans: PlansView, m: nat)
    requires
        m <= job_ids(store).len(),
        rescheduled_upto(store, plans, m) is Some,
        every_job(store, consistent()),
        plans_settle(store, plans),
    ensures
        forall|k: TableId| #[trigger]
            rescheduled_upto(store, plans, m)->Some_0.edits.contains_key(k) ==> rescheduled_upto(
                store,
                plans,
                m,
            )->Some_0.edits[k] is Some && mappings_consistent(
                rescheduled_upto(store, plans, m)->Some_0.edits[k]->Some_0,
            ),
    decreases m,
{
    lemma_ascending_total(store.dom());
    if m > 0 {
        let was = rescheduled_upto(store, plans, (m - 1) as nat)->Some_0;
        lemma_rescheduled_edits_consistent(store, plans, (m - 1) as nat);
        let np = ascending(plans.dom()).len();
        let key = job_ids(store)[m - 1];
        assert(job_ids(store).to_set().contains(job_ids(store)[m - 1]));
        assert(store.contains_key(key));
        assert(consistent()(store[key]));
        lemma_job_rescheduled_consistent(store, m - 1, plans, np);
        let out = job_rescheduled_upto(store, m - 1, plans, np)->Some_0;
        let now = rescheduled_upto(store, plans, m)->Some_0;
        assert forall|k: TableId| #[trigger] now.edits.contains_key(k) implies now.edits[k] is Some
            && mappings_consistent(now.edits[k]->Some_0) by {
            if out.touched && k == key {
            } else {
                assert(was.edits.contains_key(k));
            }
        }
    }
}

/// Applying reschedule plans keeps the vnode mappings consistent. This
/// holds where every plan removes only actors of its own fragment and
/// brings a mapping if it removes actors from a fragment that has one.
pub proof fn law_post_apply_keeps_mappings_consistent(store: StoreView, plans: PlansView)
    requires
        rescheduled(store, plans) is Some,
        every_job(store, consistent()),
        plans_settle(store, plans),
    ensures
        every_job(
            applied(store, rescheduled(store, plans)->Some_0.edits),
            consistent(),
        ),
{
    let edits = rescheduled_upto(store, plans, job_ids(store).len())->Some_0.edits;
    let after = applied(store, edits);
    lemma_rescheduled_edits_consistent(store, plans, job_ids(store).len());
    assert forall|k: TableId| #[trigger] after.contains_key(k) implies consistent()(after[k]) by {
        if edits.contains_key(k) {
        } else {
            assert(store.contains_key(k));
            assert(consistent()(store[k]));
        }
    }
}

} // verus!
