//! Applying reschedule plans keeps the dispatchers closed.

use crate::laws::invariants::{
    closed, covering, dispatchers_closed, every_job, has_actor, lists, status_covers, targets_at,
};
use crate::laws::reschedule::{lemma_job_rescheduled_covering, plans_remove_own};
use crate::laws::shrunk::{
    lemma_downstream_rewired_lists, lemma_filter_draws, lemma_upstream_rewired_lists,
};
use crate::manager::reschedule::{
    claims, fresh_actors, job_at, job_ids, job_rescheduled_upto, rescheduled, rescheduled_upto, PlansView,
};
use crate::manager::transaction::{applied, StoreView};
use crate::model::common::{ActorId, DispatcherId, FragmentId, TableId};
use crate::model::reschedule::{stays, with_bitmap, RescheduleView};
use crate::model::stream::{not_in, retargeted};
use crate::model::table_fragments::TableFragmentsView;
use crate::ord_map::{ascending, lemma_ascending_total};
use vstd::prelude::*;

verus! {

/// The plan names dispatcher `id` of fragment `g` among its upstream
/// dispatchers, at position `from` or later.
pub open spec fn rewires(plan: RescheduleView, g: FragmentId, id: DispatcherId, from: int) -> bool {
    exists|q: int|
        from <= q < plan.upstream_fragment_dispatcher_ids.len() && 0 <= q
            && #[trigger] plan.upstream_fragment_dispatcher_ids[q] == (g, id)
}

/// Every target of a dispatcher of `job` is an actor of `origin`, and one
/// that the plan removes is held by a dispatcher that the plan still
/// rewires, from position `from` on, in an actor that was not just built.
pub open spec fn pending(
    origin: TableFragmentsView,
    job: TableFragmentsView,
    plan: RescheduleView,
    fresh: Set<ActorId>,
    from: int,
) -> bool {
    forall|g: FragmentId, i: int, d: int, t: int, x: ActorId| #[trigger]
        targets_at(job, g, i, d, t, x) ==> has_actor(origin, x) && (plan.gone().contains(x)
            ==> !fresh.contains(job.fragments[g].actors[i].actor_id) && rewires(
            plan,
            g,
            job.fragments[g].actors[i].dispatcher[d].dispatcher_id,
            from,
        ))
}

/// Every dispatcher of `job` that leads to an actor that the plan removes
/// is named by the plan and belongs to an actor that was not just built;
/// and the plan adds no actor that it removes.
pub open spec fn rewires_all(job: TableFragmentsView, plan: RescheduleView, fresh: Set<ActorId>) -> bool {
    &&& forall|g: FragmentId, i: int, d: int, t: int, x: ActorId|
        #[trigger] targets_at(job, g, i, d, t, x) && plan.gone().contains(x) ==> !fresh.contains(
            job.fragments[g].actors[i].actor_id,
        ) && rewires(plan, g, job.fragments[g].actors[i].dispatcher[d].dispatcher_id, 0)
    &&& forall|q: int|
        0 <= q < plan.added_actors.len() ==> !plan.gone().contains(#[trigger] plan.added_actors[q])
}

/// A member of a retargeted list is a member of the old list that stays,
/// or is added.
pub proof fn lemma_retargeted_member(s: Seq<ActorId>, gone: Set<ActorId>, added: Seq<ActorId>, t: int)
    requires
        0 <= t < retargeted(s, gone, added).len(),
    ensures
        (s.contains(retargeted(s, gone, added)[t]) && !gone.contains(retargeted(s, gone, added)[t]))
            || added.contains(retargeted(s, gone, added)[t]),
{
    let kept = s.filter(not_in(gone));
    let x = retargeted(s, gone, added)[t];
    if t < kept.len() {
        assert(kept[t] == x);
        assert(kept.contains(x));
        s.lemma_filter_contains_rev(not_in(gone), x);
        s.lemma_filter_pred(not_in(gone), t);
    } else {
        assert(added[t - kept.len()] == x);
    }
}

/// The job after the statuses and the fragment itself followed the plan
/// has only pending targets.
pub proof fn lemma_resized_pending(
    job: TableFragmentsView,
    fid: FragmentId,
    plan: RescheduleView,
    fresh: Set<ActorId>,
)
    requires
        job.resized(fid, plan) is Some,
        dispatchers_closed(job),
        rewires_all(job, plan, fresh),
    ensures
        pending(job, job.resized(fid, plan)->Some_0, plan, fresh, 0),
{
    let j2 = job.resized(fid, plan)->Some_0;
    let f = job.fragments[fid];
    let mapped = f.actors.map_values(with_bitmap(plan.vnode_bitmap_updates));
    let kept = mapped.filter(stays(plan.gone()));
    assert(j2.fragments[fid].actors == kept);
    assert(j2.fragments.dom() =~= job.fragments.dom());
    lemma_filter_draws(mapped, stays(plan.gone()));
    assert forall|g: FragmentId, i: int, d: int, t: int, x: ActorId| #[trigger]
        targets_at(j2, g, i, d, t, x) implies has_actor(job, x) && (plan.gone().contains(x)
        ==> !fresh.contains(j2.fragments[g].actors[i].actor_id) && rewires(
        plan,
        g,
        j2.fragments[g].actors[i].dispatcher[d].dispatcher_id,
        0,
    )) by {
        if g == fid {
            assert(mapped.contains(kept[i]));
            let j = choose|j: int| 0 <= j < mapped.len() && mapped[j] == kept[i];
            assert(mapped[j].dispatcher == f.actors[j].dispatcher);
            assert(targets_at(job, fid, j, d, t, x));
        } else {
            assert(j2.fragments[g] == job.fragments[g]);
            assert(targets_at(job, g, i, d, t, x));
        }
    }
}

/// Rewiring the upstream dispatchers leaves pending only what the plan
/// still rewires.
pub proof fn lemma_upstream_rewired_pending(
    origin: TableFragmentsView,
    job: TableFragmentsView,
    plan: RescheduleView,
    fresh: Set<ActorId>,
    n: nat,
)
    requires
        n <= plan.upstream_fragment_dispatcher_ids.len(),
        job.upstream_rewired_upto(plan, fresh, n) is Some,
        pending(origin, job, plan, fresh, 0),
        forall|q: int|
            0 <= q < plan.added_actors.len() ==> has_actor(origin, #[trigger] plan.added_actors[q])
                && !plan.gone().contains(plan.added_actors[q]),
    ensures
        pending(origin, job.upstream_rewired_upto(plan, fresh, n)->Some_0, plan, fresh, n as int),
    decreases n,
{
    if n > 0 {
        let was = job.upstream_rewired_upto(plan, fresh, (n - 1) as nat)->Some_0;
        lemma_upstream_rewired_pending(origin, job, plan, fresh, (n - 1) as nat);
        let now = job.upstream_rewired_upto(plan, fresh, n)->Some_0;
        let (u, id) = plan.upstream_fragment_dispatcher_ids[n - 1];
        assert(was.fragments.contains_key(u));
        let before = was.fragments[u];
        let f = before.dispatchers_rewired(plan, id, fresh)->Some_0;
        assert(now == was.with_fragment(u, f));
        assert forall|g: FragmentId, i: int, d: int, t: int, x: ActorId| #[trigger]
            targets_at(now, g, i, d, t, x) implies has_actor(origin, x) && (plan.gone().contains(x)
            ==> !fresh.contains(now.fragments[g].actors[i].actor_id) && rewires(
            plan,
            g,
            now.fragments[g].actors[i].dispatcher[d].dispatcher_id,
            n as int,
        )) by {
            if g == u {
                let a0 = before.actors[i];
                let a1 = f.actors[i];
                if fresh.contains(a0.actor_id) {
                    assert(a1 == a0);
                    assert(targets_at(was, g, i, d, t, x));
                } else {
                    let d0 = a0.dispatcher[d];
                    if d0.dispatcher_id == id {
                        assert(a1.dispatcher[d].downstream_actor_id == retargeted(
                            d0.downstream_actor_id,
                            plan.gone(),
                            plan.added_actors,
                        ));
                        lemma_retargeted_member(
                            d0.downstream_actor_id,
                            plan.gone(),
                            plan.added_actors,
                            t,
                        );
                        if plan.added_actors.contains(x) {
                            let q = choose|q: int|
                                0 <= q < plan.added_actors.len() && plan.added_actors[q] == x;
                            assert(has_actor(origin, plan.added_actors[q]));
                        } else {
                            let t0 = choose|t0: int|
                                0 <= t0 < d0.downstream_actor_id.len()
                                    && d0.downstream_actor_id[t0] == x;
                            assert(targets_at(was, g, i, d, t0, x));
                        }
                    } else {
                        assert(a1.dispatcher[d] == d0);
                        assert(targets_at(was, g, i, d, t, x));
                        if plan.gone().contains(x) {
                            let q = choose|q: int|
                                n - 1 <= q < plan.upstream_fragment_dispatcher_ids.len() && 0 <= q
                                    && #[trigger] plan.upstream_fragment_dispatcher_ids[q] == (
                                    g,
                                    d0.dispatcher_id,
                                );
                            assert(q != n - 1);
                            assert(n <= q < plan.upstream_fragment_dispatcher_ids.len() && 0 <= q
                                && plan.upstream_fragment_dispatcher_ids[q] == (
                                g,
                                d0.dispatcher_id,
                            ));
                        }
                    }
                }
            } else {
                assert(now.fragments[g] == was.fragments[g]);
                assert(targets_at(was, g, i, d, t, x));
                if plan.gone().contains(x) {
                    let did = was.fragments[g].actors[i].dispatcher[d].dispatcher_id;
                    let q = choose|q: int|
                        n - 1 <= q < plan.upstream_fragment_dispatcher_ids.len() && 0 <= q
                            && #[trigger] plan.upstream_fragment_dispatcher_ids[q] == (g, did);
                    assert(q != n - 1);
                    assert(n <= q < plan.upstream_fragment_dispatcher_ids.len() && 0 <= q
                        && plan.upstream_fragment_dispatcher_ids[q] == (g, did));
                }
            }
        }
    }
}

/// An actor of the job that the plan does not remove is an actor of the
/// rescheduled job.
pub proof fn lemma_rescheduled_keeps_actor(
    job: TableFragmentsView,
    fid: FragmentId,
    plan: RescheduleView,
    fresh: Set<ActorId>,
    x: ActorId,
)
    requires
        job.rescheduled(fid, plan, fresh) is Some,
        has_actor(job, x),
        !plan.gone().contains(x),
    ensures
        has_actor(job.rescheduled(fid, plan, fresh)->Some_0, x),
{
    let j2 = job.resized(fid, plan)->Some_0;
    let n = plan.upstream_fragment_dispatcher_ids.len();
    let j3 = j2.upstream_rewired_upto(plan, fresh, n)->Some_0;
    let j4 = j3.downstream_rewired(fid, plan, fresh)->Some_0;
    lemma_upstream_rewired_lists(j2, plan, fresh, n);
    lemma_downstream_rewired_lists(j3, fid, plan, fresh);
    let gone = plan.gone();
    let f = job.fragments[fid];
    let mapped = f.actors.map_values(with_bitmap(plan.vnode_bitmap_updates));
    let kept = mapped.filter(stays(gone));
    assert(j2.fragments[fid].actors == kept);
    assert(j2.fragments.dom() =~= job.fragments.dom());
    let (g, i) = choose|g: FragmentId, i: int| lists(job, g, i, x);
    if g == fid {
        assert(stays(gone)(mapped[i]));
        mapped.lemma_filter_contains(stays(gone), i);
        let h = choose|h: int| 0 <= h < kept.len() && kept[h] == mapped[i];
        assert(lists(j2, fid, h, x));
        assert(lists(j3, fid, h, x));
        assert(lists(j4, fid, h, x));
    } else {
        assert(j2.fragments[g] == job.fragments[g]);
        assert(lists(j2, g, i, x));
        assert(lists(j3, g, i, x));
        assert(lists(j4, g, i, x));
    }
}

/// Applying a plan keeps the dispatchers closed, provided the statuses
/// cover the actors and the plan rewires every dispatcher that leads to an
/// actor that it removes.
pub proof fn lemma_rescheduled_closed(
    job: TableFragmentsView,
    fid: FragmentId,
    plan: RescheduleView,
    fresh: Set<ActorId>,
)
    requires
        job.rescheduled(fid, plan, fresh) is Some,
        dispatchers_closed(job),
        status_covers(job),
        rewires_all(job, plan, fresh),
    ensures
        dispatchers_closed(job.rescheduled(fid, plan, fresh)->Some_0),
{
    let j2 = job.resized(fid, plan)->Some_0;
    let n = plan.upstream_fragment_dispatcher_ids.len();
    let j3 = j2.upstream_rewired_upto(plan, fresh, n)->Some_0;
    let j4 = j3.downstream_rewired(fid, plan, fresh)->Some_0;
    lemma_resized_pending(job, fid, plan, fresh);
    assert forall|q: int| 0 <= q < plan.added_actors.len() implies has_actor(
        job,
        #[trigger] plan.added_actors[q],
    ) && !plan.gone().contains(plan.added_actors[q]) by {
        assert(job.actor_status.contains_key(plan.added_actors[q]));
    }
    lemma_upstream_rewired_pending(job, j2, plan, fresh, n);
    assert forall|g: FragmentId, i: int, d: int, t: int, x: ActorId| #[trigger]
        targets_at(j4, g, i, d, t, x) implies has_actor(j4, x) by {
        assert(targets_at(j3, g, i, d, t, x)) by {
            match plan.downstream_fragment_id {
                None => {},
                Some(dn) => {
                    if g == dn {
                        let a3 = j3.fragments[dn].actors[i];
                        assert(j4.fragments[dn].actors[i].dispatcher == a3.dispatcher);
                    } else {
                        assert(j4.fragments[g] == j3.fragments[g]);
                    }
                },
            }
        }
        assert(has_actor(job, x));
        assert(!plan.gone().contains(x)) by {
            if plan.gone().contains(x) {
                let did = j3.fragments[g].actors[i].dispatcher[d].dispatcher_id;
                assert(rewires(plan, g, did, n as int));
            }
        }
        lemma_rescheduled_keeps_actor(job, fid, plan, fresh, x);
    }
}

/// Every plan, when its turn comes, rewires every dispatcher of its job
/// that leads to an actor that it removes, and adds no actor that it
/// removes.
pub open spec fn plans_rewire(store: StoreView, plans: PlansView) -> bool {
    forall|pos: int, n: int|
        0 <= pos < job_ids(store).len() && 0 <= n < ascending(plans.dom()).len() && claims(
            store,
            pos,
            ascending(plans.dom())[n],
        ) && #[trigger] job_rescheduled_upto(store, pos, plans, n as nat) is Some ==> rewires_all(
            job_rescheduled_upto(store, pos, plans, n as nat)->Some_0.job,
            plans[ascending(plans.dom())[n]],
            fresh_actors(plans),
        )
}

/// Applying the plans that a job claims keeps its dispatchers closed.
pub proof fn lemma_job_rescheduled_closed(store: StoreView, pos: int, plans: PlansView, n: nat)
    requires
        0 <= pos < job_ids(store).len(),
        n <= ascending(plans.dom()).len(),
        job_rescheduled_upto(store, pos, plans, n) is Some,
        dispatchers_closed(job_at(store, pos)),
        status_covers(job_at(store, pos)),
        plans_remove_own(store, plans),
        plans_rewire(store, plans),
    ensures
        dispatchers_closed(job_rescheduled_upto(store, pos, plans, n)->Some_0.job),
    decreases n,
{
    lemma_ascending_total(plans.dom());
    if n > 0 {
        let was = job_rescheduled_upto(store, pos, plans, (n - 1) as nat)->Some_0;
        lemma_job_rescheduled_closed(store, pos, plans, (n - 1) as nat);
        lemma_job_rescheduled_covering(store, pos, plans, (n - 1) as nat);
        let fids = ascending(plans.dom());
        let fid = fids[n - 1];
        if claims(store, pos, fid) {
            assert(job_rescheduled_upto(store, pos, plans, (n - 1) as nat) is Some);
            assert(rewires_all(was.job, plans[fid], fresh_actors(plans)));
            lemma_rescheduled_closed(was.job, fid, plans[fid], fresh_actors(plans));
        }
    }
}

/// While plans are applied, every edit is a put of a job with closed
/// dispatchers.
pub proof fn lemma_rescheduled_edits_closed(store: StoreView, plans: PlansView, m: nat)
    requires
        m <= job_ids(store).len(),
        rescheduled_upto(store, plans, m) is Some,
        every_job(store, closed()),
        every_job(store, covering()),
        plans_remove_own(store, plans),
        plans_rewire(store, plans),
    ensures
        forall|k: TableId| #[trigger]
            rescheduled_upto(store, plans, m)->Some_0.edits.contains_key(k) ==> rescheduled_upto(
                store,
                plans,
                m,
            )->Some_0.edits[k] is Some && dispatchers_closed(
                rescheduled_upto(store, plans, m)->Some_0.edits[k]->Some_0,
            ),
    decreases m,
{
    lemma_ascending_total(store.dom());
    if m > 0 {
        let was = rescheduled_upto(store, plans, (m - 1) as nat)->Some_0;
        lemma_rescheduled_edits_closed(store, plans, (m - 1) as nat);
        let np = ascending(plans.dom()).len();
        let key = job_ids(store)[m - 1];
        assert(job_ids(store).to_set().contains(job_ids(store)[m - 1]));
        assert(store.contains_key(key));
        assert(closed()(store[key]));
        assert(covering()(store[key]));
        lemma_job_rescheduled_closed(store, m - 1, plans, np);
        let out = job_rescheduled_upto(store, m - 1, plans, np)->Some_0;
        let now = rescheduled_upto(store, plans, m)->Some_0;
        assert forall|k: TableId| #[trigger] now.edits.contains_key(k) implies now.edits[k] is Some
            && dispatchers_closed(now.edits[k]->Some_0) by {
            if out.touched && k == key {
            } else {
                assert(was.edits.contains_key(k));
            }
        }
    }
}

/// Applying reschedule plans keeps the dispatchers closed. This holds
/// where the statuses cover the actors, every plan removes only actors of
/// its own fragment, and every plan rewires every dispatcher that leads to
/// an actor that it removes.
pub proof fn law_post_apply_keeps_closed(store: StoreView, plans: PlansView)
    requires
        rescheduled(store, plans) is Some,
        every_job(store, closed()),
        every_job(store, covering()),
        plans_remove_own(store, plans),
        plans_rewire(store, plans),
    ensures
        every_job(
            applied(store, rescheduled(store, plans)->Some_0.edits),
            closed(),
        ),
{
    let edits = rescheduled_upto(store, plans, job_ids(store).len())->Some_0.edits;
    let after = applied(store, edits);
    lemma_rescheduled_edits_closed(store, plans, job_ids(store).len());
    assert forall|k: TableId| #[trigger] after.contains_key(k) implies closed()(after[k]) by {
        if edits.contains_key(k) {
        } else {
            assert(store.contains_key(k));
            assert(closed()(store[k]));
        }
    }
}

} // verus!
