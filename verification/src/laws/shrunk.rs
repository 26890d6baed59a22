//! Removing actors keeps that no actor is listed twice.

use crate::laws::invariants::{
    actors_unique, closed, consistent, covering, dispatchers_closed, every_job, has_actor, lists,
    mappings_consistent, maps_to, serves, status_covers, targets_at,
};
use crate::manager::prepare::uncreated;
use crate::manager::reschedule::{
    job_at, job_ids, job_rescheduled_upto, rescheduled, rescheduled_upto, PlansView,
};
use crate::manager::transaction::{applied, StoreView};
use crate::model::common::{ActorId, FragmentId, ParallelUnitId, TableId};
use crate::model::created::LedgerView;
use crate::model::reschedule::{resized_actors, stays, with_bitmap, RescheduleView};
use crate::model::stream::StreamActorView;
use crate::model::table_fragments::TableFragmentsView;
use crate::ord_map::{ascending, lemma_ascending_total};
use vstd::prelude::*;

verus! {

/// No two places of fragment `fid` of `job` list the same actor.
pub open spec fn distinct_in(job: TableFragmentsView, fid: FragmentId) -> bool {
    forall|i1: int, i2: int, x: ActorId|
        #[trigger] lists(job, fid, i1, x) && #[trigger] lists(job, fid, i2, x) ==> i1 == i2
}

/// Every actor that `b` lists is listed by `a` in the same fragment, and a
/// fragment that lists no actor twice in `a` lists none twice in `b`.
pub open spec fn shrunk(a: TableFragmentsView, b: TableFragmentsView) -> bool {
    &&& forall|fid: FragmentId, i: int, x: ActorId| #[trigger]
        lists(b, fid, i, x) ==> exists|j: int| #[trigger] lists(a, fid, j, x)
    &&& forall|fid: FragmentId| #[trigger] distinct_in(a, fid) ==> distinct_in(b, fid)
}

/// No two places of `s` hold actors with the same id.
pub open spec fn ids_distinct(s: Seq<StreamActorView>) -> bool {
    forall|i1: int, i2: int|
        0 <= i1 < s.len() && 0 <= i2 < s.len() && (#[trigger] s[i1]).actor_id == (
        #[trigger] s[i2]).actor_id ==> i1 == i2
}

/// Every actor of `t` is an actor of `s`.
pub open spec fn drawn_from(s: Seq<StreamActorView>, t: Seq<StreamActorView>) -> bool {
    forall|i: int| 0 <= i < t.len() ==> s.contains(#[trigger] t[i])
}

/// Filtering draws from the sequence and keeps the ids distinct.
pub proof fn lemma_filter_draws(s: Seq<StreamActorView>, p: spec_fn(StreamActorView) -> bool)
    ensures
        drawn_from(s, s.filter(p)),
        ids_distinct(s) ==> ids_distinct(s.filter(p)),
    decreases s.len(),
{
    reveal(Seq::filter);
    if s.len() > 0 {
        let rest = s.drop_last();
        let last = s.last();
        lemma_filter_draws(rest, p);
        let f = s.filter(p);
        assert forall|i: int| 0 <= i < f.len() implies s.contains(#[trigger] f[i]) by {
            if i < rest.filter(p).len() {
                assert(rest.contains(rest.filter(p)[i]));
                let j = choose|j: int| 0 <= j < rest.len() && rest[j] == f[i];
                assert(s[j] == f[i]);
            } else {
                assert(s[s.len() - 1] == f[i]);
            }
        }
        if ids_distinct(s) {
            assert(ids_distinct(rest)) by {
                assert forall|i1: int, i2: int|
                    0 <= i1 < rest.len() && 0 <= i2 < rest.len() && (#[trigger] rest[i1]).actor_id
                        == (#[trigger] rest[i2]).actor_id implies i1 == i2 by {
                    assert(s[i1].actor_id == s[i2].actor_id);
                }
            }
            let g = rest.filter(p);
            assert forall|i1: int, i2: int|
                0 <= i1 < f.len() && 0 <= i2 < f.len() && (#[trigger] f[i1]).actor_id == (
                #[trigger] f[i2]).actor_id implies i1 == i2 by {
                if i1 < g.len() && i2 < g.len() {
                    assert(g[i1].actor_id == g[i2].actor_id);
                } else if i1 < g.len() {
                    assert(rest.contains(g[i1]));
                    let j = choose|j: int| 0 <= j < rest.len() && rest[j] == g[i1];
                    assert(s[j].actor_id == s[s.len() - 1].actor_id);
                } else if i2 < g.len() {
                    assert(rest.contains(g[i2]));
                    let j = choose|j: int| 0 <= j < rest.len() && rest[j] == g[i2];
                    assert(s[j].actor_id == s[s.len() - 1].actor_id);
                }
            }
        }
    }
}

/// A job in which one fragment lost actors by a filter, after its actors
/// were mapped by a function that keeps their ids, and whose other
/// fragments list the same actors as before, is shrunk.
pub proof fn lemma_shrunk_by_filter(
    a: TableFragmentsView,
    b: TableFragmentsView,
    fid: FragmentId,
    mapped: Seq<StreamActorView>,
    p: spec_fn(StreamActorView) -> bool,
)
    requires
        a.fragments.contains_key(fid),
        b.fragments.dom() == a.fragments.dom(),
        mapped.len() == a.fragments[fid].actors.len(),
        forall|i: int|
            0 <= i < mapped.len() ==> (#[trigger] mapped[i]).actor_id
                == a.fragments[fid].actors[i].actor_id,
        b.fragments[fid].actors == mapped.filter(p),
        forall|f: FragmentId, i: int, x: ActorId|
            f != fid ==> (#[trigger] lists(b, f, i, x) <==> lists(a, f, i, x)),
    ensures
        shrunk(a, b),
{
    lemma_filter_draws(mapped, p);
    let kept = mapped.filter(p);
    assert forall|f: FragmentId, i: int, x: ActorId| #[trigger] lists(b, f, i, x) implies exists|
        j: int,
    | #[trigger] lists(a, f, j, x) by {
        if f == fid {
            assert(mapped.contains(kept[i]));
            let j = choose|j: int| 0 <= j < mapped.len() && mapped[j] == kept[i];
            assert(lists(a, fid, j, x));
        } else {
            assert(lists(a, f, i, x));
        }
    }
    assert forall|f: FragmentId| #[trigger] distinct_in(a, f) implies distinct_in(b, f) by {
        if f == fid {
            assert(ids_distinct(mapped)) by {
                assert forall|i1: int, i2: int|
                    0 <= i1 < mapped.len() && 0 <= i2 < mapped.len() && (
                    #[trigger] mapped[i1]).actor_id == (#[trigger] mapped[i2]).actor_id implies i1
                    == i2 by {
                    let x = mapped[i1].actor_id;
                    assert(lists(a, fid, i1, x) && lists(a, fid, i2, x));
                }
            }
            assert forall|i1: int, i2: int, x: ActorId|
                #[trigger] lists(b, f, i1, x) && #[trigger] lists(b, f, i2, x) implies i1 == i2 by {
                assert(kept[i1].actor_id == kept[i2].actor_id);
            }
        } else {
            assert forall|i1: int, i2: int, x: ActorId|
                #[trigger] lists(b, f, i1, x) && #[trigger] lists(b, f, i2, x) implies i1 == i2 by {
                assert(lists(a, f, i1, x) && lists(a, f, i2, x));
            }
        }
    }
}

/// A job that lists the same actors at the same places is shrunk.
pub proof fn lemma_shrunk_same(a: TableFragmentsView, b: TableFragmentsView)
    requires
        forall|f: FragmentId, i: int, x: ActorId|
            #![trigger lists(a, f, i, x)]
            #![trigger lists(b, f, i, x)]
            lists(b, f, i, x) <==> lists(a, f, i, x),
    ensures
        shrunk(a, b),
{
    assert forall|f: FragmentId, i: int, x: ActorId| #[trigger] lists(b, f, i, x) implies exists|
        j: int,
    | #[trigger] lists(a, f, j, x) by {
        assert(lists(a, f, i, x));
    }
    assert forall|f: FragmentId| #[trigger] distinct_in(a, f) implies distinct_in(b, f) by {
        assert forall|i1: int, i2: int, x: ActorId|
            #[trigger] lists(b, f, i1, x) && #[trigger] lists(b, f, i2, x) implies i1 == i2 by {
            assert(lists(a, f, i1, x) && lists(a, f, i2, x));
        }
    }
}

/// Shrinking composes.
pub proof fn lemma_shrunk_transitive(a: TableFragmentsView, b: TableFragmentsView, c: TableFragmentsView)
    requires
        shrunk(a, b),
        shrunk(b, c),
    ensures
        shrunk(a, c),
{
    assert forall|f: FragmentId, i: int, x: ActorId| #[trigger] lists(c, f, i, x) implies exists|
        j: int,
    | #[trigger] lists(a, f, j, x) by {
        let j = choose|j: int| #[trigger] lists(b, f, j, x);
        let h = choose|h: int| #[trigger] lists(a, f, h, x);
        assert(lists(a, f, h, x));
    }
    assert forall|f: FragmentId| #[trigger] distinct_in(a, f) implies distinct_in(c, f) by {
        assert(distinct_in(b, f));
    }
}

/// A store whose jobs are shrunk jobs of a store without doubly listed
/// actors has no doubly listed actors.
pub proof fn lemma_unique_shrunk(before: StoreView, after: StoreView)
    requires
        actors_unique(before),
        forall|k: TableId| #[trigger]
            after.contains_key(k) ==> before.contains_key(k) && shrunk(before[k], after[k]),
    ensures
        actors_unique(after),
{
    assert forall|
        k1: TableId,
        f1: FragmentId,
        i1: int,
        k2: TableId,
        f2: FragmentId,
        i2: int,
        a: ActorId,
    |
        after.contains_key(k1) && #[trigger] lists(after[k1], f1, i1, a) && after.contains_key(k2)
            && #[trigger] lists(after[k2], f2, i2, a) implies k1 == k2 && f1 == f2 && i1 == i2 by {
        let j1 = choose|j1: int| #[trigger] lists(before[k1], f1, j1, a);
        let j2 = choose|j2: int| #[trigger] lists(before[k2], f2, j2, a);
        assert(lists(before[k1], f1, j1, a) && lists(before[k2], f2, j2, a));
        assert(k1 == k2 && f1 == f2);
        assert(distinct_in(before[k1], f1)) by {
            assert forall|h1: int, h2: int, x: ActorId|
                #[trigger] lists(before[k1], f1, h1, x) && #[trigger] lists(before[k1], f1, h2, x)
                implies h1 == h2 by {}
        }
        assert(distinct_in(after[k1], f1));
    }
}

/// Taking the listed actors out of a job shrinks it.
pub proof fn lemma_uncreated_shrunk(job: TableFragmentsView, ledger: LedgerView)
    ensures
        shrunk(job, job.without_created(ledger)),
{
    let now = job.without_created(ledger);
    assert(now.fragments.dom() =~= job.fragments.dom());
    assert forall|f: FragmentId, i: int, x: ActorId| #[trigger] lists(now, f, i, x) implies exists|
        j: int,
    | #[trigger] lists(job, f, j, x) by {
        if ledger.contains_key(f) {
            let p = stays(ledger[f].to_set());
            lemma_filter_draws(job.fragments[f].actors, p);
            let kept = job.fragments[f].actors.filter(p);
            assert(job.fragments[f].actors.contains(kept[i]));
            let j = choose|j: int|
                0 <= j < job.fragments[f].actors.len() && job.fragments[f].actors[j] == kept[i];
            assert(lists(job, f, j, x));
        } else {
            assert(lists(job, f, i, x));
        }
    }
    assert forall|f: FragmentId| #[trigger] distinct_in(job, f) implies distinct_in(now, f) by {
        if job.fragments.contains_key(f) && ledger.contains_key(f) {
            let s = job.fragments[f].actors;
            let p = stays(ledger[f].to_set());
            lemma_filter_draws(s, p);
            assert(ids_distinct(s)) by {
                assert forall|i1: int, i2: int|
                    0 <= i1 < s.len() && 0 <= i2 < s.len() && (#[trigger] s[i1]).actor_id == (
                    #[trigger] s[i2]).actor_id implies i1 == i2 by {
                    let x = s[i1].actor_id;
                    assert(lists(job, f, i1, x) && lists(job, f, i2, x));
                }
            }
            let kept = s.filter(p);
            assert forall|i1: int, i2: int, x: ActorId|
                #[trigger] lists(now, f, i1, x) && #[trigger] lists(now, f, i2, x) implies i1
                == i2 by {
                assert(kept[i1].actor_id == kept[i2].actor_id);
            }
        } else {
            assert forall|i1: int, i2: int, x: ActorId|
                #[trigger] lists(now, f, i1, x) && #[trigger] lists(now, f, i2, x) implies i1
                == i2 by {
                assert(lists(job, f, i1, x) && lists(job, f, i2, x));
            }
        }
    }
}

/// Taking built actors out of the store keeps that no actor is listed
/// twice.
pub proof fn law_cancel_apply_keeps_unique(store: StoreView, ledger: LedgerView)
    requires
        actors_unique(store),
    ensures
        actors_unique(store.map_values(uncreated(ledger))),
{
    let after = store.map_values(uncreated(ledger));
    assert forall|k: TableId| #[trigger] after.contains_key(k) implies store.contains_key(k)
        && shrunk(store[k], after[k]) by {
        lemma_uncreated_shrunk(store[k], ledger);
    }
    lemma_unique_shrunk(store, after);
}

/// The actors that `ledger` lists for a fragment of `job` are listed by no
/// other fragment of `job`.
pub open spec fn lists_own(job: TableFragmentsView, ledger: LedgerView) -> bool {
    forall|fid: FragmentId, f2: FragmentId, i: int, a: ActorId|
        job.fragments.contains_key(fid) && #[trigger] ledger.contains_key(fid)
            && ledger[fid].contains(a) && #[trigger] lists(job, f2, i, a) ==> f2 == fid
}

/// The predicate [`lists_own`] for a ledger.
pub open spec fn listing_own(ledger: LedgerView) -> spec_fn(TableFragmentsView) -> bool {
    |job: TableFragmentsView| lists_own(job, ledger)
}

/// Taking the listed actors out of a job keeps that its statuses cover its
/// actors, provided the ledger lists each actor under the fragment that
/// lists it.
pub proof fn lemma_uncreated_covering(job: TableFragmentsView, ledger: LedgerView)
    requires
        status_covers(job),
        lists_own(job, ledger),
    ensures
        status_covers(job.without_created(ledger)),
{
    let now = job.without_created(ledger);
    assert(now.fragments.dom() =~= job.fragments.dom());
    assert forall|a: ActorId| #[trigger] now.actor_status.contains_key(a) <==> has_actor(now, a) by {
        assert(job.actor_status.contains_key(a) <==> has_actor(job, a));
        let listed = job.listed_in(ledger).contains(a);
        if has_actor(now, a) {
            let (g, i) = choose|g: FragmentId, i: int| lists(now, g, i, a);
            if ledger.contains_key(g) {
                let p = stays(ledger[g].to_set());
                let src = job.fragments[g].actors;
                lemma_filter_draws(src, p);
                let kept = src.filter(p);
                assert(src.contains(kept[i]));
                let j = choose|j: int| 0 <= j < src.len() && src[j] == kept[i];
                assert(lists(job, g, j, a));
                src.lemma_filter_pred(p, i);
                assert(!ledger[g].contains(a));
                if listed {
                    let fid = choose|fid: FragmentId|
                        job.fragments.contains_key(fid) && #[trigger] ledger.contains_key(fid)
                            && ledger[fid].contains(a);
                    assert(g == fid);
                }
            } else {
                assert(lists(job, g, i, a));
                if listed {
                    let fid = choose|fid: FragmentId|
                        job.fragments.contains_key(fid) && #[trigger] ledger.contains_key(fid)
                            && ledger[fid].contains(a);
                    assert(g == fid);
                }
            }
        }
        if has_actor(job, a) && !listed {
            let (g, i) = choose|g: FragmentId, i: int| lists(job, g, i, a);
            if ledger.contains_key(g) {
                let p = stays(ledger[g].to_set());
                let src = job.fragments[g].actors;
                assert(!ledger[g].contains(a)) by {
                    if ledger[g].contains(a) {
                        assert(job.fragments.contains_key(g) && ledger.contains_key(g)
                            && ledger[g].contains(a));
                    }
                }
                assert(p(src[i]));
                src.lemma_filter_contains(p, i);
                let kept = src.filter(p);
                let h = choose|h: int| 0 <= h < kept.len() && kept[h] == src[i];
                assert(lists(now, g, h, a));
            } else {
                assert(lists(now, g, i, a));
            }
        }
    }
}

/// Taking built actors out of the store keeps that the statuses cover the
/// actors, provided the ledger lists each actor under the fragment that
/// lists it.
pub proof fn law_cancel_apply_keeps_covering(store: StoreView, ledger: LedgerView)
    requires
        every_job(store, covering()),
        every_job(store, listing_own(ledger)),
    ensures
        every_job(store.map_values(uncreated(ledger)), covering()),
{
    let after = store.map_values(uncreated(ledger));
    assert forall|k: TableId| #[trigger] after.contains_key(k) implies covering()(after[k]) by {
        assert(store.contains_key(k));
        assert(covering()(store[k]));
        assert(listing_own(ledger)(store[k]));
        lemma_uncreated_covering(store[k], ledger);
    }
}

/// No dispatcher of `job` leads to an actor that `ledger` lists for a
/// fragment of `job`.
pub open spec fn leads_past(job: TableFragmentsView, ledger: LedgerView) -> bool {
    forall|fid: FragmentId, i: int, d: int, t: int, x: ActorId| #[trigger]
        targets_at(job, fid, i, d, t, x) ==> !job.listed_in(ledger).contains(x)
}

/// The predicate [`leads_past`] for a ledger.
pub open spec fn leading_past(ledger: LedgerView) -> spec_fn(TableFragmentsView) -> bool {
    |job: TableFragmentsView| leads_past(job, ledger)
}

/// An actor of `job` that `ledger` does not list for a fragment of `job`
/// is an actor of the job without the listed actors.
pub proof fn lemma_unlisted_stays(job: TableFragmentsView, ledger: LedgerView, x: ActorId)
    requires
        has_actor(job, x),
        !job.listed_in(ledger).contains(x),
    ensures
        has_actor(job.without_created(ledger), x),
{
    let now = job.without_created(ledger);
    assert(now.fragments.dom() =~= job.fragments.dom());
    let (g, i) = choose|g: FragmentId, i: int| lists(job, g, i, x);
    if ledger.contains_key(g) {
        let p = stays(ledger[g].to_set());
        let src = job.fragments[g].actors;
        assert(!ledger[g].contains(x)) by {
            if ledger[g].contains(x) {
                assert(job.fragments.contains_key(g) && ledger.contains_key(g)
                    && ledger[g].contains(x));
            }
        }
        assert(p(src[i]));
        src.lemma_filter_contains(p, i);
        let kept = src.filter(p);
        let h = choose|h: int| 0 <= h < kept.len() && kept[h] == src[i];
        assert(lists(now, g, h, x));
    } else {
        assert(lists(now, g, i, x));
    }
}

/// Taking the listed actors out of a job keeps its dispatchers closed,
/// provided no dispatcher leads to a listed actor.
pub proof fn lemma_uncreated_closed(job: TableFragmentsView, ledger: LedgerView)
    requires
        dispatchers_closed(job),
        leads_past(job, ledger),
    ensures
        dispatchers_closed(job.without_created(ledger)),
{
    let now = job.without_created(ledger);
    assert(now.fragments.dom() =~= job.fragments.dom());
    assert forall|g: FragmentId, i: int, d: int, t: int, x: ActorId| #[trigger]
        targets_at(now, g, i, d, t, x) implies has_actor(now, x) by {
        let src = job.fragments[g].actors;
        if ledger.contains_key(g) {
            let p = stays(ledger[g].to_set());
            lemma_filter_draws(src, p);
            let kept = src.filter(p);
            assert(src.contains(kept[i]));
            let j = choose|j: int| 0 <= j < src.len() && src[j] == kept[i];
            assert(targets_at(job, g, j, d, t, x));
        } else {
            assert(targets_at(job, g, i, d, t, x));
        }
        assert(has_actor(job, x));
        lemma_unlisted_stays(job, ledger, x);
    }
}

/// Every parallel unit that a vnode mapping of `job` names serves an actor
/// of the mapping's fragment that `ledger` does not list for a fragment of
/// `job`.
pub open spec fn served_past(job: TableFragmentsView, ledger: LedgerView) -> bool {
    forall|fid: FragmentId, x: int, p: ParallelUnitId| #[trigger]
        maps_to(job, fid, x, p) ==> exists|i: int, a: ActorId|
            #[trigger] lists(job, fid, i, a) && job.actor_status.contains_key(a)
                && job.actor_status[a].parallel_unit is Some
                && job.actor_status[a].parallel_unit->Some_0.id == p && !job.listed_in(
                ledger,
            ).contains(a)
}

/// The predicate [`served_past`] for a ledger.
pub open spec fn serving_past(ledger: LedgerView) -> spec_fn(TableFragmentsView) -> bool {
    |job: TableFragmentsView| served_past(job, ledger)
}

/// Taking the listed actors out of a job keeps its vnode mappings
/// consistent, provided every unit that a mapping names serves an actor
/// that stays.
pub proof fn lemma_uncreated_consistent(job: TableFragmentsView, ledger: LedgerView)
    requires
        served_past(job, ledger),
    ensures
        mappings_consistent(job.without_created(ledger)),
{
    let now = job.without_created(ledger);
    assert(now.fragments.dom() =~= job.fragments.dom());
    assert forall|g: FragmentId, x: int, p: ParallelUnitId| #[trigger]
        maps_to(now, g, x, p) implies serves(now, g, p) by {
        assert(maps_to(job, g, x, p));
        let (i, a) = choose|i: int, a: ActorId|
            #[trigger] lists(job, g, i, a) && job.actor_status.contains_key(a)
                && job.actor_status[a].parallel_unit is Some
                && job.actor_status[a].parallel_unit->Some_0.id == p && !job.listed_in(
                ledger,
            ).contains(a);
        let src = job.fragments[g].actors;
        if ledger.contains_key(g) {
            let pr = stays(ledger[g].to_set());
            assert(!ledger[g].contains(a)) by {
                if ledger[g].contains(a) {
                    assert(job.fragments.contains_key(g) && ledger.contains_key(g)
                        && ledger[g].contains(a));
                }
            }
            assert(pr(src[i]));
            src.lemma_filter_contains(pr, i);
            let kept = src.filter(pr);
            let h = choose|h: int| 0 <= h < kept.len() && kept[h] == src[i];
            assert(lists(now, g, h, a));
        } else {
            assert(lists(now, g, i, a));
        }
        assert(now.actor_status.contains_key(a));
    }
}

/// Taking built actors out of the store keeps the dispatchers closed and
/// the vnode mappings consistent, provided no dispatcher leads to a listed
/// actor and every unit that a mapping names serves an actor that stays.
pub proof fn law_cancel_apply_keeps_closed_and_consistent(store: StoreView, ledger: LedgerView)
    ensures
        every_job(store, closed()) && every_job(store, leading_past(ledger)) ==> every_job(
            store.map_values(uncreated(ledger)),
            closed(),
        ),
        every_job(store, serving_past(ledger)) ==> every_job(
            store.map_values(uncreated(ledger)),
            consistent(),
        ),
{
    let after = store.map_values(uncreated(ledger));
    if every_job(store, closed()) && every_job(store, leading_past(ledger)) {
        assert forall|k: TableId| #[trigger] after.contains_key(k) implies closed()(after[k]) by {
            assert(store.contains_key(k));
            assert(closed()(store[k]));
            assert(leading_past(ledger)(store[k]));
            lemma_uncreated_closed(store[k], ledger);
        }
    }
    if every_job(store, serving_past(ledger)) {
        assert forall|k: TableId| #[trigger] after.contains_key(k) implies consistent()(
            after[k],
        ) by {
            assert(store.contains_key(k));
            assert(serving_past(ledger)(store[k]));
            lemma_uncreated_consistent(store[k], ledger);
        }
    }
}

/// Applying the plan to the fragment itself shrinks the job.
pub proof fn lemma_resized_shrunk(job: TableFragmentsView, fid: FragmentId, plan: RescheduleView)
    requires
        job.resized(fid, plan) is Some,
    ensures
        shrunk(job, job.resized(fid, plan)->Some_0),
        job.resized(fid, plan)->Some_0.fragments.dom() == job.fragments.dom(),
{
    let j1 = job.status_rescheduled(plan)->Some_0;
    let j2 = j1.fragment_resized(fid, plan)->Some_0;
    assert(j1.fragments == job.fragments);
    let f = job.fragments[fid];
    let mapped = f.actors.map_values(with_bitmap(plan.vnode_bitmap_updates));
    assert(j2.fragments[fid].actors == resized_actors(f.actors, plan));
    assert(j2.fragments.dom() =~= job.fragments.dom());
    assert forall|g: FragmentId, i: int, x: ActorId|
        g != fid implies (#[trigger] lists(j2, g, i, x) <==> lists(job, g, i, x)) by {
        if job.fragments.contains_key(g) {
            assert(j2.fragments[g] == job.fragments[g]);
        }
    }
    lemma_shrunk_by_filter(job, j2, fid, mapped, stays(plan.gone()));
}

/// Rewiring the upstream dispatchers keeps the actors where they are.
pub proof fn lemma_upstream_rewired_lists(
    job: TableFragmentsView,
    plan: RescheduleView,
    fresh: Set<ActorId>,
    n: nat,
)
    requires
        n <= plan.upstream_fragment_dispatcher_ids.len(),
        job.upstream_rewired_upto(plan, fresh, n) is Some,
    ensures
        forall|f: FragmentId, i: int, x: ActorId|
            #![trigger lists(job, f, i, x)]
            #![trigger lists(job.upstream_rewired_upto(plan, fresh, n)->Some_0, f, i, x)]
            lists(job.upstream_rewired_upto(plan, fresh, n)->Some_0, f, i, x) <==> lists(
                job,
                f,
                i,
                x,
            ),
    decreases n,
{
    if n > 0 {
        let was = job.upstream_rewired_upto(plan, fresh, (n - 1) as nat)->Some_0;
        lemma_upstream_rewired_lists(job, plan, fresh, (n - 1) as nat);
        let now = job.upstream_rewired_upto(plan, fresh, n)->Some_0;
        let (u, id) = plan.upstream_fragment_dispatcher_ids[n - 1];
        assert(was.fragments.contains_key(u));
        let f = was.fragments[u].dispatchers_rewired(plan, id, fresh)->Some_0;
        assert(now == was.with_fragment(u, f));
        assert forall|g: FragmentId, i: int, x: ActorId|
            #![trigger lists(job, g, i, x)]
            #![trigger lists(now, g, i, x)]
            lists(now, g, i, x) <==> lists(job, g, i, x) by {
            assert(lists(was, g, i, x) <==> lists(job, g, i, x));
            if g == u {
                assert(f.actors.len() == was.fragments[u].actors.len());
                if 0 <= i < f.actors.len() {
                    assert(f.actors[i].actor_id == was.fragments[u].actors[i].actor_id);
                }
            } else {
                if was.fragments.contains_key(g) {
                    assert(now.fragments[g] == was.fragments[g]);
                }
            }
        }
    }
}

/// Rewiring the downstream merge side keeps the actors where they are.
pub proof fn lemma_downstream_rewired_lists(
    job: TableFragmentsView,
    fid: FragmentId,
    plan: RescheduleView,
    fresh: Set<ActorId>,
)
    requires
        job.downstream_rewired(fid, plan, fresh) is Some,
    ensures
        forall|f: FragmentId, i: int, x: ActorId|
            #![trigger lists(job, f, i, x)]
            #![trigger lists(job.downstream_rewired(fid, plan, fresh)->Some_0, f, i, x)]
            lists(job.downstream_rewired(fid, plan, fresh)->Some_0, f, i, x) <==> lists(
                job,
                f,
                i,
                x,
            ),
{
    let now = job.downstream_rewired(fid, plan, fresh)->Some_0;
    match plan.downstream_fragment_id {
        None => {},
        Some(d) => {
            let f = job.fragments[d].upstream_rewired(plan, fid, fresh)->Some_0;
            assert(now == job.with_fragment(d, f));
            assert forall|g: FragmentId, i: int, x: ActorId|
                #![trigger lists(job, g, i, x)]
                #![trigger lists(now, g, i, x)]
                lists(now, g, i, x) <==> lists(job, g, i, x) by {
                if g == d {
                    assert(f.actors.len() == job.fragments[d].actors.len());
                    if 0 <= i < f.actors.len() {
                        assert(f.actors[i].actor_id == job.fragments[d].actors[i].actor_id);
                    }
                } else {
                    if job.fragments.contains_key(g) {
                        assert(now.fragments[g] == job.fragments[g]);
                    }
                }
            }
        },
    }
}

/// Applying a plan shrinks the job.
pub proof fn lemma_rescheduled_shrunk(
    job: TableFragmentsView,
    fid: FragmentId,
    plan: RescheduleView,
    fresh: Set<ActorId>,
)
    requires
        job.rescheduled(fid, plan, fresh) is Some,
    ensures
        shrunk(job, job.rescheduled(fid, plan, fresh)->Some_0),
{
    let j2 = job.resized(fid, plan)->Some_0;
    lemma_resized_shrunk(job, fid, plan);
    let n = plan.upstream_fragment_dispatcher_ids.len();
    let j3 = j2.upstream_rewired_upto(plan, fresh, n)->Some_0;
    lemma_upstream_rewired_lists(j2, plan, fresh, n);
    lemma_shrunk_same(j2, j3);
    let j4 = j3.downstream_rewired(fid, plan, fresh)->Some_0;
    lemma_downstream_rewired_lists(j3, fid, plan, fresh);
    lemma_shrunk_same(j3, j4);
    lemma_shrunk_transitive(job, j2, j3);
    lemma_shrunk_transitive(job, j3, j4);
}

/// Applying the plans that a job claims shrinks the job.
pub proof fn lemma_job_rescheduled_shrunk(store: StoreView, pos: int, plans: PlansView, n: nat)
    requires
        n <= ascending(plans.dom()).len(),
        job_rescheduled_upto(store, pos, plans, n) is Some,
    ensures
        shrunk(job_at(store, pos), job_rescheduled_upto(store, pos, plans, n)->Some_0.job),
    decreases n,
{
    let job = job_at(store, pos);
    if n == 0 {
        lemma_shrunk_same(job, job);
    } else {
        let was = job_rescheduled_upto(store, pos, plans, (n - 1) as nat)->Some_0;
        lemma_job_rescheduled_shrunk(store, pos, plans, (n - 1) as nat);
        let fid = ascending(plans.dom())[n - 1];
        if crate::manager::reschedule::claims(store, pos, fid) {
            lemma_rescheduled_shrunk(
                was.job,
                fid,
                plans[fid],
                crate::manager::reschedule::fresh_actors(plans),
            );
            lemma_shrunk_transitive(
                job,
                was.job,
                job_rescheduled_upto(store, pos, plans, n)->Some_0.job,
            );
        }
    }
}

/// While plans are applied, every edit is a put of a shrunk job of the
/// store.
pub proof fn lemma_rescheduled_edits_shrunk(store: StoreView, plans: PlansView, m: nat)
    requires
        m <= job_ids(store).len(),
        rescheduled_upto(store, plans, m) is Some,
    ensures
        forall|k: TableId| #[trigger]
            rescheduled_upto(store, plans, m)->Some_0.edits.contains_key(k) ==> store.contains_key(
                k,
            ) && rescheduled_upto(store, plans, m)->Some_0.edits[k] is Some && shrunk(
                store[k],
                rescheduled_upto(store, plans, m)->Some_0.edits[k]->Some_0,
            ),
    decreases m,
{
    lemma_ascending_total(store.dom());
    if m > 0 {
        let was = rescheduled_upto(store, plans, (m - 1) as nat)->Some_0;
        lemma_rescheduled_edits_shrunk(store, plans, (m - 1) as nat);
        let np = ascending(plans.dom()).len();
        let out = job_rescheduled_upto(store, m - 1, plans, np)->Some_0;
        lemma_job_rescheduled_shrunk(store, m - 1, plans, np);
        let key = job_ids(store)[m - 1];
        assert(job_ids(store).to_set().contains(job_ids(store)[m - 1]));
        let now = rescheduled_upto(store, plans, m)->Some_0;
        assert forall|k: TableId| #[trigger] now.edits.contains_key(k) implies store.contains_key(
            k,
        ) && now.edits[k] is Some && shrunk(store[k], now.edits[k]->Some_0) by {
            if out.touched && k == key {
            } else {
                assert(was.edits.contains_key(k));
            }
        }
    }
}

/// Applying reschedule plans keeps that no actor is listed twice.
pub proof fn law_post_apply_keeps_unique(store: StoreView, plans: PlansView)
    requires
        actors_unique(store),
        rescheduled(store, plans) is Some,
    ensures
        actors_unique(
            applied(store, rescheduled(store, plans)->Some_0.edits),
        ),
{
    let edits = rescheduled_upto(store, plans, job_ids(store).len())->Some_0.edits;
    let after = applied(store, edits);
    lemma_rescheduled_edits_shrunk(store, plans, job_ids(store).len());
    assert forall|k: TableId| #[trigger] after.contains_key(k) implies store.contains_key(k)
        && shrunk(store[k], after[k]) by {
        if edits.contains_key(k) {
        } else {
            lemma_shrunk_same(store[k], store[k]);
        }
    }
    lemma_unique_shrunk(store, after);
}

} // verus!
