//! Putting built actors into the store and taking them out again.

use crate::laws::invariants::{
    actors_unique, closed, consistent, covering, dispatchers_closed, every_job, has_actor, lists,
    mappings_consistent, maps_to, serves, status_covers, targets_at,
};
use crate::manager::prepare::{job_pre_applied_upto, ledger_of, pre_applied, uncreated, CreatedView};
use crate::manager::reschedule::{claims, job_at, job_ids, unclaimed};
use crate::manager::transaction::StoreView;
use crate::model::common::{ActorId, FragmentId, ParallelUnitId, TableId};
use crate::model::created::{cleared, new_actors, new_statuses};
use crate::model::reschedule::stays;

use crate::model::table_fragments::{FragmentView, TableFragmentsView};
use crate::ord_map::{ascending, lemma_ascending_total};
use vstd::prelude::*;

verus! {

/// Every built actor stands under its own id.
pub open spec fn keyed_by_actor(created: CreatedView) -> bool {
    forall|fid: FragmentId, a: ActorId|
        created.contains_key(fid) && #[trigger] created[fid].contains_key(a)
            ==> created[fid][a].0.actor_id == a
}

/// No built actor has the id of an actor that a stored job already knows:
/// no job has a status for it, and no fragment that shares the id of the
/// built actor's fragment lists it.
pub open spec fn fresh_for(store: StoreView, created: CreatedView) -> bool {
    forall|fid: FragmentId, a: ActorId, k: TableId|
        created.contains_key(fid) && #[trigger] created[fid].contains_key(a)
            && #[trigger] store.contains_key(k) ==> !store[k].actor_status.contains_key(a) && (
        store[k].fragments.contains_key(fid) ==> forall|i: int|
            0 <= i < store[k].fragments[fid].actors.len() ==> (
            #[trigger] store[k].fragments[fid].actors[i]).actor_id != a)
}

/// Filtering by a predicate that every element satisfies changes nothing.
pub proof fn lemma_filter_all<T>(s: Seq<T>, p: spec_fn(T) -> bool)
    requires
        forall|i: int| 0 <= i < s.len() ==> p(#[trigger] s[i]),
    ensures
        s.filter(p) == s,
    decreases s.len(),
{
    reveal(Seq::filter);
    if s.len() > 0 {
        lemma_filter_all(s.drop_last(), p);
        assert(s.drop_last().push(s.last()) =~= s);
    }
}

/// Filtering drops an appended part of which no element satisfies the
/// predicate.
pub proof fn lemma_filter_drops_tail<T>(s: Seq<T>, t: Seq<T>, p: spec_fn(T) -> bool)
    requires
        forall|i: int| 0 <= i < t.len() ==> !p(#[trigger] t[i]),
    ensures
        (s + t).filter(p) == s.filter(p),
    decreases t.len(),
{
    if t.len() == 0 {
        assert(s + t =~= s);
    } else {
        lemma_filter_drops_tail(s, t.drop_last(), p);
        assert(s + t =~= (s + t.drop_last()).push(t.last()));
        (s + t.drop_last()).lemma_filter_push(t.last(), p);
    }
}

/// The job at position `pos` took the actors built for fragment `fid`
/// among the first `n` fragments of `created`.
pub open spec fn took(store: StoreView, pos: int, created: CreatedView, fid: FragmentId, n: nat) -> bool {
    claims(store, pos, fid) && exists|q: int|
        0 <= q < n && q < ascending(created.dom()).len() && ascending(created.dom())[q] == fid
}

/// What a job looks like while built actors are put into it.
pub proof fn lemma_job_pre_applied(store: StoreView, pos: int, created: CreatedView, n: nat)
    requires
        0 <= pos < job_ids(store).len(),
        n <= ascending(created.dom()).len(),
        fresh_for(store, created),
    ensures
        ({
            let job = job_at(store, pos);
            let now = job_pre_applied_upto(store, pos, created, n);
            &&& now.table_id == job.table_id
            &&& now.state == job.state
            &&& now.actor_splits == job.actor_splits
            &&& now.fragments.dom() == job.fragments.dom()
            &&& forall|fid: FragmentId| #[trigger]
                job.fragments.contains_key(fid) ==> now.fragments[fid] == if took(
                    store,
                    pos,
                    created,
                    fid,
                    n,
                ) {
                    FragmentView {
                        actors: job.fragments[fid].actors + new_actors(created[fid]),
                        ..job.fragments[fid]
                    }
                } else {
                    job.fragments[fid]
                }
            &&& forall|a: ActorId| #[trigger]
                now.actor_status.contains_key(a) <==> job.actor_status.contains_key(a) || exists|
                    fid: FragmentId,
                |
                    took(store, pos, created, fid, n) && #[trigger] created[fid].contains_key(a)
            &&& forall|a: ActorId| #[trigger]
                job.actor_status.contains_key(a) ==> now.actor_status[a] == job.actor_status[a]
        }),
    decreases n,
{
    lemma_ascending_total(created.dom());
    lemma_ascending_total(store.dom());
    let fids = ascending(created.dom());
    let job = job_at(store, pos);
    let now = job_pre_applied_upto(store, pos, created, n);
    assert(store.dom().contains(job_ids(store)[pos])) by {
        assert(job_ids(store).to_set().contains(job_ids(store)[pos]));
    }
    if n == 0 {
        assert forall|a: ActorId| #[trigger]
            now.actor_status.contains_key(a) <==> job.actor_status.contains_key(a) || exists|
                fid: FragmentId,
            | took(store, pos, created, fid, n) && #[trigger] created[fid].contains_key(a) by {}
    } else {
        let m = (n - 1) as nat;
        lemma_job_pre_applied(store, pos, created, m);
        let was = job_pre_applied_upto(store, pos, created, m);
        let f = fids[n - 1];
        assert(created.dom().contains(f)) by {
            assert(fids.to_set().contains(fids[n - 1]));
        }
        assert forall|fid: FragmentId| took(store, pos, created, fid, n) <==> took(
            store,
            pos,
            created,
            fid,
            m,
        ) || (fid == f && claims(store, pos, f)) by {
            if took(store, pos, created, fid, n) {
                let q = choose|q: int| 0 <= q < n && q < fids.len() && fids[q] == fid;
                if q < m {
                    assert(0 <= q < m && q < fids.len() && fids[q] == fid);
                }
            }
            if took(store, pos, created, fid, m) {
                let q = choose|q: int| 0 <= q < m && q < fids.len() && fids[q] == fid;
                assert(0 <= q < n && q < fids.len() && fids[q] == fid);
            }
            if fid == f && claims(store, pos, f) {
                assert(0 <= n - 1 < n && n - 1 < fids.len() && fids[n - 1] == fid);
            }
        }
        assert(!took(store, pos, created, f, m)) by {
            if took(store, pos, created, f, m) {
                let q = choose|q: int| 0 <= q < m && q < fids.len() && fids[q] == f;
                assert(fids[q] < fids[n - 1]);
            }
        }
        if claims(store, pos, f) {
            assert(job.fragments.contains_key(f));
            assert(was.fragments.dom().contains(f));
            assert(now == was.with_created(f, created[f]));
            assert(now.fragments.dom() =~= job.fragments.dom());
            assert forall|a: ActorId| #[trigger]
                now.actor_status.contains_key(a) <==> job.actor_status.contains_key(a) || exists|
                    fid: FragmentId,
                |
                    took(store, pos, created, fid, n) && #[trigger] created[fid].contains_key(
                        a,
                    ) by {
                assert(new_statuses(created[f]).contains_key(a) <==> created[f].contains_key(a));
                if was.actor_status.contains_key(a) && !job.actor_status.contains_key(a) {
                    let fid = choose|fid: FragmentId|
                        took(store, pos, created, fid, m) && #[trigger] created[fid].contains_key(a);
                    assert(took(store, pos, created, fid, n) && created[fid].contains_key(a));
                }
                if created[f].contains_key(a) {
                    assert(took(store, pos, created, f, n) && created[f].contains_key(a));
                }
                if exists|fid: FragmentId|
                    took(store, pos, created, fid, n) && #[trigger] created[fid].contains_key(a) {
                    let fid = choose|fid: FragmentId|
                        took(store, pos, created, fid, n) && #[trigger] created[fid].contains_key(a);
                    if fid != f {
                        assert(took(store, pos, created, fid, m) && created[fid].contains_key(a));
                    }
                }
            }
            assert forall|a: ActorId| #[trigger] job.actor_status.contains_key(a) implies now.actor_status[a]
                == job.actor_status[a] by {
                if created[f].contains_key(a) {
                    assert(store.contains_key(job_ids(store)[pos]));
                }
            }
        } else {
            assert(now == was);
            assert forall|a: ActorId| #[trigger]
                now.actor_status.contains_key(a) <==> job.actor_status.contains_key(a) || exists|
                    fid: FragmentId,
                |
                    took(store, pos, created, fid, n) && #[trigger] created[fid].contains_key(
                        a,
                    ) by {
                if was.actor_status.contains_key(a) && !job.actor_status.contains_key(a) {
                    let fid = choose|fid: FragmentId|
                        took(store, pos, created, fid, m) && #[trigger] created[fid].contains_key(a);
                    assert(took(store, pos, created, fid, n) && created[fid].contains_key(a));
                }
                if exists|fid: FragmentId|
                    took(store, pos, created, fid, n) && #[trigger] created[fid].contains_key(a) {
                    let fid = choose|fid: FragmentId|
                        took(store, pos, created, fid, n) && #[trigger] created[fid].contains_key(a);
                    assert(took(store, pos, created, fid, m) && created[fid].contains_key(a));
                }
            }
        }
    }
}

/// A job that claims a fragment makes the fragment claimed for good.
pub proof fn lemma_took_is_listed(store: StoreView, pos: int, created: CreatedView, fid: FragmentId)
    requires
        0 <= pos < job_ids(store).len(),
        took(store, pos, created, fid, ascending(created.dom()).len()),
    ensures
        created.contains_key(fid),
        ledger_of(store, created).contains_key(fid),
{
    lemma_ascending_total(created.dom());
    let fids = ascending(created.dom());
    let q = choose|q: int| 0 <= q < fids.len() && q < fids.len() && fids[q] == fid;
    assert(fids.to_set().contains(fids[q]));
    assert(job_at(store, pos).fragments.contains_key(fid));
    assert(!unclaimed(store, fid, job_ids(store).len() as int));
}

/// Taking the listed actors out of a fragment that built actors were put
/// into gives back the fragment.
pub proof fn lemma_fragment_back(store: StoreView, pos: int, created: CreatedView, fid: FragmentId)
    requires
        0 <= pos < job_ids(store).len(),
        fresh_for(store, created),
        keyed_by_actor(created),
        job_at(store, pos).fragments.contains_key(fid),
    ensures
        cleared(ledger_of(store, created))(
            fid,
            job_pre_applied_upto(
                store,
                pos,
                created,
                ascending(created.dom()).len(),
            ).fragments[fid],
        ) == job_at(store, pos).fragments[fid],
{
    lemma_ascending_total(created.dom());
    lemma_ascending_total(store.dom());
    let ledger = ledger_of(store, created);
    let np = ascending(created.dom()).len();
    let jobs = job_ids(store);
    let k = jobs[pos];
    assert(jobs.to_set().contains(jobs[pos]));
    assert(store.contains_key(k));
    let job = job_at(store, pos);
    lemma_job_pre_applied(store, pos, created, np);
    let f = job.fragments[fid];
    if took(store, pos, created, fid, np) {
        lemma_took_is_listed(store, pos, created, fid);
    }
    if ledger.contains_key(fid) {
        lemma_ascending_total(created[fid].dom());
        let gone = ledger[fid].to_set();
        assert(gone == created[fid].dom());
        assert forall|i: int| 0 <= i < f.actors.len() implies stays(gone)(
            #[trigger] f.actors[i],
        ) by {
            let a = f.actors[i].actor_id;
            if created[fid].contains_key(a) {
                assert(store.contains_key(k));
            }
        }
        lemma_filter_all(f.actors, stays(gone));
        if took(store, pos, created, fid, np) {
            let more = new_actors(created[fid]);
            let ids = ascending(created[fid].dom());
            assert forall|i: int| 0 <= i < more.len() implies !stays(gone)(#[trigger] more[i]) by {
                assert(ids.to_set().contains(ids[i]));
                assert(created[fid].contains_key(ids[i]));
                assert(more[i] == created[fid][ids[i]].0);
            }
            lemma_filter_drops_tail(f.actors, more, stays(gone));
        }
    }
}

/// Taking the statuses of the listed actors out of a job that built actors
/// were put into gives back the job's statuses.
pub proof fn lemma_status_back(store: StoreView, pos: int, created: CreatedView)
    requires
        0 <= pos < job_ids(store).len(),
        fresh_for(store, created),
    ensures
        ({
            let now = job_pre_applied_upto(store, pos, created, ascending(created.dom()).len());
            now.actor_status.remove_keys(now.listed_in(ledger_of(store, created))) == job_at(
                store,
                pos,
            ).actor_status
        }),
{
    lemma_ascending_total(created.dom());
    lemma_ascending_total(store.dom());
    let ledger = ledger_of(store, created);
    let np = ascending(created.dom()).len();
    let jobs = job_ids(store);
    let k = jobs[pos];
    assert(jobs.to_set().contains(jobs[pos]));
    assert(store.contains_key(k));
    let job = job_at(store, pos);
    lemma_job_pre_applied(store, pos, created, np);
    let now = job_pre_applied_upto(store, pos, created, np);
    let after = now.actor_status.remove_keys(now.listed_in(ledger));
    assert forall|a: ActorId| after.contains_key(a) == job.actor_status.contains_key(a) by {
        if job.actor_status.contains_key(a) {
            assert(now.actor_status.contains_key(a));
            if now.listed_in(ledger).contains(a) {
                let fid = choose|fid: FragmentId|
                    now.fragments.contains_key(fid) && #[trigger] ledger.contains_key(fid)
                        && ledger[fid].contains(a);
                lemma_ascending_total(created[fid].dom());
                assert(ledger[fid].to_set().contains(a));
                assert(created[fid].contains_key(a));
                assert(store.contains_key(k));
            }
        }
        if after.contains_key(a) && !job.actor_status.contains_key(a) {
            assert(now.actor_status.contains_key(a));
            let fid = choose|fid: FragmentId|
                took(store, pos, created, fid, np) && #[trigger] created[fid].contains_key(a);
            lemma_took_is_listed(store, pos, created, fid);
            lemma_ascending_total(created[fid].dom());
            assert(ledger[fid].to_set().contains(a));
            assert(job.fragments.contains_key(fid));
            assert(now.fragments.contains_key(fid) && ledger.contains_key(fid)
                && ledger[fid].contains(a));
            assert(now.listed_in(ledger).contains(a));
        }
    }
    assert(after =~= job.actor_status);
}

/// Taking out what was put in gives back the store: after the actors
/// `created` were put into the store, removing the actors of the ledger
/// that this returned leaves every job as it was before. This holds where
/// the built actors are new to the store and each stands under its own id.
pub proof fn law_cancel_undoes_pre_apply(store: StoreView, created: CreatedView)
    requires
        fresh_for(store, created),
        keyed_by_actor(created),
    ensures
        pre_applied(store, created).map_values(uncreated(ledger_of(store, created))) == store,
{
    lemma_ascending_total(store.dom());
    let ledger = ledger_of(store, created);
    let put = pre_applied(store, created);
    let back = put.map_values(uncreated(ledger));
    let np = ascending(created.dom()).len();
    let jobs = job_ids(store);
    assert(back.dom() =~= store.dom());
    assert forall|k: TableId| store.contains_key(k) implies back[k] == store[k] by {
        assert(jobs.to_set().contains(k));
        let pos = jobs.index_of(k);
        assert(jobs[pos] == k);
        let job = store[k];
        lemma_job_pre_applied(store, pos, created, np);
        let now = job_pre_applied_upto(store, pos, created, np);
        let after = now.without_created(ledger);
        assert(back[k] == after);
        assert forall|fid: FragmentId| job.fragments.contains_key(fid) implies after.fragments[fid]
            == job.fragments[fid] by {
            lemma_fragment_back(store, pos, created, fid);
        }
        assert(after.fragments =~= job.fragments);
        lemma_status_back(store, pos, created);
    }
    assert(back =~= store);
}

/// No actor is built for two fragments.
pub open spec fn distinct_actors(created: CreatedView) -> bool {
    forall|f1: FragmentId, f2: FragmentId, a: ActorId|
        created.contains_key(f1) && #[trigger] created[f1].contains_key(a) && created.contains_key(
            f2,
        ) && #[trigger] created[f2].contains_key(a) ==> f1 == f2
}

/// The job at position `pos` after all built actors were put in.
pub open spec fn job_pre_applied(store: StoreView, pos: int, created: CreatedView) -> TableFragmentsView {
    job_pre_applied_upto(store, pos, created, ascending(created.dom()).len())
}

/// Whether the job at position `pos` took the actors built for `fid`.
pub open spec fn took_all(store: StoreView, pos: int, created: CreatedView, fid: FragmentId) -> bool {
    took(store, pos, created, fid, ascending(created.dom()).len())
}

/// An actor that a job lists after built actors were put in was listed
/// before at the same place, or is a built actor that the job took.
pub proof fn lemma_pre_applied_lists(
    store: StoreView,
    pos: int,
    created: CreatedView,
    fid: FragmentId,
    i: int,
    a: ActorId,
)
    requires
        0 <= pos < job_ids(store).len(),
        fresh_for(store, created),
        keyed_by_actor(created),
        lists(job_pre_applied(store, pos, created), fid, i, a),
    ensures
        lists(job_at(store, pos), fid, i, a) || (took_all(store, pos, created, fid)
            && created.contains_key(fid) && created[fid].contains_key(a) && job_at(
            store,
            pos,
        ).fragments.contains_key(fid) && i >= job_at(store, pos).fragments[fid].actors.len()
            && i - job_at(store, pos).fragments[fid].actors.len() < ascending(
            created[fid].dom(),
        ).len() && ascending(created[fid].dom())[i - job_at(
            store,
            pos,
        ).fragments[fid].actors.len()] == a),
{
    let np = ascending(created.dom()).len();
    lemma_job_pre_applied(store, pos, created, np);
    let job = job_at(store, pos);
    let now = job_pre_applied(store, pos, created);
    assert(job.fragments.contains_key(fid));
    if took_all(store, pos, created, fid) {
        lemma_took_is_listed(store, pos, created, fid);
        lemma_ascending_total(created[fid].dom());
        let old_len = job.fragments[fid].actors.len();
        if i >= old_len {
            let ids = ascending(created[fid].dom());
            let q = i - old_len;
            assert(now.fragments[fid].actors[i] == new_actors(created[fid])[q]);
            assert(ids.to_set().contains(ids[q]));
            assert(created[fid].contains_key(ids[q]));
        } else {
            assert(now.fragments[fid].actors[i] == job.fragments[fid].actors[i]);
        }
    }
}

/// An actor that a job listed is listed at the same place after built
/// actors were put in.
pub proof fn lemma_pre_applied_keeps_lists(
    store: StoreView,
    pos: int,
    created: CreatedView,
    fid: FragmentId,
    i: int,
    a: ActorId,
)
    requires
        0 <= pos < job_ids(store).len(),
        fresh_for(store, created),
        lists(job_at(store, pos), fid, i, a),
    ensures
        lists(job_pre_applied(store, pos, created), fid, i, a),
{
    let np = ascending(created.dom()).len();
    lemma_job_pre_applied(store, pos, created, np);
    let job = job_at(store, pos);
    let now = job_pre_applied(store, pos, created);
    assert(now.fragments.dom().contains(fid));
    if took_all(store, pos, created, fid) {
        assert(now.fragments[fid].actors[i] == job.fragments[fid].actors[i]);
    }
}

/// A built actor that a job took is listed by the job.
pub proof fn lemma_pre_applied_lists_built(
    store: StoreView,
    pos: int,
    created: CreatedView,
    fid: FragmentId,
    a: ActorId,
)
    requires
        0 <= pos < job_ids(store).len(),
        fresh_for(store, created),
        keyed_by_actor(created),
        took_all(store, pos, created, fid),
        created.contains_key(fid),
        created[fid].contains_key(a),
    ensures
        has_actor(job_pre_applied(store, pos, created), a),
{
    let np = ascending(created.dom()).len();
    lemma_job_pre_applied(store, pos, created, np);
    lemma_ascending_total(created[fid].dom());
    let job = job_at(store, pos);
    let now = job_pre_applied(store, pos, created);
    let ids = ascending(created[fid].dom());
    assert(ids.to_set().contains(a));
    let q = choose|q: int| 0 <= q < ids.len() && ids[q] == a;
    assert(job.fragments.contains_key(fid));
    assert(now.fragments.dom().contains(fid));
    let old_len = job.fragments[fid].actors.len();
    assert(now.fragments[fid].actors[old_len + q] == new_actors(created[fid])[q]);
    assert(lists(now, fid, old_len + q, a));
}

/// Putting built actors into a job keeps that its statuses cover its
/// actors.
pub proof fn lemma_pre_applied_covering(store: StoreView, pos: int, created: CreatedView)
    requires
        0 <= pos < job_ids(store).len(),
        fresh_for(store, created),
        keyed_by_actor(created),
        status_covers(job_at(store, pos)),
    ensures
        status_covers(job_pre_applied(store, pos, created)),
{
    let np = ascending(created.dom()).len();
    lemma_job_pre_applied(store, pos, created, np);
    let job = job_at(store, pos);
    let now = job_pre_applied(store, pos, created);
    assert forall|a: ActorId| #[trigger] now.actor_status.contains_key(a) <==> has_actor(now, a) by {
        if now.actor_status.contains_key(a) {
            if job.actor_status.contains_key(a) {
                assert(has_actor(job, a));
                let (fid, i) = choose|fid: FragmentId, i: int| lists(job, fid, i, a);
                lemma_pre_applied_keeps_lists(store, pos, created, fid, i, a);
            } else {
                let fid = choose|fid: FragmentId|
                    took(store, pos, created, fid, np) && #[trigger] created[fid].contains_key(a);
                lemma_took_is_listed(store, pos, created, fid);
                lemma_pre_applied_lists_built(store, pos, created, fid, a);
            }
        }
        if has_actor(now, a) {
            let (fid, i) = choose|fid: FragmentId, i: int| lists(now, fid, i, a);
            lemma_pre_applied_lists(store, pos, created, fid, i, a);
            if lists(job, fid, i, a) {
                assert(has_actor(job, a));
                assert(job.actor_status.contains_key(a));
            } else {
                assert(took(store, pos, created, fid, np) && created[fid].contains_key(a));
            }
        }
    }
}

/// Putting built actors into a job keeps its vnode mappings consistent.
pub proof fn lemma_pre_applied_consistent(store: StoreView, pos: int, created: CreatedView)
    requires
        0 <= pos < job_ids(store).len(),
        fresh_for(store, created),
        mappings_consistent(job_at(store, pos)),
    ensures
        mappings_consistent(job_pre_applied(store, pos, created)),
{
    let np = ascending(created.dom()).len();
    lemma_job_pre_applied(store, pos, created, np);
    let job = job_at(store, pos);
    let now = job_pre_applied(store, pos, created);
    assert forall|fid: FragmentId, x: int, p: ParallelUnitId| #[trigger]
        maps_to(now, fid, x, p) implies serves(now, fid, p) by {
        assert(job.fragments.contains_key(fid));
        assert(maps_to(job, fid, x, p));
        assert(serves(job, fid, p));
        let (i, act) = choose|i: int, act: ActorId|
            #[trigger] lists(job, fid, i, act) && job.actor_status.contains_key(act)
                && job.actor_status[act].parallel_unit is Some
                && job.actor_status[act].parallel_unit->Some_0.id == p;
        lemma_pre_applied_keeps_lists(store, pos, created, fid, i, act);
        assert(now.actor_status.contains_key(act));
        assert(now.actor_status[act] == job.actor_status[act]);
    }
}

/// Two jobs that claim one fragment are one job.
pub proof fn lemma_claims_once(store: StoreView, p1: int, p2: int, fid: FragmentId)
    requires
        0 <= p1,
        0 <= p2,
        claims(store, p1, fid),
        claims(store, p2, fid),
    ensures
        p1 == p2,
{
    if p1 < p2 {
        assert(!job_at(store, p1).fragments.contains_key(fid));
    }
    if p2 < p1 {
        assert(!job_at(store, p2).fragments.contains_key(fid));
    }
}

/// Putting built actors into the store keeps the store's invariants on
/// actors, statuses and vnode mappings. This holds where the built actors
/// are new to the store, each stands under its own id, and none is built
/// for two fragments.
pub proof fn law_pre_apply_keeps_invariants(store: StoreView, created: CreatedView)
    requires
        fresh_for(store, created),
        keyed_by_actor(created),
        distinct_actors(created),
    ensures
        actors_unique(store) && every_job(store, covering()) ==> actors_unique(
            pre_applied(store, created),
        ),
        every_job(store, covering()) ==> every_job(pre_applied(store, created), covering()),
        every_job(store, consistent()) ==> every_job(pre_applied(store, created), consistent()),
{
    lemma_ascending_total(store.dom());
    let after = pre_applied(store, created);
    let jobs = job_ids(store);
    assert forall|k: TableId| #[trigger] store.contains_key(k) implies 0 <= jobs.index_of(k)
        < jobs.len() && jobs[jobs.index_of(k)] == k && after[k] == job_pre_applied(
        store,
        jobs.index_of(k),
        created,
    ) && job_at(store, jobs.index_of(k)) == store[k] by {
        assert(jobs.to_set().contains(k));
    }
    if every_job(store, covering()) {
        assert forall|k: TableId| #[trigger] after.contains_key(k) implies covering()(after[k]) by {
            assert(store.contains_key(k));
            assert(covering()(store[k]));
            lemma_pre_applied_covering(store, jobs.index_of(k), created);
        }
    }
    if every_job(store, consistent()) {
        assert forall|k: TableId| #[trigger] after.contains_key(k) implies consistent()(
            after[k],
        ) by {
            assert(store.contains_key(k));
            assert(consistent()(store[k]));
            lemma_pre_applied_consistent(store, jobs.index_of(k), created);
        }
    }
    if actors_unique(store) && every_job(store, covering()) {
        assert forall|
            k1: TableId,
            f1: FragmentId,
            i1: int,
            k2: TableId,
            f2: FragmentId,
            i2: int,
            a: ActorId,
        |
            after.contains_key(k1) && #[trigger] lists(after[k1], f1, i1, a) && after.contains_key(
                k2,
            ) && #[trigger] lists(after[k2], f2, i2, a) implies k1 == k2 && f1 == f2 && i1
            == i2 by {
            lemma_unique_after_pre_apply(store, created, k1, f1, i1, k2, f2, i2, a);
        }
    }
}

/// After built actors were put in, two listings of one actor are one
/// listing.
pub proof fn lemma_unique_after_pre_apply(
    store: StoreView,
    created: CreatedView,
    k1: TableId,
    f1: FragmentId,
    i1: int,
    k2: TableId,
    f2: FragmentId,
    i2: int,
    a: ActorId,
)
    requires
        fresh_for(store, created),
        keyed_by_actor(created),
        distinct_actors(created),
        actors_unique(store),
        every_job(store, covering()),
        store.contains_key(k1),
        store.contains_key(k2),
        lists(pre_applied(store, created)[k1], f1, i1, a),
        lists(pre_applied(store, created)[k2], f2, i2, a),
    ensures
        k1 == k2 && f1 == f2 && i1 == i2,
{
    lemma_ascending_total(store.dom());
    let jobs = job_ids(store);
    assert(jobs.to_set().contains(k1));
    assert(jobs.to_set().contains(k2));
    let p1 = jobs.index_of(k1);
    let p2 = jobs.index_of(k2);
    assert(jobs[p1] == k1 && jobs[p2] == k2);
    lemma_pre_applied_lists(store, p1, created, f1, i1, a);
    lemma_pre_applied_lists(store, p2, created, f2, i2, a);
    let old1 = lists(store[k1], f1, i1, a);
    let old2 = lists(store[k2], f2, i2, a);
    if old1 && old2 {
    } else if old1 {
        assert(covering()(store[k1]));
        assert(has_actor(store[k1], a));
        assert(store[k1].actor_status.contains_key(a));
        assert(created[f2].contains_key(a) && store.contains_key(k1));
    } else if old2 {
        assert(covering()(store[k2]));
        assert(has_actor(store[k2], a));
        assert(store[k2].actor_status.contains_key(a));
        assert(created[f1].contains_key(a) && store.contains_key(k2));
    } else {
        assert(created[f1].contains_key(a) && created[f2].contains_key(a));
        assert(f1 == f2);
        lemma_claims_once(store, p1, p2, f1);
        lemma_ascending_total(created[f1].dom());
        let ids = ascending(created[f1].dom());
        let len = store[k1].fragments[f1].actors.len();
        let q1 = i1 - len;
        let q2 = i2 - len;
        if q1 < q2 {
            assert(ids[q1] < ids[q2]);
        }
        if q2 < q1 {
            assert(ids[q2] < ids[q1]);
        }
    }
}

/// The `t`-th target of the `d`-th dispatcher of the actor built under id
/// `a` for fragment `fid`.
pub open spec fn built_target(created: CreatedView, fid: FragmentId, a: ActorId, d: int, t: int) -> ActorId {
    created[fid][a].0.dispatcher[d].downstream_actor_id[t]
}

/// The job at position `pos` lists actor `x` or takes a built actor with
/// that id.
pub open spec fn leads_into(store: StoreView, pos: int, created: CreatedView, x: ActorId) -> bool {
    has_actor(job_at(store, pos), x) || exists|f2: FragmentId|
        took_all(store, pos, created, f2) && created.contains_key(f2)
            && #[trigger] created[f2].contains_key(x)
}

/// Every dispatcher of a built actor leads to an actor that the job which
/// takes the built actor lists already or takes as well.
pub open spec fn built_lead_into(store: StoreView, created: CreatedView) -> bool {
    forall|pos: int, fid: FragmentId, a: ActorId, d: int, t: int|
        0 <= pos < job_ids(store).len() && #[trigger] took_all(store, pos, created, fid)
            && created.contains_key(fid) && created[fid].contains_key(a) && 0 <= d
            < created[fid][a].0.dispatcher.len() && 0 <= t
            < created[fid][a].0.dispatcher[d].downstream_actor_id.len() ==> leads_into(
            store,
            pos,
            created,
            #[trigger] built_target(created, fid, a, d, t),
        )
}

/// Putting built actors into a job keeps its dispatchers closed, provided
/// the dispatchers of the built actors lead into the job.
pub proof fn lemma_pre_applied_closed(store: StoreView, pos: int, created: CreatedView)
    requires
        0 <= pos < job_ids(store).len(),
        fresh_for(store, created),
        keyed_by_actor(created),
        built_lead_into(store, created),
        dispatchers_closed(job_at(store, pos)),
    ensures
        dispatchers_closed(job_pre_applied(store, pos, created)),
{
    let np = ascending(created.dom()).len();
    lemma_job_pre_applied(store, pos, created, np);
    let job = job_at(store, pos);
    let now = job_pre_applied(store, pos, created);
    assert forall|fid: FragmentId, i: int, d: int, t: int, x: ActorId| #[trigger]
        targets_at(now, fid, i, d, t, x) implies has_actor(now, x) by {
        assert(job.fragments.contains_key(fid));
        let old_len = job.fragments[fid].actors.len();
        let act = now.fragments[fid].actors[i];
        if took_all(store, pos, created, fid) && i >= old_len {
            lemma_took_is_listed(store, pos, created, fid);
            lemma_ascending_total(created[fid].dom());
            let ids = ascending(created[fid].dom());
            let q = i - old_len;
            assert(act == new_actors(created[fid])[q]);
            assert(ids.to_set().contains(ids[q]));
            let a = ids[q];
            assert(created[fid].contains_key(a));
            assert(built_target(created, fid, a, d, t) == x);
            assert(leads_into(store, pos, created, x));
            if has_actor(job, x) {
                let (g, j) = choose|g: FragmentId, j: int| lists(job, g, j, x);
                lemma_pre_applied_keeps_lists(store, pos, created, g, j, x);
            } else {
                let f2 = choose|f2: FragmentId|
                    took_all(store, pos, created, f2) && created.contains_key(f2)
                        && #[trigger] created[f2].contains_key(x);
                lemma_pre_applied_lists_built(store, pos, created, f2, x);
            }
        } else {
            assert(act == job.fragments[fid].actors[i]);
            assert(targets_at(job, fid, i, d, t, x));
            assert(has_actor(job, x));
            let (g, j) = choose|g: FragmentId, j: int| lists(job, g, j, x);
            lemma_pre_applied_keeps_lists(store, pos, created, g, j, x);
        }
    }
}

/// Putting built actors into the store keeps the dispatchers closed. This
/// holds where the built actors are new to the store, each stands under
/// its own id, and their dispatchers lead into the job that takes them.
pub proof fn law_pre_apply_keeps_closed(store: StoreView, created: CreatedView)
    requires
        fresh_for(store, created),
        keyed_by_actor(created),
        built_lead_into(store, created),
        every_job(store, closed()),
    ensures
        every_job(pre_applied(store, created), closed()),
{
    lemma_ascending_total(store.dom());
    let after = pre_applied(store, created);
    let jobs = job_ids(store);
    assert forall|k: TableId| #[trigger] after.contains_key(k) implies closed()(after[k]) by {
        assert(store.contains_key(k));
        assert(jobs.to_set().contains(k));
        let pos = jobs.index_of(k);
        assert(jobs[pos] == k);
        assert(closed()(store[k]));
        lemma_pre_applied_closed(store, pos, created);
    }
}

} // verus!
