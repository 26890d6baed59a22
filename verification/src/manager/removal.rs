//! Dropping jobs: the dropped jobs leave the store, and the jobs they read
//! from lose the dispatcher targets that led into them.

use crate::error::MetaError;
use crate::manager::reschedule::{job_at, job_ids};
use crate::manager::store::{FragmentManager, PendingCommit};
use crate::manager::transaction::{Edits, StoreView, Transaction};
use crate::model::common::{contains_id, ActorId, FragmentType, TableId};
use crate::model::stream::append_ids;

use crate::notification::{announce, push_notifications, Notification, NotificationView, Operation};
use crate::ord_map::DeepClone;
use vstd::prelude::*;

verus! {

/// Job `j` is dropped and reads from job `u`.
pub open spec fn feeds(store: StoreView, ids: Set<TableId>, j: TableId, u: TableId) -> bool {
    ids.contains(j) && store.contains_key(j) && store[j].dependent_table_ids().contains(u)
}

/// Job `u` is not dropped itself, and some dropped job reads from it.
pub open spec fn repaired(store: StoreView, ids: Set<TableId>, u: TableId) -> bool {
    !ids.contains(u) && exists|j: TableId| feeds(store, ids, j, u)
}

/// The chain actors of the dropped jobs that read from job `u`: the targets
/// that the dispatchers of `u` lose.
pub open spec fn cut_from(store: StoreView, ids: Set<TableId>, u: TableId) -> Set<ActorId> {
    Set::new(
        |a: ActorId|
            exists|j: TableId|
                feeds(store, ids, j, u) && store[j].actor_ids_of_kind(FragmentType::Chain).contains(
                    a,
                ),
    )
}

/// Job `u` should be repaired but is not in the store.
pub open spec fn drop_missing(store: StoreView, ids: Set<TableId>, u: TableId) -> bool {
    repaired(store, ids, u) && !store.contains_key(u)
}

/// The edits of dropping the jobs `ids`: every stored job among them is
/// deleted, and every stored job that one of them reads from is put back
/// with the targets into the dropped jobs cut from the dispatchers of its
/// sink fragments.
pub open spec fn drop_edits(store: StoreView, ids: Set<TableId>) -> Edits {
    Map::new(
        |k: TableId| store.contains_key(k) && (ids.contains(k) || repaired(store, ids, k)),
        |k: TableId|
            if ids.contains(k) {
                None
            } else {
                Some(store[k].with_sink_targets_cut(cut_from(store, ids, k)))
            },
    )
}

/// The messages of dropping the jobs `ids`, as far as the first `n` stored
/// jobs go: the deletion of the mappings of the stateful fragments of the
/// dropped ones, in ascending order of job id.
pub open spec fn drop_notes(store: StoreView, ids: Set<TableId>, n: nat) -> Seq<NotificationView>
    decreases n,
{
    if n == 0 || n > job_ids(store).len() {
        Seq::empty()
    } else {
        drop_notes(store, ids, (n - 1) as nat) + if ids.contains(job_ids(store)[n - 1]) {
            job_at(store, n - 1).stateful_mappings().map_values(announce(Operation::Delete))
        } else {
            Seq::empty()
        }
    }
}

/// What the repair needs to know of a dropped job.
struct DroppedJob {
    id: TableId,
    dependents: Vec<TableId>,
    chain_actors: Vec<ActorId>,
}

impl DroppedJob {
    spec fn describes(&self, store: StoreView, ids: Set<TableId>) -> bool {
        &&& ids.contains(self.id)
        &&& store.contains_key(self.id)
        &&& self.dependents@ == store[self.id].dependent_table_ids()
        &&& self.chain_actors@ == store[self.id].actor_ids_of_kind(FragmentType::Chain)
    }
}

/// The chain actors of the dropped jobs that read from job `u`, and whether
/// there is such a job.
fn targets_into_dropped(
    dropped: &Vec<DroppedJob>,
    u: TableId,
    Ghost(store): Ghost<StoreView>,
    Ghost(ids): Ghost<Set<TableId>>,
) -> (r: (bool, Vec<ActorId>))
    requires
        forall|t: int| 0 <= t < dropped.len() ==> (#[trigger] dropped@[t]).describes(store, ids),
        forall|j: TableId|
            ids.contains(j) && store.contains_key(j) ==> exists|t: int|
                0 <= t < dropped.len() && (#[trigger] dropped@[t]).id == j,
    ensures
        r.0 == exists|j: TableId| feeds(store, ids, j, u),
        r.1@.to_set() == cut_from(store, ids, u),
{
    let mut found = false;
    let mut cut: Vec<ActorId> = Vec::new();
    let mut t: usize = 0;
    while t < dropped.len()
        invariant
            t <= dropped.len(),
            forall|s: int| 0 <= s < dropped.len() ==> (#[trigger] dropped@[s]).describes(store, ids),
            found == exists|s: int|
                0 <= s < t && (#[trigger] dropped@[s]).dependents@.contains(u),
            forall|a: ActorId|
                cut@.contains(a) <==> exists|s: int|
                    0 <= s < t && (#[trigger] dropped@[s]).dependents@.contains(u)
                        && dropped@[s].chain_actors@.contains(a),
        decreases dropped.len() - t,
    {
        let d = &dropped[t];
        let ghost before = cut@;
        let ghost was = found;
        if contains_id(&d.dependents, u) {
            found = true;
            append_ids(&mut cut, &d.chain_actors);
        }
        proof {
            assert(found == exists|s: int|
                0 <= s < t + 1 && (#[trigger] dropped@[s]).dependents@.contains(u)) by {
                if was {
                    let s = choose|s: int|
                        0 <= s < t && (#[trigger] dropped@[s]).dependents@.contains(u);
                    assert(0 <= s < t + 1 && dropped@[s].dependents@.contains(u));
                }
                if d.dependents@.contains(u) {
                    assert(dropped@[t as int].dependents@.contains(u));
                }
            }
            assert forall|a: ActorId|
                cut@.contains(a) <==> exists|s: int|
                    0 <= s < t + 1 && (#[trigger] dropped@[s]).dependents@.contains(u)
                        && dropped@[s].chain_actors@.contains(a) by {
                if cut@.contains(a) {
                    let k = choose|k: int| 0 <= k < cut@.len() && cut@[k] == a;
                    if k < before.len() {
                        assert(before[k] == a);
                        assert(before.contains(a));
                        let s = choose|s: int|
                            0 <= s < t && (#[trigger] dropped@[s]).dependents@.contains(u)
                                && dropped@[s].chain_actors@.contains(a);
                        assert(0 <= s < t + 1 && dropped@[s].dependents@.contains(u)
                            && dropped@[s].chain_actors@.contains(a));
                    } else {
                        assert(d.chain_actors@[k - before.len()] == a);
                        assert(dropped@[t as int].chain_actors@.contains(a));
                    }
                }
                if exists|s: int|
                    0 <= s < t + 1 && (#[trigger] dropped@[s]).dependents@.contains(u)
                        && dropped@[s].chain_actors@.contains(a) {
                    let s = choose|s: int|
                        0 <= s < t + 1 && (#[trigger] dropped@[s]).dependents@.contains(u)
                            && dropped@[s].chain_actors@.contains(a);
                    if s < t {
                        assert(before.contains(a));
                        let k = choose|k: int| 0 <= k < before.len() && before[k] == a;
                        assert(cut@[k] == a);
                    } else {
                        let k = choose|k: int|
                            0 <= k < d.chain_actors@.len() && d.chain_actors@[k] == a;
                        assert(cut@[before.len() + k] == a);
                    }
                }
            }
        }
        t += 1;
    }
    proof {
        assert(found == exists|j: TableId| feeds(store, ids, j, u)) by {
            if found {
                let s = choose|s: int|
                    0 <= s < dropped.len() && (#[trigger] dropped@[s]).dependents@.contains(u);
                assert(dropped@[s].describes(store, ids));
                assert(feeds(store, ids, dropped@[s].id, u));
            }
            if exists|j: TableId| feeds(store, ids, j, u) {
                let j = choose|j: TableId| feeds(store, ids, j, u);
                let s = choose|s: int| 0 <= s < dropped.len() && (#[trigger] dropped@[s]).id == j;
                assert(dropped@[s].describes(store, ids));
                assert(dropped@[s].dependents@.contains(u));
            }
        }
        assert forall|a: ActorId| cut@.to_set().contains(a) == cut_from(store, ids, u).contains(
            a,
        ) by {
            if cut@.contains(a) {
                let s = choose|s: int|
                    0 <= s < dropped.len() && (#[trigger] dropped@[s]).dependents@.contains(u)
                        && dropped@[s].chain_actors@.contains(a);
                assert(dropped@[s].describes(store, ids));
                assert(feeds(store, ids, dropped@[s].id, u));
            }
            if cut_from(store, ids, u).contains(a) {
                let j = choose|j: TableId|
                    feeds(store, ids, j, u) && store[j].actor_ids_of_kind(
                        FragmentType::Chain,
                    ).contains(a);
                let s = choose|s: int| 0 <= s < dropped.len() && (#[trigger] dropped@[s]).id == j;
                assert(dropped@[s].describes(store, ids));
                assert(dropped@[s].dependents@.contains(u) && dropped@[s].chain_actors@.contains(a));
            }
        }
        assert(cut@.to_set() =~= cut_from(store, ids, u));
    }
    (found, cut)
}

impl FragmentManager {
    /// Drops the jobs named by `table_ids`: stages the deletion of each of
    /// them that the store holds and, for each job that a dropped job reads
    /// from and that is not dropped itself, the job without the dispatcher
    /// targets that led into the dropped jobs. The frontends are told of
    /// the deletion of the mappings of the dropped jobs' stateful fragments.
    ///
    /// Fails, staging nothing, if a job that should be repaired is not in
    /// the store; one such job is reported.
    pub fn drop_table_fragments_vec(&self, table_ids: &Vec<TableId>) -> (r: Result<
        PendingCommit,
        MetaError,
    >)
        ensures
            match r {
                Ok(p) => {
                    &&& forall|u: TableId| !drop_missing(self@, table_ids@.to_set(), u)
                    &&& p.edits() == drop_edits(self@, table_ids@.to_set())
                    &&& p.notes() == drop_notes(
                        self@,
                        table_ids@.to_set(),
                        job_ids(self@).len(),
                    )
                },
                Err(e) => e is JobNotFound && drop_missing(
                    self@,
                    table_ids@.to_set(),
                    e->JobNotFound_0,
                ),
            },
    {
        let store = &self.core.table_fragments;
        let ghost ids = table_ids@.to_set();
        let n = store.len();
        let mut txn = Transaction::new();
        let mut notifications: Vec<Notification> = Vec::new();
        let mut dropped: Vec<DroppedJob> = Vec::new();
        let mut i: usize = 0;
        proof {
            store.lemma_view();
            assert(notifications.deep_view() =~= Seq::<NotificationView>::empty());
        }
        while i < n
            invariant
                i <= n,
                n == store.keys().len(),
                store.wf(),
                store@ == self@,
                ids == table_ids@.to_set(),
                store.keys() == job_ids(self@),
                notifications.deep_view() == drop_notes(self@, ids, i as nat),
                forall|t: int|
                    0 <= t < dropped.len() ==> (#[trigger] dropped@[t]).describes(self@, ids),
                forall|q: int|
                    0 <= q < i && ids.contains(store.keys()[q]) ==> exists|t: int|
                        0 <= t < dropped.len() && (#[trigger] dropped@[t]).id == store.keys()[q],
                forall|q: int, d: TableId|
                    0 <= q < i && ids.contains(store.keys()[q]) && #[trigger] job_at(
                        self@,
                        q,
                    ).dependent_table_ids().contains(d) ==> ids.contains(d) || self@.contains_key(
                        d,
                    ),
                forall|k: TableId| #[trigger]
                    txn@.contains_key(k) <==> ids.contains(k) && exists|q: int|
                        0 <= q < i && store.keys()[q] == k,
                forall|k: TableId| #[trigger] txn@.contains_key(k) ==> txn@[k] is None,
            decreases n - i,
        {
            let key = store.key_at(i);
            let job = store.value_at(i);
            proof {
                store.lemma_view();
                assert(job_at(self@, i as int) == job@);
            }
            let ghost notes_before = notifications.deep_view();
            let ghost txn_before = txn@;
            if contains_id(table_ids, key) {
                let dependents = job.dependent_table_ids();
                let mut c: usize = 0;
                while c < dependents.len()
                    invariant
                        c <= dependents.len(),
                        store@ == self@,
                        ids == table_ids@.to_set(),
                        ids.contains(key),
                        self@.contains_key(key),
                        dependents@ == self@[key].dependent_table_ids(),
                        forall|x: int|
                            0 <= x < c ==> ids.contains(#[trigger] dependents@[x])
                                || self@.contains_key(dependents@[x]),
                    decreases dependents.len() - c,
                {
                    let d = dependents[c];
                    if !contains_id(table_ids, d) && !store.contains_key(d) {
                        proof {
                            assert(dependents@.contains(d));
                            assert(feeds(self@, ids, key, d));
                        }
                        return Err(MetaError::JobNotFound(d));
                    }
                    c += 1;
                }
                txn.remove(key);
                push_notifications(&mut notifications, Operation::Delete, job.stateful_mappings());
                let chain_actors = job.chain_actor_ids();
                let ghost dropped_before = dropped@;
                dropped.push(DroppedJob { id: key, dependents, chain_actors });
                proof {
                    assert forall|q: int|
                        0 <= q < i + 1 && ids.contains(store.keys()[q]) implies exists|t: int|
                        0 <= t < dropped.len() && (#[trigger] dropped@[t]).id == store.keys()[q] by {
                        if q < i {
                            let t = choose|t: int|
                                0 <= t < dropped_before.len() && (#[trigger] dropped_before[t]).id
                                    == store.keys()[q];
                            assert(dropped@[t].id == store.keys()[q]);
                        } else {
                            assert(dropped@[dropped.len() - 1].id == key);
                        }
                    }
                    assert forall|q: int, d: TableId|
                        0 <= q < i + 1 && ids.contains(store.keys()[q]) && #[trigger] job_at(
                            self@,
                            q,
                        ).dependent_table_ids().contains(d) implies ids.contains(d)
                        || self@.contains_key(d) by {
                        if q == i {
                            let x = choose|x: int|
                                0 <= x < dependents@.len() && dependents@[x] == d;
                            assert(ids.contains(dependents@[x]) || self@.contains_key(
                                dependents@[x],
                            ));
                        }
                    }
                }
            } else {
                assert(notifications.deep_view() =~= notes_before + Seq::<NotificationView>::empty());
            }
            proof {
                assert forall|k: TableId| #[trigger]
                    txn@.contains_key(k) <==> ids.contains(k) && exists|q: int|
                        0 <= q < i + 1 && store.keys()[q] == k by {
                    if k == key && ids.contains(k) {
                        assert(store.keys()[i as int] == k);
                    }
                    if txn_before.contains_key(k) {
                        let q = choose|q: int| 0 <= q < i && store.keys()[q] == k;
                        assert(0 <= q < i + 1 && store.keys()[q] == k);
                    }
                    if ids.contains(k) && exists|q: int| 0 <= q < i + 1 && store.keys()[q] == k {
                        let q = choose|q: int| 0 <= q < i + 1 && store.keys()[q] == k;
                        if q < i {
                            assert(txn_before.contains_key(k));
                        }
                    }
                }
            }
            i += 1;
        }
        proof {
            store.lemma_view();
            assert forall|j: TableId| ids.contains(j) && self@.contains_key(j) implies exists|t: int|
                0 <= t < dropped.len() && (#[trigger] dropped@[t]).id == j by {
                let q = store.keys().index_of(j);
                assert(store.keys()[q] == j);
            }
            assert forall|u: TableId| !drop_missing(self@, ids, u) by {
                if repaired(self@, ids, u) {
                    let j = choose|j: TableId| feeds(self@, ids, j, u);
                    let q = store.keys().index_of(j);
                    assert(store.keys()[q] == j);
                    assert(job_at(self@, q).dependent_table_ids().contains(u));
                }
            }
        }
        let ghost deletes = txn@;
        let mut u: usize = 0;
        while u < n
            invariant
                u <= n,
                n == store.keys().len(),
                store.wf(),
                store@ == self@,
                ids == table_ids@.to_set(),
                forall|t: int|
                    0 <= t < dropped.len() ==> (#[trigger] dropped@[t]).describes(self@, ids),
                forall|j: TableId|
                    ids.contains(j) && self@.contains_key(j) ==> exists|t: int|
                        0 <= t < dropped.len() && (#[trigger] dropped@[t]).id == j,
                forall|k: TableId|
                    ids.contains(k) ==> (#[trigger] txn@.contains_key(k) <==> self@.contains_key(k)),
                forall|k: TableId|
                    ids.contains(k) && #[trigger] txn@.contains_key(k) ==> txn@[k] is None,
                forall|k: TableId|
                    !ids.contains(k) ==> (#[trigger] txn@.contains_key(k) <==> repaired(
                        self@,
                        ids,
                        k,
                    ) && exists|q: int| 0 <= q < u && store.keys()[q] == k),
                forall|k: TableId|
                    !ids.contains(k) && #[trigger] txn@.contains_key(k) ==> txn@[k] == Some(
                        self@[k].with_sink_targets_cut(cut_from(self@, ids, k)),
                    ),
            decreases n - u,
        {
            let key = store.key_at(u);
            let ghost txn_before = txn@;
            if !contains_id(table_ids, key) {
                let (found, cut) = targets_into_dropped(&dropped, key, Ghost(self@), Ghost(ids));
                if found {
                    let mut job = store.value_at(u).deep_clone();
                    proof {
                        store.lemma_view();
                    }
                    job.prune_sink_dispatchers(&cut);
                    txn.insert(key, job);
                }
            }
            proof {
                store.lemma_view();
                assert forall|k: TableId| !ids.contains(k) implies (#[trigger] txn@.contains_key(k)
                    <==> repaired(self@, ids, k) && exists|q: int|
                    0 <= q < u + 1 && store.keys()[q] == k) by {
                    if txn_before.contains_key(k) {
                        let q = choose|q: int| 0 <= q < u && store.keys()[q] == k;
                        assert(0 <= q < u + 1 && store.keys()[q] == k);
                    }
                    if repaired(self@, ids, k) && exists|q: int|
                        0 <= q < u + 1 && store.keys()[q] == k {
                        let q = choose|q: int| 0 <= q < u + 1 && store.keys()[q] == k;
                        if q < u {
                            assert(txn_before.contains_key(k));
                        }
                    }
                    if k == key {
                        assert(store.keys()[u as int] == k);
                    }
                }
            }
            u += 1;
        }
        proof {
            store.lemma_view();
            let want = drop_edits(self@, ids);
            assert forall|k: TableId| #[trigger] txn@.contains_key(k) == want.contains_key(k) by {
                if !ids.contains(k) && repaired(self@, ids, k) && self@.contains_key(k) {
                    let q = store.keys().index_of(k);
                    assert(0 <= q < n && store.keys()[q] == k);
                }
                if !ids.contains(k) && txn@.contains_key(k) {
                    let q = choose|q: int| 0 <= q < n && store.keys()[q] == k;
                    assert(self@.contains_key(store.keys()[q]));
                }
            }
            assert forall|k: TableId| #[trigger] txn@.contains_key(k) implies txn@[k] == want[k] by {
                if ids.contains(k) {
                    assert(txn@[k] is None);
                }
            }
            assert(txn@.dom() =~= want.dom());
            assert(txn@ =~= want);
        }
        Ok(PendingCommit { txn, notifications })
    }
}

} // verus!
