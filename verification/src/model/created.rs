//! Actors that were built for a reschedule and wait for it to go through:
//! putting them into their fragment, and taking them out again.

use crate::model::common::{ActorId, ActorStatus, FragmentId};
use crate::model::reschedule::stays;
use crate::model::stream::{append_ids, StreamActor, StreamActorView};
use crate::model::table_fragments::{Fragment, FragmentView, TableFragments, TableFragmentsView};
use crate::ord_map::{ascending, DeepClone, OrdMap};
use vstd::prelude::*;

verus! {

/// The actors built for one fragment, by id, each with its status.
pub type CreatedActors = OrdMap<(StreamActor, ActorStatus)>;

/// Model of [`CreatedActors`].
pub type CreatedActorsView = Map<ActorId, (StreamActorView, ActorStatus)>;

/// For each fragment, the ids of the actors that were put into it.
pub type Ledger = OrdMap<Vec<ActorId>>;

/// Model of a [`Ledger`].
pub type LedgerView = Map<FragmentId, Seq<ActorId>>;

/// The actors of `made`, in ascending order of id.
pub open spec fn new_actors(made: CreatedActorsView) -> Seq<StreamActorView> {
    Seq::new(ascending(made.dom()).len(), |i: int| made[ascending(made.dom())[i]].0)
}

/// The status that comes with a built actor.
pub open spec fn status_part() -> spec_fn((StreamActorView, ActorStatus)) -> ActorStatus {
    |e: (StreamActorView, ActorStatus)| e.1
}

/// The statuses of the actors of `made`.
pub open spec fn new_statuses(made: CreatedActorsView) -> Map<ActorId, ActorStatus> {
    made.map_values(status_part())
}

impl TableFragmentsView {
    /// This job with the actors `made` put into its fragment `fid`: they
    /// are appended to the fragment in ascending order of id, and their
    /// statuses are the job's statuses for them. A job without such a
    /// fragment stays as it is.
    pub open spec fn with_created(self, fid: FragmentId, made: CreatedActorsView) -> Self {
        if self.fragments.contains_key(fid) {
            let f = self.fragments[fid];
            TableFragmentsView {
                fragments: self.fragments.insert(
                    fid,
                    FragmentView { actors: f.actors + new_actors(made), ..f },
                ),
                actor_status: self.actor_status.union_prefer_right(new_statuses(made)),
                ..self
            }
        } else {
            self
        }
    }

    /// The actors that `ledger` lists for fragments of this job.
    pub open spec fn listed_in(self, ledger: LedgerView) -> Set<ActorId> {
        Set::new(
            |a: ActorId|
                exists|fid: FragmentId|
                    self.fragments.contains_key(fid) && #[trigger] ledger.contains_key(fid)
                        && ledger[fid].contains(a),
        )
    }

    /// This job without the actors that `ledger` lists: each fragment that
    /// `ledger` names loses the actors listed for it, and the job loses the
    /// status of every actor listed for one of its fragments.
    pub open spec fn without_created(self, ledger: LedgerView) -> Self {
        TableFragmentsView {
            fragments: self.fragments.map_entries(cleared(ledger)),
            actor_status: self.actor_status.remove_keys(self.listed_in(ledger)),
            ..self
        }
    }
}

/// A fragment without the actors that `ledger` lists for it.
pub open spec fn cleared(ledger: LedgerView) -> spec_fn(FragmentId, FragmentView) -> FragmentView {
    |fid: FragmentId, f: FragmentView|
        if ledger.contains_key(fid) {
            FragmentView { actors: f.actors.filter(stays(ledger[fid].to_set())), ..f }
        } else {
            f
        }
}

impl Fragment {
    /// Appends copies of the actors of `made`, in ascending order of id.
    pub fn append_created(&mut self, made: &CreatedActors)
        ensures
            final(self)@ == (FragmentView {
                actors: old(self)@.actors + new_actors(made@),
                ..old(self)@
            }),
    {
        let n = made.len();
        let mut i: usize = 0;
        let ghost base = self.actors.deep_view();
        let ghost want = new_actors(made@);
        proof {
            made.lemma_view();
            assert(base + want.take(0) =~= base);
        }
        while i < n
            invariant
                i <= n,
                n == made.keys().len(),
                made.wf(),
                want == new_actors(made@),
                want.len() == n,
                base == old(self)@.actors,
                self.fragment_id == old(self).fragment_id,
                self.fragment_type == old(self).fragment_type,
                self.vnode_mapping == old(self).vnode_mapping,
                self.state_table_ids == old(self).state_table_ids,
                self.actors.deep_view() == base + want.take(i as int),
            decreases n - i,
        {
            let ghost before = self.actors.deep_view();
            let entry = made.value_at(i);
            let copy = entry.0.deep_clone();
            self.actors.push(copy);
            proof {
                made.lemma_view();
                assert(self.actors.deep_view() =~= before.push(copy@));
                assert(want[i as int] == made@[made.keys()[i as int]].0);
                assert(want.take(i as int + 1) =~= want.take(i as int).push(want[i as int]));
                assert(self.actors.deep_view() =~= base + want.take(i as int + 1));
            }
            i += 1;
        }
        assert(want.take(n as int) =~= want);
    }
}

impl TableFragments {
    /// Puts the actors `made` into fragment `fid` of this job, if the job
    /// has such a fragment, and says whether it has.
    pub fn add_created(&mut self, fid: FragmentId, made: &CreatedActors) -> (applied: bool)
        ensures
            applied == old(self)@.fragments.contains_key(fid),
            final(self)@ == old(self)@.with_created(fid, made@),
    {
        let p = match self.fragments.position(fid) {
            Some(p) => p,
            None => {
                proof {
                    self.fragments.lemma_view();
                }
                return false;
            },
        };
        let ghost before = self.fragments;
        proof {
            before.lemma_view();
        }
        let f = self.fragments.value_at_mut(p);
        f.append_created(made);
        proof {
            before.lemma_view_updated(&self.fragments, p as int, self.fragments.values()[p as int]);
        }
        let n = made.len();
        let mut i: usize = 0;
        let ghost status0 = self.actor_status@;
        proof {
            made.lemma_view();
        }
        while i < n
            invariant
                i <= n,
                n == made.keys().len(),
                made.wf(),
                status0 == old(self)@.actor_status,
                self.table_id == old(self).table_id,
                self.state == old(self).state,
                self.actor_splits == old(self).actor_splits,
                self.fragments@ == old(self)@.with_created(fid, made@).fragments,
                forall|k: ActorId|
                    #![trigger self.actor_status@.contains_key(k)]
                    self.actor_status@.contains_key(k) <==> status0.contains_key(k) || exists|
                        j: int,
                    | 0 <= j < i && made.keys()[j] == k,
                forall|j: int|
                    0 <= j < i ==> self.actor_status@[#[trigger] made.keys()[j]]
                        == made@[made.keys()[j]].1,
                forall|k: ActorId|
                    status0.contains_key(k) && !(exists|j: int| 0 <= j < i && made.keys()[j] == k)
                        ==> self.actor_status@[k] == status0[k],
            decreases n - i,
        {
            let k = made.key_at(i);
            let status = made.value_at(i).1;
            let ghost prev = self.actor_status@;
            self.actor_status.insert(k, status);
            proof {
                made.lemma_view();
                assert(self.actor_status@ == prev.insert(k, status));
                assert(k == made.keys()[i as int]);
                assert forall|x: ActorId|
                    #![trigger self.actor_status@.contains_key(x)]
                    self.actor_status@.contains_key(x) <==> status0.contains_key(x) || exists|
                        j: int,
                    | 0 <= j < i + 1 && made.keys()[j] == x by {
                    assert(prev.contains_key(x) <==> status0.contains_key(x) || exists|j: int|
                        0 <= j < i && made.keys()[j] == x);
                    if x == k {
                        assert(made.keys()[i as int] == x);
                    }
                    if prev.contains_key(x) && !status0.contains_key(x) {
                        let j = choose|j: int| 0 <= j < i && made.keys()[j] == x;
                        assert(0 <= j < i + 1 && made.keys()[j] == x);
                    }
                }
                assert forall|x: ActorId|
                    status0.contains_key(x) && !(exists|j: int|
                        0 <= j < i + 1 && made.keys()[j] == x) implies self.actor_status@[x]
                    == status0[x] by {
                    assert(x != k);
                    if exists|j: int| 0 <= j < i && made.keys()[j] == x {
                        let j = choose|j: int| 0 <= j < i && made.keys()[j] == x;
                        assert(0 <= j < i + 1 && made.keys()[j] == x);
                    }
                }
            }
            i += 1;
        }
        proof {
            made.lemma_view();
            let want = status0.union_prefer_right(new_statuses(made@));
            assert(new_statuses(made@).dom() =~= made@.dom());
            assert(want.dom() =~= status0.dom().union(made@.dom()));
            assert forall|x: ActorId| self.actor_status@.contains_key(x) == want.contains_key(
                x,
            ) by {
                if made@.contains_key(x) {
                    let j = made.keys().index_of(x);
                    assert(0 <= j < n && made.keys()[j] == x);
                }
                if exists|j: int| 0 <= j < n && made.keys()[j] == x {
                    let j = choose|j: int| 0 <= j < n && made.keys()[j] == x;
                    assert(made@.contains_key(made.keys()[j]));
                }
                let listed = exists|j: int| 0 <= j < n && made.keys()[j] == x;
                assert(made@.contains_key(x) <==> listed);
                assert(self.actor_status@.contains_key(x) <==> status0.contains_key(x) || listed);
                assert(want.contains_key(x) <==> status0.contains_key(x) || made@.contains_key(x));
            }
            assert forall|x: ActorId| self.actor_status@.contains_key(x) implies self.actor_status@[x]
                == want[x] by {
                if made@.contains_key(x) {
                    let j = made.keys().index_of(x);
                    assert(0 <= j < n && made.keys()[j] == x);
                }
            }
            assert(self.actor_status@ =~= want);
        }
        true
    }

    /// Takes out of this job the actors that `ledger` lists.
    pub fn remove_created(&mut self, ledger: &Ledger)
        ensures
            final(self)@ == old(self)@.without_created(ledger@),
    {
        let n = self.fragments.len();
        let mut gone: Vec<ActorId> = Vec::new();
        let mut q: usize = 0;
        while q < n
            invariant
                q <= n,
                n == self.fragments.keys().len(),
                self.fragments.wf(),
                old(self).fragments.wf(),
                self.fragments.keys() == old(self).fragments.keys(),
                self.table_id == old(self).table_id,
                self.state == old(self).state,
                self.actor_status == old(self).actor_status,
                self.actor_splits == old(self).actor_splits,
                forall|j: int|
                    0 <= j < q ==> (#[trigger] self.fragments.values()[j])@ == cleared(ledger@)(
                        self.fragments.keys()[j],
                        old(self).fragments.values()[j]@,
                    ),
                forall|j: int|
                    q <= j < n ==> #[trigger] self.fragments.values()[j] == old(
                        self,
                    ).fragments.values()[j],
                forall|a: ActorId|
                    #![trigger gone@.contains(a)]
                    gone@.contains(a) <==> exists|j: int|
                        0 <= j < q && ledger@.contains_key(#[trigger] self.fragments.keys()[j])
                            && ledger@[self.fragments.keys()[j]].contains(a),
            decreases n - q,
        {
            let fid = self.fragments.key_at(q);
            let ghost gone_before = gone@;
            match ledger.get(fid) {
                Some(ids) => {
                    assert(ids@ =~= ids.deep_view());
                    let f = self.fragments.value_at_mut(q);
                    f.remove_actors(ids);
                    append_ids(&mut gone, ids);
                    proof {
                        assert forall|a: ActorId|
                            #![trigger gone@.contains(a)]
                            gone@.contains(a) <==> exists|j: int|
                                0 <= j < q + 1 && ledger@.contains_key(
                                    #[trigger] self.fragments.keys()[j],
                                ) && ledger@[self.fragments.keys()[j]].contains(a) by {
                            if gone@.contains(a) {
                                let k = choose|k: int| 0 <= k < gone@.len() && gone@[k] == a;
                                if k < gone_before.len() {
                                    assert(gone_before[k] == a);
                                    assert(gone_before.contains(a));
                                    let j = choose|j: int|
                                        0 <= j < q && ledger@.contains_key(
                                            #[trigger] self.fragments.keys()[j],
                                        ) && ledger@[self.fragments.keys()[j]].contains(a);
                                    assert(0 <= j < q + 1 && ledger@.contains_key(
                                        self.fragments.keys()[j],
                                    ) && ledger@[self.fragments.keys()[j]].contains(a));
                                } else {
                                    assert(ids@[k - gone_before.len()] == a);
                                    assert(ledger@.contains_key(self.fragments.keys()[q as int])
                                        && ledger@[self.fragments.keys()[q as int]].contains(a));
                                }
                            }
                            if exists|j: int|
                                0 <= j < q + 1 && ledger@.contains_key(
                                    #[trigger] self.fragments.keys()[j],
                                ) && ledger@[self.fragments.keys()[j]].contains(a) {
                                let j = choose|j: int|
                                    0 <= j < q + 1 && ledger@.contains_key(
                                        #[trigger] self.fragments.keys()[j],
                                    ) && ledger@[self.fragments.keys()[j]].contains(a);
                                if j < q {
                                    assert(gone_before.contains(a));
                                    let k = choose|k: int|
                                        0 <= k < gone_before.len() && gone_before[k] == a;
                                    assert(gone@[k] == a);
                                } else {
                                    let k = choose|k: int| 0 <= k < ids@.len() && ids@[k] == a;
                                    assert(gone@[gone_before.len() + k] == a);
                                }
                            }
                        }
                    }
                },
                None => {
                    proof {
                        assert forall|a: ActorId|
                            #![trigger gone@.contains(a)]
                            gone@.contains(a) <==> exists|j: int|
                                0 <= j < q + 1 && ledger@.contains_key(
                                    #[trigger] self.fragments.keys()[j],
                                ) && ledger@[self.fragments.keys()[j]].contains(a) by {
                            if gone@.contains(a) {
                                let j = choose|j: int|
                                    0 <= j < q && ledger@.contains_key(
                                        #[trigger] self.fragments.keys()[j],
                                    ) && ledger@[self.fragments.keys()[j]].contains(a);
                                assert(0 <= j < q + 1 && ledger@.contains_key(
                                    self.fragments.keys()[j],
                                ) && ledger@[self.fragments.keys()[j]].contains(a));
                            }
                            if exists|j: int|
                                0 <= j < q + 1 && ledger@.contains_key(
                                    #[trigger] self.fragments.keys()[j],
                                ) && ledger@[self.fragments.keys()[j]].contains(a) {
                                let j = choose|j: int|
                                    0 <= j < q + 1 && ledger@.contains_key(
                                        #[trigger] self.fragments.keys()[j],
                                    ) && ledger@[self.fragments.keys()[j]].contains(a);
                                assert(j < q);
                            }
                        }
                    }
                },
            }
            q += 1;
        }
        proof {
            old(self).fragments.lemma_view_mapped_entries(&self.fragments, cleared(ledger@));
            old(self).fragments.lemma_view();
            assert forall|a: ActorId| gone@.to_set().contains(a) == old(self)@.listed_in(
                ledger@,
            ).contains(a) by {
                if gone@.contains(a) {
                    let j = choose|j: int|
                        0 <= j < n && ledger@.contains_key(#[trigger] self.fragments.keys()[j])
                            && ledger@[self.fragments.keys()[j]].contains(a);
                    let fid = self.fragments.keys()[j];
                    assert(old(self)@.fragments.contains_key(fid) && ledger@.contains_key(fid)
                        && ledger@[fid].contains(a));
                }
                if old(self)@.listed_in(ledger@).contains(a) {
                    let fid = choose|fid: FragmentId|
                        old(self)@.fragments.contains_key(fid) && #[trigger] ledger@.contains_key(
                            fid,
                        ) && ledger@[fid].contains(a);
                    let j = self.fragments.keys().index_of(fid);
                    assert(self.fragments.keys()[j] == fid);
                }
            }
            assert(gone@.to_set() =~= old(self)@.listed_in(ledger@));
        }
        let ghost status0 = self.actor_status@;
        let mut j: usize = 0;
        proof {
            assert(gone@.take(0).to_set() =~= Set::<ActorId>::empty());
            assert(self.actor_status@ =~= status0.remove_keys(gone@.take(0).to_set()));
        }
        while j < gone.len()
            invariant
                j <= gone.len(),
                self.table_id == old(self).table_id,
                self.state == old(self).state,
                self.actor_splits == old(self).actor_splits,
                self.fragments@ == old(self)@.without_created(ledger@).fragments,
                self.actor_status@ == status0.remove_keys(gone@.take(j as int).to_set()),
            decreases gone.len() - j,
        {
            let a = gone[j];
            self.actor_status.remove(a);
            proof {
                gone@.take(j as int).lemma_push_to_set_commute(a);
                assert(gone@.take(j as int + 1) =~= gone@.take(j as int).push(a));
                assert(self.actor_status@ =~= status0.remove_keys(gone@.take(j as int + 1).to_set()));
            }
            j += 1;
        }
        assert(gone@.take(gone.len() as int) =~= gone@);
    }
}

} // verus!
