//! Where the actors of a job run: listings of placed actors and their
//! grouping by worker.
//!
//! An actor is placed when the job has a status for it and that status names
//! a parallel unit; the worker of that unit is where the actor runs. Actors
//! that are not placed appear in none of the listings.

use crate::model::common::{ActorId, ActorState, FragmentType, WorkerId};
use crate::model::grouping::{
    grouped, lemma_grouped_push, lemma_push_all_push, push_all, push_grouped,
};
use crate::model::stream::{StreamActor, StreamActorView};
use crate::model::table_fragments::{Fragment, FragmentView, TableFragments, TableFragmentsView};
use crate::ord_map::{ascending, DeepClone, OrdMap};
use vstd::prelude::*;

verus! {

/// An actor, the worker it runs on and its lifecycle state.
#[derive(Clone, Copy, Debug, PartialEq, Eq, Structural)]
pub struct Placement {
    pub worker: WorkerId,
    pub actor: ActorId,
    pub state: ActorState,
}

/// A placement as an item keyed by worker: the actor and its state.
pub open spec fn state_entry() -> spec_fn(Placement) -> (WorkerId, (ActorId, ActorState)) {
    |p: Placement| (p.worker, (p.actor, p.state))
}

/// A placement as an item keyed by worker: the actor.
pub open spec fn id_entry() -> spec_fn(Placement) -> (WorkerId, ActorId) {
    |p: Placement| (p.worker, p.actor)
}

/// The predicate "runs, or inactive actors are wanted too".
pub open spec fn runs_or(include_inactive: bool) -> spec_fn(Placement) -> bool {
    |p: Placement| include_inactive || p.state == ActorState::Running
}

/// Whether a fragment of type `t` is of kind `kind`; `None` stands for any.
pub open spec fn kind_matches(kind: Option<FragmentType>, t: FragmentType) -> bool {
    kind is None || kind == Some(t)
}

impl FragmentView {
    /// The ids of the fragment's actors, ascending, each once.
    pub open spec fn sorted_actor_ids(self) -> Seq<ActorId> {
        ascending(self.actor_ids().to_set())
    }
}

impl Fragment {
    /// The ids of the fragment's actors, ascending, each once.
    pub fn sorted_actor_ids(&self) -> (r: Vec<ActorId>)
        ensures
            r@ == self@.sorted_actor_ids(),
    {
        let mut seen: OrdMap<()> = OrdMap::new();
        let mut i: usize = 0;
        let ghost ids = self@.actor_ids();
        assert(ids.take(0).to_set() =~= Set::<u32>::empty());
        while i < self.actors.len()
            invariant
                i <= self.actors.len(),
                ids == self@.actor_ids(),
                ids.len() == self.actors.len(),
                seen@.dom() == ids.take(i as int).to_set(),
            decreases self.actors.len() - i,
        {
            seen.insert(self.actors[i].actor_id, ());
            proof {
                assert(ids[i as int] == self.actors@[i as int].actor_id);
                assert(ids.take(i as int + 1) =~= ids.take(i as int).push(ids[i as int]));
                ids.take(i as int).lemma_push_to_set_commute(ids[i as int]);
                assert(seen@.dom() =~= ids.take(i as int + 1).to_set());
            }
            i += 1;
        }
        assert(ids.take(ids.len() as int) =~= ids);
        let n = seen.len();
        let mut out: Vec<ActorId> = Vec::new();
        let mut j: usize = 0;
        while j < n
            invariant
                j <= n,
                n == seen.keys().len(),
                out@ == seen.keys().take(j as int),
            decreases n - j,
        {
            out.push(seen.key_at(j));
            assert(seen.keys().take(j as int + 1) =~= seen.keys().take(j as int).push(
                seen.keys()[j as int],
            ));
            j += 1;
        }
        proof {
            assert(seen.keys().take(n as int) =~= seen.keys());
            seen.lemma_view();
        }
        out
    }
}

impl TableFragmentsView {
    /// Where actor `a` runs, if it is placed.
    pub open spec fn placement(self, a: ActorId) -> Option<Placement> {
        if self.actor_status.contains_key(a) {
            match self.actor_status[a].parallel_unit {
                Some(pu) => Some(
                    Placement {
                        worker: pu.worker_node_id,
                        actor: a,
                        state: self.actor_status[a].state,
                    },
                ),
                None => None,
            }
        } else {
            None
        }
    }

    /// The placements of the placed actors among the first `n` of `ids`.
    pub open spec fn placements_of(self, ids: Seq<ActorId>, n: nat) -> Seq<Placement>
        decreases n,
    {
        if n == 0 || n > ids.len() {
            Seq::empty()
        } else {
            let prev = self.placements_of(ids, (n - 1) as nat);
            match self.placement(ids[n - 1]) {
                Some(p) => prev.push(p),
                None => prev,
            }
        }
    }

    /// The placements of a fragment's placed actors, in ascending order of
    /// actor id.
    pub open spec fn fragment_placements(self, f: FragmentView) -> Seq<Placement> {
        self.placements_of(f.sorted_actor_ids(), f.sorted_actor_ids().len())
    }

    /// The placements of the placed actors of the first `n` fragments, as far
    /// as these are of kind `kind`.
    pub open spec fn placements_upto(self, kind: Option<FragmentType>, n: nat) -> Seq<Placement>
        decreases n,
    {
        if n == 0 || n > self.fragment_ids().len() {
            Seq::empty()
        } else {
            let f = self.fragment_at(n - 1);
            self.placements_upto(kind, (n - 1) as nat) + if kind_matches(kind, f.fragment_type) {
                self.fragment_placements(f)
            } else {
                Seq::empty()
            }
        }
    }

    /// The placements of the placed actors of the fragments of kind `kind`:
    /// fragments in ascending order of id, the actors of a fragment in
    /// ascending order of id.
    pub open spec fn placements(self, kind: Option<FragmentType>) -> Seq<Placement> {
        self.placements_upto(kind, self.fragment_ids().len())
    }

    /// For each worker the placed actors on it, with their states.
    pub open spec fn worker_actor_states(self) -> Map<WorkerId, Seq<(ActorId, ActorState)>> {
        grouped(self.placements(None).map_values(state_entry()))
    }

    /// For each worker the placed actors of source fragments on it, with
    /// their states.
    pub open spec fn worker_source_actor_states(self) -> Map<
        WorkerId,
        Seq<(ActorId, ActorState)>,
    > {
        grouped(self.placements(Some(FragmentType::Source)).map_values(state_entry()))
    }

    /// The ids of the placed actors, each under its worker: the running
    /// ones, or all if `include_inactive`.
    pub open spec fn placed_ids(self, include_inactive: bool) -> Seq<(WorkerId, ActorId)> {
        self.placements(None).filter(runs_or(include_inactive)).map_values(id_entry())
    }

    /// For each worker the ids of the placed actors on it: the running ones,
    /// or all if `include_inactive`.
    pub open spec fn worker_actor_ids(self, include_inactive: bool) -> Map<WorkerId, Seq<ActorId>> {
        grouped(self.placed_ids(include_inactive))
    }

    /// The placed actors among the first `n` of a fragment, in list order,
    /// keyed by worker: the running ones, or all if `include_inactive`.
    pub open spec fn fragment_actors_upto(
        self,
        f: FragmentView,
        include_inactive: bool,
        n: nat,
    ) -> Seq<(WorkerId, StreamActorView)>
        decreases n,
    {
        if n == 0 || n > f.actors.len() {
            Seq::empty()
        } else {
            let prev = self.fragment_actors_upto(f, include_inactive, (n - 1) as nat);
            let a = f.actors[n - 1];
            match self.placement(a.actor_id) {
                Some(p) => if runs_or(include_inactive)(p) {
                    prev.push((p.worker, a))
                } else {
                    prev
                },
                None => prev,
            }
        }
    }

    /// The placed actors of the first `n` fragments, keyed by worker.
    pub open spec fn actors_upto(self, include_inactive: bool, n: nat) -> Seq<
        (WorkerId, StreamActorView),
    >
        decreases n,
    {
        if n == 0 || n > self.fragment_ids().len() {
            Seq::empty()
        } else {
            let f = self.fragment_at(n - 1);
            self.actors_upto(include_inactive, (n - 1) as nat) + self.fragment_actors_upto(
                f,
                include_inactive,
                f.actors.len(),
            )
        }
    }

    /// The placed actors, each under its worker: fragments in ascending
    /// order of id, the actors of a fragment in list order; the running
    /// ones, or all if `include_inactive`.
    pub open spec fn placed_actors(self, include_inactive: bool) -> Seq<
        (WorkerId, StreamActorView),
    > {
        self.actors_upto(include_inactive, self.fragment_ids().len())
    }

    /// For each worker the placed actors on it: the running ones, or all if
    /// `include_inactive`.
    pub open spec fn worker_actors(self, include_inactive: bool) -> Map<
        WorkerId,
        Seq<StreamActorView>,
    > {
        grouped(self.placed_actors(include_inactive))
    }
}

impl TableFragments {
    /// Where actor `a` runs, if it is placed.
    pub fn placement(&self, a: ActorId) -> (r: Option<Placement>)
        ensures
            r == self@.placement(a),
    {
        match self.actor_status.get(a) {
            Some(status) => match status.parallel_unit {
                Some(pu) => Some(
                    Placement { worker: pu.worker_node_id, actor: a, state: status.state },
                ),
                None => None,
            },
            None => None,
        }
    }

    /// The placements of the placed actors of the fragments of kind `kind`:
    /// fragments in ascending order of id, the actors of a fragment in
    /// ascending order of id.
    pub fn placements(&self, kind: Option<FragmentType>) -> (r: Vec<Placement>)
        ensures
            r@ == self@.placements(kind),
    {
        let n = self.fragments.len();
        let mut out: Vec<Placement> = Vec::new();
        let mut i: usize = 0;
        proof {
            self.lemma_fragments();
        }
        while i < n
            invariant
                i <= n,
                n == self.fragments.keys().len(),
                self.fragments.wf(),
                out@ == self@.placements_upto(kind, i as nat),
            decreases n - i,
        {
            let f = self.fragments.value_at(i);
            proof {
                self.lemma_fragments();
                assert(self@.fragment_at(i as int) == f@);
            }
            let wanted = match kind {
                None => true,
                Some(k) => k == f.fragment_type,
            };
            if wanted {
                let ids = f.sorted_actor_ids();
                let ghost base = out@;
                let mut j: usize = 0;
                while j < ids.len()
                    invariant
                        j <= ids.len(),
                        out@ == base + self@.placements_of(ids@, j as nat),
                    decreases ids.len() - j,
                {
                    match self.placement(ids[j]) {
                        Some(p) => {
                            out.push(p);
                        },
                        None => {},
                    }
                    assert(out@ =~= base + self@.placements_of(ids@, (j + 1) as nat));
                    j += 1;
                }
            }
            assert(out@ =~= self@.placements_upto(kind, (i + 1) as nat));
            i += 1;
        }
        out
    }

    /// Groups a listing of placements by worker, keeping actor and state.
    fn group_states(listing: &Vec<Placement>) -> (r: OrdMap<Vec<(ActorId, ActorState)>>)
        ensures
            r@ == grouped(listing@.map_values(state_entry())),
    {
        let mut groups: OrdMap<Vec<(ActorId, ActorState)>> = OrdMap::new();
        let mut i: usize = 0;
        assert(listing@.take(0).map_values(state_entry()) =~= Seq::empty());
        while i < listing.len()
            invariant
                i <= listing.len(),
                groups@ == grouped(listing@.take(i as int).map_values(state_entry())),
            decreases listing.len() - i,
        {
            let p = listing[i];
            proof {
                let before = listing@.take(i as int).map_values(state_entry());
                lemma_grouped_push(before, p.worker, (p.actor, p.state));
                assert(listing@.take(i as int + 1).map_values(state_entry()) =~= before.push(
                    (p.worker, (p.actor, p.state)),
                ));
            }
            push_grouped(&mut groups, p.worker, (p.actor, p.state));
            i += 1;
        }
        assert(listing@.take(listing.len() as int) =~= listing@);
        groups
    }

    /// For each worker the placed actors on it, with their states.
    pub fn worker_actor_states(&self) -> (r: OrdMap<Vec<(ActorId, ActorState)>>)
        ensures
            r@ == self@.worker_actor_states(),
    {
        let listing = self.placements(None);
        Self::group_states(&listing)
    }

    /// For each worker the placed actors of source fragments on it, with
    /// their states.
    pub fn worker_source_actor_states(&self) -> (r: OrdMap<Vec<(ActorId, ActorState)>>)
        ensures
            r@ == self@.worker_source_actor_states(),
    {
        let listing = self.placements(Some(FragmentType::Source));
        Self::group_states(&listing)
    }

    /// Appends the ids of the placed actors of this job to the groups of
    /// their workers: the running ones, or all if `include_inactive`.
    pub fn group_ids_into(&self, include_inactive: bool, groups: &mut OrdMap<Vec<ActorId>>)
        ensures
            final(groups)@ == push_all(old(groups)@, self@.placed_ids(include_inactive)),
    {
        let listing = self.placements(None);
        let mut i: usize = 0;
        let ghost keep = runs_or(include_inactive);
        proof {
            reveal(Seq::filter);
            assert(listing@.take(0).filter(keep).map_values(id_entry()) =~= Seq::empty());
        }
        while i < listing.len()
            invariant
                i <= listing.len(),
                keep == runs_or(include_inactive),
                groups@ == push_all(
                    old(groups)@,
                    listing@.take(i as int).filter(keep).map_values(id_entry()),
                ),
            decreases listing.len() - i,
        {
            let p = listing[i];
            proof {
                let before = listing@.take(i as int);
                assert(listing@.take(i as int + 1) =~= before.push(p));
                before.lemma_filter_push(p, keep);
                if keep(p) {
                    lemma_push_all_push(
                        old(groups)@,
                        before.filter(keep).map_values(id_entry()),
                        p.worker,
                        p.actor,
                    );
                    assert(before.filter(keep).push(p).map_values(id_entry())
                        =~= before.filter(keep).map_values(id_entry()).push((p.worker, p.actor)));
                }
            }
            let running = match p.state {
                ActorState::Running => true,
                ActorState::Inactive => false,
            };
            if include_inactive || running {
                push_grouped(groups, p.worker, p.actor);
            }
            i += 1;
        }
        assert(listing@.take(listing.len() as int) =~= listing@);
    }

    /// For each worker the ids of the placed actors on it: the running ones,
    /// or all if `include_inactive`.
    pub fn worker_actor_ids(&self, include_inactive: bool) -> (r: OrdMap<Vec<ActorId>>)
        ensures
            r@ == self@.worker_actor_ids(include_inactive),
    {
        let mut groups: OrdMap<Vec<ActorId>> = OrdMap::new();
        self.group_ids_into(include_inactive, &mut groups);
        groups
    }

    /// Appends the placed actors of this job to the groups of their
    /// workers: the running ones, or all if `include_inactive`.
    pub fn group_actors_into(&self, include_inactive: bool, groups: &mut OrdMap<Vec<StreamActor>>)
        ensures
            final(groups)@ == push_all(old(groups)@, self@.placed_actors(include_inactive)),
    {
        let n = self.fragments.len();
        let mut i: usize = 0;
        proof {
            self.lemma_fragments();
        }
        while i < n
            invariant
                i <= n,
                n == self.fragments.keys().len(),
                self.fragments.wf(),
                groups@ == push_all(old(groups)@, self@.actors_upto(include_inactive, i as nat)),
            decreases n - i,
        {
            let f = self.fragments.value_at(i);
            proof {
                self.lemma_fragments();
                assert(self@.fragment_at(i as int) == f@);
            }
            let ghost base = self@.actors_upto(include_inactive, i as nat);
            let mut j: usize = 0;
            assert(base + self@.fragment_actors_upto(f@, include_inactive, 0) =~= base);
            while j < f.actors.len()
                invariant
                    j <= f.actors.len(),
                    f@.actors.len() == f.actors.len(),
                    groups@ == push_all(
                        old(groups)@,
                        base + self@.fragment_actors_upto(f@, include_inactive, j as nat),
                    ),
                decreases f.actors.len() - j,
            {
                let a = &f.actors[j];
                proof {
                    assert(f@.actors[j as int] == a@);
                }
                match self.placement(a.actor_id) {
                    Some(p) => {
                        let running = match p.state {
                            ActorState::Running => true,
                            ActorState::Inactive => false,
                        };
                        if include_inactive || running {
                            let copy = a.deep_clone();
                            proof {
                                let so_far = base + self@.fragment_actors_upto(
                                    f@,
                                    include_inactive,
                                    j as nat,
                                );
                                lemma_push_all_push(old(groups)@, so_far, p.worker, a@);
                                assert(base + self@.fragment_actors_upto(
                                    f@,
                                    include_inactive,
                                    (j + 1) as nat,
                                ) =~= so_far.push((p.worker, a@)));
                            }
                            push_grouped(groups, p.worker, copy);
                        }
                    },
                    None => {},
                }
                j += 1;
            }
            i += 1;
        }
    }

    /// For each worker the placed actors on it: fragments in ascending order
    /// of id, the actors of a fragment in list order; the running ones, or
    /// all if `include_inactive`.
    pub fn worker_actors(&self, include_inactive: bool) -> (r: OrdMap<Vec<StreamActor>>)
        ensures
            r@ == self@.worker_actors(include_inactive),
    {
        let mut groups: OrdMap<Vec<StreamActor>> = OrdMap::new();
        self.group_actors_into(include_inactive, &mut groups);
        groups
    }
}

} // verus!
