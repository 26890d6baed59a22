//! A streaming job as the manager stores it: its fragments, the status of
//! each of its actors and the source splits assigned to them.

use crate::model::common::{
    clone_u32s, ActorId, ActorState, ActorStatus, FragmentId, FragmentType, ParallelUnit,
    ParallelUnitId, ParallelUnitMapping, ParallelUnitMappingView, SourceSplit, State, TableId,
};
use crate::model::stream::{append_ids, StreamActor, StreamActorView};
use crate::ord_map::{ascending, DeepClone, OrdMap};
use vstd::prelude::*;

verus! {

/// A logical stage of a job's dataflow, realised by its actors.
#[derive(Clone, Debug, PartialEq, Eq)]
pub struct Fragment {
    pub fragment_id: FragmentId,
    pub fragment_type: FragmentType,
    pub actors: Vec<StreamActor>,
    pub vnode_mapping: Option<ParallelUnitMapping>,
    pub state_table_ids: Vec<u32>,
}

/// Model of a [`Fragment`].
pub struct FragmentView {
    pub fragment_id: FragmentId,
    pub fragment_type: FragmentType,
    pub actors: Seq<StreamActorView>,
    pub vnode_mapping: Option<ParallelUnitMappingView>,
    pub state_table_ids: Seq<u32>,
}

impl View for Fragment {
    type V = FragmentView;

    open spec fn view(&self) -> FragmentView {
        FragmentView {
            fragment_id: self.fragment_id,
            fragment_type: self.fragment_type,
            actors: self.actors.deep_view(),
            vnode_mapping: self.vnode_mapping.deep_view(),
            state_table_ids: self.state_table_ids@,
        }
    }
}

impl DeepView for Fragment {
    type V = FragmentView;

    open spec fn deep_view(&self) -> FragmentView {
        self@
    }
}

impl DeepClone for Fragment {
    fn deep_clone(&self) -> (r: Self) {
        Fragment {
            fragment_id: self.fragment_id,
            fragment_type: self.fragment_type,
            actors: self.actors.deep_clone(),
            vnode_mapping: self.vnode_mapping.deep_clone(),
            state_table_ids: clone_u32s(&self.state_table_ids),
        }
    }
}

/// The substitution of parallel-unit ids that `moves` stands for: an id that
/// `moves` knows goes to the id of its new unit, any other id stays.
pub open spec fn moved_unit(moves: Map<ParallelUnitId, ParallelUnit>) -> spec_fn(
    ParallelUnitId,
) -> ParallelUnitId {
    |p: ParallelUnitId|
        if moves.contains_key(p) {
            moves[p].id
        } else {
            p
        }
}

impl ParallelUnitMappingView {
    /// This mapping with every parallel-unit id substituted as `moves` says.
    pub open spec fn remapped(self, moves: Map<ParallelUnitId, ParallelUnit>) -> Self {
        ParallelUnitMappingView {
            fragment_id: self.fragment_id,
            original_indices: self.original_indices,
            data: self.data.map_values(moved_unit(moves)),
        }
    }
}

impl FragmentView {
    /// The ids of the fragment's actors, in list order.
    pub open spec fn actor_ids(self) -> Seq<ActorId> {
        Seq::new(self.actors.len(), |i: int| self.actors[i].actor_id)
    }

    /// Whether the fragment keeps state, that is, has internal state tables.
    pub open spec fn is_stateful(self) -> bool {
        self.state_table_ids.len() > 0
    }

    /// The upstream tables named by chain nodes of the first `n` actors.
    pub open spec fn chain_tables_upto(self, n: nat) -> Seq<TableId>
        decreases n,
    {
        if n == 0 || n > self.actors.len() {
            Seq::empty()
        } else {
            self.chain_tables_upto((n - 1) as nat) + match self.actors[n - 1].nodes {
                Some(node) => node.chain_tables(),
                None => Seq::empty(),
            }
        }
    }

    /// The upstream tables named by chain nodes of the fragment's actors.
    pub open spec fn chain_tables(self) -> Seq<TableId> {
        self.chain_tables_upto(self.actors.len())
    }

    /// This fragment with its vnode mapping rewritten as `moves` says.
    pub open spec fn remapped(self, moves: Map<ParallelUnitId, ParallelUnit>) -> Self {
        FragmentView {
            vnode_mapping: match self.vnode_mapping {
                Some(m) => Some(m.remapped(moves)),
                None => None,
            },
            ..self
        }
    }
}

impl Fragment {
    /// The ids of the fragment's actors, in list order.
    pub fn actor_ids(&self) -> (r: Vec<ActorId>)
        ensures
            r@ == self@.actor_ids(),
    {
        let mut out: Vec<ActorId> = Vec::new();
        let mut i: usize = 0;
        while i < self.actors.len()
            invariant
                i <= self.actors.len(),
                out.len() == i,
                forall|j: int| 0 <= j < i ==> out@[j] == self.actors@[j].actor_id,
            decreases self.actors.len() - i,
        {
            out.push(self.actors[i].actor_id);
            i += 1;
        }
        assert(out@ =~= self@.actor_ids());
        out
    }

    /// Appends to `out` the upstream tables named by chain nodes of the
    /// fragment's actors.
    pub fn collect_chain_tables(&self, out: &mut Vec<TableId>)
        ensures
            final(out)@ == old(out)@ + self@.chain_tables(),
    {
        let mut i: usize = 0;
        assert(out@ =~= old(out)@ + self@.chain_tables_upto(0));
        while i < self.actors.len()
            invariant
                i <= self.actors.len(),
                out@ == old(out)@ + self@.chain_tables_upto(i as nat),
            decreases self.actors.len() - i,
        {
            proof {
                assert(self@.actors[i as int] == self.actors@[i as int]@);
            }
            match &self.actors[i].nodes {
                Some(node) => {
                    node.collect_chain_tables(out);
                },
                None => {},
            }
            assert(out@ =~= old(out)@ + self@.chain_tables_upto((i + 1) as nat));
            i += 1;
        }
    }
}

/// The actor ids of a fragment, if it is of kind `kind` or `kind` is `None`.
pub open spec fn actor_ids_of(kind: Option<FragmentType>) -> spec_fn(FragmentView) -> Seq<u32> {
    |f: FragmentView|
        if kind is None || kind == Some(f.fragment_type) {
            f.actor_ids()
        } else {
            Seq::empty()
        }
}

/// The state-table ids of a fragment.
pub open spec fn state_tables_of() -> spec_fn(FragmentView) -> Seq<u32> {
    |f: FragmentView| f.state_table_ids
}

/// The upstream tables that a fragment chains to, if it is a chain fragment.
pub open spec fn chain_tables_of() -> spec_fn(FragmentView) -> Seq<u32> {
    |f: FragmentView|
        if f.fragment_type == FragmentType::Chain {
            f.chain_tables()
        } else {
            Seq::empty()
        }
}

/// One streaming job.
#[derive(Clone, Debug, PartialEq, Eq)]
pub struct TableFragments {
    pub table_id: TableId,
    pub state: State,
    pub fragments: OrdMap<Fragment>,
    pub actor_status: OrdMap<ActorStatus>,
    pub actor_splits: OrdMap<Vec<SourceSplit>>,
}

/// Model of a [`TableFragments`].
pub struct TableFragmentsView {
    pub table_id: TableId,
    pub state: State,
    pub fragments: Map<FragmentId, FragmentView>,
    pub actor_status: Map<ActorId, ActorStatus>,
    pub actor_splits: Map<ActorId, Seq<Seq<u8>>>,
}

impl View for TableFragments {
    type V = TableFragmentsView;

    open spec fn view(&self) -> TableFragmentsView {
        TableFragmentsView {
            table_id: self.table_id,
            state: self.state,
            fragments: self.fragments@,
            actor_status: self.actor_status@,
            actor_splits: self.actor_splits@,
        }
    }
}

impl DeepView for TableFragments {
    type V = TableFragmentsView;

    open spec fn deep_view(&self) -> TableFragmentsView {
        self@
    }
}

impl DeepClone for TableFragments {
    fn deep_clone(&self) -> (r: Self) {
        TableFragments {
            table_id: self.table_id,
            state: self.state,
            fragments: self.fragments.deep_clone(),
            actor_status: self.actor_status.deep_clone(),
            actor_splits: self.actor_splits.deep_clone(),
        }
    }
}

/// An actor status with its lifecycle state set to `state`.
pub open spec fn with_state(state: ActorState) -> spec_fn(ActorStatus) -> ActorStatus {
    |s: ActorStatus| ActorStatus { parallel_unit: s.parallel_unit, state }
}

/// A fragment with its vnode mapping rewritten as `moves` says.
pub open spec fn remapped_by(moves: Map<ParallelUnitId, ParallelUnit>) -> spec_fn(
    FragmentView,
) -> FragmentView {
    |f: FragmentView| f.remapped(moves)
}

impl TableFragmentsView {
    /// The ids of the job's fragments, ascending.
    pub open spec fn fragment_ids(self) -> Seq<FragmentId> {
        ascending(self.fragments.dom())
    }

    /// The `i`-th fragment in ascending order of id.
    pub open spec fn fragment_at(self, i: int) -> FragmentView {
        self.fragments[self.fragment_ids()[i]]
    }

    /// What `part` yields for the first `n` fragments, in ascending order of
    /// fragment id, one after the other.
    pub open spec fn gather_upto<T>(self, part: spec_fn(FragmentView) -> Seq<T>, n: nat) -> Seq<T>
        decreases n,
    {
        if n == 0 || n > self.fragment_ids().len() {
            Seq::empty()
        } else {
            self.gather_upto(part, (n - 1) as nat) + part(self.fragment_at(n - 1))
        }
    }

    /// What `part` yields for all fragments, in ascending order of fragment id.
    pub open spec fn gather<T>(self, part: spec_fn(FragmentView) -> Seq<T>) -> Seq<T> {
        self.gather_upto(part, self.fragment_ids().len())
    }

    /// All actor ids: fragments in ascending order of id, actors in list order.
    pub open spec fn actor_ids(self) -> Seq<ActorId> {
        self.gather(actor_ids_of(None))
    }

    /// The actor ids of the fragments of kind `kind`.
    pub open spec fn actor_ids_of_kind(self, kind: FragmentType) -> Seq<ActorId> {
        self.gather(actor_ids_of(Some(kind)))
    }

    /// The state-table ids of all fragments.
    pub open spec fn state_table_ids(self) -> Seq<u32> {
        self.gather(state_tables_of())
    }

    /// The upstream jobs that the chain fragments read from; a job is listed
    /// once for each chain node that names it.
    pub open spec fn dependent_table_ids(self) -> Seq<TableId> {
        self.gather(chain_tables_of())
    }

    /// This job with every actor in lifecycle state `state`.
    pub open spec fn with_actors_state(self, state: ActorState) -> Self {
        TableFragmentsView { actor_status: self.actor_status.map_values(with_state(state)), ..self }
    }

    /// This job with every vnode mapping rewritten as `moves` says.
    pub open spec fn with_vnode_mapping_moved(
        self,
        moves: Map<ParallelUnitId, ParallelUnit>,
    ) -> Self {
        TableFragmentsView { fragments: self.fragments.map_values(remapped_by(moves)), ..self }
    }
}

impl TableFragments {
    /// A job in state `Creating` with the given fragments, no actor status
    /// and no splits yet.
    pub fn new(table_id: TableId, fragments: OrdMap<Fragment>) -> (r: Self)
        ensures
            r@.table_id == table_id,
            r@.state == State::Creating,
            r@.fragments == fragments@,
            r@.actor_status == Map::<ActorId, ActorStatus>::empty(),
            r@.actor_splits == Map::<ActorId, Seq<Seq<u8>>>::empty(),
    {
        TableFragments {
            table_id,
            state: State::Creating,
            fragments,
            actor_status: OrdMap::new(),
            actor_splits: OrdMap::new(),
        }
    }

    /// The id of the job.
    pub fn table_id(&self) -> (r: TableId)
        ensures
            r == self@.table_id,
    {
        self.table_id
    }

    /// The lifecycle state of the job.
    pub fn state(&self) -> (r: State)
        ensures
            r == self@.state,
    {
        self.state
    }

    /// Sets the lifecycle state of the job.
    pub fn set_state(&mut self, state: State)
        ensures
            final(self)@ == (TableFragmentsView { state, ..old(self)@ }),
    {
        self.state = state;
    }

    /// How the positions of the fragment map relate to the model.
    pub proof fn lemma_fragments(&self)
        requires
            self.fragments.wf(),
        ensures
            self@.fragment_ids() == self.fragments.keys(),
            forall|i: int|
                0 <= i < self.fragments.keys().len() ==> #[trigger] self@.fragment_at(i)
                    == self.fragments.values()[i]@,
            forall|i: int|
                0 <= i < self.fragments.keys().len() ==> self@.fragments.contains_key(
                    #[trigger] self.fragments.keys()[i],
                ),
    {
        self.fragments.lemma_view();
    }

    /// The ids of the job's fragments, ascending.
    pub fn fragment_ids(&self) -> (r: Vec<FragmentId>)
        ensures
            r@ == self@.fragment_ids(),
    {
        let n = self.fragments.len();
        let mut out: Vec<FragmentId> = Vec::new();
        let mut i: usize = 0;
        while i < n
            invariant
                i <= n,
                n == self.fragments.keys().len(),
                out@ == self.fragments.keys().take(i as int),
            decreases n - i,
        {
            out.push(self.fragments.key_at(i));
            assert(self.fragments.keys().take(i as int + 1) =~= self.fragments.keys().take(
                i as int,
            ).push(self.fragments.keys()[i as int]));
            i += 1;
        }
        proof {
            assert(self.fragments.keys().take(n as int) =~= self.fragments.keys());
            self.lemma_fragments();
        }
        out
    }

    /// The actor ids of the fragments of kind `kind`, or of all fragments if
    /// `kind` is `None`.
    fn collect_actor_ids(&self, kind: Option<FragmentType>) -> (r: Vec<ActorId>)
        ensures
            r@ == self@.gather(actor_ids_of(kind)),
    {
        let n = self.fragments.len();
        let mut out: Vec<ActorId> = Vec::new();
        let mut i: usize = 0;
        proof {
            self.lemma_fragments();
        }
        while i < n
            invariant
                i <= n,
                n == self.fragments.keys().len(),
                self.fragments.wf(),
                out@ == self@.gather_upto(actor_ids_of(kind), i as nat),
            decreases n - i,
        {
            let f = self.fragments.value_at(i);
            proof {
                self.lemma_fragments();
                assert(self@.fragment_at(i as int) == f@);
            }
            let wanted = match kind {
                None => true,
                Some(k) => k == f.fragment_type,
            };
            if wanted {
                let ids = f.actor_ids();
                append_ids(&mut out, &ids);
            }
            assert(out@ =~= self@.gather_upto(actor_ids_of(kind), (i + 1) as nat));
            i += 1;
        }
        out
    }

    /// All actor ids: fragments in ascending order of id, actors in list order.
    pub fn actor_ids(&self) -> (r: Vec<ActorId>)
        ensures
            r@ == self@.actor_ids(),
    {
        self.collect_actor_ids(None)
    }

    /// The ids of the actors of chain fragments.
    pub fn chain_actor_ids(&self) -> (r: Vec<ActorId>)
        ensures
            r@ == self@.actor_ids_of_kind(FragmentType::Chain),
    {
        self.collect_actor_ids(Some(FragmentType::Chain))
    }

    /// The ids of the actors of sink fragments.
    pub fn sink_actor_ids(&self) -> (r: Vec<ActorId>)
        ensures
            r@ == self@.actor_ids_of_kind(FragmentType::Sink),
    {
        self.collect_actor_ids(Some(FragmentType::Sink))
    }

    /// The ids of the actors of source fragments.
    pub fn source_actor_ids(&self) -> (r: Vec<ActorId>)
        ensures
            r@ == self@.actor_ids_of_kind(FragmentType::Source),
    {
        self.collect_actor_ids(Some(FragmentType::Source))
    }

    /// The state-table ids of all fragments, fragments in ascending order of id.
    pub fn state_table_ids(&self) -> (r: Vec<u32>)
        ensures
            r@ == self@.state_table_ids(),
    {
        let n = self.fragments.len();
        let mut out: Vec<u32> = Vec::new();
        let mut i: usize = 0;
        while i < n
            invariant
                i <= n,
                n == self.fragments.keys().len(),
                self.fragments.wf(),
                out@ == self@.gather_upto(state_tables_of(), i as nat),
            decreases n - i,
        {
            let f = self.fragments.value_at(i);
            proof {
                self.lemma_fragments();
                assert(self@.fragment_at(i as int) == f@);
            }
            append_ids(&mut out, &f.state_table_ids);
            assert(out@ =~= self@.gather_upto(state_tables_of(), (i + 1) as nat));
            i += 1;
        }
        proof {
            self.lemma_fragments();
        }
        out
    }

    /// The upstream jobs that the chain fragments read from, once for each
    /// chain node that names one.
    pub fn dependent_table_ids(&self) -> (r: Vec<TableId>)
        ensures
            r@ == self@.dependent_table_ids(),
    {
        let n = self.fragments.len();
        let mut out: Vec<TableId> = Vec::new();
        let mut i: usize = 0;
        while i < n
            invariant
                i <= n,
                n == self.fragments.keys().len(),
                self.fragments.wf(),
                out@ == self@.gather_upto(chain_tables_of(), i as nat),
            decreases n - i,
        {
            let f = self.fragments.value_at(i);
            proof {
                self.lemma_fragments();
                assert(self@.fragment_at(i as int) == f@);
            }
            if f.fragment_type == FragmentType::Chain {
                f.collect_chain_tables(&mut out);
            }
            assert(out@ =~= self@.gather_upto(chain_tables_of(), (i + 1) as nat));
            i += 1;
        }
        proof {
            self.lemma_fragments();
        }
        out
    }

    /// Sets the lifecycle state of every actor to `state`.
    pub fn update_actors_state(&mut self, state: ActorState)
        ensures
            final(self)@ == old(self)@.with_actors_state(state),
    {
        let n = self.actor_status.len();
        let mut i: usize = 0;
        while i < n
            invariant
                i <= n,
                n == self.actor_status.keys().len(),
                self.actor_status.wf(),
                old(self).actor_status.wf(),
                self.actor_status.keys() == old(self).actor_status.keys(),
                self.table_id == old(self).table_id,
                self.state == old(self).state,
                self.fragments == old(self).fragments,
                self.actor_splits == old(self).actor_splits,
                forall|j: int|
                    0 <= j < i ==> #[trigger] self.actor_status.values()[j] == with_state(state)(
                        old(self).actor_status.values()[j],
                    ),
                forall|j: int|
                    i <= j < n ==> #[trigger] self.actor_status.values()[j] == old(
                        self,
                    ).actor_status.values()[j],
            decreases n - i,
        {
            let s = self.actor_status.value_at_mut(i);
            s.state = state;
            i += 1;
        }
        proof {
            let want = old(self)@.actor_status.map_values(with_state(state));
            self.actor_status.lemma_view();
            old(self).actor_status.lemma_view();
            assert(self.actor_status@.dom() =~= want.dom());
            assert forall|k: u32| self.actor_status@.contains_key(k) implies self.actor_status@[k]
                == want[k] by {
                let j = self.actor_status.keys().index_of(k);
                assert(self.actor_status.keys()[j] == k);
                assert(self.actor_status@[self.actor_status.keys()[j]]
                    == self.actor_status.values()[j]);
                assert(old(self).actor_status@[old(self).actor_status.keys()[j]] == old(
                    self,
                ).actor_status.values()[j]);
            }
            assert(self.actor_status@ =~= want);
        }
    }
}

} // verus!
