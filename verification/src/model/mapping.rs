//! What a job says about the placement of its data: vnode mappings, the
//! sink fragment's view of them, and the split assignment.

use crate::model::common::{
    clone_u32s, clone_u64s, ActorId, Buffer, FragmentId, FragmentType, ParallelUnit,
    ParallelUnitMapping, ParallelUnitMappingView, SourceSplit,
};
use crate::model::table_fragments::{
    moved_unit, remapped_by, Fragment, FragmentView, TableFragments, TableFragmentsView,
};
use crate::ord_map::{DeepClone, OrdMap};
use vstd::prelude::*;

verus! {

/// For each fragment, the splits assigned to each of its actors.
pub type SplitAssignment = OrdMap<OrdMap<Vec<SourceSplit>>>;

/// Model of the splits of one actor.
pub type SplitsView = Seq<Seq<u8>>;

/// The splits that `assignment` gives to the actors of the first `n`
/// fragments of `ids`; where two fragments name one actor, the later wins.
pub open spec fn splits_of(
    assignment: Map<FragmentId, Map<ActorId, SplitsView>>,
    ids: Seq<FragmentId>,
    n: nat,
) -> Map<ActorId, SplitsView>
    decreases n,
{
    if n == 0 || n > ids.len() {
        Map::empty()
    } else {
        let prev = splits_of(assignment, ids, (n - 1) as nat);
        if assignment.contains_key(ids[n - 1]) {
            prev.union_prefer_right(assignment[ids[n - 1]])
        } else {
            prev
        }
    }
}

/// The vnode mapping of a fragment under the fragment's own id, if the
/// fragment has one.
pub open spec fn mapping_of() -> spec_fn(FragmentView) -> Seq<ParallelUnitMappingView> {
    |f: FragmentView|
        match f.vnode_mapping {
            Some(m) => seq![
                ParallelUnitMappingView {
                    fragment_id: f.fragment_id,
                    original_indices: m.original_indices,
                    data: m.data,
                },
            ],
            None => Seq::empty(),
        }
}

/// The vnode mapping of a fragment as stored, if the fragment keeps state
/// and has one.
pub open spec fn stateful_mapping_of() -> spec_fn(FragmentView) -> Seq<ParallelUnitMappingView> {
    |f: FragmentView|
        match f.vnode_mapping {
            Some(m) => if f.is_stateful() {
                seq![m]
            } else {
                Seq::empty()
            },
            None => Seq::empty(),
        }
}

/// The actors of a sink fragment, each with its vnode bitmap.
pub open spec fn sink_bitmaps_of() -> spec_fn(FragmentView) -> Seq<(ActorId, Option<Seq<u8>>)> {
    |f: FragmentView|
        if f.fragment_type == FragmentType::Sink {
            Seq::new(f.actors.len(), |i: int| (f.actors[i].actor_id, f.actors[i].vnode_bitmap))
        } else {
            Seq::empty()
        }
}

impl TableFragmentsView {
    /// The position, at or after `i`, of the first sink fragment in ascending
    /// order of fragment id.
    pub open spec fn first_sink_from(self, i: nat) -> Option<int>
        decreases self.fragment_ids().len() - i,
    {
        if i >= self.fragment_ids().len() {
            None
        } else if self.fragment_at(i as int).fragment_type == FragmentType::Sink {
            Some(i as int)
        } else {
            self.first_sink_from(i + 1)
        }
    }

    /// The vnode mapping of the sink fragment with the smallest id.
    pub open spec fn sink_vnode_mapping(self) -> Option<ParallelUnitMappingView> {
        match self.first_sink_from(0) {
            Some(i) => self.fragment_at(i).vnode_mapping,
            None => None,
        }
    }

    /// The parallel unit of every sink actor that has one.
    pub open spec fn sink_actor_parallel_units(self) -> Map<ActorId, ParallelUnit> {
        Map::new(
            |a: ActorId|
                self.actor_ids_of_kind(FragmentType::Sink).contains(a)
                    && self.actor_status.contains_key(a)
                    && self.actor_status[a].parallel_unit is Some,
            |a: ActorId| self.actor_status[a].parallel_unit->Some_0,
        )
    }

    /// The sink actors with their vnode bitmaps.
    pub open spec fn sink_vnode_bitmap_info(self) -> Seq<(ActorId, Option<Seq<u8>>)> {
        self.gather(sink_bitmaps_of())
    }

    /// The vnode mappings of the fragments that have one, each under its
    /// fragment's id, in ascending order of fragment id.
    pub open spec fn fragment_mappings(self) -> Seq<ParallelUnitMappingView> {
        self.gather(mapping_of())
    }

    /// The vnode mappings, as stored, of the fragments that keep state and
    /// have one, in ascending order of fragment id.
    pub open spec fn stateful_mappings(self) -> Seq<ParallelUnitMappingView> {
        self.gather(stateful_mapping_of())
    }

    /// This job with `splits` as its actor splits.
    pub open spec fn with_actor_splits(self, splits: Map<ActorId, SplitsView>) -> Self {
        TableFragmentsView { actor_splits: splits, ..self }
    }

    /// The splits that `assignment` gives to the actors of this job's
    /// fragments.
    pub open spec fn assigned_splits(
        self,
        assignment: Map<FragmentId, Map<ActorId, SplitsView>>,
    ) -> Map<ActorId, SplitsView> {
        splits_of(assignment, self.fragment_ids(), self.fragment_ids().len())
    }
}

/// Everything that `assignment` assigns: the splits of each actor, whatever
/// fragment names it; where two fragments name one actor, the one with the
/// larger id wins.
pub open spec fn all_splits(assignment: Map<FragmentId, Map<ActorId, SplitsView>>) -> Map<
    ActorId,
    SplitsView,
> {
    splits_of(
        assignment,
        crate::ord_map::ascending(assignment.dom()),
        crate::ord_map::ascending(assignment.dom()).len(),
    )
}

impl ParallelUnitMapping {
    /// Substitutes every parallel-unit id as `moves` says.
    pub fn remap(&mut self, moves: &OrdMap<ParallelUnit>)
        ensures
            final(self)@ == old(self)@.remapped(moves@),
    {
        let mut j: usize = 0;
        while j < self.data.len()
            invariant
                j <= self.data.len(),
                self.data.len() == old(self).data.len(),
                self.fragment_id == old(self).fragment_id,
                self.original_indices == old(self).original_indices,
                forall|k: int|
                    0 <= k < j ==> self.data@[k] == moved_unit(moves@)(old(self).data@[k]),
                forall|k: int| j <= k < self.data.len() ==> self.data@[k] == old(self).data@[k],
            decreases self.data.len() - j,
        {
            let p = self.data[j];
            match moves.get(p) {
                Some(unit) => {
                    self.data[j] = unit.id;
                },
                None => {},
            }
            j += 1;
        }
        assert(self.data@ =~= old(self).data@.map_values(moved_unit(moves@)));
    }
}

impl Fragment {
    /// Rewrites the fragment's vnode mapping as `moves` says.
    pub fn update_vnode_mapping(&mut self, moves: &OrdMap<ParallelUnit>)
        ensures
            final(self)@ == old(self)@.remapped(moves@),
    {
        match &mut self.vnode_mapping {
            Some(m) => {
                m.remap(moves);
            },
            None => {},
        }
    }

    /// The fragment's vnode mapping under the fragment's own id.
    pub fn mapping(&self) -> (r: Option<ParallelUnitMapping>)
        ensures
            match r {
                Some(m) => mapping_of()(self@) == seq![m@],
                None => mapping_of()(self@) == Seq::<ParallelUnitMappingView>::empty(),
            },
    {
        match &self.vnode_mapping {
            Some(m) => Some(
                ParallelUnitMapping {
                    fragment_id: self.fragment_id,
                    original_indices: clone_u64s(&m.original_indices),
                    data: clone_u32s(&m.data),
                },
            ),
            None => None,
        }
    }
}

impl TableFragments {
    /// Rewrites every fragment's vnode mapping by substituting parallel-unit
    /// ids as `moves` says; an id that `moves` does not know stays.
    pub fn update_vnode_mapping(&mut self, moves: &OrdMap<ParallelUnit>)
        ensures
            final(self)@ == old(self)@.with_vnode_mapping_moved(moves@),
    {
        let n = self.fragments.len();
        let mut i: usize = 0;
        while i < n
            invariant
                i <= n,
                n == self.fragments.keys().len(),
                self.fragments.wf(),
                old(self).fragments.wf(),
                self.fragments.keys() == old(self).fragments.keys(),
                self.table_id == old(self).table_id,
                self.state == old(self).state,
                self.actor_status == old(self).actor_status,
                self.actor_splits == old(self).actor_splits,
                forall|j: int|
                    0 <= j < i ==> (#[trigger] self.fragments.values()[j])@ == old(
                        self,
                    ).fragments.values()[j]@.remapped(moves@),
                forall|j: int|
                    i <= j < n ==> #[trigger] self.fragments.values()[j] == old(
                        self,
                    ).fragments.values()[j],
            decreases n - i,
        {
            let f = self.fragments.value_at_mut(i);
            f.update_vnode_mapping(moves);
            i += 1;
        }
        proof {
            old(self).fragments.lemma_view_mapped(&self.fragments, remapped_by(moves@));
        }
    }

    /// Replaces the actor splits of the job by everything that `assignment`
    /// assigns.
    pub fn set_actor_splits_by_split_assignment(&mut self, assignment: &SplitAssignment)
        ensures
            final(self)@ == old(self)@.with_actor_splits(all_splits(assignment@)),
    {
        let n = assignment.len();
        let mut splits: OrdMap<Vec<SourceSplit>> = OrdMap::new();
        let mut i: usize = 0;
        proof {
            assignment.lemma_view();
        }
        while i < n
            invariant
                i <= n,
                n == assignment.keys().len(),
                assignment.wf(),
                splits@ == splits_of(assignment@, assignment.keys(), i as nat),
            decreases n - i,
        {
            let part = assignment.value_at(i);
            proof {
                assignment.lemma_view();
            }
            splits.extend_from(part);
            i += 1;
        }
        self.actor_splits = splits;
    }

    /// Adds to the actor splits of the job what `assignment` assigns to the
    /// actors of this job's fragments.
    pub fn extend_actor_splits(&mut self, assignment: &SplitAssignment)
        ensures
            final(self)@ == old(self)@.with_actor_splits(
                old(self)@.actor_splits.union_prefer_right(old(self)@.assigned_splits(assignment@)),
            ),
    {
        let n = self.fragments.len();
        let mut splits: OrdMap<Vec<SourceSplit>> = OrdMap::new();
        let mut i: usize = 0;
        proof {
            self.lemma_fragments();
        }
        while i < n
            invariant
                i <= n,
                n == self.fragments.keys().len(),
                self.fragments.wf(),
                splits@ == splits_of(assignment@, self.fragments.keys(), i as nat),
            decreases n - i,
        {
            let fid = self.fragments.key_at(i);
            match assignment.get(fid) {
                Some(part) => {
                    splits.extend_from(part);
                },
                None => {},
            }
            i += 1;
        }
        self.actor_splits.extend_from(&splits);
    }

    /// Whether some fragment of the job is named by `assignment`.
    pub fn is_assigned(&self, assignment: &SplitAssignment) -> (b: bool)
        ensures
            b == exists|f: FragmentId|
                self@.fragments.contains_key(f) && assignment@.contains_key(f),
    {
        let n = self.fragments.len();
        let mut i: usize = 0;
        proof {
            self.fragments.lemma_view();
        }
        while i < n
            invariant
                i <= n,
                n == self.fragments.keys().len(),
                self.fragments.wf(),
                forall|j: int| 0 <= j < i ==> !assignment@.contains_key(self.fragments.keys()[j]),
            decreases n - i,
        {
            let fid = self.fragments.key_at(i);
            if assignment.contains_key(fid) {
                return true;
            }
            i += 1;
        }
        proof {
            self.fragments.lemma_view();
            assert forall|f: FragmentId| self@.fragments.contains_key(f) implies !assignment@.contains_key(
                f,
            ) by {
                let j = self.fragments.keys().index_of(f);
                assert(self.fragments.keys()[j] == f);
            }
        }
        false
    }

    /// The vnode mapping of the sink fragment with the smallest id.
    pub fn sink_vnode_mapping(&self) -> (r: Option<ParallelUnitMapping>)
        ensures
            r.deep_view() == self@.sink_vnode_mapping(),
    {
        let n = self.fragments.len();
        let mut i: usize = 0;
        proof {
            self.lemma_fragments();
        }
        while i < n
            invariant
                i <= n,
                n == self.fragments.keys().len(),
                n == self@.fragment_ids().len(),
                self.fragments.wf(),
                self@.first_sink_from(0) == self@.first_sink_from(i as nat),
            decreases n - i,
        {
            let f = self.fragments.value_at(i);
            proof {
                self.lemma_fragments();
                assert(self@.fragment_at(i as int) == f@);
            }
            if f.fragment_type == FragmentType::Sink {
                return f.vnode_mapping.deep_clone();
            }
            i += 1;
        }
        None
    }

    /// The parallel unit of every sink actor that has one.
    pub fn sink_actor_parallel_units(&self) -> (r: OrdMap<ParallelUnit>)
        ensures
            r@ == self@.sink_actor_parallel_units(),
    {
        let ids = self.sink_actor_ids();
        let mut units: OrdMap<ParallelUnit> = OrdMap::new();
        let mut i: usize = 0;
        while i < ids.len()
            invariant
                i <= ids.len(),
                ids@ == self@.actor_ids_of_kind(FragmentType::Sink),
                forall|a: ActorId|
                    units@.contains_key(a) <==> ids@.take(i as int).contains(a)
                        && self@.actor_status.contains_key(a)
                        && self@.actor_status[a].parallel_unit is Some,
                forall|a: ActorId|
                    units@.contains_key(a) ==> units@[a]
                        == self@.actor_status[a].parallel_unit->Some_0,
            decreases ids.len() - i,
        {
            let a = ids[i];
            let ghost before = units@;
            match self.actor_status.get(a) {
                Some(status) => match status.parallel_unit {
                    Some(unit) => {
                        units.insert(a, unit);
                    },
                    None => {},
                },
                None => {},
            }
            proof {
                let prev = ids@.take(i as int);
                let next = ids@.take(i as int + 1);
                assert(next =~= prev.push(a));
                assert forall|x: ActorId|
                    units@.contains_key(x) <==> next.contains(x) && self@.actor_status.contains_key(
                        x,
                    ) && self@.actor_status[x].parallel_unit is Some by {
                    if prev.contains(x) {
                        let j = choose|j: int| 0 <= j < prev.len() && prev[j] == x;
                        assert(next[j] == x);
                    }
                    if next.contains(x) && x != a {
                        let j = choose|j: int| 0 <= j < next.len() && next[j] == x;
                        assert(prev[j] == x);
                    }
                    if x == a {
                        assert(next[i as int] == a);
                    }
                }
            }
            i += 1;
        }
        proof {
            assert(ids@.take(ids.len() as int) =~= ids@);
            assert(units@ =~= self@.sink_actor_parallel_units());
        }
        units
    }

    /// The sink actors with their vnode bitmaps.
    pub fn sink_vnode_bitmap_info(&self) -> (r: Vec<(ActorId, Option<Buffer>)>)
        ensures
            r.deep_view() == self@.sink_vnode_bitmap_info(),
    {
        let n = self.fragments.len();
        let mut out: Vec<(ActorId, Option<Buffer>)> = Vec::new();
        let mut i: usize = 0;
        proof {
            self.lemma_fragments();
            assert(out.deep_view() =~= self@.gather_upto(sink_bitmaps_of(), 0));
        }
        while i < n
            invariant
                i <= n,
                n == self.fragments.keys().len(),
                self.fragments.wf(),
                out.deep_view() == self@.gather_upto(sink_bitmaps_of(), i as nat),
            decreases n - i,
        {
            let f = self.fragments.value_at(i);
            proof {
                self.lemma_fragments();
                assert(self@.fragment_at(i as int) == f@);
            }
            let ghost base = out.deep_view();
            if f.fragment_type == FragmentType::Sink {
                let mut j: usize = 0;
                while j < f.actors.len()
                    invariant
                        j <= f.actors.len(),
                        f@.actors.len() == f.actors.len(),
                        out.deep_view().len() == base.len() + j,
                        forall|k: int| 0 <= k < base.len() ==> out.deep_view()[k] == base[k],
                        forall|k: int|
                            0 <= k < j ==> out.deep_view()[base.len() + k] == (
                                f@.actors[k].actor_id,
                                f@.actors[k].vnode_bitmap,
                            ),
                    decreases f.actors.len() - j,
                {
                    let a = &f.actors[j];
                    let ghost prev = out.deep_view();
                    let bitmap = a.vnode_bitmap.deep_clone();
                    proof {
                        assert(f@.actors[j as int] == a@);
                    }
                    out.push((a.actor_id, bitmap));
                    proof {
                        assert(out.deep_view() =~= prev.push((a.actor_id, bitmap.deep_view())));
                    }
                    j += 1;
                }
                assert(out.deep_view() =~= base + sink_bitmaps_of()(f@));
            } else {
                assert(out.deep_view() =~= base + sink_bitmaps_of()(f@));
            }
            i += 1;
        }
        out
    }

    /// The vnode mappings of the fragments that have one, each under its
    /// fragment's id, in ascending order of fragment id.
    pub fn fragment_mappings(&self) -> (r: Vec<ParallelUnitMapping>)
        ensures
            r.deep_view() == self@.fragment_mappings(),
    {
        let n = self.fragments.len();
        let mut out: Vec<ParallelUnitMapping> = Vec::new();
        let mut i: usize = 0;
        proof {
            self.lemma_fragments();
            assert(out.deep_view() =~= self@.gather_upto(mapping_of(), 0));
        }
        while i < n
            invariant
                i <= n,
                n == self.fragments.keys().len(),
                self.fragments.wf(),
                out.deep_view() == self@.gather_upto(mapping_of(), i as nat),
            decreases n - i,
        {
            let f = self.fragments.value_at(i);
            proof {
                self.lemma_fragments();
                assert(self@.fragment_at(i as int) == f@);
            }
            let ghost base = out.deep_view();
            match f.mapping() {
                Some(m) => {
                    out.push(m);
                    assert(out.deep_view() =~= base + seq![m@]);
                },
                None => {
                    assert(out.deep_view() =~= base + Seq::<ParallelUnitMappingView>::empty());
                },
            }
            i += 1;
        }
        out
    }

    /// The vnode mappings, as stored, of the fragments that keep state and
    /// have one, in ascending order of fragment id.
    pub fn stateful_mappings(&self) -> (r: Vec<ParallelUnitMapping>)
        ensures
            r.deep_view() == self@.stateful_mappings(),
    {
        let n = self.fragments.len();
        let mut out: Vec<ParallelUnitMapping> = Vec::new();
        let mut i: usize = 0;
        proof {
            self.lemma_fragments();
            assert(out.deep_view() =~= self@.gather_upto(stateful_mapping_of(), 0));
        }
        while i < n
            invariant
                i <= n,
                n == self.fragments.keys().len(),
                self.fragments.wf(),
                out.deep_view() == self@.gather_upto(stateful_mapping_of(), i as nat),
            decreases n - i,
        {
            let f = self.fragments.value_at(i);
            proof {
                self.lemma_fragments();
                assert(self@.fragment_at(i as int) == f@);
            }
            let ghost base = out.deep_view();
            let mut pushed = false;
            if f.state_table_ids.len() > 0 {
                match &f.vnode_mapping {
                    Some(m) => {
                        let copy = m.deep_clone();
                        out.push(copy);
                        pushed = true;
                        assert(out.deep_view() =~= base + seq![m@]);
                    },
                    None => {},
                }
            }
            if !pushed {
                assert(out.deep_view() =~= base + Seq::<ParallelUnitMappingView>::empty());
            }
            i += 1;
        }
        out
    }
}

} // verus!
