//! Rescheduling a fragment: the plan, and what it does to the actors of the
//! fragment itself, to the dispatchers upstream of it and to the merge
//! nodes downstream of it.

use crate::model::common::{
    clone_u64s, contains_id, ActorId, ActorMapping, ActorMappingView, ActorState, ActorStatus,
    Buffer, DispatcherId, FragmentId, ParallelUnitId, ParallelUnitMapping, ParallelUnitMappingView,
    SourceSplit,
};
use crate::model::mapping::SplitsView;
use crate::model::stream::{
    retargetable, retargeted, update_actors, DispatcherView, StreamActor, StreamActorView,
};
use crate::model::table_fragments::{Fragment, FragmentView, TableFragments, TableFragmentsView};
use crate::ord_map::{DeepClone, OrdMap};
use vstd::prelude::*;

verus! {

/// The plan for rescheduling one fragment.
#[derive(Clone, Debug, PartialEq, Eq)]
pub struct Reschedule {
    /// The actors that join the fragment; they were built beforehand.
    pub added_actors: Vec<ActorId>,
    /// The actors that leave the fragment.
    pub removed_actors: Vec<ActorId>,
    /// The new vnode bitmaps of actors that stay.
    pub vnode_bitmap_updates: OrdMap<Buffer>,
    /// The dispatchers that feed the fragment: upstream fragment and
    /// dispatcher id.
    pub upstream_fragment_dispatcher_ids: Vec<(FragmentId, DispatcherId)>,
    /// The new hash mapping of those dispatchers.
    pub upstream_dispatcher_mapping: Option<ActorMapping>,
    /// The fragment that the rescheduled fragment feeds, if any.
    pub downstream_fragment_id: Option<FragmentId>,
    /// The splits of the actors of the fragment after the change.
    pub actor_splits: OrdMap<Vec<SourceSplit>>,
}

/// Model of a [`Reschedule`].
pub struct RescheduleView {
    pub added_actors: Seq<ActorId>,
    pub removed_actors: Seq<ActorId>,
    pub vnode_bitmap_updates: Map<ActorId, Seq<u8>>,
    pub upstream_fragment_dispatcher_ids: Seq<(FragmentId, DispatcherId)>,
    pub upstream_dispatcher_mapping: Option<ActorMappingView>,
    pub downstream_fragment_id: Option<FragmentId>,
    pub actor_splits: Map<ActorId, SplitsView>,
}

impl View for Reschedule {
    type V = RescheduleView;

    open spec fn view(&self) -> RescheduleView {
        RescheduleView {
            added_actors: self.added_actors@,
            removed_actors: self.removed_actors@,
            vnode_bitmap_updates: self.vnode_bitmap_updates@,
            upstream_fragment_dispatcher_ids: self.upstream_fragment_dispatcher_ids@,
            upstream_dispatcher_mapping: self.upstream_dispatcher_mapping.deep_view(),
            downstream_fragment_id: self.downstream_fragment_id,
            actor_splits: self.actor_splits@,
        }
    }
}

impl DeepView for Reschedule {
    type V = RescheduleView;

    open spec fn deep_view(&self) -> RescheduleView {
        self@
    }
}

impl RescheduleView {
    /// The actors that leave, as a set.
    pub open spec fn gone(self) -> Set<ActorId> {
        self.removed_actors.to_set()
    }
}

/// Every element of `s` satisfies `p`.
pub open spec fn every<T>(s: Seq<T>, p: spec_fn(T) -> bool) -> bool {
    forall|i: int| 0 <= i < s.len() ==> p(#[trigger] s[i])
}

/// The predicate "if this is dispatcher `id`, its targets can take the
/// change of the plan".
pub open spec fn dispatcher_fits(plan: RescheduleView, id: DispatcherId) -> spec_fn(
    DispatcherView,
) -> bool {
    |d: DispatcherView|
        d.dispatcher_id == id ==> retargetable(
            d.downstream_actor_id,
            plan.gone(),
            plan.added_actors,
        )
}

/// A dispatcher after the plan: dispatcher `id` gets the plan's hash mapping
/// and loses and gains targets as the plan says; any other stays.
pub open spec fn dispatcher_rewired(plan: RescheduleView, id: DispatcherId) -> spec_fn(
    DispatcherView,
) -> DispatcherView {
    |d: DispatcherView|
        if d.dispatcher_id == id {
            DispatcherView {
                dispatcher_id: d.dispatcher_id,
                hash_mapping: plan.upstream_dispatcher_mapping,
                downstream_actor_id: retargeted(
                    d.downstream_actor_id,
                    plan.gone(),
                    plan.added_actors,
                ),
            }
        } else {
            d
        }
}

/// The predicate "this upstream actor was just built, or all its
/// dispatchers fit".
pub open spec fn upstream_actor_fits(
    plan: RescheduleView,
    id: DispatcherId,
    fresh: Set<ActorId>,
) -> spec_fn(StreamActorView) -> bool {
    |a: StreamActorView| fresh.contains(a.actor_id) || every(a.dispatcher, dispatcher_fits(plan, id))
}

/// An upstream actor after the plan: one that was just built stays, any
/// other has its dispatchers rewired.
pub open spec fn upstream_actor_rewired(
    plan: RescheduleView,
    id: DispatcherId,
    fresh: Set<ActorId>,
) -> spec_fn(StreamActorView) -> StreamActorView {
    |a: StreamActorView|
        if fresh.contains(a.actor_id) {
            a
        } else {
            StreamActorView { dispatcher: a.dispatcher.map_values(dispatcher_rewired(plan, id)), ..a }
        }
}

/// The predicate "this downstream actor was just built, or its upstream
/// list and its merge nodes for fragment `upstream` can take the change of
/// the plan".
pub open spec fn downstream_actor_fits(
    plan: RescheduleView,
    upstream: FragmentId,
    fresh: Set<ActorId>,
) -> spec_fn(StreamActorView) -> bool {
    |a: StreamActorView|
        fresh.contains(a.actor_id) || (retargetable(
            a.upstream_actor_id,
            plan.gone(),
            plan.added_actors,
        ) && match a.nodes {
            Some(n) => n.merges_retargetable(upstream, plan.gone(), plan.added_actors),
            None => true,
        })
}

/// A downstream actor after the plan: one that was just built stays, any
/// other loses and gains upstream actors as the plan says, in its upstream
/// list and in its merge nodes for fragment `upstream`.
pub open spec fn downstream_actor_rewired(
    plan: RescheduleView,
    upstream: FragmentId,
    fresh: Set<ActorId>,
) -> spec_fn(StreamActorView) -> StreamActorView {
    |a: StreamActorView|
        if fresh.contains(a.actor_id) {
            a
        } else {
            StreamActorView {
                upstream_actor_id: retargeted(
                    a.upstream_actor_id,
                    plan.gone(),
                    plan.added_actors,
                ),
                nodes: match a.nodes {
                    Some(n) => Some(
                        n.merges_retargeted(upstream, plan.gone(), plan.added_actors),
                    ),
                    None => None,
                },
                ..a
            }
        }
}

impl FragmentView {
    /// This fragment, seen as upstream of the rescheduled one, after the
    /// plan: `None` if a dispatcher `id` of an actor that was not just built
    /// cannot take the change.
    pub open spec fn dispatchers_rewired(
        self,
        plan: RescheduleView,
        id: DispatcherId,
        fresh: Set<ActorId>,
    ) -> Option<FragmentView> {
        if every(self.actors, upstream_actor_fits(plan, id, fresh)) {
            Some(
                FragmentView {
                    actors: self.actors.map_values(upstream_actor_rewired(plan, id, fresh)),
                    ..self
                },
            )
        } else {
            None
        }
    }

    /// This fragment, seen as downstream of the rescheduled fragment
    /// `upstream`, after the plan: `None` if an actor that was not just
    /// built cannot take the change.
    pub open spec fn upstream_rewired(
        self,
        plan: RescheduleView,
        upstream: FragmentId,
        fresh: Set<ActorId>,
    ) -> Option<FragmentView> {
        if every(self.actors, downstream_actor_fits(plan, upstream, fresh)) {
            Some(
                FragmentView {
                    actors: self.actors.map_values(downstream_actor_rewired(plan, upstream, fresh)),
                    ..self
                },
            )
        } else {
            None
        }
    }
}

impl StreamActor {
    /// Rewires the dispatchers with id `id` as the plan says. Gives `false`
    /// if one of them cannot take the change; the actor is then to be
    /// thrown away.
    pub fn rewire_dispatchers(&mut self, plan: &Reschedule, id: DispatcherId) -> (ok: bool)
        ensures
            ok == every(old(self)@.dispatcher, dispatcher_fits(plan@, id)),
            ok ==> final(self)@ == (StreamActorView {
                dispatcher: old(self)@.dispatcher.map_values(dispatcher_rewired(plan@, id)),
                ..old(self)@
            }),
    {
        let mut i: usize = 0;
        while i < self.dispatcher.len()
            invariant
                i <= self.dispatcher.len(),
                self.dispatcher.len() == old(self).dispatcher.len(),
                self.actor_id == old(self).actor_id,
                self.fragment_id == old(self).fragment_id,
                self.nodes == old(self).nodes,
                self.upstream_actor_id == old(self).upstream_actor_id,
                self.vnode_bitmap == old(self).vnode_bitmap,
                forall|j: int|
                    0 <= j < i ==> dispatcher_fits(plan@, id)(
                        #[trigger] old(self)@.dispatcher[j],
                    ),
                forall|j: int|
                    0 <= j < i ==> (#[trigger] self.dispatcher@[j])@ == dispatcher_rewired(
                        plan@,
                        id,
                    )(old(self).dispatcher@[j]@),
                forall|j: int|
                    i <= j < self.dispatcher.len() ==> self.dispatcher@[j] == old(
                        self,
                    ).dispatcher@[j],
            decreases self.dispatcher.len() - i,
        {
            assert(old(self)@.dispatcher[i as int] == old(self).dispatcher@[i as int]@);
            if self.dispatcher[i].dispatcher_id == id {
                let mapping = plan.upstream_dispatcher_mapping.deep_clone();
                let d = &mut self.dispatcher[i];
                d.hash_mapping = mapping;
                if !update_actors(
                    &mut d.downstream_actor_id,
                    &plan.removed_actors,
                    &plan.added_actors,
                ) {
                    return false;
                }
            }
            i += 1;
        }
        assert(self@.dispatcher =~= old(self)@.dispatcher.map_values(dispatcher_rewired(plan@, id)));
        assert forall|j: int| 0 <= j < old(self)@.dispatcher.len() implies dispatcher_fits(
            plan@,
            id,
        )(#[trigger] old(self)@.dispatcher[j]) by {}
        true
    }

    /// Changes the upstream actors of this actor as the plan for the
    /// fragment `upstream` says, in the upstream list and in the merge
    /// nodes. Gives `false` if one of them cannot take the change; the actor
    /// is then to be thrown away.
    pub fn rewire_upstream(&mut self, plan: &Reschedule, upstream: FragmentId) -> (ok: bool)
        ensures
            ok == (retargetable(
                old(self)@.upstream_actor_id,
                plan@.gone(),
                plan@.added_actors,
            ) && match old(self)@.nodes {
                Some(n) => n.merges_retargetable(upstream, plan@.gone(), plan@.added_actors),
                None => true,
            }),
            ok ==> final(self)@ == (StreamActorView {
                upstream_actor_id: retargeted(
                    old(self)@.upstream_actor_id,
                    plan@.gone(),
                    plan@.added_actors,
                ),
                nodes: match old(self)@.nodes {
                    Some(n) => Some(
                        n.merges_retargeted(upstream, plan@.gone(), plan@.added_actors),
                    ),
                    None => None,
                },
                ..old(self)@
            }),
    {
        if !update_actors(&mut self.upstream_actor_id, &plan.removed_actors, &plan.added_actors) {
            return false;
        }
        match &mut self.nodes {
            Some(node) => {
                if !node.update_merge_node_upstream(
                    upstream,
                    &plan.removed_actors,
                    &plan.added_actors,
                ) {
                    return false;
                }
            },
            None => {},
        }
        true
    }
}

impl Fragment {
    /// Rewires, in every actor that was not just built, the dispatchers
    /// with id `id` as the plan says. Gives `false` if one of them cannot
    /// take the change; the fragment is then to be thrown away.
    pub fn rewire_dispatchers(
        &mut self,
        plan: &Reschedule,
        id: DispatcherId,
        fresh: &Vec<ActorId>,
    ) -> (ok: bool)
        ensures
            ok == (old(self)@.dispatchers_rewired(plan@, id, fresh@.to_set()) is Some),
            ok ==> Some(final(self)@) == old(self)@.dispatchers_rewired(
                plan@,
                id,
                fresh@.to_set(),
            ),
    {
        let mut i: usize = 0;
        while i < self.actors.len()
            invariant
                i <= self.actors.len(),
                self.actors.len() == old(self).actors.len(),
                self.fragment_id == old(self).fragment_id,
                self.fragment_type == old(self).fragment_type,
                self.vnode_mapping == old(self).vnode_mapping,
                self.state_table_ids == old(self).state_table_ids,
                forall|j: int|
                    0 <= j < i ==> upstream_actor_fits(plan@, id, fresh@.to_set())(
                        #[trigger] old(self)@.actors[j],
                    ),
                forall|j: int|
                    0 <= j < i ==> (#[trigger] self.actors@[j])@ == upstream_actor_rewired(
                        plan@,
                        id,
                        fresh@.to_set(),
                    )(old(self).actors@[j]@),
                forall|j: int| i <= j < self.actors.len() ==> self.actors@[j] == old(self).actors@[j],
            decreases self.actors.len() - i,
        {
            assert(old(self)@.actors[i as int] == old(self).actors@[i as int]@);
            if !contains_id(fresh, self.actors[i].actor_id) {
                if !self.actors[i].rewire_dispatchers(plan, id) {
                    return false;
                }
            }
            i += 1;
        }
        assert(self@.actors =~= old(self)@.actors.map_values(
            upstream_actor_rewired(plan@, id, fresh@.to_set()),
        ));
        assert forall|j: int| 0 <= j < old(self)@.actors.len() implies upstream_actor_fits(
            plan@,
            id,
            fresh@.to_set(),
        )(#[trigger] old(self)@.actors[j]) by {}
        true
    }

    /// Changes, in every actor that was not just built, the upstream actors
    /// as the plan for the fragment `upstream` says. Gives `false` if one of
    /// them cannot take the change; the fragment is then to be thrown away.
    pub fn rewire_upstream(
        &mut self,
        plan: &Reschedule,
        upstream: FragmentId,
        fresh: &Vec<ActorId>,
    ) -> (ok: bool)
        ensures
            ok == (old(self)@.upstream_rewired(plan@, upstream, fresh@.to_set()) is Some),
            ok ==> Some(final(self)@) == old(self)@.upstream_rewired(
                plan@,
                upstream,
                fresh@.to_set(),
            ),
    {
        let mut i: usize = 0;
        while i < self.actors.len()
            invariant
                i <= self.actors.len(),
                self.actors.len() == old(self).actors.len(),
                self.fragment_id == old(self).fragment_id,
                self.fragment_type == old(self).fragment_type,
                self.vnode_mapping == old(self).vnode_mapping,
                self.state_table_ids == old(self).state_table_ids,
                forall|j: int|
                    0 <= j < i ==> downstream_actor_fits(plan@, upstream, fresh@.to_set())(
                        #[trigger] old(self)@.actors[j],
                    ),
                forall|j: int|
                    0 <= j < i ==> (#[trigger] self.actors@[j])@ == downstream_actor_rewired(
                        plan@,
                        upstream,
                        fresh@.to_set(),
                    )(old(self).actors@[j]@),
                forall|j: int| i <= j < self.actors.len() ==> self.actors@[j] == old(self).actors@[j],
            decreases self.actors.len() - i,
        {
            assert(old(self)@.actors[i as int] == old(self).actors@[i as int]@);
            if !contains_id(fresh, self.actors[i].actor_id) {
                if !self.actors[i].rewire_upstream(plan, upstream) {
                    return false;
                }
            }
            i += 1;
        }
        assert(self@.actors =~= old(self)@.actors.map_values(
            downstream_actor_rewired(plan@, upstream, fresh@.to_set()),
        ));
        assert forall|j: int| 0 <= j < old(self)@.actors.len() implies downstream_actor_fits(
            plan@,
            upstream,
            fresh@.to_set(),
        )(#[trigger] old(self)@.actors[j]) by {}
        true
    }
}

/// The statuses `status` with the actors in `ids` set running.
pub open spec fn marked_running(status: Map<ActorId, ActorStatus>, ids: Set<ActorId>) -> Map<
    ActorId,
    ActorStatus,
> {
    Map::new(
        |a: ActorId| status.contains_key(a),
        |a: ActorId|
            if ids.contains(a) {
                ActorStatus { parallel_unit: status[a].parallel_unit, state: ActorState::Running }
            } else {
                status[a]
            },
    )
}

/// An actor with the vnode bitmap that `updates` has for it, if any.
pub open spec fn with_bitmap(updates: Map<ActorId, Seq<u8>>) -> spec_fn(
    StreamActorView,
) -> StreamActorView {
    |a: StreamActorView|
        if updates.contains_key(a.actor_id) {
            StreamActorView { vnode_bitmap: Some(updates[a.actor_id]), ..a }
        } else {
            a
        }
}

/// The predicate "this actor is not in `gone`".
pub open spec fn stays(gone: Set<ActorId>) -> spec_fn(StreamActorView) -> bool {
    |a: StreamActorView| !gone.contains(a.actor_id)
}

/// The actors of the rescheduled fragment after the plan: the ones that
/// stay, with their new vnode bitmaps.
pub open spec fn resized_actors(actors: Seq<StreamActorView>, plan: RescheduleView) -> Seq<
    StreamActorView,
> {
    actors.map_values(with_bitmap(plan.vnode_bitmap_updates)).filter(stays(plan.gone()))
}

/// Whether one of `actors` has the id `a`.
pub open spec fn has_actor_id(actors: Seq<StreamActorView>, a: ActorId) -> bool {
    exists|i: int| 0 <= i < actors.len() && (#[trigger] actors[i]).actor_id == a
}

/// For each of `actors` that has a parallel unit in `status`, the id of
/// that unit.
pub open spec fn actor_units(
    actors: Seq<StreamActorView>,
    status: Map<ActorId, ActorStatus>,
) -> Map<ActorId, ParallelUnitId> {
    Map::new(
        |a: ActorId|
            has_actor_id(actors, a) && status.contains_key(a) && status[a].parallel_unit is Some,
        |a: ActorId| status[a].parallel_unit->Some_0.id,
    )
}

/// The parallel unit that `units` has for an actor.
pub open spec fn unit_of(units: Map<ActorId, ParallelUnitId>) -> spec_fn(ActorId) -> ParallelUnitId {
    |a: ActorId| units[a]
}

/// The vnode mapping that an actor mapping stands for, given the parallel
/// unit of each actor: `None` if the mapping names an actor without unit.
pub open spec fn mapping_converted(
    fragment_id: FragmentId,
    units: Map<ActorId, ParallelUnitId>,
    mapping: ActorMappingView,
) -> Option<ParallelUnitMappingView> {
    if forall|i: int| 0 <= i < mapping.data.len() ==> units.contains_key(#[trigger] mapping.data[i]) {
        Some(
            ParallelUnitMappingView {
                fragment_id,
                original_indices: mapping.original_indices,
                data: mapping.data.map_values(unit_of(units)),
            },
        )
    } else {
        None
    }
}

/// Turns an actor mapping into the vnode mapping of fragment `fragment_id`
/// by replacing each actor by its parallel unit. Gives `None` if the
/// mapping names an actor for which `units` has no unit.
pub fn actor_mapping_to_parallel_unit_mapping(
    fragment_id: FragmentId,
    units: &OrdMap<ParallelUnitId>,
    mapping: &ActorMapping,
) -> (r: Option<ParallelUnitMapping>)
    ensures
        r.deep_view() == mapping_converted(fragment_id, units@, mapping@),
{
    let mut data: Vec<ParallelUnitId> = Vec::new();
    let mut i: usize = 0;
    while i < mapping.data.len()
        invariant
            i <= mapping.data.len(),
            data.len() == i,
            forall|j: int| 0 <= j < i ==> units@.contains_key(#[trigger] mapping.data@[j]),
            forall|j: int| 0 <= j < i ==> data@[j] == units@[mapping.data@[j]],
        decreases mapping.data.len() - i,
    {
        match units.get(mapping.data[i]) {
            Some(unit) => {
                data.push(*unit);
            },
            None => {
                return None;
            },
        }
        i += 1;
    }
    assert(data@ =~= mapping@.data.map_values(unit_of(units@)));
    Some(
        ParallelUnitMapping {
            fragment_id,
            original_indices: clone_u64s(&mapping.original_indices),
            data,
        },
    )
}

/// For each of `actors` that has a parallel unit in `status`, the id of
/// that unit.
pub fn units_of_actors(actors: &Vec<StreamActor>, status: &OrdMap<ActorStatus>) -> (r: OrdMap<
    ParallelUnitId,
>)
    ensures
        r@ == actor_units(actors.deep_view(), status@),
{
    let mut units: OrdMap<ParallelUnitId> = OrdMap::new();
    let mut i: usize = 0;
    let ghost all = actors.deep_view();
    while i < actors.len()
        invariant
            i <= actors.len(),
            all == actors.deep_view(),
            units@ == actor_units(all.take(i as int), status@),
        decreases actors.len() - i,
    {
        let a = actors[i].actor_id;
        let ghost before = units@;
        match status.get(a) {
            Some(s) => match s.parallel_unit {
                Some(unit) => {
                    units.insert(a, unit.id);
                },
                None => {},
            },
            None => {},
        }
        proof {
            let prev = all.take(i as int);
            let next = all.take(i as int + 1);
            assert(all[i as int] == actors@[i as int]@);
            assert forall|x: ActorId| #[trigger]
                has_actor_id(next, x) <==> x == a || has_actor_id(prev, x) by {
                if exists|j: int| 0 <= j < next.len() && (#[trigger] next[j]).actor_id == x {
                    let j = choose|j: int| 0 <= j < next.len() && (#[trigger] next[j]).actor_id == x;
                    if j < i {
                        assert(prev[j].actor_id == x);
                    }
                }
                if exists|j: int| 0 <= j < prev.len() && (#[trigger] prev[j]).actor_id == x {
                    let j = choose|j: int| 0 <= j < prev.len() && (#[trigger] prev[j]).actor_id == x;
                    assert(next[j].actor_id == x);
                }
                if x == a {
                    assert(next[i as int].actor_id == a);
                }
            }
            assert(units@ =~= actor_units(next, status@));
        }
        i += 1;
    }
    assert(all.take(actors.len() as int) =~= all);
    units
}

impl Fragment {
    /// Applies the plan to the actors of the rescheduled fragment: an actor
    /// that stays gets its new vnode bitmap, if the plan has one for it; an
    /// actor that leaves is taken out.
    pub fn resize_actors(&mut self, plan: &Reschedule)
        ensures
            final(self)@ == (FragmentView {
                actors: resized_actors(old(self)@.actors, plan@),
                ..old(self)@
            }),
    {
        let mut i: usize = 0;
        while i < self.actors.len()
            invariant
                i <= self.actors.len(),
                self.actors.len() == old(self).actors.len(),
                self.fragment_id == old(self).fragment_id,
                self.fragment_type == old(self).fragment_type,
                self.vnode_mapping == old(self).vnode_mapping,
                self.state_table_ids == old(self).state_table_ids,
                forall|j: int|
                    0 <= j < i ==> (#[trigger] self.actors@[j])@ == with_bitmap(
                        plan@.vnode_bitmap_updates,
                    )(old(self).actors@[j]@),
                forall|j: int| i <= j < self.actors.len() ==> self.actors@[j] == old(self).actors@[j],
            decreases self.actors.len() - i,
        {
            match plan.vnode_bitmap_updates.get(self.actors[i].actor_id) {
                Some(bitmap) => {
                    let copy = bitmap.deep_clone();
                    self.actors[i].vnode_bitmap = Some(copy);
                },
                None => {},
            }
            i += 1;
        }
        assert(self.actors.deep_view() =~= old(self)@.actors.map_values(
            with_bitmap(plan@.vnode_bitmap_updates),
        ));
        self.remove_actors(&plan.removed_actors);
    }

    /// Takes the actors in `gone` out of the fragment.
    pub fn remove_actors(&mut self, gone: &Vec<ActorId>)
        ensures
            final(self)@ == (FragmentView {
                actors: old(self)@.actors.filter(stays(gone@.to_set())),
                ..old(self)@
            }),
    {
        let ghost base = self.actors.deep_view();
        let ghost keep = stays(gone@.to_set());
        let mut at: usize = 0;
        let ghost mut done: int = 0;
        proof {
            reveal(Seq::filter);
            assert(base.take(0).filter(keep) =~= Seq::<StreamActorView>::empty());
            assert(self.actors.deep_view().take(0) =~= Seq::<StreamActorView>::empty());
            assert(self.actors.deep_view().skip(0) =~= base.skip(0));
        }
        while at < self.actors.len()
            invariant
                at <= self.actors.len(),
                0 <= done <= base.len(),
                self.actors.len() - at == base.len() - done,
                keep == stays(gone@.to_set()),
                self.fragment_id == old(self).fragment_id,
                self.fragment_type == old(self).fragment_type,
                self.vnode_mapping == old(self).vnode_mapping,
                self.state_table_ids == old(self).state_table_ids,
                self.actors.deep_view().take(at as int) == base.take(done).filter(keep),
                self.actors.deep_view().skip(at as int) == base.skip(done),
            decreases self.actors.len() - at,
        {
            let ghost before = self.actors.deep_view();
            let id = self.actors[at].actor_id;
            proof {
                assert(before[at as int] == before.skip(at as int)[0]);
                assert(base.skip(done)[0] == base[done]);
                assert(base.take(done + 1) =~= base.take(done).push(base[done]));
                base.take(done).lemma_filter_push(base[done], keep);
            }
            if contains_id(gone, id) {
                self.actors.remove(at);
                proof {
                    let after = self.actors.deep_view();
                    assert(after =~= before.remove(at as int));
                    assert(after.take(at as int) =~= before.take(at as int));
                    let rest = after.skip(at as int);
                    let want = base.skip(done + 1);
                    assert forall|k: int| 0 <= k < want.len() implies #[trigger] rest[k]
                        == want[k] by {
                        assert(before.skip(at as int)[k + 1] == base.skip(done)[k + 1]);
                    }
                    assert(rest =~= want);
                    done = done + 1;
                }
            } else {
                proof {
                    assert(before.take(at as int + 1) =~= before.take(at as int).push(
                        before[at as int],
                    ));
                    let rest = before.skip(at as int + 1);
                    let want = base.skip(done + 1);
                    assert forall|k: int| 0 <= k < want.len() implies #[trigger] rest[k]
                        == want[k] by {
                        assert(before.skip(at as int)[k + 1] == base.skip(done)[k + 1]);
                    }
                    assert(rest =~= want);
                    done = done + 1;
                }
                at += 1;
            }
        }
        proof {
            assert(self.actors.deep_view().take(at as int) =~= self.actors.deep_view());
            assert(base.take(done) =~= base);
        }
    }
}

impl TableFragmentsView {
    /// This job with fragment `fid` replaced by `f`.
    pub open spec fn with_fragment(self, fid: FragmentId, f: FragmentView) -> Self {
        TableFragmentsView { fragments: self.fragments.insert(fid, f), ..self }
    }

    /// This job after the statuses and splits followed the plan: the added
    /// actors run, the removed actors have neither status nor splits, and
    /// the splits of the plan are in. `None` if an added actor has no
    /// status.
    pub open spec fn status_rescheduled(self, plan: RescheduleView) -> Option<Self> {
        if forall|i: int|
            0 <= i < plan.added_actors.len() ==> self.actor_status.contains_key(
                #[trigger] plan.added_actors[i],
            ) {
            Some(
                TableFragmentsView {
                    actor_status: marked_running(
                        self.actor_status,
                        plan.added_actors.to_set(),
                    ).remove_keys(plan.gone()),
                    actor_splits: self.actor_splits.remove_keys(plan.gone()).union_prefer_right(
                        plan.actor_splits,
                    ),
                    ..self
                },
            )
        } else {
            None
        }
    }

    /// This job after fragment `fid` followed the plan: its actors are
    /// resized and, if it has a vnode mapping and the plan brings an actor
    /// mapping, its vnode mapping is the plan's mapping with each actor
    /// replaced by its parallel unit. `None` if the job has no such
    /// fragment, or if the plan's mapping names an actor that is not a
    /// placed actor of the resized fragment.
    pub open spec fn fragment_resized(self, fid: FragmentId, plan: RescheduleView) -> Option<Self> {
        if !self.fragments.contains_key(fid) {
            None
        } else {
            let f = self.fragments[fid];
            let actors = resized_actors(f.actors, plan);
            if f.vnode_mapping is Some && plan.upstream_dispatcher_mapping is Some {
                match mapping_converted(
                    fid,
                    actor_units(actors, self.actor_status),
                    plan.upstream_dispatcher_mapping->Some_0,
                ) {
                    Some(m) => Some(
                        self.with_fragment(
                            fid,
                            FragmentView { actors, vnode_mapping: Some(m), ..f },
                        ),
                    ),
                    None => None,
                }
            } else {
                Some(self.with_fragment(fid, FragmentView { actors, ..f }))
            }
        }
    }

    /// The message about the vnode mapping of fragment `fid`, under the
    /// fragment's own id: one update if the fragment keeps state and has a
    /// mapping, none otherwise.
    pub open spec fn mapping_update(self, fid: FragmentId) -> Seq<ParallelUnitMappingView> {
        let f = self.fragments[fid];
        if f.vnode_mapping is Some && f.is_stateful() {
            seq![
                ParallelUnitMappingView {
                    fragment_id: f.fragment_id,
                    original_indices: f.vnode_mapping->Some_0.original_indices,
                    data: f.vnode_mapping->Some_0.data,
                },
            ]
        } else {
            Seq::empty()
        }
    }

    /// This job after the first `n` upstream dispatchers of the plan were
    /// rewired. `None` if one of their fragments is not in this job or one
    /// of the dispatchers cannot take the change.
    pub open spec fn upstream_rewired_upto(
        self,
        plan: RescheduleView,
        fresh: Set<ActorId>,
        n: nat,
    ) -> Option<Self>
        decreases n,
    {
        if n == 0 || n > plan.upstream_fragment_dispatcher_ids.len() {
            Some(self)
        } else {
            match self.upstream_rewired_upto(plan, fresh, (n - 1) as nat) {
                None => None,
                Some(job) => {
                    let (u, id) = plan.upstream_fragment_dispatcher_ids[n - 1];
                    if !job.fragments.contains_key(u) {
                        None
                    } else {
                        match job.fragments[u].dispatchers_rewired(plan, id, fresh) {
                            Some(f) => Some(job.with_fragment(u, f)),
                            None => None,
                        }
                    }
                },
            }
        }
    }

    /// This job after the merge side of the plan's downstream fragment was
    /// rewired. `None` if that fragment is not in this job or one of its
    /// actors cannot take the change.
    pub open spec fn downstream_rewired(
        self,
        fid: FragmentId,
        plan: RescheduleView,
        fresh: Set<ActorId>,
    ) -> Option<Self> {
        match plan.downstream_fragment_id {
            None => Some(self),
            Some(d) => if !self.fragments.contains_key(d) {
                None
            } else {
                match self.fragments[d].upstream_rewired(plan, fid, fresh) {
                    Some(f) => Some(self.with_fragment(d, f)),
                    None => None,
                }
            },
        }
    }

    /// This job after the statuses, the splits and fragment `fid` itself
    /// followed the plan.
    pub open spec fn resized(self, fid: FragmentId, plan: RescheduleView) -> Option<Self> {
        match self.status_rescheduled(plan) {
            Some(job) => job.fragment_resized(fid, plan),
            None => None,
        }
    }

    /// This job after the plan for its fragment `fid` was applied in full:
    /// statuses and splits, the fragment itself, the dispatchers upstream,
    /// then the merge nodes downstream. Actors in `fresh` were just built
    /// with their final wiring and are not rewired. `None` if the plan
    /// contradicts the job.
    pub open spec fn rescheduled(
        self,
        fid: FragmentId,
        plan: RescheduleView,
        fresh: Set<ActorId>,
    ) -> Option<Self> {
        match self.resized(fid, plan) {
            Some(job) => match job.upstream_rewired_upto(
                plan,
                fresh,
                plan.upstream_fragment_dispatcher_ids.len(),
            ) {
                Some(job) => job.downstream_rewired(fid, plan, fresh),
                None => None,
            },
            None => None,
        }
    }
}

impl TableFragments {
    /// Lets the statuses and splits follow the plan. Gives `false` if an
    /// added actor has no status; the job is then to be thrown away.
    pub fn reschedule_status(&mut self, plan: &Reschedule) -> (ok: bool)
        ensures
            ok == (old(self)@.status_rescheduled(plan@) is Some),
            ok ==> Some(final(self)@) == old(self)@.status_rescheduled(plan@),
    {
        let ghost status0 = self.actor_status@;
        let ghost splits0 = self.actor_splits@;
        let ghost added = plan@.added_actors;
        let mut i: usize = 0;
        proof {
            assert(added.take(0).to_set() =~= Set::<ActorId>::empty());
            assert(self.actor_status@ =~= marked_running(status0, added.take(0).to_set()));
        }
        while i < plan.added_actors.len()
            invariant
                i <= plan.added_actors.len(),
                added == plan@.added_actors,
                status0 == old(self)@.actor_status,
                self.table_id == old(self).table_id,
                self.state == old(self).state,
                self.fragments == old(self).fragments,
                self.actor_splits == old(self).actor_splits,
                forall|j: int| 0 <= j < i ==> status0.contains_key(#[trigger] added[j]),
                self.actor_status@ == marked_running(status0, added.take(i as int).to_set()),
            decreases plan.added_actors.len() - i,
        {
            let a = plan.added_actors[i];
            let ghost before = self.actor_status;
            match self.actor_status.position(a) {
                Some(p) => {
                    proof {
                        before.lemma_view();
                    }
                    let s = self.actor_status.value_at_mut(p);
                    s.state = ActorState::Running;
                    proof {
                        let after = self.actor_status.values()[p as int];
                        before.lemma_view_updated(&self.actor_status, p as int, after);
                        added.take(i as int).lemma_push_to_set_commute(a);
                        assert(added.take(i as int + 1) =~= added.take(i as int).push(a));
                        assert(self.actor_status@ =~= marked_running(
                            status0,
                            added.take(i as int + 1).to_set(),
                        ));
                    }
                },
                None => {
                    proof {
                        before.lemma_view();
                        assert(added[i as int] == a);
                        assert(!before@.contains_key(a));
                        assert(before@.contains_key(a) == status0.contains_key(a));
                    }
                    return false;
                },
            }
            i += 1;
        }
        assert(added.take(plan.added_actors.len() as int) =~= added);
        let ghost status1 = self.actor_status@;
        let ghost removed = plan@.removed_actors;
        let mut j: usize = 0;
        proof {
            assert(removed.take(0).to_set() =~= Set::<ActorId>::empty());
            assert(self.actor_status@ =~= status1.remove_keys(removed.take(0).to_set()));
            assert(self.actor_splits@ =~= splits0.remove_keys(removed.take(0).to_set()));
        }
        while j < plan.removed_actors.len()
            invariant
                j <= plan.removed_actors.len(),
                removed == plan@.removed_actors,
                splits0 == old(self)@.actor_splits,
                self.table_id == old(self).table_id,
                self.state == old(self).state,
                self.fragments == old(self).fragments,
                self.actor_status@ == status1.remove_keys(removed.take(j as int).to_set()),
                self.actor_splits@ == splits0.remove_keys(removed.take(j as int).to_set()),
            decreases plan.removed_actors.len() - j,
        {
            let a = plan.removed_actors[j];
            self.actor_status.remove(a);
            self.actor_splits.remove(a);
            proof {
                removed.take(j as int).lemma_push_to_set_commute(a);
                assert(removed.take(j as int + 1) =~= removed.take(j as int).push(a));
                assert(self.actor_status@ =~= status1.remove_keys(
                    removed.take(j as int + 1).to_set(),
                ));
                assert(self.actor_splits@ =~= splits0.remove_keys(
                    removed.take(j as int + 1).to_set(),
                ));
            }
            j += 1;
        }
        assert(removed.take(plan.removed_actors.len() as int) =~= removed);
        self.actor_splits.extend_from(&plan.actor_splits);
        true
    }

    /// Lets fragment `fid` follow the plan and appends to `updates` the
    /// vnode mapping to announce, if any. Gives `false` if the job has no
    /// such fragment or the plan's mapping names an actor that is not a
    /// placed actor of the resized fragment; the job is then to be thrown
    /// away.
    pub fn resize_fragment(
        &mut self,
        fid: FragmentId,
        plan: &Reschedule,
        updates: &mut Vec<ParallelUnitMapping>,
    ) -> (ok: bool)
        ensures
            ok == (old(self)@.fragment_resized(fid, plan@) is Some),
            ok ==> Some(final(self)@) == old(self)@.fragment_resized(fid, plan@),
            ok ==> final(updates).deep_view() == old(updates).deep_view()
                + final(self)@.mapping_update(fid),
    {
        let p = match self.fragments.position(fid) {
            Some(p) => p,
            None => {
                proof {
                    self.fragments.lemma_view();
                }
                return false;
            },
        };
        let ghost before = self.fragments;
        proof {
            before.lemma_view();
        }
        let f = self.fragments.value_at_mut(p);
        f.resize_actors(plan);
        let ghost mid = self.fragments;
        proof {
            before.lemma_view_updated(&mid, p as int, mid.values()[p as int]);
        }
        let f = self.fragments.value_at(p);
        let converted = match (&f.vnode_mapping, &plan.upstream_dispatcher_mapping) {
            (Some(_), Some(am)) => {
                let units = units_of_actors(&f.actors, &self.actor_status);
                match actor_mapping_to_parallel_unit_mapping(fid, &units, am) {
                    Some(m) => Some(m),
                    None => {
                        return false;
                    },
                }
            },
            _ => None,
        };
        match converted {
            Some(m) => {
                let f = self.fragments.value_at_mut(p);
                f.vnode_mapping = Some(m);
                proof {
                    mid.lemma_view();
                    mid.lemma_view_updated(
                        &self.fragments,
                        p as int,
                        self.fragments.values()[p as int],
                    );
                }
            },
            None => {},
        }
        proof {
            assert(self.fragments@ =~= before@.insert(fid, self.fragments.values()[p as int]@));
            self.fragments.lemma_view();
        }
        let f = self.fragments.value_at(p);
        if f.state_table_ids.len() > 0 {
            match f.mapping() {
                Some(m) => {
                    let ghost prev = updates.deep_view();
                    updates.push(m);
                    assert(updates.deep_view() =~= prev + seq![m@]);
                },
                None => {
                    assert(updates.deep_view() =~= updates.deep_view() + Seq::<
                        ParallelUnitMappingView,
                    >::empty());
                },
            }
        } else {
            assert(updates.deep_view() =~= updates.deep_view() + Seq::<
                ParallelUnitMappingView,
            >::empty());
        }
        true
    }

    /// Rewires the upstream dispatchers that the plan names. Gives `false`
    /// if one of their fragments is not in this job or one of the
    /// dispatchers cannot take the change; the job is then to be thrown
    /// away.
    pub fn rewire_upstream_dispatchers(&mut self, plan: &Reschedule, fresh: &Vec<ActorId>) -> (ok:
        bool)
        ensures
            ok == (old(self)@.upstream_rewired_upto(
                plan@,
                fresh@.to_set(),
                plan@.upstream_fragment_dispatcher_ids.len(),
            ) is Some),
            ok ==> Some(final(self)@) == old(self)@.upstream_rewired_upto(
                plan@,
                fresh@.to_set(),
                plan@.upstream_fragment_dispatcher_ids.len(),
            ),
    {
        let mut i: usize = 0;
        let n = plan.upstream_fragment_dispatcher_ids.len();
        while i < n
            invariant
                i <= n,
                n == plan.upstream_fragment_dispatcher_ids.len(),
                Some(self@) == old(self)@.upstream_rewired_upto(plan@, fresh@.to_set(), i as nat),
            ensures
                i == n,
            decreases n - i,
        {
            let (u, id) = plan.upstream_fragment_dispatcher_ids[i];
            let ghost job = self@;
            let ghost before = self.fragments;
            let p = match self.fragments.position(u) {
                Some(p) => p,
                None => {
                    proof {
                        before.lemma_view();
                        lemma_rewire_fails(old(self)@, plan@, fresh@.to_set(), (i + 1) as nat, n as nat);
                    }
                    return false;
                },
            };
            proof {
                before.lemma_view();
            }
            let f = self.fragments.value_at_mut(p);
            let ok = f.rewire_dispatchers(plan, id, fresh);
            if !ok {
                proof {
                    lemma_rewire_fails(old(self)@, plan@, fresh@.to_set(), (i + 1) as nat, n as nat);
                }
                return false;
            }
            proof {
                before.lemma_view_updated(&self.fragments, p as int, self.fragments.values()[p as int]);
            }
            i += 1;
        }
        true
    }

    /// Rewires the merge side of the plan's downstream fragment. Gives
    /// `false` if that fragment is not in this job or one of its actors
    /// cannot take the change; the job is then to be thrown away.
    pub fn rewire_downstream(&mut self, fid: FragmentId, plan: &Reschedule, fresh: &Vec<ActorId>) -> (ok:
        bool)
        ensures
            ok == (old(self)@.downstream_rewired(fid, plan@, fresh@.to_set()) is Some),
            ok ==> Some(final(self)@) == old(self)@.downstream_rewired(fid, plan@, fresh@.to_set()),
    {
        match plan.downstream_fragment_id {
            None => true,
            Some(d) => {
                let ghost before = self.fragments;
                let p = match self.fragments.position(d) {
                    Some(p) => p,
                    None => {
                        proof {
                            before.lemma_view();
                        }
                        return false;
                    },
                };
                proof {
                    before.lemma_view();
                }
                let f = self.fragments.value_at_mut(p);
                let ok = f.rewire_upstream(plan, fid, fresh);
                if !ok {
                    return false;
                }
                proof {
                    before.lemma_view_updated(
                        &self.fragments,
                        p as int,
                        self.fragments.values()[p as int],
                    );
                }
                true
            },
        }
    }

    /// Applies the plan for fragment `fid` of this job in full and appends
    /// to `updates` the vnode mapping to announce, if any. Gives `false` if
    /// the plan contradicts the job; the job is then to be thrown away.
    pub fn apply_reschedule(
        &mut self,
        fid: FragmentId,
        plan: &Reschedule,
        fresh: &Vec<ActorId>,
        updates: &mut Vec<ParallelUnitMapping>,
    ) -> (ok: bool)
        ensures
            ok == (old(self)@.rescheduled(fid, plan@, fresh@.to_set()) is Some),
            ok ==> Some(final(self)@) == old(self)@.rescheduled(fid, plan@, fresh@.to_set()),
            ok ==> final(updates).deep_view() == old(updates).deep_view() + old(self)@.resized(
                fid,
                plan@,
            )->Some_0.mapping_update(fid),
    {
        if !self.reschedule_status(plan) {
            return false;
        }
        if !self.resize_fragment(fid, plan, updates) {
            return false;
        }
        if !self.rewire_upstream_dispatchers(plan, fresh) {
            return false;
        }
        self.rewire_downstream(fid, plan, fresh)
    }
}

/// Once the rewiring of the upstream dispatchers has failed, it stays
/// failed.
pub proof fn lemma_rewire_fails(
    job: TableFragmentsView,
    plan: RescheduleView,
    fresh: Set<ActorId>,
    m: nat,
    n: nat,
)
    requires
        m <= n <= plan.upstream_fragment_dispatcher_ids.len(),
        job.upstream_rewired_upto(plan, fresh, m) is None,
    ensures
        job.upstream_rewired_upto(plan, fresh, n) is None,
    decreases n,
{
    if m < n {
        lemma_rewire_fails(job, plan, fresh, m, (n - 1) as nat);
    }
}

} // verus!
