//! Edits of the dispatchers of a job: splicing in the dispatchers towards a
//! job that was built on top of it, and cutting the targets that went away
//! with a dropped job.

use crate::model::common::{ActorId, FragmentType};
use crate::model::stream::{not_in, without_ids, Dispatcher, DispatcherView, StreamActor, StreamActorView};
use crate::model::table_fragments::{Fragment, FragmentView, TableFragments, TableFragmentsView};
use crate::ord_map::{DeepClone, OrdMap};
use vstd::prelude::*;

verus! {

/// For each actor that gets new dispatchers, the dispatchers.
pub type DispatcherPatch = OrdMap<Vec<Dispatcher>>;

/// Model of a [`DispatcherPatch`].
pub type DispatcherPatchView = Map<ActorId, Seq<DispatcherView>>;

/// An actor with the dispatchers that `patch` has for it appended.
pub open spec fn patched_actor(patch: DispatcherPatchView) -> spec_fn(
    StreamActorView,
) -> StreamActorView {
    |a: StreamActorView|
        if patch.contains_key(a.actor_id) {
            StreamActorView { dispatcher: a.dispatcher + patch[a.actor_id], ..a }
        } else {
            a
        }
}

/// A fragment with every actor patched.
pub open spec fn patched_fragment(patch: DispatcherPatchView) -> spec_fn(
    FragmentView,
) -> FragmentView {
    |f: FragmentView| FragmentView { actors: f.actors.map_values(patched_actor(patch)), ..f }
}

/// A dispatcher without the targets in `gone`.
pub open spec fn cut_targets(gone: Set<ActorId>) -> spec_fn(DispatcherView) -> DispatcherView {
    |d: DispatcherView|
        DispatcherView { downstream_actor_id: d.downstream_actor_id.filter(not_in(gone)), ..d }
}

/// The predicate "has a target left".
pub open spec fn has_target() -> spec_fn(DispatcherView) -> bool {
    |d: DispatcherView| d.downstream_actor_id.len() > 0
}

/// Dispatchers after the targets in `gone` were cut: each loses those
/// targets, and one that has no target left is dropped.
pub open spec fn pruned_dispatchers(ds: Seq<DispatcherView>, gone: Set<ActorId>) -> Seq<
    DispatcherView,
> {
    ds.map_values(cut_targets(gone)).filter(has_target())
}

/// An actor with its dispatchers pruned.
pub open spec fn pruned_actor(gone: Set<ActorId>) -> spec_fn(StreamActorView) -> StreamActorView {
    |a: StreamActorView|
        StreamActorView { dispatcher: pruned_dispatchers(a.dispatcher, gone), ..a }
}

/// A fragment with the dispatchers of its actors pruned, if it is a sink
/// fragment; any other fragment as it is.
pub open spec fn pruned_fragment(gone: Set<ActorId>) -> spec_fn(FragmentView) -> FragmentView {
    |f: FragmentView|
        if f.fragment_type == FragmentType::Sink {
            FragmentView { actors: f.actors.map_values(pruned_actor(gone)), ..f }
        } else {
            f
        }
}

impl TableFragmentsView {
    /// This job with the dispatchers of `patch` appended to its actors.
    pub open spec fn with_dispatchers_added(self, patch: DispatcherPatchView) -> Self {
        TableFragmentsView { fragments: self.fragments.map_values(patched_fragment(patch)), ..self }
    }

    /// This job with the targets in `gone` cut from the dispatchers of its
    /// sink fragments.
    pub open spec fn with_sink_targets_cut(self, gone: Set<ActorId>) -> Self {
        TableFragmentsView { fragments: self.fragments.map_values(pruned_fragment(gone)), ..self }
    }
}

impl StreamActor {
    /// Appends copies of `more` to the actor's dispatchers.
    pub fn add_dispatchers(&mut self, more: &Vec<Dispatcher>)
        ensures
            final(self)@ == (StreamActorView {
                dispatcher: old(self)@.dispatcher + more.deep_view(),
                ..old(self)@
            }),
    {
        let mut i: usize = 0;
        assert(self.dispatcher.deep_view() =~= old(self).dispatcher.deep_view()
            + more.deep_view().take(0));
        while i < more.len()
            invariant
                i <= more.len(),
                self.actor_id == old(self).actor_id,
                self.fragment_id == old(self).fragment_id,
                self.nodes == old(self).nodes,
                self.upstream_actor_id == old(self).upstream_actor_id,
                self.vnode_bitmap == old(self).vnode_bitmap,
                self.dispatcher.deep_view() == old(self).dispatcher.deep_view()
                    + more.deep_view().take(i as int),
            decreases more.len() - i,
        {
            let ghost before = self.dispatcher.deep_view();
            let d = more[i].deep_clone();
            self.dispatcher.push(d);
            proof {
                assert(self.dispatcher.deep_view() =~= before.push(d@));
                assert(more.deep_view().take(i as int + 1) =~= more.deep_view().take(
                    i as int,
                ).push(more@[i as int]@));
                assert(self.dispatcher.deep_view() =~= old(self).dispatcher.deep_view()
                    + more.deep_view().take(i as int + 1));
            }
            i += 1;
        }
        assert(more.deep_view().take(more.len() as int) =~= more.deep_view());
    }

    /// Cuts the targets in `gone` from the actor's dispatchers and drops the
    /// dispatchers that have no target left.
    pub fn prune_dispatchers(&mut self, gone: &Vec<ActorId>)
        ensures
            final(self)@ == pruned_actor(gone@.to_set())(old(self)@),
    {
        let mut kept: Vec<Dispatcher> = Vec::new();
        let mut i: usize = 0;
        let ghost all = self.dispatcher.deep_view();
        let ghost cut = cut_targets(gone@.to_set());
        proof {
            reveal(Seq::filter);
            assert(all.take(0).map_values(cut) =~= Seq::<DispatcherView>::empty());
            assert(kept.deep_view() =~= Seq::<DispatcherView>::empty());
        }
        while i < self.dispatcher.len()
            invariant
                i <= self.dispatcher.len(),
                *self == *old(self),
                all == self.dispatcher.deep_view(),
                cut == cut_targets(gone@.to_set()),
                kept.deep_view() == all.take(i as int).map_values(cut).filter(has_target()),
            decreases self.dispatcher.len() - i,
        {
            let d = &self.dispatcher[i];
            let targets = without_ids(&d.downstream_actor_id, gone);
            proof {
                let prev = all.take(i as int).map_values(cut);
                assert(all[i as int] == d@);
                assert(all.take(i as int + 1).map_values(cut) =~= prev.push(cut(d@)));
                prev.lemma_filter_push(cut(d@), has_target());
            }
            if targets.len() > 0 {
                let ghost before = kept.deep_view();
                let nd = Dispatcher {
                    dispatcher_id: d.dispatcher_id,
                    hash_mapping: d.hash_mapping.deep_clone(),
                    downstream_actor_id: targets,
                };
                kept.push(nd);
                assert(kept.deep_view() =~= before.push(nd@));
            }
            i += 1;
        }
        assert(all.take(all.len() as int) =~= all);
        self.dispatcher = kept;
    }
}

impl Fragment {
    /// Appends to each actor the dispatchers that `patch` has for it.
    pub fn add_dispatchers(&mut self, patch: &DispatcherPatch)
        ensures
            final(self)@ == patched_fragment(patch@)(old(self)@),
    {
        let mut i: usize = 0;
        while i < self.actors.len()
            invariant
                i <= self.actors.len(),
                self.actors.len() == old(self).actors.len(),
                self.fragment_id == old(self).fragment_id,
                self.fragment_type == old(self).fragment_type,
                self.vnode_mapping == old(self).vnode_mapping,
                self.state_table_ids == old(self).state_table_ids,
                forall|j: int|
                    0 <= j < i ==> (#[trigger] self.actors@[j])@ == patched_actor(patch@)(
                        old(self).actors@[j]@,
                    ),
                forall|j: int| i <= j < self.actors.len() ==> self.actors@[j] == old(self).actors@[j],
            decreases self.actors.len() - i,
        {
            match patch.get(self.actors[i].actor_id) {
                Some(more) => {
                    self.actors[i].add_dispatchers(more);
                },
                None => {},
            }
            i += 1;
        }
        assert(self@.actors =~= old(self)@.actors.map_values(patched_actor(patch@)));
    }

    /// Prunes the dispatchers of the fragment's actors, if this is a sink
    /// fragment.
    pub fn prune_sink_dispatchers(&mut self, gone: &Vec<ActorId>)
        ensures
            final(self)@ == pruned_fragment(gone@.to_set())(old(self)@),
    {
        if self.fragment_type != FragmentType::Sink {
            return ;
        }
        let mut i: usize = 0;
        while i < self.actors.len()
            invariant
                i <= self.actors.len(),
                self.actors.len() == old(self).actors.len(),
                self.fragment_id == old(self).fragment_id,
                self.fragment_type == old(self).fragment_type,
                self.vnode_mapping == old(self).vnode_mapping,
                self.state_table_ids == old(self).state_table_ids,
                forall|j: int|
                    0 <= j < i ==> (#[trigger] self.actors@[j])@ == pruned_actor(gone@.to_set())(
                        old(self).actors@[j]@,
                    ),
                forall|j: int| i <= j < self.actors.len() ==> self.actors@[j] == old(self).actors@[j],
            decreases self.actors.len() - i,
        {
            self.actors[i].prune_dispatchers(gone);
            i += 1;
        }
        assert(self@.actors =~= old(self)@.actors.map_values(pruned_actor(gone@.to_set())));
    }
}

impl TableFragments {
    /// Appends to each actor of the job the dispatchers that `patch` has
    /// for it.
    pub fn add_dispatchers(&mut self, patch: &DispatcherPatch)
        ensures
            final(self)@ == old(self)@.with_dispatchers_added(patch@),
    {
        let n = self.fragments.len();
        let mut i: usize = 0;
        while i < n
            invariant
                i <= n,
                n == self.fragments.keys().len(),
                self.fragments.wf(),
                old(self).fragments.wf(),
                self.fragments.keys() == old(self).fragments.keys(),
                self.table_id == old(self).table_id,
                self.state == old(self).state,
                self.actor_status == old(self).actor_status,
                self.actor_splits == old(self).actor_splits,
                forall|j: int|
                    0 <= j < i ==> (#[trigger] self.fragments.values()[j])@ == patched_fragment(
                        patch@,
                    )(old(self).fragments.values()[j]@),
                forall|j: int|
                    i <= j < n ==> #[trigger] self.fragments.values()[j] == old(
                        self,
                    ).fragments.values()[j],
            decreases n - i,
        {
            let f = self.fragments.value_at_mut(i);
            f.add_dispatchers(patch);
            i += 1;
        }
        proof {
            old(self).fragments.lemma_view_mapped(&self.fragments, patched_fragment(patch@));
        }
    }

    /// Cuts the targets in `gone` from the dispatchers of the job's sink
    /// fragments; a dispatcher that has no target left is dropped.
    pub fn prune_sink_dispatchers(&mut self, gone: &Vec<ActorId>)
        ensures
            final(self)@ == old(self)@.with_sink_targets_cut(gone@.to_set()),
    {
        let n = self.fragments.len();
        let mut i: usize = 0;
        while i < n
            invariant
                i <= n,
                n == self.fragments.keys().len(),
                self.fragments.wf(),
                old(self).fragments.wf(),
                self.fragments.keys() == old(self).fragments.keys(),
                self.table_id == old(self).table_id,
                self.state == old(self).state,
                self.actor_status == old(self).actor_status,
                self.actor_splits == old(self).actor_splits,
                forall|j: int|
                    0 <= j < i ==> (#[trigger] self.fragments.values()[j])@ == pruned_fragment(
                        gone@.to_set(),
                    )(old(self).fragments.values()[j]@),
                forall|j: int|
                    i <= j < n ==> #[trigger] self.fragments.values()[j] == old(
                        self,
                    ).fragments.values()[j],
            decreases n - i,
        {
            let f = self.fragments.value_at_mut(i);
            f.prune_sink_dispatchers(gone);
            i += 1;
        }
        proof {
            old(self).fragments.lemma_view_mapped(&self.fragments, pruned_fragment(gone@.to_set()));
        }
    }
}

} // verus!
