//! Actors and what they carry: dispatchers towards downstream actors and the
//! tree of stream nodes, whose merge nodes name the upstream actors.

use crate::model::common::{
    clone_u32s, contains_id, ActorId, ActorMapping, ActorMappingView, Buffer, DispatcherId,
    FragmentId, TableId,
};
use crate::ord_map::DeepClone;
use vstd::prelude::*;

verus! {

/// The predicate "is not a member of `gone`".
pub open spec fn not_in(gone: Set<u32>) -> spec_fn(u32) -> bool {
    |a: u32| !gone.contains(a)
}

/// Whether an actor list can take the change "remove `gone`, append `added`":
/// nothing that is added is already listed and everything that is removed is.
pub open spec fn retargetable(s: Seq<ActorId>, gone: Set<ActorId>, added: Seq<ActorId>) -> bool {
    &&& forall|i: int| 0 <= i < added.len() ==> !s.contains(#[trigger] added[i])
    &&& forall|a: ActorId| #[trigger] gone.contains(a) ==> s.contains(a)
}

/// An actor list after the members of `gone` left and `added` was appended.
pub open spec fn retargeted(s: Seq<ActorId>, gone: Set<ActorId>, added: Seq<ActorId>) -> Seq<
    ActorId,
> {
    s.filter(not_in(gone)) + added
}

/// The ids of `v` that are not in `gone`, in their order.
pub fn without_ids(v: &Vec<u32>, gone: &Vec<u32>) -> (r: Vec<u32>)
    ensures
        r@ == v@.filter(not_in(gone@.to_set())),
{
    let mut out: Vec<u32> = Vec::new();
    let mut i: usize = 0;
    proof {
        reveal(Seq::filter);
        assert(v@.take(0) =~= Seq::<u32>::empty());
    }
    while i < v.len()
        invariant
            i <= v.len(),
            out@ == v@.take(i as int).filter(not_in(gone@.to_set())),
        decreases v.len() - i,
    {
        let x = v[i];
        proof {
            assert(v@.take(i as int + 1) =~= v@.take(i as int).push(x));
            v@.take(i as int).lemma_filter_push(x, not_in(gone@.to_set()));
        }
        if !contains_id(gone, x) {
            out.push(x);
        }
        i += 1;
    }
    assert(v@.take(v.len() as int) =~= v@);
    out
}

/// Whether every id of `xs` occurs in `v`.
pub fn contains_all(v: &Vec<u32>, xs: &Vec<u32>) -> (b: bool)
    ensures
        b == forall|a: u32| #[trigger] xs@.to_set().contains(a) ==> v@.contains(a),
{
    let mut i: usize = 0;
    while i < xs.len()
        invariant
            i <= xs.len(),
            forall|j: int| 0 <= j < i ==> v@.contains(#[trigger] xs@[j]),
        decreases xs.len() - i,
    {
        if !contains_id(v, xs[i]) {
            assert(xs@.to_set().contains(xs@[i as int]));
            return false;
        }
        i += 1;
    }
    true
}

/// Whether no id of `xs` occurs in `v`.
pub fn contains_none(v: &Vec<u32>, xs: &Vec<u32>) -> (b: bool)
    ensures
        b == forall|i: int| 0 <= i < xs@.len() ==> !v@.contains(#[trigger] xs@[i]),
{
    let mut i: usize = 0;
    while i < xs.len()
        invariant
            i <= xs.len(),
            forall|j: int| 0 <= j < i ==> !v@.contains(#[trigger] xs@[j]),
        decreases xs.len() - i,
    {
        if contains_id(v, xs[i]) {
            return false;
        }
        i += 1;
    }
    true
}

/// Appends a copy of `more` to `v`.
pub fn append_ids(v: &mut Vec<u32>, more: &Vec<u32>)
    ensures
        final(v)@ == old(v)@ + more@,
{
    let mut i: usize = 0;
    while i < more.len()
        invariant
            i <= more.len(),
            v@ == old(v)@ + more@.take(i as int),
        decreases more.len() - i,
    {
        v.push(more[i]);
        assert(more@.take(i as int + 1) =~= more@.take(i as int).push(more@[i as int]));
        i += 1;
    }
    assert(more@.take(more.len() as int) =~= more@);
}

/// Applies "remove `to_remove`, append `to_create`" to an actor list, provided
/// the list can take it; otherwise leaves the list as it is.
pub fn update_actors(actors: &mut Vec<ActorId>, to_remove: &Vec<ActorId>, to_create: &Vec<
    ActorId,
>) -> (ok: bool)
    ensures
        ok == retargetable(old(actors)@, to_remove@.to_set(), to_create@),
        ok ==> final(actors)@ == retargeted(old(actors)@, to_remove@.to_set(), to_create@),
        !ok ==> final(actors)@ == old(actors)@,
{
    if !contains_none(actors, to_create) {
        return false;
    }
    if !contains_all(actors, to_remove) {
        return false;
    }
    let mut kept = without_ids(actors, to_remove);
    append_ids(&mut kept, to_create);
    *actors = kept;
    true
}

/// Outbound routing of an actor: the downstream actors it sends to.
#[derive(Clone, Debug, PartialEq, Eq)]
pub struct Dispatcher {
    pub dispatcher_id: DispatcherId,
    pub hash_mapping: Option<ActorMapping>,
    pub downstream_actor_id: Vec<ActorId>,
}

/// Model of a [`Dispatcher`].
pub struct DispatcherView {
    pub dispatcher_id: DispatcherId,
    pub hash_mapping: Option<ActorMappingView>,
    pub downstream_actor_id: Seq<ActorId>,
}

impl View for Dispatcher {
    type V = DispatcherView;

    open spec fn view(&self) -> DispatcherView {
        DispatcherView {
            dispatcher_id: self.dispatcher_id,
            hash_mapping: self.hash_mapping.deep_view(),
            downstream_actor_id: self.downstream_actor_id@,
        }
    }
}

impl DeepView for Dispatcher {
    type V = DispatcherView;

    open spec fn deep_view(&self) -> DispatcherView {
        self@
    }
}

impl DeepClone for Dispatcher {
    fn deep_clone(&self) -> (r: Self) {
        Dispatcher {
            dispatcher_id: self.dispatcher_id,
            hash_mapping: self.hash_mapping.deep_clone(),
            downstream_actor_id: clone_u32s(&self.downstream_actor_id),
        }
    }
}

/// Fan-in of an actor: the upstream actors of one upstream fragment.
#[derive(Clone, Debug, PartialEq, Eq)]
pub struct MergeNode {
    pub upstream_actor_id: Vec<ActorId>,
    pub upstream_fragment_id: FragmentId,
}

/// Model of a [`MergeNode`].
pub struct MergeNodeView {
    pub upstream_actor_id: Seq<ActorId>,
    pub upstream_fragment_id: FragmentId,
}

/// Reads the output of the upstream job `table_id`.
#[derive(Clone, Copy, Debug, PartialEq, Eq, Structural)]
pub struct ChainNode {
    pub table_id: TableId,
}

/// What a stream node does, as far as the manager looks into it.
#[derive(Clone, Debug, PartialEq, Eq)]
pub enum NodeBody {
    Merge(MergeNode),
    Chain(ChainNode),
    Other,
}

/// Model of a [`NodeBody`].
pub enum NodeBodyView {
    Merge(MergeNodeView),
    Chain(ChainNode),
    Other,
}

impl View for NodeBody {
    type V = NodeBodyView;

    open spec fn view(&self) -> NodeBodyView {
        match *self {
            NodeBody::Merge(m) => NodeBodyView::Merge(
                MergeNodeView {
                    upstream_actor_id: m.upstream_actor_id@,
                    upstream_fragment_id: m.upstream_fragment_id,
                },
            ),
            NodeBody::Chain(c) => NodeBodyView::Chain(c),
            NodeBody::Other => NodeBodyView::Other,
        }
    }
}

impl NodeBody {
    fn copy(&self) -> (r: Self)
        ensures
            r@ == self@,
    {
        match self {
            NodeBody::Merge(m) => NodeBody::Merge(
                MergeNode {
                    upstream_actor_id: clone_u32s(&m.upstream_actor_id),
                    upstream_fragment_id: m.upstream_fragment_id,
                },
            ),
            NodeBody::Chain(c) => NodeBody::Chain(*c),
            NodeBody::Other => NodeBody::Other,
        }
    }
}

/// One node of the operator tree that an actor executes.
#[derive(Debug, PartialEq, Eq)]
pub struct StreamNode {
    pub operator_id: u64,
    pub node_body: NodeBody,
    pub input: Vec<StreamNode>,
}

/// Model of a [`StreamNode`].
pub struct StreamNodeView {
    pub operator_id: u64,
    pub node_body: NodeBodyView,
    pub input: Seq<StreamNodeView>,
}

impl View for StreamNode {
    type V = StreamNodeView;

    open spec fn view(&self) -> StreamNodeView
        decreases self,
    {
        StreamNodeView {
            operator_id: self.operator_id,
            node_body: self.node_body@,
            input: Seq::new(
                self.input@.len(),
                |i: int|
                    if 0 <= i < self.input@.len() {
                        self.input@[i].view()
                    } else {
                        arbitrary()
                    },
            ),
        }
    }
}

impl DeepView for StreamNode {
    type V = StreamNodeView;

    open spec fn deep_view(&self) -> StreamNodeView {
        self@
    }
}

impl StreamNodeView {
    /// The body of this node after the change "remove `gone`, append `added`"
    /// to its upstream actors, if it merges from fragment `upstream`.
    pub open spec fn body_retargeted(
        self,
        upstream: FragmentId,
        gone: Set<ActorId>,
        added: Seq<ActorId>,
    ) -> NodeBodyView {
        match self.node_body {
            NodeBodyView::Merge(m) => if m.upstream_fragment_id == upstream {
                NodeBodyView::Merge(
                    MergeNodeView {
                        upstream_actor_id: retargeted(m.upstream_actor_id, gone, added),
                        upstream_fragment_id: m.upstream_fragment_id,
                    },
                )
            } else {
                self.node_body
            },
            _ => self.node_body,
        }
    }

    /// Whether this node's own body can take the change.
    pub open spec fn body_retargetable(
        self,
        upstream: FragmentId,
        gone: Set<ActorId>,
        added: Seq<ActorId>,
    ) -> bool {
        match self.node_body {
            NodeBodyView::Merge(m) => m.upstream_fragment_id == upstream ==> retargetable(
                m.upstream_actor_id,
                gone,
                added,
            ),
            _ => true,
        }
    }

    /// Whether every merge node of this tree that reads fragment `upstream`
    /// can take the change "remove `gone`, append `added`".
    pub open spec fn merges_retargetable(
        self,
        upstream: FragmentId,
        gone: Set<ActorId>,
        added: Seq<ActorId>,
    ) -> bool
        decreases self,
    {
        &&& self.body_retargetable(upstream, gone, added)
        &&& forall|i: int|
            0 <= i < self.input.len() ==> (#[trigger] self.input[i]).merges_retargetable(
                upstream,
                gone,
                added,
            )
    }

    /// This tree with the change "remove `gone`, append `added`" applied to
    /// every merge node that reads fragment `upstream`.
    pub open spec fn merges_retargeted(
        self,
        upstream: FragmentId,
        gone: Set<ActorId>,
        added: Seq<ActorId>,
    ) -> StreamNodeView
        decreases self,
    {
        StreamNodeView {
            operator_id: self.operator_id,
            node_body: self.body_retargeted(upstream, gone, added),
            input: Seq::new(
                self.input.len(),
                |i: int|
                    if 0 <= i < self.input.len() {
                        self.input[i].merges_retargeted(upstream, gone, added)
                    } else {
                        arbitrary()
                    },
            ),
        }
    }

    /// The children of a retargeted tree are the retargeted children.
    pub proof fn lemma_merges_retargeted(
        self,
        upstream: FragmentId,
        gone: Set<ActorId>,
        added: Seq<ActorId>,
    )
        ensures
            self.merges_retargeted(upstream, gone, added).operator_id == self.operator_id,
            self.merges_retargeted(upstream, gone, added).node_body == self.body_retargeted(
                upstream,
                gone,
                added,
            ),
            self.merges_retargeted(upstream, gone, added).input.len() == self.input.len(),
            forall|i: int|
                0 <= i < self.input.len() ==> #[trigger] self.merges_retargeted(
                    upstream,
                    gone,
                    added,
                ).input[i] == self.input[i].merges_retargeted(upstream, gone, added),
    {
        reveal_with_fuel(StreamNodeView::merges_retargeted, 2);
    }

    /// The upstream tables named by the chain nodes of the first `k` children
    /// of this node, children in order.
    pub open spec fn chain_tables_upto(self, k: nat) -> Seq<TableId>
        decreases self, k,
    {
        if k == 0 || k > self.input.len() {
            Seq::empty()
        } else {
            self.chain_tables_upto((k - 1) as nat) + self.input[k - 1].chain_tables()
        }
    }

    /// The upstream tables named by the chain nodes of this tree, the node
    /// itself first, then its children in order.
    pub open spec fn chain_tables(self) -> Seq<TableId>
        decreases self, self.input.len() + 1,
    {
        let own = match self.node_body {
            NodeBodyView::Chain(c) => seq![c.table_id],
            _ => Seq::empty(),
        };
        own + self.chain_tables_upto(self.input.len())
    }
}

impl StreamNode {
    /// The view of a node, one level unfolded.
    pub proof fn lemma_view(&self)
        ensures
            self@.operator_id == self.operator_id,
            self@.node_body == self.node_body@,
            self@.input.len() == self.input@.len(),
            forall|i: int| 0 <= i < self.input@.len() ==> #[trigger] self@.input[i] == self.input@[i]@,
    {
        reveal_with_fuel(<StreamNode as View>::view, 2);
    }

    /// Applies "remove `to_remove`, append `to_create`" to the upstream actors
    /// of every merge node of this tree that reads fragment `upstream`.
    /// Gives `false` if one of them cannot take the change; the tree is then
    /// to be thrown away.
    pub fn update_merge_node_upstream(
        &mut self,
        upstream: FragmentId,
        to_remove: &Vec<ActorId>,
        to_create: &Vec<ActorId>,
    ) -> (ok: bool)
        ensures
            ok == old(self)@.merges_retargetable(upstream, to_remove@.to_set(), to_create@),
            ok ==> final(self)@ == old(self)@.merges_retargeted(
                upstream,
                to_remove@.to_set(),
                to_create@,
            ),
        decreases *old(self),
    {
        let ghost gone = to_remove@.to_set();
        let ghost before = *self;
        proof {
            before.lemma_view();
            before@.lemma_merges_retargeted(upstream, gone, to_create@);
        }
        match &mut self.node_body {
            NodeBody::Merge(m) => {
                if m.upstream_fragment_id == upstream {
                    if !update_actors(&mut m.upstream_actor_id, to_remove, to_create) {
                        return false;
                    }
                }
            },
            _ => {},
        }
        let ghost body = self.node_body;
        assert(body@ == before@.body_retargeted(upstream, gone, to_create@));
        assert(before@.body_retargetable(upstream, gone, to_create@));
        let mut i: usize = 0;
        while i < self.input.len()
            invariant
                i <= self.input.len(),
                before == *old(self),
                self.node_body == body,
                self.operator_id == before.operator_id,
                self.input.len() == before.input.len(),
                before@.input.len() == before.input@.len(),
                forall|j: int|
                    0 <= j < before.input@.len() ==> #[trigger] before@.input[j]
                        == before.input@[j]@,
                forall|j: int|
                    0 <= j < i ==> (#[trigger] before@.input[j]).merges_retargetable(
                        upstream,
                        gone,
                        to_create@,
                    ),
                forall|j: int|
                    0 <= j < i ==> (#[trigger] self.input@[j])@ == before.input@[j]@.merges_retargeted(
                        upstream,
                        gone,
                        to_create@,
                    ),
                forall|j: int| i <= j < self.input.len() ==> self.input@[j] == before.input@[j],
                gone == to_remove@.to_set(),
            decreases self.input.len() - i,
        {
            let ok = self.input[i].update_merge_node_upstream(upstream, to_remove, to_create);
            if !ok {
                assert(!before@.input[i as int].merges_retargetable(upstream, gone, to_create@));
                return false;
            }
            i += 1;
        }
        proof {
            let want = before@.merges_retargeted(upstream, gone, to_create@);
            self.lemma_view();
            assert forall|j: int| 0 <= j < self.input.len() implies self@.input[j]
                == want.input[j] by {
                assert(self@.input[j] == self.input@[j]@);
                assert(before@.input[j] == before.input@[j]@);
            }
            assert(self@.input =~= want.input);
        }
        true
    }

    /// Appends to `out` the upstream tables named by the chain nodes of this tree.
    pub fn collect_chain_tables(&self, out: &mut Vec<TableId>)
        ensures
            final(out)@ == old(out)@ + self@.chain_tables(),
        decreases self,
    {
        proof {
            self.lemma_view();
        }
        match &self.node_body {
            NodeBody::Chain(c) => {
                out.push(c.table_id);
            },
            _ => {},
        }
        let ghost own = match self@.node_body {
            NodeBodyView::Chain(c) => seq![c.table_id],
            _ => Seq::empty(),
        };
        assert(out@ =~= old(out)@ + own);
        let mut i: usize = 0;
        while i < self.input.len()
            invariant
                i <= self.input.len(),
                self@.input.len() == self.input@.len(),
                forall|j: int|
                    0 <= j < self.input@.len() ==> #[trigger] self@.input[j] == self.input@[j]@,
                out@ == old(out)@ + own + self@.chain_tables_upto(i as nat),
            decreases self.input.len() - i,
        {
            let ghost mid = out@;
            self.input[i].collect_chain_tables(out);
            proof {
                assert(self@.chain_tables_upto((i + 1) as nat) == self@.chain_tables_upto(i as nat)
                    + self@.input[i as int].chain_tables());
                assert(out@ =~= old(out)@ + own + self@.chain_tables_upto((i + 1) as nat));
            }
            i += 1;
        }
        assert(out@ =~= old(out)@ + self@.chain_tables());
    }
}

impl DeepClone for StreamNode {
    fn deep_clone(&self) -> (r: Self)
        decreases self,
    {
        let mut input: Vec<StreamNode> = Vec::new();
        let mut i: usize = 0;
        while i < self.input.len()
            invariant
                i <= self.input.len(),
                input.len() == i,
                forall|j: int| 0 <= j < i ==> (#[trigger] input@[j])@ == self.input@[j]@,
            decreases self.input.len() - i,
        {
            input.push(self.input[i].deep_clone());
            i += 1;
        }
        let r = StreamNode {
            operator_id: self.operator_id,
            node_body: self.node_body.copy(),
            input,
        };
        proof {
            self.lemma_view();
            r.lemma_view();
            assert(r@.input =~= self@.input);
        }
        r
    }
}

impl Clone for StreamNode {
    fn clone(&self) -> (r: Self)
        ensures
            r@ == self@,
    {
        self.deep_clone()
    }
}

/// One scheduled instance of a fragment.
#[derive(Clone, Debug, PartialEq, Eq)]
pub struct StreamActor {
    pub actor_id: ActorId,
    pub fragment_id: FragmentId,
    pub nodes: Option<StreamNode>,
    pub dispatcher: Vec<Dispatcher>,
    pub upstream_actor_id: Vec<ActorId>,
    pub vnode_bitmap: Option<Buffer>,
}

/// Model of a [`StreamActor`].
pub struct StreamActorView {
    pub actor_id: ActorId,
    pub fragment_id: FragmentId,
    pub nodes: Option<StreamNodeView>,
    pub dispatcher: Seq<DispatcherView>,
    pub upstream_actor_id: Seq<ActorId>,
    pub vnode_bitmap: Option<Seq<u8>>,
}

impl View for StreamActor {
    type V = StreamActorView;

    open spec fn view(&self) -> StreamActorView {
        StreamActorView {
            actor_id: self.actor_id,
            fragment_id: self.fragment_id,
            nodes: self.nodes.deep_view(),
            dispatcher: self.dispatcher.deep_view(),
            upstream_actor_id: self.upstream_actor_id@,
            vnode_bitmap: self.vnode_bitmap.deep_view(),
        }
    }
}

impl DeepView for StreamActor {
    type V = StreamActorView;

    open spec fn deep_view(&self) -> StreamActorView {
        self@
    }
}

impl DeepClone for StreamActor {
    fn deep_clone(&self) -> (r: Self) {
        StreamActor {
            actor_id: self.actor_id,
            fragment_id: self.fragment_id,
            nodes: self.nodes.deep_clone(),
            dispatcher: self.dispatcher.deep_clone(),
            upstream_actor_id: clone_u32s(&self.upstream_actor_id),
            vnode_bitmap: self.vnode_bitmap.deep_clone(),
        }
    }
}

} // verus!
