//! Identifiers and the small value types shared by the rest of the model.

use crate::ord_map::DeepClone;
use vstd::prelude::*;

verus! {

/// Identifies a streaming job (a materialized table).
pub type TableId = u32;

/// Identifies a fragment; unique within its job.
pub type FragmentId = u32;

/// Identifies an actor; unique in the whole cluster.
pub type ActorId = u32;

/// Identifies a worker node.
pub type WorkerId = u32;

/// Identifies a parallel unit.
pub type ParallelUnitId = u32;

/// Identifies a dispatcher within its actor.
pub type DispatcherId = u64;

/// Lifecycle state of one actor.
#[derive(Clone, Copy, Debug, PartialEq, Eq, Structural)]
pub enum ActorState {
    Inactive,
    Running,
}

/// Lifecycle state of a job.
#[derive(Clone, Copy, Debug, PartialEq, Eq, Structural)]
pub enum State {
    Creating,
    Created,
}

/// The role of a fragment in its job's dataflow.
#[derive(Clone, Copy, Debug, PartialEq, Eq, Structural)]
pub enum FragmentType {
    /// Reads from an external source.
    Source,
    /// Emits the job's output; its dispatchers feed the jobs built on top.
    Sink,
    /// Bridges an upstream job's output into this job.
    Chain,
    /// Anything else.
    Internal,
}

/// A scheduling slot hosted by a worker.
#[derive(Clone, Copy, Debug, PartialEq, Eq, Structural)]
pub struct ParallelUnit {
    pub id: ParallelUnitId,
    pub worker_node_id: WorkerId,
}

/// Where an actor is placed and whether it runs.
#[derive(Clone, Copy, Debug, PartialEq, Eq, Structural)]
pub struct ActorStatus {
    pub parallel_unit: Option<ParallelUnit>,
    pub state: ActorState,
}

impl View for ParallelUnit {
    type V = ParallelUnit;

    open spec fn view(&self) -> ParallelUnit {
        *self
    }
}

impl DeepView for ParallelUnit {
    type V = ParallelUnit;

    open spec fn deep_view(&self) -> ParallelUnit {
        *self
    }
}

impl DeepClone for ParallelUnit {
    fn deep_clone(&self) -> (r: Self) {
        *self
    }
}

impl View for ActorStatus {
    type V = ActorStatus;

    open spec fn view(&self) -> ActorStatus {
        *self
    }
}

impl DeepView for ActorStatus {
    type V = ActorStatus;

    open spec fn deep_view(&self) -> ActorStatus {
        *self
    }
}

impl DeepClone for ActorStatus {
    fn deep_clone(&self) -> (r: Self) {
        *self
    }
}

impl View for ActorState {
    type V = ActorState;

    open spec fn view(&self) -> ActorState {
        *self
    }
}

impl DeepView for ActorState {
    type V = ActorState;

    open spec fn deep_view(&self) -> ActorState {
        *self
    }
}

impl DeepClone for ActorState {
    fn deep_clone(&self) -> (r: Self) {
        *self
    }
}

/// A worker node and the parallel units it hosts.
#[derive(Clone, Debug, PartialEq, Eq)]
pub struct WorkerNode {
    pub id: WorkerId,
    pub parallel_units: Vec<ParallelUnit>,
}

/// Model of a [`WorkerNode`].
pub struct WorkerNodeView {
    pub id: WorkerId,
    pub parallel_units: Seq<ParallelUnit>,
}

impl View for WorkerNode {
    type V = WorkerNodeView;

    open spec fn view(&self) -> WorkerNodeView {
        WorkerNodeView { id: self.id, parallel_units: self.parallel_units@ }
    }
}

impl DeepView for WorkerNode {
    type V = WorkerNodeView;

    open spec fn deep_view(&self) -> WorkerNodeView {
        self@
    }
}

/// An encoded bitmap over the vnodes: which partitions an actor owns.
#[derive(Clone, Debug, PartialEq, Eq)]
pub struct Buffer {
    pub body: Vec<u8>,
}

impl View for Buffer {
    type V = Seq<u8>;

    open spec fn view(&self) -> Seq<u8> {
        self.body@
    }
}

impl DeepView for Buffer {
    type V = Seq<u8>;

    open spec fn deep_view(&self) -> Seq<u8> {
        self@
    }
}

impl DeepClone for Buffer {
    fn deep_clone(&self) -> (r: Self) {
        let body = self.body.deep_clone();
        assert(body@ =~= self.body@) by {
            assert(body.deep_view().len() == self.body.deep_view().len());
            assert forall|i: int| 0 <= i < body@.len() implies body@[i] == self.body@[i] by {
                assert(body.deep_view()[i] == self.body.deep_view()[i]);
            }
        }
        Buffer { body }
    }
}

/// One split of an external source, in its encoded form.
#[derive(Clone, Debug, PartialEq, Eq)]
pub struct SourceSplit {
    pub encoded: Vec<u8>,
}

impl View for SourceSplit {
    type V = Seq<u8>;

    open spec fn view(&self) -> Seq<u8> {
        self.encoded@
    }
}

impl DeepView for SourceSplit {
    type V = Seq<u8>;

    open spec fn deep_view(&self) -> Seq<u8> {
        self@
    }
}

impl DeepClone for SourceSplit {
    fn deep_clone(&self) -> (r: Self) {
        let encoded = self.encoded.deep_clone();
        assert(encoded@ =~= self.encoded@) by {
            assert(encoded.deep_view().len() == self.encoded.deep_view().len());
            assert forall|i: int| 0 <= i < encoded@.len() implies encoded@[i]
                == self.encoded@[i] by {
                assert(encoded.deep_view()[i] == self.encoded.deep_view()[i]);
            }
        }
        SourceSplit { encoded }
    }
}

/// A run-length compressed function from vnode to the actor that owns it.
#[derive(Clone, Debug, PartialEq, Eq)]
pub struct ActorMapping {
    pub original_indices: Vec<u64>,
    pub data: Vec<ActorId>,
}

/// Model of an [`ActorMapping`].
pub struct ActorMappingView {
    pub original_indices: Seq<u64>,
    pub data: Seq<ActorId>,
}

impl View for ActorMapping {
    type V = ActorMappingView;

    open spec fn view(&self) -> ActorMappingView {
        ActorMappingView { original_indices: self.original_indices@, data: self.data@ }
    }
}

impl DeepView for ActorMapping {
    type V = ActorMappingView;

    open spec fn deep_view(&self) -> ActorMappingView {
        self@
    }
}

/// A run-length compressed function from vnode to the parallel unit that
/// serves it, for one fragment.
#[derive(Clone, Debug, PartialEq, Eq)]
pub struct ParallelUnitMapping {
    pub fragment_id: FragmentId,
    pub original_indices: Vec<u64>,
    pub data: Vec<ParallelUnitId>,
}

/// Model of a [`ParallelUnitMapping`].
pub struct ParallelUnitMappingView {
    pub fragment_id: FragmentId,
    pub original_indices: Seq<u64>,
    pub data: Seq<ParallelUnitId>,
}

impl View for ParallelUnitMapping {
    type V = ParallelUnitMappingView;

    open spec fn view(&self) -> ParallelUnitMappingView {
        ParallelUnitMappingView {
            fragment_id: self.fragment_id,
            original_indices: self.original_indices@,
            data: self.data@,
        }
    }
}

impl DeepView for ParallelUnitMapping {
    type V = ParallelUnitMappingView;

    open spec fn deep_view(&self) -> ParallelUnitMappingView {
        self@
    }
}

/// Copies a vector of plain integers.
pub fn clone_u32s(v: &Vec<u32>) -> (r: Vec<u32>)
    ensures
        r@ == v@,
{
    let mut out: Vec<u32> = Vec::new();
    let mut i: usize = 0;
    while i < v.len()
        invariant
            i <= v.len(),
            out@ == v@.take(i as int),
        decreases v.len() - i,
    {
        out.push(v[i]);
        assert(v@.take(i as int + 1) == v@.take(i as int).push(v@[i as int]));
        i += 1;
    }
    assert(v@.take(v.len() as int) == v@);
    out
}

/// Copies a vector of plain integers.
pub fn clone_u64s(v: &Vec<u64>) -> (r: Vec<u64>)
    ensures
        r@ == v@,
{
    let mut out: Vec<u64> = Vec::new();
    let mut i: usize = 0;
    while i < v.len()
        invariant
            i <= v.len(),
            out@ == v@.take(i as int),
        decreases v.len() - i,
    {
        out.push(v[i]);
        assert(v@.take(i as int + 1) == v@.take(i as int).push(v@[i as int]));
        i += 1;
    }
    assert(v@.take(v.len() as int) == v@);
    out
}

impl DeepClone for ActorMapping {
    fn deep_clone(&self) -> (r: Self) {
        ActorMapping {
            original_indices: clone_u64s(&self.original_indices),
            data: clone_u32s(&self.data),
        }
    }
}

impl DeepClone for ParallelUnitMapping {
    fn deep_clone(&self) -> (r: Self) {
        ParallelUnitMapping {
            fragment_id: self.fragment_id,
            original_indices: clone_u64s(&self.original_indices),
            data: clone_u32s(&self.data),
        }
    }
}

impl DeepClone for WorkerNode {
    fn deep_clone(&self) -> (r: Self) {
        let mut units: Vec<ParallelUnit> = Vec::new();
        let mut i: usize = 0;
        while i < self.parallel_units.len()
            invariant
                i <= self.parallel_units.len(),
                units@ == self.parallel_units@.take(i as int),
            decreases self.parallel_units.len() - i,
        {
            units.push(self.parallel_units[i]);
            assert(self.parallel_units@.take(i as int + 1) == self.parallel_units@.take(
                i as int,
            ).push(self.parallel_units@[i as int]));
            i += 1;
        }
        assert(self.parallel_units@.take(self.parallel_units.len() as int)
            == self.parallel_units@);
        WorkerNode { id: self.id, parallel_units: units }
    }
}

/// Whether `x` occurs in `v`.
pub fn contains_id(v: &Vec<u32>, x: u32) -> (b: bool)
    ensures
        b == v@.contains(x),
{
    let mut i: usize = 0;
    while i < v.len()
        invariant
            i <= v.len(),
            forall|j: int| 0 <= j < i ==> v@[j] != x,
        decreases v.len() - i,
    {
        if v[i] == x {
            return true;
        }
        i += 1;
    }
    false
}

} // verus!
