//! Look-ups that answer with one entry per named job, and the listing of
//! the actors that a barrier has to reach.

use crate::error::MetaError;
use crate::manager::queries::first_absent_id;
use crate::manager::reschedule::{job_at, job_ids};
use crate::manager::store::FragmentManager;
use crate::manager::transaction::StoreView;
use crate::model::common::{
    ActorId, ActorState, Buffer, FragmentType, ParallelUnit, ParallelUnitMapping,
    ParallelUnitMappingView, TableId, WorkerId,
};
use crate::model::grouping::{lemma_push_all_push, push_all, push_grouped};
use crate::model::placement::Placement;
use crate::model::table_fragments::{TableFragments, TableFragmentsView};
use crate::ord_map::OrdMap;
use vstd::prelude::*;

verus! {

/// The actors that a barrier has to reach, by worker.
#[derive(Debug)]
pub struct ActorInfos {
    /// For each worker the actors on it.
    pub actor_maps: OrdMap<Vec<ActorId>>,
    /// For each worker the actors of source fragments on it.
    pub source_actor_maps: OrdMap<Vec<ActorId>>,
}

/// How the sink fragment of a job is placed.
#[derive(Debug)]
pub struct FragmentVNodeInfo {
    /// The parallel unit of each sink actor.
    pub actor_parallel_unit_maps: OrdMap<ParallelUnit>,
    /// The vnode mapping of the sink fragment.
    pub vnode_mapping: Option<ParallelUnitMapping>,
}

/// Model of a [`FragmentVNodeInfo`].
pub struct FragmentVNodeInfoView {
    pub actor_parallel_unit_maps: Map<ActorId, ParallelUnit>,
    pub vnode_mapping: Option<ParallelUnitMappingView>,
}

impl View for FragmentVNodeInfo {
    type V = FragmentVNodeInfoView;

    open spec fn view(&self) -> FragmentVNodeInfoView {
        FragmentVNodeInfoView {
            actor_parallel_unit_maps: self.actor_parallel_unit_maps@,
            vnode_mapping: self.vnode_mapping.deep_view(),
        }
    }
}

impl DeepView for FragmentVNodeInfo {
    type V = FragmentVNodeInfoView;

    open spec fn deep_view(&self) -> FragmentVNodeInfoView {
        self@
    }
}

/// What is needed of the named jobs to build a graph on top of them.
#[derive(Debug)]
pub struct BuildGraphInfo {
    /// For each job its sink actors.
    pub table_sink_actor_ids: OrdMap<Vec<ActorId>>,
}

/// For each of the jobs `ids` what `part` says of it.
pub open spec fn per_table<V>(
    store: StoreView,
    ids: Seq<TableId>,
    part: spec_fn(TableFragmentsView) -> V,
) -> Map<TableId, V> {
    Map::new(|k: TableId| ids.contains(k), |k: TableId| part(store[k]))
}

/// The sink actors of a job.
pub open spec fn sink_actors_of_job() -> spec_fn(TableFragmentsView) -> Seq<ActorId> {
    |job: TableFragmentsView| job.actor_ids_of_kind(FragmentType::Sink)
}

/// The sink actors of a job with their vnode bitmaps.
pub open spec fn sink_bitmaps_of_job() -> spec_fn(TableFragmentsView) -> Seq<
    (ActorId, Option<Seq<u8>>),
> {
    |job: TableFragmentsView| job.sink_vnode_bitmap_info()
}

/// How the sink fragment of a job is placed.
pub open spec fn sink_placement_of_job() -> spec_fn(TableFragmentsView) -> FragmentVNodeInfoView {
    |job: TableFragmentsView|
        FragmentVNodeInfoView {
            actor_parallel_unit_maps: job.sink_actor_parallel_units(),
            vnode_mapping: job.sink_vnode_mapping(),
        }
}

/// For each worker the running placed actors of a job.
pub open spec fn worker_actors_of_job() -> spec_fn(TableFragmentsView) -> Map<
    WorkerId,
    Seq<ActorId>,
> {
    |job: TableFragmentsView| job.worker_actor_ids(false)
}

/// The placed actors of the first `n` stored jobs, as far as their
/// fragments are of kind `kind`, each with the id of its job: jobs in
/// ascending order of id.
pub open spec fn candidates(store: StoreView, kind: Option<FragmentType>, n: nat) -> Seq<
    (TableId, Placement),
>
    decreases n,
{
    if n == 0 || n > job_ids(store).len() {
        Seq::empty()
    } else {
        candidates(store, kind, (n - 1) as nat) + Seq::new(
            job_at(store, n - 1).placements(kind).len(),
            |i: int| (job_at(store, n - 1).table_id, job_at(store, n - 1).placements(kind)[i]),
        )
    }
}

/// The items of `items` whose flag in `keep` is set, in their order.
pub open spec fn picked<T>(items: Seq<T>, keep: Seq<bool>) -> Seq<T>
    decreases items.len(),
{
    if items.len() == 0 || keep.len() != items.len() {
        Seq::empty()
    } else {
        let rest = picked(items.drop_last(), keep.drop_last());
        if keep.last() {
            rest.push(items.last())
        } else {
            rest
        }
    }
}

/// `keep` holds, for each candidate, an answer that `check` gave when asked
/// about the candidate's state, job and actor.
pub open spec fn answered<F: Fn(ActorState, TableId, ActorId) -> bool>(
    check: F,
    items: Seq<(TableId, Placement)>,
    keep: Seq<bool>,
) -> bool {
    &&& keep.len() == items.len()
    &&& forall|i: int|
        0 <= i < items.len() ==> call_ensures(
            check,
            (items[i].1.state, items[i].0, items[i].1.actor),
            #[trigger] keep[i],
        )
}

/// A candidate as an item keyed by worker: the actor.
pub open spec fn actor_entry() -> spec_fn((TableId, Placement)) -> (WorkerId, ActorId) {
    |c: (TableId, Placement)| (c.1.worker, c.1.actor)
}

impl FragmentManager {
    /// For each named job what `f` computes of it.
    fn map_tables<T: DeepView, F: Fn(&TableFragments) -> T>(
        &self,
        table_ids: &Vec<TableId>,
        f: F,
        Ghost(part): Ghost<spec_fn(TableFragmentsView) -> T::V>,
    ) -> (r: Result<OrdMap<T>, MetaError>)
        requires
            forall|job: &TableFragments| f.requires((job,)),
            forall|job: &TableFragments, out: T|
                f.ensures((job,), out) ==> out.deep_view() == part(job@),
        ensures
            match r {
                Ok(m) => first_absent_id(self@, table_ids@, 0) is None && m@ == per_table(
                    self@,
                    table_ids@,
                    part,
                ),
                Err(e) => first_absent_id(self@, table_ids@, 0) == Some(e->JobNotFound_0) && e
                    is JobNotFound,
            },
    {
        let store = &self.core.table_fragments;
        let mut info: OrdMap<T> = OrdMap::new();
        let mut i: usize = 0;
        while i < table_ids.len()
            invariant
                i <= table_ids.len(),
                store@ == self@,
                forall|job: &TableFragments| f.requires((job,)),
                forall|job: &TableFragments, out: T|
                    f.ensures((job,), out) ==> out.deep_view() == part(job@),
                first_absent_id(self@, table_ids@, 0) == first_absent_id(
                    self@,
                    table_ids@,
                    i as nat,
                ),
                forall|k: TableId|
                    #![trigger info@.contains_key(k)]
                    info@.contains_key(k) <==> table_ids@.take(i as int).contains(k),
                forall|k: TableId|
                    #![trigger info@.contains_key(k)]
                    info@.contains_key(k) ==> info@[k] == part(self@[k]),
            decreases table_ids.len() - i,
        {
            let id = table_ids[i];
            let ghost before = info@;
            match store.get(id) {
                Some(job) => {
                    let entry = f(job);
                    info.insert(id, entry);
                },
                None => {
                    return Err(MetaError::JobNotFound(id));
                },
            }
            proof {
                let prev = table_ids@.take(i as int);
                let next = table_ids@.take(i as int + 1);
                assert(next =~= prev.push(id));
                assert forall|k: TableId|
                    #![trigger info@.contains_key(k)]
                    info@.contains_key(k) <==> next.contains(k) by {
                    assert(before.contains_key(k) <==> prev.contains(k));
                    if prev.contains(k) {
                        let j = choose|j: int| 0 <= j < prev.len() && prev[j] == k;
                        assert(next[j] == k);
                    }
                    if next.contains(k) && k != id {
                        let j = choose|j: int| 0 <= j < next.len() && next[j] == k;
                        assert(prev[j] == k);
                    }
                    if k == id {
                        assert(next[i as int] == k);
                    }
                }
            }
            i += 1;
        }
        proof {
            assert(table_ids@.take(table_ids.len() as int) =~= table_ids@);
            assert(info@ =~= per_table(self@, table_ids@, part));
        }
        Ok(info)
    }

    /// For each named job its sink actors. Fails, naming the first absent
    /// id, if the store does not hold every named job.
    pub fn get_build_graph_info(&self, table_ids: &Vec<TableId>) -> (r: Result<
        BuildGraphInfo,
        MetaError,
    >)
        ensures
            match r {
                Ok(info) => first_absent_id(self@, table_ids@, 0) is None
                    && info.table_sink_actor_ids@ == per_table(
                    self@,
                    table_ids@,
                    sink_actors_of_job(),
                ),
                Err(e) => first_absent_id(self@, table_ids@, 0) == Some(e->JobNotFound_0) && e
                    is JobNotFound,
            },
    {
        let f = |job: &TableFragments| -> (r: Vec<ActorId>)
            ensures
                r.deep_view() == sink_actors_of_job()(job@),
            {
                let r = job.sink_actor_ids();
                assert(r.deep_view() =~= r@);
                r
            };
        match self.map_tables(table_ids, f, Ghost(sink_actors_of_job())) {
            Ok(m) => Ok(BuildGraphInfo { table_sink_actor_ids: m }),
            Err(e) => Err(e),
        }
    }

    /// For each named job its sink actors with their vnode bitmaps. Fails,
    /// naming the first absent id, if the store does not hold every named
    /// job.
    pub fn get_sink_vnode_bitmap_info(&self, table_ids: &Vec<TableId>) -> (r: Result<
        OrdMap<Vec<(ActorId, Option<Buffer>)>>,
        MetaError,
    >)
        ensures
            match r {
                Ok(info) => first_absent_id(self@, table_ids@, 0) is None && info@ == per_table(
                    self@,
                    table_ids@,
                    sink_bitmaps_of_job(),
                ),
                Err(e) => first_absent_id(self@, table_ids@, 0) == Some(e->JobNotFound_0) && e
                    is JobNotFound,
            },
    {
        let f = |job: &TableFragments| -> (r: Vec<(ActorId, Option<Buffer>)>)
            ensures
                r.deep_view() == sink_bitmaps_of_job()(job@),
            { job.sink_vnode_bitmap_info() };
        self.map_tables(table_ids, f, Ghost(sink_bitmaps_of_job()))
    }

    /// For each named job the placement of its sink fragment: the parallel
    /// unit of each sink actor and the fragment's vnode mapping. Fails,
    /// naming the first absent id, if the store does not hold every named
    /// job.
    pub fn get_sink_fragment_vnode_info(&self, table_ids: &Vec<TableId>) -> (r: Result<
        OrdMap<FragmentVNodeInfo>,
        MetaError,
    >)
        ensures
            match r {
                Ok(info) => first_absent_id(self@, table_ids@, 0) is None && info@ == per_table(
                    self@,
                    table_ids@,
                    sink_placement_of_job(),
                ),
                Err(e) => first_absent_id(self@, table_ids@, 0) == Some(e->JobNotFound_0) && e
                    is JobNotFound,
            },
    {
        let f = |job: &TableFragments| -> (r: FragmentVNodeInfo)
            ensures
                r.deep_view() == sink_placement_of_job()(job@),
            {
                FragmentVNodeInfo {
                    actor_parallel_unit_maps: job.sink_actor_parallel_units(),
                    vnode_mapping: job.sink_vnode_mapping(),
                }
            };
        self.map_tables(table_ids, f, Ghost(sink_placement_of_job()))
    }

    /// For each named job, for each worker, the running placed actors of the
    /// job on it. Fails, naming the first absent id, if the store does not
    /// hold every named job.
    pub fn get_tables_worker_actors(&self, table_ids: &Vec<TableId>) -> (r: Result<
        OrdMap<OrdMap<Vec<ActorId>>>,
        MetaError,
    >)
        ensures
            match r {
                Ok(info) => first_absent_id(self@, table_ids@, 0) is None && info@ == per_table(
                    self@,
                    table_ids@,
                    worker_actors_of_job(),
                ),
                Err(e) => first_absent_id(self@, table_ids@, 0) == Some(e->JobNotFound_0) && e
                    is JobNotFound,
            },
    {
        let f = |job: &TableFragments| -> (r: OrdMap<Vec<ActorId>>)
            ensures
                r.deep_view() == worker_actors_of_job()(job@),
            { job.worker_actor_ids(false) };
        self.map_tables(table_ids, f, Ghost(worker_actors_of_job()))
    }

    /// For each worker the candidates of kind `kind` on it that
    /// `check_state` lets through.
    fn collect_checked<F: Fn(ActorState, TableId, ActorId) -> bool>(
        &self,
        kind: Option<FragmentType>,
        check_state: &F,
    ) -> (r: OrdMap<Vec<ActorId>>)
        requires
            forall|s: ActorState, t: TableId, a: ActorId| check_state.requires((s, t, a)),
        ensures
            exists|keep: Seq<bool>|
                answered(
                    *check_state,
                    candidates(self@, kind, job_ids(self@).len()),
                    keep,
                ) && r@ == push_all(
                    Map::empty(),
                    #[trigger] picked(candidates(self@, kind, job_ids(self@).len()), keep).map_values(
                        actor_entry(),
                    ),
                ),
    {
        let store = &self.core.table_fragments;
        let n = store.len();
        let mut groups: OrdMap<Vec<ActorId>> = OrdMap::new();
        let ghost mut keep: Seq<bool> = Seq::empty();
        let mut i: usize = 0;
        proof {
            store.lemma_view();
            assert(picked(candidates(self@, kind, 0), keep).map_values(actor_entry())
                =~= Seq::empty());
        }
        while i < n
            invariant
                i <= n,
                n == store.keys().len(),
                store.wf(),
                store@ == self@,
                store.keys() == job_ids(self@),
                forall|s: ActorState, t: TableId, a: ActorId| check_state.requires((s, t, a)),
                answered(*check_state, candidates(self@, kind, i as nat), keep),
                groups@ == push_all(
                    Map::empty(),
                    picked(candidates(self@, kind, i as nat), keep).map_values(actor_entry()),
                ),
            decreases n - i,
        {
            let job = store.value_at(i);
            let table = job.table_id();
            let listing = job.placements(kind);
            let ghost base = candidates(self@, kind, i as nat);
            let ghost here = Seq::new(listing@.len(), |q: int| (table, listing@[q]));
            let mut k: usize = 0;
            proof {
                store.lemma_view();
                assert(job_at(self@, i as int) == job@);
                assert(candidates(self@, kind, (i + 1) as nat) == base + here);
                assert(base + here.take(0) =~= base);
            }
            while k < listing.len()
                invariant
                    k <= listing.len(),
                    here == Seq::new(listing@.len(), |q: int| (table, listing@[q])),
                    forall|s: ActorState, t: TableId, a: ActorId| check_state.requires((s, t, a)),
                    answered(*check_state, base + here.take(k as int), keep),
                    groups@ == push_all(
                        Map::empty(),
                        picked(base + here.take(k as int), keep).map_values(actor_entry()),
                    ),
                decreases listing.len() - k,
            {
                let p = listing[k];
                let pass = check_state(p.state, table, p.actor);
                proof {
                    let so_far = base + here.take(k as int);
                    let next = base + here.take(k as int + 1);
                    let old_keep = keep;
                    keep = keep.push(pass);
                    assert(next =~= so_far.push((table, p)));
                    assert(next.drop_last() =~= so_far);
                    assert(keep.drop_last() =~= old_keep);
                    assert forall|q: int| 0 <= q < next.len() implies call_ensures(
                        *check_state,
                        (next[q].1.state, next[q].0, next[q].1.actor),
                        #[trigger] keep[q],
                    ) by {
                        if q < so_far.len() {
                            assert(keep[q] == old_keep[q]);
                            assert(next[q] == so_far[q]);
                        }
                    }
                    if pass {
                        let got = picked(so_far, old_keep).map_values(actor_entry());
                        lemma_push_all_push(Map::empty(), got, p.worker, p.actor);
                        assert(picked(next, keep).map_values(actor_entry()) =~= got.push(
                            (p.worker, p.actor),
                        ));
                    }
                }
                if pass {
                    push_grouped(&mut groups, p.worker, p.actor);
                }
                k += 1;
            }
            proof {
                assert(here.take(listing.len() as int) =~= here);
            }
            i += 1;
        }
        groups
    }

    /// The actors that a barrier has to reach: of all placed actors, and of
    /// the placed actors of source fragments, those that `check_state` lets
    /// through when asked about their state, their job and their id; each
    /// listing grouped by worker.
    pub fn load_all_actors<F: Fn(ActorState, TableId, ActorId) -> bool>(&self, check_state: F) -> (r:
        ActorInfos)
        requires
            forall|s: ActorState, t: TableId, a: ActorId| check_state.requires((s, t, a)),
        ensures
            exists|keep: Seq<bool>|
                answered(
                    check_state,
                    candidates(self@, None, job_ids(self@).len()),
                    keep,
                ) && r.actor_maps@ == push_all(
                    Map::empty(),
                    #[trigger] picked(candidates(self@, None, job_ids(self@).len()), keep).map_values(
                        actor_entry(),
                    ),
                ),
            exists|keep: Seq<bool>|
                answered(
                    check_state,
                    candidates(self@, Some(FragmentType::Source), job_ids(self@).len()),
                    keep,
                ) && r.source_actor_maps@ == push_all(
                    Map::empty(),
                    #[trigger] picked(
                        candidates(self@, Some(FragmentType::Source), job_ids(self@).len()),
                        keep,
                    ).map_values(actor_entry()),
                ),
    {
        let actor_maps = self.collect_checked(None, &check_state);
        let source_actor_maps = self.collect_checked(Some(FragmentType::Source), &check_state);
        ActorInfos { actor_maps, source_actor_maps }
    }
}

} // verus!
