//! Reading the store: listings over all jobs and look-ups for given jobs.

use crate::error::MetaError;
use crate::manager::reschedule::{claims, job_at, job_ids, lemma_unclaimed_step, unclaimed};
use crate::manager::store::{FragmentManager, FragmentManagerCore};
use crate::manager::transaction::StoreView;
use crate::model::common::{
    ActorId, ActorState, ActorStatus, FragmentId, FragmentType, ParallelUnitMapping,
    ParallelUnitMappingView, TableId, WorkerId,
};
use crate::model::grouping::{grouped, lemma_push_all_concat};
use crate::model::stream::{append_ids, StreamActor, StreamActorView};
use crate::model::table_fragments::{TableFragments, TableFragmentsView};
use crate::ord_map::{DeepClone, OrdMap};
use vstd::prelude::*;

verus! {

/// What `part` yields for the first `n` stored jobs, in ascending order of
/// job id, one after the other.
pub open spec fn gather_jobs<T>(
    store: StoreView,
    part: spec_fn(TableFragmentsView) -> Seq<T>,
    n: nat,
) -> Seq<T>
    decreases n,
{
    if n == 0 || n > job_ids(store).len() {
        Seq::empty()
    } else {
        gather_jobs(store, part, (n - 1) as nat) + part(job_at(store, n - 1))
    }
}

/// The vnode mappings of a job's fragments.
pub open spec fn mappings_of_job() -> spec_fn(TableFragmentsView) -> Seq<ParallelUnitMappingView> {
    |job: TableFragmentsView| job.fragment_mappings()
}

/// The state-table ids of a job's fragments.
pub open spec fn state_tables_of_job() -> spec_fn(TableFragmentsView) -> Seq<u32> {
    |job: TableFragmentsView| job.state_table_ids()
}

/// The chain actors of a job.
pub open spec fn chain_actors_of_job() -> spec_fn(TableFragmentsView) -> Seq<ActorId> {
    |job: TableFragmentsView| job.actor_ids_of_kind(FragmentType::Chain)
}

/// The placed actors of a job, each under its worker.
pub open spec fn placed_actors_of_job(include_inactive: bool) -> spec_fn(
    TableFragmentsView,
) -> Seq<(WorkerId, StreamActorView)> {
    |job: TableFragmentsView| job.placed_actors(include_inactive)
}

/// The first of `ids`, at or after position `from`, that the store does not
/// hold.
pub open spec fn first_absent_id(store: StoreView, ids: Seq<TableId>, from: nat) -> Option<TableId>
    decreases ids.len() - from,
{
    if from >= ids.len() {
        None
    } else if !store.contains_key(ids[from as int]) {
        Some(ids[from as int])
    } else {
        first_absent_id(store, ids, from + 1)
    }
}

/// What `part` yields for the jobs named by the first `n` of `ids`, in the
/// order of `ids`.
pub open spec fn gather_tables<T>(
    store: StoreView,
    ids: Seq<TableId>,
    part: spec_fn(TableFragmentsView) -> Seq<T>,
    n: nat,
) -> Seq<T>
    decreases n,
{
    if n == 0 || n > ids.len() {
        Seq::empty()
    } else {
        gather_tables(store, ids, part, (n - 1) as nat) + part(store[ids[n - 1]])
    }
}

/// All actor ids of a job.
pub open spec fn actor_ids_of_job() -> spec_fn(TableFragmentsView) -> Seq<ActorId> {
    |job: TableFragmentsView| job.actor_ids()
}

/// The ids of the running placed actors of a job, each under its worker.
pub open spec fn running_ids_of_job() -> spec_fn(TableFragmentsView) -> Seq<(WorkerId, ActorId)> {
    |job: TableFragmentsView| job.placed_ids(false)
}

/// The stored jobs, in ascending order of id.
pub open spec fn listed(store: StoreView) -> Seq<TableFragmentsView> {
    Seq::new(job_ids(store).len(), |i: int| job_at(store, i))
}

/// The predicate "actor `a` has a status in `status` and runs".
pub open spec fn runs_in(status: Map<ActorId, ActorStatus>) -> spec_fn(ActorId) -> bool {
    |a: ActorId| status.contains_key(a) && status[a].state == ActorState::Running
}

impl FragmentManagerCore {
    /// The vnode mappings of all fragments that have one, each under its
    /// fragment's id: jobs in ascending order of id, the fragments of a job
    /// in ascending order of id.
    pub fn all_fragment_mappings(&self) -> (r: Vec<ParallelUnitMapping>)
        ensures
            r.deep_view() == gather_jobs(self@, mappings_of_job(), job_ids(self@).len()),
    {
        let n = self.table_fragments.len();
        let mut out: Vec<ParallelUnitMapping> = Vec::new();
        let mut i: usize = 0;
        proof {
            self.table_fragments.lemma_view();
            assert(out.deep_view() =~= gather_jobs(self@, mappings_of_job(), 0));
        }
        while i < n
            invariant
                i <= n,
                n == self.table_fragments.keys().len(),
                self.table_fragments.wf(),
                self.table_fragments.keys() == job_ids(self@),
                out.deep_view() == gather_jobs(self@, mappings_of_job(), i as nat),
            decreases n - i,
        {
            let job = self.table_fragments.value_at(i);
            let mut more = job.fragment_mappings();
            let ghost before = out.deep_view();
            let ghost added = more.deep_view();
            proof {
                self.table_fragments.lemma_view();
                assert(job_at(self@, i as int) == job@);
            }
            out.append(&mut more);
            proof {
                assert(out.deep_view() =~= before + added);
            }
            i += 1;
        }
        out
    }

    /// The state-table ids of all fragments: jobs in ascending order of id,
    /// the fragments of a job in ascending order of id.
    pub fn all_internal_tables(&self) -> (r: Vec<u32>)
        ensures
            r@ == gather_jobs(self@, state_tables_of_job(), job_ids(self@).len()),
    {
        let n = self.table_fragments.len();
        let mut out: Vec<u32> = Vec::new();
        let mut i: usize = 0;
        proof {
            self.table_fragments.lemma_view();
        }
        while i < n
            invariant
                i <= n,
                n == self.table_fragments.keys().len(),
                self.table_fragments.wf(),
                self.table_fragments.keys() == job_ids(self@),
                out@ == gather_jobs(self@, state_tables_of_job(), i as nat),
            decreases n - i,
        {
            let job = self.table_fragments.value_at(i);
            let more = job.state_table_ids();
            proof {
                self.table_fragments.lemma_view();
                assert(job_at(self@, i as int) == job@);
            }
            append_ids(&mut out, &more);
            i += 1;
        }
        out
    }
}

impl FragmentManager {
    /// The stored jobs, in ascending order of id.
    pub fn list_table_fragments(&self) -> (r: Vec<TableFragments>)
        ensures
            r.deep_view() == listed(self@),
    {
        let store = &self.core.table_fragments;
        let n = store.len();
        let mut out: Vec<TableFragments> = Vec::new();
        let mut i: usize = 0;
        proof {
            store.lemma_view();
        }
        while i < n
            invariant
                i <= n,
                n == store.keys().len(),
                store.wf(),
                store@ == self@,
                store.keys() == job_ids(self@),
                out.len() == i,
                forall|j: int| 0 <= j < i ==> (#[trigger] out@[j])@ == job_at(self@, j),
            decreases n - i,
        {
            let job = store.value_at(i).deep_clone();
            proof {
                store.lemma_view();
            }
            out.push(job);
            i += 1;
        }
        assert(out.deep_view() =~= listed(self@));
        out
    }

    /// The job with id `table_id`. Fails if the store does not hold it.
    pub fn select_table_fragments_by_table_id(&self, table_id: TableId) -> (r: Result<
        TableFragments,
        MetaError,
    >)
        ensures
            match r {
                Ok(job) => self@.contains_key(table_id) && job@ == self@[table_id],
                Err(e) => !self@.contains_key(table_id) && e == MetaError::JobNotFound(table_id),
            },
    {
        match self.core.table_fragments.get(table_id) {
            Some(job) => Ok(job.deep_clone()),
            None => Err(MetaError::JobNotFound(table_id)),
        }
    }

    /// For each worker the placed actors on it, over all jobs: the running
    /// ones, or all if `include_inactive`. Jobs in ascending order of id.
    pub fn all_node_actors(&self, include_inactive: bool) -> (r: OrdMap<Vec<StreamActor>>)
        ensures
            r@ == grouped(
                gather_jobs(self@, placed_actors_of_job(include_inactive), job_ids(self@).len()),
            ),
    {
        let store = &self.core.table_fragments;
        let n = store.len();
        let mut groups: OrdMap<Vec<StreamActor>> = OrdMap::new();
        let mut i: usize = 0;
        proof {
            store.lemma_view();
        }
        while i < n
            invariant
                i <= n,
                n == store.keys().len(),
                store.wf(),
                store@ == self@,
                store.keys() == job_ids(self@),
                groups@ == grouped(
                    gather_jobs(self@, placed_actors_of_job(include_inactive), i as nat),
                ),
            decreases n - i,
        {
            let job = store.value_at(i);
            proof {
                store.lemma_view();
                assert(job_at(self@, i as int) == job@);
                lemma_push_all_concat(
                    Map::empty(),
                    gather_jobs(self@, placed_actors_of_job(include_inactive), i as nat),
                    job@.placed_actors(include_inactive),
                );
            }
            job.group_actors_into(include_inactive, &mut groups);
            i += 1;
        }
        groups
    }

    /// The chain actors of all jobs, jobs in ascending order of id.
    pub fn all_chain_actor_ids(&self) -> (r: Vec<ActorId>)
        ensures
            r@ == gather_jobs(self@, chain_actors_of_job(), job_ids(self@).len()),
    {
        let store = &self.core.table_fragments;
        let n = store.len();
        let mut out: Vec<ActorId> = Vec::new();
        let mut i: usize = 0;
        proof {
            store.lemma_view();
        }
        while i < n
            invariant
                i <= n,
                n == store.keys().len(),
                store.wf(),
                store@ == self@,
                store.keys() == job_ids(self@),
                out@ == gather_jobs(self@, chain_actors_of_job(), i as nat),
            decreases n - i,
        {
            let job = store.value_at(i);
            let more = job.chain_actor_ids();
            proof {
                store.lemma_view();
                assert(job_at(self@, i as int) == job@);
            }
            append_ids(&mut out, &more);
            i += 1;
        }
        out
    }

    /// The ids of the running actors of the fragment `fragment_id`, in list
    /// order. The fragment is looked for in the jobs in ascending order of
    /// id; an actor without status counts as not running. Fails if no job
    /// has such a fragment.
    pub fn get_running_actors_of_fragment(&self, fragment_id: FragmentId) -> (r: Result<
        Vec<ActorId>,
        MetaError,
    >)
        ensures
            match r {
                Ok(ids) => exists|pos: int|
                    0 <= pos < job_ids(self@).len() && claims(self@, pos, fragment_id) && ids@
                        == (#[trigger] job_at(self@, pos)).fragments[fragment_id].actor_ids().filter(
                        runs_in(job_at(self@, pos).actor_status),
                    ),
                Err(e) => e == MetaError::FragmentNotFound(fragment_id) && unclaimed(
                    self@,
                    fragment_id,
                    job_ids(self@).len() as int,
                ),
            },
    {
        let store = &self.core.table_fragments;
        let n = store.len();
        let mut i: usize = 0;
        proof {
            store.lemma_view();
        }
        while i < n
            invariant
                i <= n,
                n == store.keys().len(),
                store.wf(),
                store@ == self@,
                store.keys() == job_ids(self@),
                unclaimed(self@, fragment_id, i as int),
            decreases n - i,
        {
            let job = store.value_at(i);
            proof {
                store.lemma_view();
                assert(job_at(self@, i as int) == job@);
            }
            match job.fragments.get(fragment_id) {
                Some(f) => {
                    let ids = f.actor_ids();
                    let mut out: Vec<ActorId> = Vec::new();
                    let mut k: usize = 0;
                    let ghost keep = runs_in(job@.actor_status);
                    proof {
                        reveal(Seq::filter);
                        assert(ids@.take(0).filter(keep) =~= Seq::<ActorId>::empty());
                    }
                    while k < ids.len()
                        invariant
                            k <= ids.len(),
                            keep == runs_in(job@.actor_status),
                            out@ == ids@.take(k as int).filter(keep),
                        decreases ids.len() - k,
                    {
                        let a = ids[k];
                        proof {
                            assert(ids@.take(k as int + 1) =~= ids@.take(k as int).push(a));
                            ids@.take(k as int).lemma_filter_push(a, keep);
                        }
                        let running = match job.actor_status.get(a) {
                            Some(s) => match s.state {
                                ActorState::Running => true,
                                ActorState::Inactive => false,
                            },
                            None => false,
                        };
                        if running {
                            out.push(a);
                        }
                        k += 1;
                    }
                    proof {
                        assert(ids@.take(ids.len() as int) =~= ids@);
                        assert(claims(self@, i as int, fragment_id));
                    }
                    return Ok(out);
                },
                None => {
                    proof {
                        lemma_unclaimed_step(self@, fragment_id, i as int, false);
                    }
                },
            }
            i += 1;
        }
        Err(MetaError::FragmentNotFound(fragment_id))
    }

    /// For each worker the ids of the running placed actors on it, over the
    /// jobs named by `table_ids`, in the order of `table_ids`. Fails,
    /// naming the first absent id, if the store does not hold every named
    /// job.
    pub fn table_node_actors(&self, table_ids: &Vec<TableId>) -> (r: Result<
        OrdMap<Vec<ActorId>>,
        MetaError,
    >)
        ensures
            match r {
                Ok(groups) => first_absent_id(self@, table_ids@, 0) is None && groups@ == grouped(
                    gather_tables(self@, table_ids@, running_ids_of_job(), table_ids.len() as nat),
                ),
                Err(e) => first_absent_id(self@, table_ids@, 0) == Some(e->JobNotFound_0) && e
                    is JobNotFound,
            },
    {
        let store = &self.core.table_fragments;
        let mut groups: OrdMap<Vec<ActorId>> = OrdMap::new();
        let mut i: usize = 0;
        while i < table_ids.len()
            invariant
                i <= table_ids.len(),
                store@ == self@,
                first_absent_id(self@, table_ids@, 0) == first_absent_id(
                    self@,
                    table_ids@,
                    i as nat,
                ),
                groups@ == grouped(
                    gather_tables(self@, table_ids@, running_ids_of_job(), i as nat),
                ),
            decreases table_ids.len() - i,
        {
            let id = table_ids[i];
            match store.get(id) {
                Some(job) => {
                    proof {
                        lemma_push_all_concat(
                            Map::empty(),
                            gather_tables(self@, table_ids@, running_ids_of_job(), i as nat),
                            job@.placed_ids(false),
                        );
                    }
                    job.group_ids_into(false, &mut groups);
                },
                None => {
                    return Err(MetaError::JobNotFound(id));
                },
            }
            i += 1;
        }
        Ok(groups)
    }

    /// All actor ids of the jobs named by `table_ids`, in the order of
    /// `table_ids`. Fails, naming the first absent id, if the store does not
    /// hold every named job.
    pub fn get_table_actor_ids(&self, table_ids: &Vec<TableId>) -> (r: Result<
        Vec<ActorId>,
        MetaError,
    >)
        ensures
            match r {
                Ok(ids) => first_absent_id(self@, table_ids@, 0) is None && ids@ == gather_tables(
                    self@,
                    table_ids@,
                    actor_ids_of_job(),
                    table_ids.len() as nat,
                ),
                Err(e) => first_absent_id(self@, table_ids@, 0) == Some(e->JobNotFound_0) && e
                    is JobNotFound,
            },
    {
        let store = &self.core.table_fragments;
        let mut out: Vec<ActorId> = Vec::new();
        let mut i: usize = 0;
        while i < table_ids.len()
            invariant
                i <= table_ids.len(),
                store@ == self@,
                first_absent_id(self@, table_ids@, 0) == first_absent_id(
                    self@,
                    table_ids@,
                    i as nat,
                ),
                out@ == gather_tables(self@, table_ids@, actor_ids_of_job(), i as nat),
            decreases table_ids.len() - i,
        {
            let id = table_ids[i];
            match store.get(id) {
                Some(job) => {
                    let more = job.actor_ids();
                    append_ids(&mut out, &more);
                },
                None => {
                    return Err(MetaError::JobNotFound(id));
                },
            }
            i += 1;
        }
        Ok(out)
    }

    /// The sink actors of the job `table_id`. Fails if the store does not
    /// hold the job.
    pub fn get_table_sink_actor_ids(&self, table_id: TableId) -> (r: Result<
        Vec<ActorId>,
        MetaError,
    >)
        ensures
            match r {
                Ok(ids) => self@.contains_key(table_id) && ids@ == self@[table_id].actor_ids_of_kind(
                    FragmentType::Sink,
                ),
                Err(e) => !self@.contains_key(table_id) && e == MetaError::JobNotFound(table_id),
            },
    {
        match self.core.table_fragments.get(table_id) {
            Some(job) => Ok(job.sink_actor_ids()),
            None => Err(MetaError::JobNotFound(table_id)),
        }
    }
}

} // verus!
