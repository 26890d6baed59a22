//! Creating a job, activating it, marking it created, cancelling its
//! creation, and replacing stored jobs in bulk. Each operation here is a
//! first step: it stages edits and changes nothing.

use crate::error::MetaError;
use crate::manager::store::{FragmentManager, PendingCommit};
use crate::manager::transaction::{applied, Edits, StoreView, Transaction};
use crate::model::common::{ActorId, ActorState, FragmentId, State, TableId};
use crate::model::dispatch::{DispatcherPatch, DispatcherPatchView};
use crate::model::mapping::{all_splits, SplitAssignment, SplitsView};
use crate::model::table_fragments::{TableFragments, TableFragmentsView};
use crate::notification::{announce, push_notifications, Notification, NotificationView, Operation};
use crate::ord_map::DeepClone;
use vstd::prelude::*;

verus! {

/// Model of the dependents of a new job: the jobs it reads from, each with
/// the dispatchers to splice into its actors.
pub type DependentsView = Seq<(TableId, DispatcherPatchView)>;

/// A job after its creation was collected: every actor runs and the actor
/// splits are what `assignment` assigns.
pub open spec fn activated(
    job: TableFragmentsView,
    assignment: Map<FragmentId, Map<ActorId, SplitsView>>,
) -> TableFragmentsView {
    job.with_actors_state(ActorState::Running).with_actor_splits(all_splits(assignment))
}

/// The edits of starting the creation of `job`: a put of the job under its
/// own id.
pub open spec fn start_create_edits(job: TableFragmentsView) -> Edits {
    Edits::empty().insert(job.table_id, Some(job))
}

/// The edits of cancelling the creation of job `id`: the removal of `id`.
pub open spec fn cancel_create_edits(id: TableId) -> Edits {
    Edits::empty().insert(id, None)
}

/// The edits of marking job `id` created: a put of the job in state
/// `Created`.
pub open spec fn mark_created_edits(store: StoreView, id: TableId) -> Edits {
    Edits::empty().insert(id, Some(TableFragmentsView { state: State::Created, ..store[id] }))
}

/// The id of the first dependent at or after position `from` that the store
/// does not hold.
pub open spec fn first_absent_dependent(store: StoreView, deps: DependentsView, from: nat) -> Option<
    TableId,
>
    decreases deps.len() - from,
{
    if from >= deps.len() {
        None
    } else if !store.contains_key(deps[from as int].0) {
        Some(deps[from as int].0)
    } else {
        first_absent_dependent(store, deps, from + 1)
    }
}

/// The edits of activating job `id`, after the first `n` dependents got
/// their dispatchers: the activated job, and each of those dependents, as
/// the edits before it left it, with its patch added.
pub open spec fn post_create_edits(
    store: StoreView,
    id: TableId,
    deps: DependentsView,
    assignment: Map<FragmentId, Map<ActorId, SplitsView>>,
    n: nat,
) -> Edits
    decreases n,
{
    if n == 0 || n > deps.len() {
        Map::empty().insert(id, Some(activated(store[id], assignment)))
    } else {
        let prev = post_create_edits(store, id, deps, assignment, (n - 1) as nat);
        let (d, patch) = deps[n - 1];
        prev.insert(d, Some(applied(store, prev)[d].with_dispatchers_added(patch)))
    }
}

/// The id of the first job at or after position `from` of `jobs` that the
/// store does not hold.
pub open spec fn first_absent_job(store: StoreView, jobs: Seq<TableFragmentsView>, from: nat) -> Option<
    TableId,
>
    decreases jobs.len() - from,
{
    if from >= jobs.len() {
        None
    } else if !store.contains_key(jobs[from as int].table_id) {
        Some(jobs[from as int].table_id)
    } else {
        first_absent_job(store, jobs, from + 1)
    }
}

/// The edits that put the first `n` of `jobs`, each under its own id.
pub open spec fn puts_of(jobs: Seq<TableFragmentsView>, n: nat) -> Edits
    decreases n,
{
    if n == 0 || n > jobs.len() {
        Map::empty()
    } else {
        puts_of(jobs, (n - 1) as nat).insert(jobs[n - 1].table_id, Some(jobs[n - 1]))
    }
}

/// The messages that say `operation` of the mappings of the stateful
/// fragments of the first `n` of `jobs`, job by job.
pub open spec fn mapping_notes(jobs: Seq<TableFragmentsView>, operation: Operation, n: nat) -> Seq<
    NotificationView,
>
    decreases n,
{
    if n == 0 || n > jobs.len() {
        Seq::empty()
    } else {
        mapping_notes(jobs, operation, (n - 1) as nat) + jobs[n - 1].stateful_mappings().map_values(
            announce(operation),
        )
    }
}

impl FragmentManager {
    /// Starts the creation of a job: stages the new job, as it is given.
    /// Fails if the store holds a job with that id.
    pub fn start_create_table_fragments(&self, table_fragment: TableFragments) -> (r: Result<
        PendingCommit,
        MetaError,
    >)
        ensures
            match r {
                Ok(p) => !self@.contains_key(table_fragment@.table_id) && p.edits()
                    == start_create_edits(table_fragment@) && p.notes() == Seq::<
                    NotificationView,
                >::empty(),
                Err(e) => self@.contains_key(table_fragment@.table_id) && e
                    == MetaError::JobExists(table_fragment@.table_id),
            },
    {
        let table_id = table_fragment.table_id();
        if self.core.table_fragments.contains_key(table_id) {
            return Err(MetaError::JobExists(table_id));
        }
        let mut txn = Transaction::new();
        txn.insert(table_id, table_fragment);
        let notifications: Vec<Notification> = Vec::new();
        assert(notifications.deep_view() =~= Seq::<NotificationView>::empty());
        Ok(PendingCommit { txn, notifications })
    }

    /// Cancels the creation of a job: stages the removal of its id, whether
    /// or not the store holds it.
    pub fn cancel_create_table_fragments(&self, table_id: TableId) -> (r: Result<
        PendingCommit,
        MetaError,
    >)
        ensures
            r matches Ok(p) && p.edits() == cancel_create_edits(table_id) && p.notes() == Seq::<
                NotificationView,
            >::empty(),
    {
        let mut txn = Transaction::new();
        txn.remove(table_id);
        let notifications: Vec<Notification> = Vec::new();
        assert(notifications.deep_view() =~= Seq::<NotificationView>::empty());
        Ok(PendingCommit { txn, notifications })
    }

    /// Activates a job whose creation was collected: sets all its actors
    /// running, replaces its actor splits by what `split_assignment` assigns,
    /// and appends to the actors of each dependent job the dispatchers given
    /// for them. The job stays in state `Creating`. The frontends are told of
    /// the mapping of each of its stateful fragments.
    ///
    /// Fails if the job is not in the store, if it is not in state
    /// `Creating`, or if a dependent job is not in the store; the first
    /// absent dependent is reported.
    pub fn post_create_table_fragments(
        &self,
        table_id: TableId,
        dependent_table_actors: &Vec<(TableId, DispatcherPatch)>,
        split_assignment: &SplitAssignment,
    ) -> (r: Result<PendingCommit, MetaError>)
        ensures
            match r {
                Ok(p) => {
                    &&& self@.contains_key(table_id)
                    &&& self@[table_id].state == State::Creating
                    &&& first_absent_dependent(self@, dependent_table_actors.deep_view(), 0) is None
                    &&& p.edits() == post_create_edits(
                        self@,
                        table_id,
                        dependent_table_actors.deep_view(),
                        split_assignment@,
                        dependent_table_actors.len() as nat,
                    )
                    &&& p.notes() == activated(
                        self@[table_id],
                        split_assignment@,
                    ).stateful_mappings().map_values(announce(Operation::Add))
                },
                Err(e) => if !self@.contains_key(table_id) {
                    e == MetaError::JobNotFound(table_id)
                } else if self@[table_id].state != State::Creating {
                    e == (MetaError::IllegalState {
                        expected: State::Creating,
                        actual: self@[table_id].state,
                    })
                } else {
                    first_absent_dependent(self@, dependent_table_actors.deep_view(), 0) == Some(
                        e->JobNotFound_0,
                    ) && e is JobNotFound
                },
            },
    {
        let store = &self.core.table_fragments;
        let mut txn = Transaction::new();
        let mut job = match store.get(table_id) {
            Some(job) => job.deep_clone(),
            None => {
                return Err(MetaError::JobNotFound(table_id));
            },
        };
        match job.state {
            State::Creating => {},
            State::Created => {
                return Err(
                    MetaError::IllegalState { expected: State::Creating, actual: State::Created },
                );
            },
        }
        job.update_actors_state(ActorState::Running);
        job.set_actor_splits_by_split_assignment(split_assignment);
        let mappings = job.stateful_mappings();
        txn.insert(table_id, job);
        let ghost deps = dependent_table_actors.deep_view();
        let mut i: usize = 0;
        while i < dependent_table_actors.len()
            invariant
                i <= dependent_table_actors.len(),
                deps == dependent_table_actors.deep_view(),
                store@ == self@,
                self@.contains_key(table_id),
                self@[table_id].state == State::Creating,
                first_absent_dependent(self@, deps, 0) == first_absent_dependent(
                    self@,
                    deps,
                    i as nat,
                ),
                txn@ == post_create_edits(self@, table_id, deps, split_assignment@, i as nat),
                forall|k: TableId| #[trigger]
                    txn@.contains_key(k) ==> txn@[k] is Some && self@.contains_key(k),
            decreases dependent_table_actors.len() - i,
        {
            let dependent_table_id = dependent_table_actors[i].0;
            proof {
                assert(deps[i as int] == dependent_table_actors@[i as int].deep_view());
            }
            let mut dependent = match txn.get(store, dependent_table_id) {
                Some(t) => t.deep_clone(),
                None => {
                    proof {
                        assert(deps[i as int].0 == dependent_table_id);
                        assert(!applied(self@, txn@).contains_key(dependent_table_id));
                        assert(!self@.contains_key(dependent_table_id));
                        assert(first_absent_dependent(self@, deps, i as nat) == Some(
                            dependent_table_id,
                        ));
                    }
                    return Err(MetaError::JobNotFound(dependent_table_id));
                },
            };
            dependent.add_dispatchers(&dependent_table_actors[i].1);
            txn.insert(dependent_table_id, dependent);
            i += 1;
        }
        let mut notifications: Vec<Notification> = Vec::new();
        assert(notifications.deep_view() =~= Seq::<NotificationView>::empty());
        push_notifications(&mut notifications, Operation::Add, mappings);
        Ok(PendingCommit { txn, notifications })
    }

    /// Marks a job as created. Fails if the job is not in the store or not
    /// in state `Creating`.
    pub fn mark_table_fragments_created(&self, table_id: TableId) -> (r: Result<
        PendingCommit,
        MetaError,
    >)
        ensures
            match r {
                Ok(p) => {
                    &&& self@.contains_key(table_id)
                    &&& self@[table_id].state == State::Creating
                    &&& p.edits() == mark_created_edits(self@, table_id)
                    &&& p.notes() == Seq::<NotificationView>::empty()
                },
                Err(e) => if !self@.contains_key(table_id) {
                    e == MetaError::JobNotFound(table_id)
                } else {
                    self@[table_id].state != State::Creating && e == (MetaError::IllegalState {
                        expected: State::Creating,
                        actual: self@[table_id].state,
                    })
                },
            },
    {
        let mut job = match self.core.table_fragments.get(table_id) {
            Some(job) => job.deep_clone(),
            None => {
                return Err(MetaError::JobNotFound(table_id));
            },
        };
        match job.state {
            State::Creating => {},
            State::Created => {
                return Err(
                    MetaError::IllegalState { expected: State::Creating, actual: State::Created },
                );
            },
        }
        job.set_state(State::Created);
        let mut txn = Transaction::new();
        txn.insert(table_id, job);
        let notifications: Vec<Notification> = Vec::new();
        assert(notifications.deep_view() =~= Seq::<NotificationView>::empty());
        Ok(PendingCommit { txn, notifications })
    }

    /// Replaces stored jobs in bulk: stages each given job under its own id
    /// and tells the frontends of the mappings of their stateful fragments.
    /// Fails as a whole, naming the first absent id, if the store does not
    /// hold every given job.
    pub fn batch_update_table_fragments(&self, table_fragments: &Vec<TableFragments>) -> (r: Result<
        PendingCommit,
        MetaError,
    >)
        ensures
            match r {
                Ok(p) => {
                    &&& first_absent_job(self@, table_fragments.deep_view(), 0) is None
                    &&& p.edits() == puts_of(
                        table_fragments.deep_view(),
                        table_fragments.len() as nat,
                    )
                    &&& p.notes() == mapping_notes(
                        table_fragments.deep_view(),
                        Operation::Update,
                        table_fragments.len() as nat,
                    )
                },
                Err(e) => first_absent_job(self@, table_fragments.deep_view(), 0) == Some(
                    e->JobNotFound_0,
                ) && e is JobNotFound,
            },
    {
        let ghost jobs = table_fragments.deep_view();
        let mut i: usize = 0;
        while i < table_fragments.len()
            invariant
                i <= table_fragments.len(),
                jobs == table_fragments.deep_view(),
                first_absent_job(self@, jobs, 0) == first_absent_job(self@, jobs, i as nat),
            decreases table_fragments.len() - i,
        {
            let id = table_fragments[i].table_id();
            if !self.core.table_fragments.contains_key(id) {
                return Err(MetaError::JobNotFound(id));
            }
            i += 1;
        }
        let mut txn = Transaction::new();
        let mut notifications: Vec<Notification> = Vec::new();
        let mut j: usize = 0;
        assert(notifications.deep_view() =~= Seq::<NotificationView>::empty());
        while j < table_fragments.len()
            invariant
                j <= table_fragments.len(),
                jobs == table_fragments.deep_view(),
                txn@ == puts_of(jobs, j as nat),
                notifications.deep_view() == mapping_notes(jobs, Operation::Update, j as nat),
            decreases table_fragments.len() - j,
        {
            let tf = &table_fragments[j];
            txn.insert(tf.table_id(), tf.deep_clone());
            push_notifications(&mut notifications, Operation::Update, tf.stateful_mappings());
            j += 1;
        }
        Ok(PendingCommit { txn, notifications })
    }
}

} // verus!
