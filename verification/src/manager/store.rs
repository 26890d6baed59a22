//! The store of all jobs, and the second step of every operation that
//! changes it.

use crate::error::MetaError;
use crate::manager::transaction::{applied, Edits, StoreView, Transaction, WriteOp};
use crate::model::common::TableId;
use crate::model::table_fragments::{TableFragments, TableFragmentsView};
use crate::notification::{Notification, NotificationView};
use crate::ord_map::{DeepClone, OrdMap};
use vstd::prelude::*;

verus! {

/// The jobs of the cluster, by id.
#[derive(Debug)]
pub struct FragmentManagerCore {
    pub table_fragments: OrdMap<TableFragments>,
}

impl View for FragmentManagerCore {
    type V = StoreView;

    open spec fn view(&self) -> StoreView {
        self.table_fragments@
    }
}

/// Keeps the definition and the status of every fragment and of the actors
/// in it.
#[derive(Debug)]
pub struct FragmentManager {
    pub core: FragmentManagerCore,
}

impl View for FragmentManager {
    type V = StoreView;

    open spec fn view(&self) -> StoreView {
        self.core@
    }
}

/// The edits that an operation has staged and the messages to send once
/// they are committed.
#[derive(Debug)]
pub struct PendingCommit {
    pub txn: Transaction,
    pub notifications: Vec<Notification>,
}

impl PendingCommit {
    /// The staged edits.
    pub open spec fn edits(&self) -> Edits {
        self.txn@
    }

    /// The messages to send after the commit.
    pub open spec fn notes(&self) -> Seq<NotificationView> {
        self.notifications.deep_view()
    }

    /// The batch of writes for the meta store.
    pub fn write_batch(&self) -> (r: Vec<WriteOp>)
        ensures
            r.deep_view() == crate::manager::transaction::batch_of(self.edits()),
    {
        self.txn.write_batch()
    }
}

/// The working copy of a job if there is one, the stored job if not.
pub open spec fn current(working: Option<TableFragments>, stored: TableFragmentsView) -> TableFragmentsView {
    match working {
        Some(job) => job@,
        None => stored,
    }
}

/// The store that holds the first `n` jobs of `jobs`, each under its own id;
/// of two jobs with one id the later is kept.
pub open spec fn indexed(jobs: Seq<TableFragmentsView>, n: nat) -> StoreView
    decreases n,
{
    if n == 0 || n > jobs.len() {
        Map::empty()
    } else {
        indexed(jobs, (n - 1) as nat).insert(jobs[n - 1].table_id, jobs[n - 1])
    }
}

/// Every job of the store stands under its own id.
pub open spec fn keyed_by_id(store: StoreView) -> bool {
    forall|k: TableId| #[trigger] store.contains_key(k) ==> store[k].table_id == k
}

impl FragmentManager {
    /// A manager over the jobs listed from the meta store, each under its
    /// own id.
    pub fn new(table_fragments: Vec<TableFragments>) -> (r: Self)
        ensures
            r@ == indexed(table_fragments.deep_view(), table_fragments.len() as nat),
            keyed_by_id(r@),
    {
        let mut jobs: OrdMap<TableFragments> = OrdMap::new();
        let mut i: usize = 0;
        while i < table_fragments.len()
            invariant
                i <= table_fragments.len(),
                jobs@ == indexed(table_fragments.deep_view(), i as nat),
                keyed_by_id(jobs@),
            decreases table_fragments.len() - i,
        {
            let tf = table_fragments[i].deep_clone();
            jobs.insert(tf.table_id, tf);
            i += 1;
        }
        FragmentManager { core: FragmentManagerCore { table_fragments: jobs } }
    }

    /// The store, for reading.
    pub fn get_fragment_read_guard(&self) -> (r: &FragmentManagerCore)
        ensures
            r@ == self@,
    {
        &self.core
    }

    /// The second step of an operation: applies the staged edits if the meta
    /// store took the batch, and hands back the messages to send; drops the
    /// edits and changes nothing if the meta store refused.
    pub fn commit(&mut self, pending: PendingCommit, stored: bool) -> (r: Result<
        Vec<Notification>,
        MetaError,
    >)
        ensures
            stored ==> final(self)@ == applied(old(self)@, pending.edits()) && r == Ok::<
                Vec<Notification>,
                MetaError,
            >(pending.notifications),
            !stored ==> final(self)@ == old(self)@ && r == Err::<Vec<Notification>, MetaError>(
                MetaError::MetaStoreFailure,
            ),
    {
        if !stored {
            return Err(MetaError::MetaStoreFailure);
        }
        let PendingCommit { txn, notifications } = pending;
        txn.apply(&mut self.core.table_fragments);
        Ok(notifications)
    }
}

} // verus!
