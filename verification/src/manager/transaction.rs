//! Staged edits of the job store. An operation stages puts and deletes
//! against the store without touching it; the staged edits yield one batch
//! of writes for the meta store and are applied to the store in one step
//! once that batch is written.

use crate::model::common::TableId;
use crate::model::table_fragments::{TableFragments, TableFragmentsView};
use crate::ord_map::{ascending, DeepClone, OrdMap};
use vstd::prelude::*;

verus! {

/// Model of the job store: the jobs by id.
pub type StoreView = Map<TableId, TableFragmentsView>;

/// Model of staged edits: for each edited id the job to put, or `None` to
/// delete the id.
pub type Edits = Map<TableId, Option<TableFragmentsView>>;

/// The store `base` after `edits` were applied to it.
pub open spec fn applied(base: StoreView, edits: Edits) -> StoreView {
    Map::new(
        |k: TableId|
            if edits.contains_key(k) {
                edits[k] is Some
            } else {
                base.contains_key(k)
            },
        |k: TableId|
            if edits.contains_key(k) {
                edits[k]->Some_0
            } else {
                base[k]
            },
    )
}

/// One staged edit.
#[derive(Clone, Debug, PartialEq, Eq)]
pub enum StagedOp {
    Put(TableFragments),
    Delete,
}

impl View for StagedOp {
    type V = Option<TableFragmentsView>;

    open spec fn view(&self) -> Option<TableFragmentsView> {
        match *self {
            StagedOp::Put(tf) => Some(tf@),
            StagedOp::Delete => None,
        }
    }
}

impl DeepView for StagedOp {
    type V = Option<TableFragmentsView>;

    open spec fn deep_view(&self) -> Option<TableFragmentsView> {
        self@
    }
}

/// One write of the batch handed to the meta store.
#[derive(Clone, Debug, PartialEq, Eq)]
pub enum WriteOp {
    Put(TableId, TableFragments),
    Delete(TableId),
}

/// Model of a [`WriteOp`].
pub enum WriteOpView {
    Put(TableId, TableFragmentsView),
    Delete(TableId),
}

impl View for WriteOp {
    type V = WriteOpView;

    open spec fn view(&self) -> WriteOpView {
        match *self {
            WriteOp::Put(k, tf) => WriteOpView::Put(k, tf@),
            WriteOp::Delete(k) => WriteOpView::Delete(k),
        }
    }
}

impl DeepView for WriteOp {
    type V = WriteOpView;

    open spec fn deep_view(&self) -> WriteOpView {
        self@
    }
}

/// The write that stands for the edit of id `k`.
pub open spec fn write_of(edits: Edits, k: TableId) -> WriteOpView {
    match edits[k] {
        Some(tf) => WriteOpView::Put(k, tf),
        None => WriteOpView::Delete(k),
    }
}

/// The batch of writes that stands for `edits`: one write per edited id, in
/// ascending order of id.
pub open spec fn batch_of(edits: Edits) -> Seq<WriteOpView> {
    Seq::new(ascending(edits.dom()).len(), |i: int| write_of(edits, ascending(edits.dom())[i]))
}

/// Edits staged against the job store.
#[derive(Debug)]
pub struct Transaction {
    staging: OrdMap<StagedOp>,
}

impl View for Transaction {
    type V = Edits;

    closed spec fn view(&self) -> Edits {
        self.staging@
    }
}

impl Transaction {
    /// A transaction with nothing staged.
    pub fn new() -> (r: Self)
        ensures
            r@ == Edits::empty(),
    {
        Transaction { staging: OrdMap::new() }
    }

    /// The job under `k` as the store would hold it after this transaction.
    pub fn get<'a>(&'a self, base: &'a OrdMap<TableFragments>, k: TableId) -> (r: Option<
        &'a TableFragments,
    >)
        ensures
            match r {
                Some(tf) => applied(base@, self@).contains_key(k) && tf@ == applied(
                    base@,
                    self@,
                )[k],
                None => !applied(base@, self@).contains_key(k),
            },
    {
        match self.staging.get(k) {
            Some(op) => match op {
                StagedOp::Put(tf) => Some(tf),
                StagedOp::Delete => None,
            },
            None => base.get(k),
        }
    }

    /// Stages the job `tf` under the id `k`.
    pub fn insert(&mut self, k: TableId, tf: TableFragments)
        ensures
            final(self)@ == old(self)@.insert(k, Some(tf@)),
    {
        self.staging.insert(k, StagedOp::Put(tf));
    }

    /// Stages the removal of id `k`.
    pub fn remove(&mut self, k: TableId)
        ensures
            final(self)@ == old(self)@.insert(k, None),
    {
        self.staging.insert(k, StagedOp::Delete);
    }

    /// The batch of writes for the meta store: one write per edited id, in
    /// ascending order of id.
    pub fn write_batch(&self) -> (r: Vec<WriteOp>)
        ensures
            r.deep_view() == batch_of(self@),
    {
        let n = self.staging.len();
        let mut out: Vec<WriteOp> = Vec::new();
        let mut i: usize = 0;
        proof {
            self.staging.lemma_view();
        }
        while i < n
            invariant
                i <= n,
                n == self.staging.keys().len(),
                self.staging.wf(),
                out.len() == i,
                forall|j: int|
                    0 <= j < i ==> (#[trigger] out@[j])@ == write_of(
                        self.staging@,
                        self.staging.keys()[j],
                    ),
            decreases n - i,
        {
            let k = self.staging.key_at(i);
            let op = match self.staging.value_at(i) {
                StagedOp::Put(tf) => WriteOp::Put(k, tf.deep_clone()),
                StagedOp::Delete => WriteOp::Delete(k),
            };
            out.push(op);
            i += 1;
        }
        assert(out.deep_view() =~= batch_of(self@));
        out
    }

    /// Applies the staged edits to the store.
    pub fn apply(self, base: &mut OrdMap<TableFragments>)
        ensures
            final(base)@ == applied(old(base)@, self@),
    {
        let ghost edits = self@;
        let mut staging = self.staging;
        // Asking a map for its length brings along that it is well formed.
        let _ = staging.len();
        loop
            invariant
                forall|k: TableId| #[trigger] staging@.contains_key(k) ==> edits.contains_key(k) && staging@[k] == edits[k],
                forall|k: TableId|
                    edits.contains_key(k) && !staging@.contains_key(k) ==> (base@.contains_key(k)
                        <==> edits[k] is Some) && (base@.contains_key(k) ==> base@[k]
                        == edits[k]->Some_0),
                forall|k: TableId|
                    !edits.contains_key(k) || staging@.contains_key(k) ==> (base@.contains_key(k)
                        <==> old(base)@.contains_key(k)) && (base@.contains_key(k) ==> base@[k]
                        == old(base)@[k]),
                staging.wf(),
            ensures
                staging@ == Map::<TableId, Option<TableFragmentsView>>::empty(),
            decreases staging.keys().len(),
        {
            match staging.pop_last() {
                Some((k, op)) => {
                    match op {
                        StagedOp::Put(tf) => {
                            base.insert(k, tf);
                        },
                        StagedOp::Delete => {
                            base.remove(k);
                        },
                    }
                },
                None => {
                    break ;
                },
            }
        }
        assert(base@ =~= applied(old(base)@, edits));
    }
}

} // verus!
