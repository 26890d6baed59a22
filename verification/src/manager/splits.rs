//! Taking a new split assignment into the stored jobs.

use crate::error::MetaError;
use crate::manager::store::{FragmentManager, PendingCommit};
use crate::manager::transaction::{Edits, StoreView, Transaction};
use crate::model::common::{ActorId, FragmentId, TableId};
use crate::model::mapping::{SplitAssignment, SplitsView};
use crate::model::table_fragments::TableFragmentsView;
use crate::notification::{Notification, NotificationView};
use crate::ord_map::DeepClone;
use vstd::prelude::*;

verus! {

/// Some fragment of the job is named by `assignment`.
pub open spec fn assigned(
    job: TableFragmentsView,
    assignment: Map<FragmentId, Map<ActorId, SplitsView>>,
) -> bool {
    exists|f: FragmentId| job.fragments.contains_key(f) && assignment.contains_key(f)
}

/// The job with the splits that `assignment` gives to the actors of its
/// fragments added to its actor splits; an actor's new splits replace its
/// old ones.
pub open spec fn splits_extended(
    job: TableFragmentsView,
    assignment: Map<FragmentId, Map<ActorId, SplitsView>>,
) -> TableFragmentsView {
    job.with_actor_splits(job.actor_splits.union_prefer_right(job.assigned_splits(assignment)))
}

/// The edits of taking in `assignment`: a put of every job that has a
/// fragment named by it, with its actor splits extended.
pub open spec fn split_edits(
    store: StoreView,
    assignment: Map<FragmentId, Map<ActorId, SplitsView>>,
) -> Edits {
    Map::new(
        |k: TableId| store.contains_key(k) && assigned(store[k], assignment),
        |k: TableId| Some(splits_extended(store[k], assignment)),
    )
}

impl FragmentManager {
    /// Takes a new split assignment into the stored jobs: stages every job
    /// that has a fragment named by the assignment, with the assigned splits
    /// added to its actor splits. No message goes to the frontends.
    pub fn update_actor_splits_by_split_assignment(
        &self,
        split_assignment: &SplitAssignment,
    ) -> (r: Result<PendingCommit, MetaError>)
        ensures
            r matches Ok(p) && p.edits() == split_edits(self@, split_assignment@) && p.notes()
                == Seq::<NotificationView>::empty(),
    {
        let store = &self.core.table_fragments;
        let n = store.len();
        let mut txn = Transaction::new();
        let mut i: usize = 0;
        proof {
            store.lemma_view();
        }
        while i < n
            invariant
                i <= n,
                n == store.keys().len(),
                store.wf(),
                store@ == self@,
                forall|k: TableId|
                    #![trigger txn@.contains_key(k)]
                    txn@.contains_key(k) <==> self@.contains_key(k) && assigned(
                        self@[k],
                        split_assignment@,
                    ) && exists|q: int| 0 <= q < i && store.keys()[q] == k,
                forall|k: TableId|
                    #![trigger txn@.contains_key(k)]
                    txn@.contains_key(k) ==> txn@[k] == Some(
                        splits_extended(self@[k], split_assignment@),
                    ),
            decreases n - i,
        {
            let key = store.key_at(i);
            let stored = store.value_at(i);
            let ghost before = txn@;
            proof {
                store.lemma_view();
            }
            if stored.is_assigned(split_assignment) {
                let mut job = stored.deep_clone();
                job.extend_actor_splits(split_assignment);
                txn.insert(key, job);
            }
            proof {
                assert forall|k: TableId|
                    #![trigger txn@.contains_key(k)]
                    txn@.contains_key(k) <==> self@.contains_key(k) && assigned(
                        self@[k],
                        split_assignment@,
                    ) && exists|q: int| 0 <= q < i + 1 && store.keys()[q] == k by {
                    assert(before.contains_key(k) <==> self@.contains_key(k) && assigned(
                        self@[k],
                        split_assignment@,
                    ) && exists|q: int| 0 <= q < i && store.keys()[q] == k);
                    if k == key {
                        assert(store.keys()[i as int] == k);
                        if exists|q: int| 0 <= q < i && store.keys()[q] == k {
                            let q = choose|q: int| 0 <= q < i && store.keys()[q] == k;
                            assert(store.keys()[q] < store.keys()[i as int]);
                        }
                    } else {
                        if exists|q: int| 0 <= q < i + 1 && store.keys()[q] == k {
                            let q = choose|q: int| 0 <= q < i + 1 && store.keys()[q] == k;
                            assert(0 <= q < i && store.keys()[q] == k);
                        }
                        if exists|q: int| 0 <= q < i && store.keys()[q] == k {
                            let q = choose|q: int| 0 <= q < i && store.keys()[q] == k;
                            assert(0 <= q < i + 1 && store.keys()[q] == k);
                        }
                    }
                }
            }
            i += 1;
        }
        proof {
            store.lemma_view();
            let want = split_edits(self@, split_assignment@);
            assert forall|k: TableId| #[trigger] txn@.contains_key(k) == want.contains_key(k) by {
                if self@.contains_key(k) {
                    let q = store.keys().index_of(k);
                    assert(0 <= q < n && store.keys()[q] == k);
                }
            }
            assert(txn@.dom() =~= want.dom());
            assert(txn@ =~= want);
        }
        let notifications: Vec<Notification> = Vec::new();
        assert(notifications.deep_view() =~= Seq::<NotificationView>::empty());
        Ok(PendingCommit { txn, notifications })
    }
}

} // verus!
