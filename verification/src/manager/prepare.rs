//! The window between building the actors for a reschedule and applying the
//! reschedule: the built actors are put into the stored jobs, in memory
//! only, and can be taken out again.

use crate::manager::reschedule::{claims, job_at, job_ids, lemma_unclaimed_step, unclaimed};
use crate::manager::store::FragmentManager;
use crate::manager::transaction::StoreView;
use crate::model::common::{FragmentId, TableId};
use crate::model::created::{CreatedActors, CreatedActorsView, Ledger, LedgerView};
use crate::model::table_fragments::TableFragmentsView;
use crate::ord_map::{ascending, OrdMap};
use vstd::prelude::*;

verus! {

/// Model of the actors built for a set of fragments.
pub type CreatedView = Map<FragmentId, CreatedActorsView>;

/// The job at position `pos` after it took, of the actors built for the
/// first `n` fragments of `created`, those of the fragments it claims.
pub open spec fn job_pre_applied_upto(
    store: StoreView,
    pos: int,
    created: CreatedView,
    n: nat,
) -> TableFragmentsView
    decreases n,
{
    let fids = ascending(created.dom());
    if n == 0 || n > fids.len() {
        job_at(store, pos)
    } else {
        let was = job_pre_applied_upto(store, pos, created, (n - 1) as nat);
        let fid = fids[n - 1];
        if claims(store, pos, fid) {
            was.with_created(fid, created[fid])
        } else {
            was
        }
    }
}

/// The store after the built actors were put in: the actors built for a
/// fragment go to the job with the smallest id that has a fragment with
/// that id.
pub open spec fn pre_applied(store: StoreView, created: CreatedView) -> StoreView {
    Map::new(
        |k: TableId| store.contains_key(k),
        |k: TableId|
            job_pre_applied_upto(
                store,
                job_ids(store).index_of(k),
                created,
                ascending(created.dom()).len(),
            ),
    )
}

/// What was put in: for each fragment of `created` that some job has, the
/// ids of the actors built for it, ascending.
pub open spec fn ledger_of(store: StoreView, created: CreatedView) -> LedgerView {
    Map::new(
        |fid: FragmentId|
            created.contains_key(fid) && !unclaimed(store, fid, job_ids(store).len() as int),
        |fid: FragmentId| ascending(created[fid].dom()),
    )
}

/// A job without the actors that `ledger` lists.
pub open spec fn uncreated(ledger: LedgerView) -> spec_fn(TableFragmentsView) -> TableFragmentsView {
    |job: TableFragmentsView| job.without_created(ledger)
}

impl FragmentManager {
    /// Puts the actors built for a reschedule into the stored jobs, in
    /// memory only, and hands back the ledger of what was put where, by
    /// which the change can be undone.
    pub fn pre_apply_reschedules(&mut self, created_actors: &OrdMap<CreatedActors>) -> (ledger:
        Ledger)
        ensures
            final(self)@ == pre_applied(old(self)@, created_actors@),
            ledger@ == ledger_of(old(self)@, created_actors@),
    {
        let np = created_actors.len();
        let nj = self.core.table_fragments.len();
        let ghost store0 = self@;
        let ghost held0 = self.core.table_fragments;
        let ghost fids = created_actors.keys();
        let mut ledger: Ledger = OrdMap::new();
        let mut claimed: Vec<bool> = Vec::new();
        let mut c: usize = 0;
        while c < np
            invariant
                c <= np,
                claimed.len() == c,
                forall|q: int| 0 <= q < c ==> !claimed@[q],
            decreases np - c,
        {
            claimed.push(false);
            c += 1;
        }
        let mut i: usize = 0;
        proof {
            held0.lemma_view();
            created_actors.lemma_view();
        }
        while i < nj
            invariant
                i <= nj,
                nj == held0.keys().len(),
                np == created_actors.keys().len(),
                held0.wf(),
                created_actors.wf(),
                self.core.table_fragments.wf(),
                held0 == old(self).core.table_fragments,
                store0 == old(self)@,
                fids == created_actors.keys(),
                fids == ascending(created_actors@.dom()),
                held0.keys() == job_ids(store0),
                self.core.table_fragments.keys() == held0.keys(),
                forall|j: int|
                    0 <= j < i ==> (#[trigger] self.core.table_fragments.values()[j])@
                        == job_pre_applied_upto(store0, j, created_actors@, np as nat),
                forall|j: int|
                    i <= j < nj ==> #[trigger] self.core.table_fragments.values()[j]
                        == held0.values()[j],
                claimed.len() == np,
                forall|q: int|
                    0 <= q < np ==> (claimed@[q] <==> !unclaimed(store0, fids[q], i as int)),
                forall|fid: FragmentId|
                    #![trigger ledger@.contains_key(fid)]
                    ledger@.contains_key(fid) <==> exists|q: int|
                        0 <= q < np && #[trigger] fids[q] == fid && claimed@[q],
                forall|fid: FragmentId|
                    #![trigger ledger@.contains_key(fid)]
                    ledger@.contains_key(fid) ==> created_actors@.contains_key(fid) && ledger@[fid]
                        == ascending(created_actors@[fid].dom()),
            decreases nj - i,
        {
            let mut p: usize = 0;
            proof {
                held0.lemma_view();
                assert(job_at(store0, i as int) == held0.values()[i as int]@);
            }
            while p < np
                invariant
                    p <= np,
                    i < nj,
                    nj == held0.keys().len(),
                    np == created_actors.keys().len(),
                    held0.wf(),
                    created_actors.wf(),
                    self.core.table_fragments.wf(),
                    fids == created_actors.keys(),
                    fids == ascending(created_actors@.dom()),
                    held0.keys() == job_ids(store0),
                    self.core.table_fragments.keys() == held0.keys(),
                    job_at(store0, i as int) == held0.values()[i as int]@,
                    forall|j: int|
                        0 <= j < i ==> (#[trigger] self.core.table_fragments.values()[j])@
                            == job_pre_applied_upto(store0, j, created_actors@, np as nat),
                    forall|j: int|
                        i < j < nj ==> #[trigger] self.core.table_fragments.values()[j]
                            == held0.values()[j],
                    self.core.table_fragments.values()[i as int]@ == job_pre_applied_upto(
                        store0,
                        i as int,
                        created_actors@,
                        p as nat,
                    ),
                    self.core.table_fragments.values()[i as int]@.fragments.dom() == job_at(
                        store0,
                        i as int,
                    ).fragments.dom(),
                    claimed.len() == np,
                    forall|q: int|
                        p <= q < np ==> (claimed@[q] <==> !unclaimed(store0, fids[q], i as int)),
                    forall|q: int|
                        0 <= q < p ==> (claimed@[q] <==> !unclaimed(store0, fids[q], i as int + 1)),
                    forall|fid: FragmentId|
                        #![trigger ledger@.contains_key(fid)]
                        ledger@.contains_key(fid) <==> exists|q: int|
                            0 <= q < np && #[trigger] fids[q] == fid && claimed@[q],
                    forall|fid: FragmentId|
                        #![trigger ledger@.contains_key(fid)]
                        ledger@.contains_key(fid) ==> created_actors@.contains_key(fid)
                            && ledger@[fid] == ascending(created_actors@[fid].dom()),
                decreases np - p,
            {
                let fid = created_actors.key_at(p);
                let made = created_actors.value_at(p);
                let ghost before = self.core.table_fragments;
                let ghost ledger_before = ledger@;
                let ghost claimed_before = claimed@;
                proof {
                    created_actors.lemma_view();
                    assert(fids[p as int] == fid);
                    lemma_unclaimed_step(
                        store0,
                        fid,
                        i as int,
                        job_at(store0, i as int).fragments.contains_key(fid),
                    );
                }
                if !claimed[p] {
                    let job = self.core.table_fragments.value_at_mut(i);
                    let applied = job.add_created(fid, made);
                    proof {
                        assert(self.core.table_fragments.values()[i as int]@.fragments.dom()
                            =~= job_at(store0, i as int).fragments.dom());
                    }
                    if applied {
                        claimed.set(p, true);
                        let ids = made.keys_vec();
                        assert(ids.deep_view() =~= ids@);
                        ledger.insert(fid, ids);
                        proof {
                            assert forall|x: FragmentId|
                                #![trigger ledger@.contains_key(x)]
                                ledger@.contains_key(x) <==> exists|q: int|
                                    0 <= q < np && #[trigger] fids[q] == x && claimed@[q] by {
                                if x == fid {
                                    assert(fids[p as int] == x && claimed@[p as int]);
                                } else {
                                    if ledger_before.contains_key(x) {
                                        let q = choose|q: int|
                                            0 <= q < np && #[trigger] fids[q] == x
                                                && claimed_before[q];
                                        assert(fids[q] == x && claimed@[q]);
                                    }
                                    if exists|q: int|
                                        0 <= q < np && #[trigger] fids[q] == x && claimed@[q] {
                                        let q = choose|q: int|
                                            0 <= q < np && #[trigger] fids[q] == x && claimed@[q];
                                        assert(q != p);
                                        assert(fids[q] == x && claimed_before[q]);
                                    }
                                }
                            }
                        }
                    }
                } else {
                    proof {
                        assert(self.core.table_fragments.values()[i as int]@
                            == job_pre_applied_upto(
                            store0,
                            i as int,
                            created_actors@,
                            (p + 1) as nat,
                        ));
                    }
                }
                p += 1;
            }
            i += 1;
        }
        proof {
            let want = pre_applied(store0, created_actors@);
            self.core.table_fragments.lemma_view();
            held0.lemma_view();
            assert(self@.dom() =~= want.dom());
            assert forall|k: TableId| self@.contains_key(k) implies self@[k] == want[k] by {
                let j = held0.keys().index_of(k);
                assert(held0.keys()[j] == k);
                assert(self@[self.core.table_fragments.keys()[j]]
                    == self.core.table_fragments.values()[j]@);
            }
            assert(self@ =~= want);
            let wantl = ledger_of(store0, created_actors@);
            assert forall|fid: FragmentId| ledger@.contains_key(fid) == wantl.contains_key(fid) by {
                if ledger@.contains_key(fid) {
                    let q = choose|q: int| 0 <= q < np && #[trigger] fids[q] == fid && claimed@[q];
                    assert(!unclaimed(store0, fids[q], nj as int));
                }
                if wantl.contains_key(fid) {
                    let q = fids.index_of(fid);
                    assert(fids[q] == fid);
                    assert(claimed@[q]);
                }
            }
            assert(ledger@ =~= wantl);
        }
        ledger
    }

    /// Takes the actors that `applied_reschedules` lists out of the stored
    /// jobs again, in memory only: each fragment that the ledger names loses
    /// the actors listed for it, in whatever job it stands, and that job
    /// loses their statuses.
    pub fn cancel_apply_reschedules(&mut self, applied_reschedules: &Ledger)
        ensures
            final(self)@ == old(self)@.map_values(uncreated(applied_reschedules@)),
    {
        let n = self.core.table_fragments.len();
        let mut i: usize = 0;
        while i < n
            invariant
                i <= n,
                n == self.core.table_fragments.keys().len(),
                self.core.table_fragments.wf(),
                old(self).core.table_fragments.wf(),
                self.core.table_fragments.keys() == old(self).core.table_fragments.keys(),
                forall|j: int|
                    0 <= j < i ==> (#[trigger] self.core.table_fragments.values()[j])@ == uncreated(
                        applied_reschedules@,
                    )(old(self).core.table_fragments.values()[j]@),
                forall|j: int|
                    i <= j < n ==> #[trigger] self.core.table_fragments.values()[j] == old(
                        self,
                    ).core.table_fragments.values()[j],
            decreases n - i,
        {
            let job = self.core.table_fragments.value_at_mut(i);
            job.remove_created(applied_reschedules);
            i += 1;
        }
        proof {
            old(self).core.table_fragments.lemma_view_mapped(
                &self.core.table_fragments,
                uncreated(applied_reschedules@),
            );
        }
    }
}

} // verus!
