//! After a drop no dispatcher leads into a dropped job.

use crate::laws::invariants::targets_at;
use crate::manager::removal::{cut_from, drop_edits, drop_missing, feeds, repaired};
use crate::manager::transaction::{applied, StoreView};
use crate::model::common::{ActorId, FragmentId, FragmentType, TableId};
use crate::model::dispatch::{cut_targets, has_target, pruned_dispatchers};
use crate::model::stream::not_in;

use vstd::prelude::*;

verus! {

/// Actor `a` is a chain actor of a stored job that is dropped.
pub open spec fn chain_actor_of_dropped(store: StoreView, ids: Set<TableId>, a: ActorId) -> bool {
    exists|j: TableId|
        ids.contains(j) && #[trigger] store.contains_key(j) && store[j].actor_ids_of_kind(
            FragmentType::Chain,
        ).contains(a)
}

/// Dispatchers lead into the chain actors of a job only from the sink
/// fragments of the jobs that it reads from: whenever a dispatcher of a job
/// that is not dropped has a chain actor of a dropped job `j` as a target,
/// the dispatcher stands in a sink fragment and `j` reads from the
/// dispatcher's job.
pub open spec fn led_by_sinks(store: StoreView, ids: Set<TableId>) -> bool {
    forall|k: TableId, fid: FragmentId, i: int, d: int, t: int, a: ActorId, j: TableId|
        store.contains_key(k) && !ids.contains(k) && #[trigger] targets_at(store[k], fid, i, d, t, a)
            && ids.contains(j) && store.contains_key(j) && #[trigger] store[j].actor_ids_of_kind(
            FragmentType::Chain,
        ).contains(a) ==> store[k].fragments[fid].fragment_type == FragmentType::Sink
            && store[j].dependent_table_ids().contains(k)
}

/// A target of a pruned dispatcher list was a target before and is not one
/// of the cut actors.
pub proof fn lemma_pruned_target(
    before: Seq<crate::model::stream::DispatcherView>,
    gone: Set<ActorId>,
    d: int,
    t: int,
)
    requires
        0 <= d < pruned_dispatchers(before, gone).len(),
        0 <= t < pruned_dispatchers(before, gone)[d].downstream_actor_id.len(),
    ensures
        !gone.contains(pruned_dispatchers(before, gone)[d].downstream_actor_id[t]),
        exists|d0: int, t0: int|
            0 <= d0 < before.len() && 0 <= t0 < before[d0].downstream_actor_id.len()
                && #[trigger] before[d0].downstream_actor_id[t0] == pruned_dispatchers(
                before,
                gone,
            )[d].downstream_actor_id[t],
{
    let cut = before.map_values(cut_targets(gone));
    let kept = cut.filter(has_target());
    let x = kept[d];
    assert(kept.contains(x));
    cut.lemma_filter_contains_rev(has_target(), x);
    let d0 = choose|d0: int| 0 <= d0 < cut.len() && cut[d0] == x;
    let a = x.downstream_actor_id[t];
    let src = before[d0].downstream_actor_id;
    assert(x.downstream_actor_id == src.filter(not_in(gone)));
    assert(src.filter(not_in(gone)).contains(a));
    src.lemma_filter_contains_rev(not_in(gone), a);
    src.lemma_filter_pred(not_in(gone), t);
    let t0 = choose|t0: int| 0 <= t0 < src.len() && src[t0] == a;
    assert(before[d0].downstream_actor_id[t0] == a);
}

/// After the jobs `ids` were dropped, no dispatcher of a job that is left
/// has a chain actor of a dropped job as a target. This holds where, before
/// the drop, dispatchers led into the chain actors of the dropped jobs only
/// from sink fragments of the jobs they read from.
pub proof fn law_drop_leaves_no_dangling_dispatcher(
    store: StoreView,
    ids: Set<TableId>,
    k: TableId,
    fid: FragmentId,
    i: int,
    d: int,
    t: int,
    a: ActorId,
)
    requires
        led_by_sinks(store, ids),
        forall|u: TableId| !drop_missing(store, ids, u),
        applied(store, drop_edits(store, ids)).contains_key(k),
        chain_actor_of_dropped(store, ids, a),
    ensures
        !targets_at(applied(store, drop_edits(store, ids))[k], fid, i, d, t, a),
{
    let edits = drop_edits(store, ids);
    let after = applied(store, edits);
    let j = choose|j: TableId|
        ids.contains(j) && #[trigger] store.contains_key(j) && store[j].actor_ids_of_kind(
            FragmentType::Chain,
        ).contains(a);
    if targets_at(after[k], fid, i, d, t, a) {
        if edits.contains_key(k) {
            assert(!ids.contains(k));
            assert(repaired(store, ids, k));
            let gone = cut_from(store, ids, k);
            let f0 = store[k].fragments[fid];
            assert(store[k].fragments.contains_key(fid));
            if f0.fragment_type == FragmentType::Sink {
                let ds = f0.actors[i].dispatcher;
                assert(after[k].fragments[fid].actors[i].dispatcher == pruned_dispatchers(
                    ds,
                    gone,
                ));
                lemma_pruned_target(ds, gone, d, t);
                let (d0, t0) = choose|d0: int, t0: int|
                    0 <= d0 < ds.len() && 0 <= t0 < ds[d0].downstream_actor_id.len()
                        && #[trigger] ds[d0].downstream_actor_id[t0] == a;
                assert(targets_at(store[k], fid, i, d0, t0, a));
                assert(store[j].dependent_table_ids().contains(k));
                assert(feeds(store, ids, j, k));
                assert(gone.contains(a));
            } else {
                assert(after[k].fragments[fid] == f0);
                assert(targets_at(store[k], fid, i, d, t, a));
            }
        } else {
            assert(after[k] == store[k]);
            assert(targets_at(store[k], fid, i, d, t, a));
            assert(store[j].dependent_table_ids().contains(k));
            assert(feeds(store, ids, j, k));
            assert(repaired(store, ids, k));
        }
    }
}

} // verus!
