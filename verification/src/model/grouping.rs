//! Grouping a listing of keyed items into one list per key, each list in the
//! order of the listing.

use crate::ord_map::OrdMap;
use vstd::prelude::*;

verus! {

/// The groups `m` after item `t` was appended to the group of key `w`.
pub open spec fn push_group<T>(m: Map<u32, Seq<T>>, w: u32, t: T) -> Map<u32, Seq<T>> {
    m.insert(
        w,
        if m.contains_key(w) {
            m[w].push(t)
        } else {
            seq![t]
        },
    )
}

/// The groups `groups` after every item of a listing was appended to the
/// group of its key, in the order of the listing.
pub open spec fn push_all<T>(groups: Map<u32, Seq<T>>, items: Seq<(u32, T)>) -> Map<u32, Seq<T>>
    decreases items.len(),
{
    if items.len() == 0 {
        groups
    } else {
        push_group(push_all(groups, items.drop_last()), items.last().0, items.last().1)
    }
}

/// The items of a listing grouped by their key: the group of a key holds the
/// items listed under it, in the order of the listing; a key without items
/// has no group.
pub open spec fn grouped<T>(items: Seq<(u32, T)>) -> Map<u32, Seq<T>> {
    push_all(Map::empty(), items)
}

/// Pushing a listing that got one more item.
pub proof fn lemma_push_all_push<T>(groups: Map<u32, Seq<T>>, items: Seq<(u32, T)>, w: u32, t: T)
    ensures
        push_all(groups, items.push((w, t))) == push_group(push_all(groups, items), w, t),
{
    assert(items.push((w, t)).drop_last() =~= items);
}

/// Grouping a listing that got one more item.
pub proof fn lemma_grouped_push<T>(items: Seq<(u32, T)>, w: u32, t: T)
    ensures
        grouped(items.push((w, t))) == push_group(grouped(items), w, t),
{
    lemma_push_all_push(Map::empty(), items, w, t);
}

/// Pushing two listings one after the other is pushing their concatenation.
pub proof fn lemma_push_all_concat<T>(groups: Map<u32, Seq<T>>, a: Seq<(u32, T)>, b: Seq<(u32, T)>)
    ensures
        push_all(groups, a + b) == push_all(push_all(groups, a), b),
    decreases b.len(),
{
    if b.len() == 0 {
        assert(a + b =~= a);
    } else {
        lemma_push_all_concat(groups, a, b.drop_last());
        assert((a + b).drop_last() =~= a + b.drop_last());
        assert((a + b).last() == b.last());
    }
}

/// Appends `t` to the group of key `w`, opening the group if there is none.
pub fn push_grouped<T: DeepView>(groups: &mut OrdMap<Vec<T>>, w: u32, t: T)
    ensures
        final(groups)@ == push_group(old(groups)@, w, t.deep_view()),
{
    match groups.position(w) {
        Some(i) => {
            let ghost before = groups.values()[i as int];
            proof {
                groups.lemma_view();
            }
            let v = groups.value_at_mut(i);
            v.push(t);
            proof {
                let after = groups.values()[i as int];
                assert(after.deep_view() =~= before.deep_view().push(t.deep_view()));
                old(groups).lemma_view_updated(&*groups, i as int, after);
            }
        },
        None => {
            let mut v: Vec<T> = Vec::new();
            v.push(t);
            assert(v.deep_view() =~= seq![t.deep_view()]);
            groups.insert(w, v);
        },
    }
}

} // verus!
