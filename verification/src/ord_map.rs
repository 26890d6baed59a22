//! An ordered map from 32-bit ids to values, kept as two parallel vectors
//! sorted by key. Walking it by position visits the keys in ascending order,
//! which is what makes every listing of the fragment store deterministic.

use vstd::prelude::*;

verus! {

/// Every element of `s` is smaller than all elements after it.
pub open spec fn strictly_ascending(s: Seq<u32>) -> bool {
    forall|i: int, j: int| 0 <= i < j < s.len() ==> s[i] < s[j]
}

/// The members of a finite set of ids, smallest first.
pub open spec fn ascending(ids: Set<u32>) -> Seq<u32> {
    choose|q: Seq<u32>| strictly_ascending(q) && q.to_set() == ids
}

/// Two strictly ascending sequences with the same members are the same sequence.
pub proof fn lemma_ascending_same_members(a: Seq<u32>, b: Seq<u32>)
    requires
        strictly_ascending(a),
        strictly_ascending(b),
        a.to_set() == b.to_set(),
    ensures
        a == b,
    decreases a.len(),
{
    if a.len() == 0 {
        if b.len() > 0 {
            assert(b.to_set().contains(b[0]));
            assert(a.contains(b[0]));
        }
        assert(a =~= b);
    } else {
        let x = a.last();
        assert(a.to_set().contains(x));
        assert(b.contains(x));
        let y = b.last();
        assert(b.to_set().contains(y));
        assert(a.contains(y));
        assert(x == y);
        let a0 = a.drop_last();
        let b0 = b.drop_last();
        assert forall|v: u32| a0.to_set().contains(v) == b0.to_set().contains(v) by {
            if a0.contains(v) {
                let i = choose|i: int| 0 <= i < a0.len() && a0[i] == v;
                assert(a[i] == v);
                assert(a.to_set().contains(v));
                assert(b.contains(v));
                let j = choose|j: int| 0 <= j < b.len() && b[j] == v;
                assert(v < x);
                assert(j < b.len() - 1);
                assert(b0[j] == v);
            }
            if b0.contains(v) {
                let j = choose|j: int| 0 <= j < b0.len() && b0[j] == v;
                assert(b[j] == v);
                assert(b.to_set().contains(v));
                assert(a.contains(v));
                let i = choose|i: int| 0 <= i < a.len() && a[i] == v;
                assert(v < y);
                assert(i < a.len() - 1);
                assert(a0[i] == v);
            }
        }
        assert(a0.to_set() =~= b0.to_set());
        lemma_ascending_same_members(a0, b0);
        assert(a =~= a0.push(x));
        assert(b =~= b0.push(y));
    }
}

/// A strictly ascending sequence is the ascending listing of its own members.
pub proof fn lemma_ascending_of_sorted(q: Seq<u32>)
    requires
        strictly_ascending(q),
    ensures
        ascending(q.to_set()) == q,
{
    let r = ascending(q.to_set());
    assert(strictly_ascending(r) && r.to_set() == q.to_set());
    lemma_ascending_same_members(r, q);
}

/// The members of `ids` that are below `n`, smallest first.
pub open spec fn members_below(ids: Set<u32>, n: nat) -> Seq<u32>
    decreases n,
{
    if n == 0 {
        Seq::empty()
    } else {
        let rest = members_below(ids, (n - 1) as nat);
        if n - 1 <= u32::MAX && ids.contains((n - 1) as u32) {
            rest.push((n - 1) as u32)
        } else {
            rest
        }
    }
}

/// The listing of the members below `n` is strictly ascending and complete.
pub proof fn lemma_members_below(ids: Set<u32>, n: nat)
    requires
        n <= u32::MAX + 1,
    ensures
        strictly_ascending(members_below(ids, n)),
        forall|i: int|
            0 <= i < members_below(ids, n).len() ==> (#[trigger] members_below(ids, n)[i]) < n
                && ids.contains(members_below(ids, n)[i]),
        forall|x: u32| ids.contains(x) && x < n ==> #[trigger] members_below(ids, n).contains(x),
    decreases n,
{
    if n > 0 {
        let rest = members_below(ids, (n - 1) as nat);
        lemma_members_below(ids, (n - 1) as nat);
        let all = members_below(ids, n);
        assert forall|x: u32| ids.contains(x) && x < n implies #[trigger] all.contains(x) by {
            if x < n - 1 {
                assert(rest.contains(x));
                let i = choose|i: int| 0 <= i < rest.len() && rest[i] == x;
                assert(all[i] == x);
            } else {
                assert(all[all.len() - 1] == x);
            }
        }
    }
}

/// Every set of ids has its ascending listing: the listing is strictly
/// ascending and its members are the members of the set.
pub proof fn lemma_ascending_total(ids: Set<u32>)
    ensures
        strictly_ascending(ascending(ids)),
        ascending(ids).to_set() == ids,
{
    let q = members_below(ids, (u32::MAX + 1) as nat);
    lemma_members_below(ids, (u32::MAX + 1) as nat);
    assert forall|x: u32| q.to_set().contains(x) == ids.contains(x) by {
        if q.contains(x) {
            let i = choose|i: int| 0 <= i < q.len() && q[i] == x;
            assert(ids.contains(q[i]));
        }
    }
    assert(q.to_set() =~= ids);
}

/// Values that can be copied so that the copy has the same model.
pub trait DeepClone: DeepView + Sized {
    fn deep_clone(&self) -> (r: Self)
        ensures
            r.deep_view() == self.deep_view(),
    ;
}

impl DeepClone for u8 {
    fn deep_clone(&self) -> (r: Self) {
        *self
    }
}

impl DeepClone for u32 {
    fn deep_clone(&self) -> (r: Self) {
        *self
    }
}

impl DeepClone for u64 {
    fn deep_clone(&self) -> (r: Self) {
        *self
    }
}

impl<T: DeepClone> DeepClone for Vec<T> {
    fn deep_clone(&self) -> (r: Self) {
        let mut out: Vec<T> = Vec::new();
        let mut i: usize = 0;
        while i < self.len()
            invariant
                i <= self.len(),
                out.len() == i,
                forall|j: int| 0 <= j < i ==> out@[j].deep_view() == self@[j].deep_view(),
            decreases self.len() - i,
        {
            out.push(self[i].deep_clone());
            i += 1;
        }
        assert(out.deep_view() =~= self.deep_view());
        out
    }
}

impl<T: DeepClone> DeepClone for Option<T> {
    fn deep_clone(&self) -> (r: Self) {
        match self {
            Some(t) => Some(t.deep_clone()),
            None => None,
        }
    }
}

impl<A: DeepClone, B: DeepClone> DeepClone for (A, B) {
    fn deep_clone(&self) -> (r: Self) {
        (self.0.deep_clone(), self.1.deep_clone())
    }
}

/// A map from `u32` keys to values, ordered by key.
#[derive(Debug, PartialEq, Eq)]
pub struct OrdMap<V> {
    keys: Vec<u32>,
    vals: Vec<V>,
}

impl<V: DeepView> View for OrdMap<V> {
    type V = Map<u32, V::V>;

    open spec fn view(&self) -> Map<u32, V::V> {
        Map::new(
            |k: u32| self.keys().contains(k),
            |k: u32| self.values()[self.keys().index_of(k)].deep_view(),
        )
    }
}

impl<V: DeepView> DeepView for OrdMap<V> {
    type V = Map<u32, V::V>;

    open spec fn deep_view(&self) -> Map<u32, V::V> {
        self.view()
    }
}

impl<V> OrdMap<V> {
    #[verifier::type_invariant]
    spec fn inv(&self) -> bool {
        self.keys.len() == self.vals.len() && strictly_ascending(self.keys@)
    }

    /// The keys, in the order in which the map is walked.
    pub closed spec fn keys(&self) -> Seq<u32> {
        self.keys@
    }

    /// The values, each at the position of its key.
    pub closed spec fn values(&self) -> Seq<V> {
        self.vals@
    }

    /// What holds of every map: one value per key, keys strictly ascending.
    pub open spec fn wf(&self) -> bool {
        self.keys().len() == self.values().len() && strictly_ascending(self.keys())
    }

    /// The key `k` stands at position `i`.
    pub open spec fn has_at(&self, i: int, k: u32) -> bool {
        0 <= i < self.keys().len() && self.keys()[i] == k
    }

    /// In a well-formed map a key stands at one position only.
    pub proof fn lemma_index_of(&self, i: int)
        requires
            self.wf(),
            0 <= i < self.keys().len(),
        ensures
            self.keys().contains(self.keys()[i]),
            self.keys().index_of(self.keys()[i]) == i,
    {
        let k = self.keys()[i];
        let j = self.keys().index_of(k);
        assert(0 <= j < self.keys().len() && self.keys()[j] == k);
        if j < i {
            assert(self.keys()[j] < self.keys()[i]);
        }
        if i < j {
            assert(self.keys()[i] < self.keys()[j]);
        }
    }
}

impl<V: DeepView> OrdMap<V> {
    /// How the positions of a well-formed map relate to its view.
    pub proof fn lemma_view(&self)
        requires
            self.wf(),
        ensures
            self@.dom() == self.keys().to_set(),
            self@.dom().finite(),
            self.keys() == ascending(self@.dom()),
            forall|i: int|
                0 <= i < self.keys().len() ==> self@.contains_key(#[trigger] self.keys()[i])
                    && self@[self.keys()[i]] == self.values()[i].deep_view(),
            forall|k: u32| #[trigger]
                self@.contains_key(k) ==> self.has_at(self.keys().index_of(k), k),
    {
        assert(self@.dom() =~= self.keys().to_set());
        vstd::seq_lib::seq_to_set_is_finite(self.keys());
        lemma_ascending_of_sorted(self.keys());
        assert forall|i: int| 0 <= i < self.keys().len() implies self@.contains_key(
            #[trigger] self.keys()[i],
        ) && self@[self.keys()[i]] == self.values()[i].deep_view() by {
            self.lemma_index_of(i);
        }
    }

    /// The view after a new key went in at position `i`.
    proof fn lemma_view_inserted(&self, next: &Self, i: int, k: u32, v: V)
        requires
            self.wf(),
            next.wf(),
            0 <= i <= self.keys().len(),
            !self.keys().contains(k),
            next.keys() == self.keys().insert(i, k),
            next.values() == self.values().insert(i, v),
        ensures
            next@ == self@.insert(k, v.deep_view()),
    {
        self.lemma_view();
        next.lemma_view();
        let want = self@.insert(k, v.deep_view());
        assert forall|x: u32| next@.dom().contains(x) == want.dom().contains(x) by {
            if next.keys().contains(x) {
                let j = choose|j: int| 0 <= j < next.keys().len() && next.keys()[j] == x;
                if j < i {
                    assert(self.keys()[j] == x);
                } else if j > i {
                    assert(self.keys()[j - 1] == x);
                }
            }
            if self.keys().contains(x) {
                let j = choose|j: int| 0 <= j < self.keys().len() && self.keys()[j] == x;
                if j < i {
                    assert(next.keys()[j] == x);
                } else {
                    assert(next.keys()[j + 1] == x);
                }
            }
            if x == k {
                assert(next.keys()[i] == k);
            }
        }
        assert forall|x: u32| next@.dom().contains(x) implies next@[x] == want[x] by {
            let j = next.keys().index_of(x);
            assert(next.has_at(j, x));
            assert(next@[next.keys()[j]] == next.values()[j].deep_view());
            if j < i {
                assert(self.keys()[j] == x);
                assert(self@[self.keys()[j]] == self.values()[j].deep_view());
            } else if j > i {
                assert(self.keys()[j - 1] == x);
                assert(self@[self.keys()[j - 1]] == self.values()[j - 1].deep_view());
            }
        }
        assert(next@ =~= want);
    }

    /// The view after every value was replaced by one whose model is `f` of
    /// the old value's model.
    pub proof fn lemma_view_mapped(&self, next: &Self, f: spec_fn(V::V) -> V::V)
        requires
            self.wf(),
            next.wf(),
            next.keys() == self.keys(),
            forall|i: int|
                0 <= i < self.keys().len() ==> (#[trigger] next.values()[i]).deep_view() == f(
                    self.values()[i].deep_view(),
                ),
        ensures
            next@ == self@.map_values(f),
    {
        self.lemma_view();
        next.lemma_view();
        let want = self@.map_values(f);
        assert(next@.dom() =~= want.dom());
        assert forall|x: u32| next@.dom().contains(x) implies next@[x] == want[x] by {
            let j = next.keys().index_of(x);
            assert(next.has_at(j, x));
            assert(next@[next.keys()[j]] == next.values()[j].deep_view());
            assert(self@[self.keys()[j]] == self.values()[j].deep_view());
        }
        assert(next@ =~= want);
    }

    /// The view after every value was replaced by one whose model is `f` of
    /// the key and the old value's model.
    pub proof fn lemma_view_mapped_entries(&self, next: &Self, f: spec_fn(u32, V::V) -> V::V)
        requires
            self.wf(),
            next.wf(),
            next.keys() == self.keys(),
            forall|i: int|
                0 <= i < self.keys().len() ==> (#[trigger] next.values()[i]).deep_view() == f(
                    self.keys()[i],
                    self.values()[i].deep_view(),
                ),
        ensures
            next@ == self@.map_entries(f),
    {
        self.lemma_view();
        next.lemma_view();
        let want = self@.map_entries(f);
        assert(next@.dom() =~= want.dom());
        assert forall|x: u32| next@.dom().contains(x) implies next@[x] == want[x] by {
            let j = next.keys().index_of(x);
            assert(next.has_at(j, x));
            assert(next@[next.keys()[j]] == next.values()[j].deep_view());
            assert(self@[self.keys()[j]] == self.values()[j].deep_view());
        }
        assert(next@ =~= want);
    }

    /// The view after the value at position `i` was replaced.
    pub proof fn lemma_view_updated(&self, next: &Self, i: int, v: V)
        requires
            self.wf(),
            next.wf(),
            0 <= i < self.keys().len(),
            next.keys() == self.keys(),
            next.values() == self.values().update(i, v),
        ensures
            next@ == self@.insert(self.keys()[i], v.deep_view()),
    {
        self.lemma_view();
        next.lemma_view();
        let want = self@.insert(self.keys()[i], v.deep_view());
        assert(next@.dom() =~= want.dom());
        assert forall|x: u32| next@.dom().contains(x) implies next@[x] == want[x] by {
            let j = next.keys().index_of(x);
            assert(next.has_at(j, x));
            assert(next@[next.keys()[j]] == next.values()[j].deep_view());
            assert(self@[self.keys()[j]] == self.values()[j].deep_view());
            if j != i {
                if j < i {
                    assert(self.keys()[j] < self.keys()[i]);
                } else {
                    assert(self.keys()[i] < self.keys()[j]);
                }
            }
        }
        assert(next@ =~= want);
    }

    /// The view after the entry at position `i` was taken out.
    proof fn lemma_view_removed(&self, next: &Self, i: int)
        requires
            self.wf(),
            next.wf(),
            0 <= i < self.keys().len(),
            next.keys() == self.keys().remove(i),
            next.values() == self.values().remove(i),
        ensures
            next@ == self@.remove(self.keys()[i]),
    {
        self.lemma_view();
        next.lemma_view();
        let k = self.keys()[i];
        let want = self@.remove(k);
        assert forall|x: u32| next@.dom().contains(x) == want.dom().contains(x) by {
            if next.keys().contains(x) {
                let j = choose|j: int| 0 <= j < next.keys().len() && next.keys()[j] == x;
                if j < i {
                    assert(self.keys()[j] == x);
                    assert(self.keys()[j] < self.keys()[i]);
                } else {
                    assert(self.keys()[j + 1] == x);
                    assert(self.keys()[i] < self.keys()[j + 1]);
                }
            }
            if self.keys().contains(x) && x != k {
                let j = choose|j: int| 0 <= j < self.keys().len() && self.keys()[j] == x;
                if j < i {
                    assert(next.keys()[j] == x);
                } else {
                    assert(next.keys()[j - 1] == x);
                }
            }
        }
        assert forall|x: u32| next@.dom().contains(x) implies next@[x] == want[x] by {
            let j = next.keys().index_of(x);
            assert(next.has_at(j, x));
            assert(next@[next.keys()[j]] == next.values()[j].deep_view());
            if j < i {
                assert(self.keys()[j] == x);
                assert(self@[self.keys()[j]] == self.values()[j].deep_view());
            } else {
                assert(self.keys()[j + 1] == x);
                assert(self@[self.keys()[j + 1]] == self.values()[j + 1].deep_view());
            }
        }
        assert(next@ =~= want);
    }

    /// An empty map.
    pub fn new() -> (m: Self)
        ensures
            m.wf(),
            m.keys() == Seq::<u32>::empty(),
            m.values() == Seq::<V>::empty(),
            m@ == Map::<u32, V::V>::empty(),
    {
        let m = OrdMap { keys: Vec::new(), vals: Vec::new() };
        assert(m@ =~= Map::<u32, V::V>::empty());
        m
    }

    /// The number of entries.
    pub fn len(&self) -> (n: usize)
        ensures
            self.wf(),
            n == self.keys().len(),
    {
        proof {
            use_type_invariant(self);
        }
        self.keys.len()
    }

    /// Whether the map has no entry.
    pub fn is_empty(&self) -> (b: bool)
        ensures
            self.wf(),
            b == (self.keys().len() == 0),
    {
        proof {
            use_type_invariant(self);
        }
        self.keys.len() == 0
    }

    /// The key at position `i`.
    pub fn key_at(&self, i: usize) -> (k: u32)
        requires
            i < self.keys().len(),
        ensures
            self.wf(),
            k == self.keys()[i as int],
            self@.contains_key(k),
    {
        proof {
            use_type_invariant(self);
            self.lemma_view();
        }
        self.keys[i]
    }

    /// The value at position `i`.
    pub fn value_at(&self, i: usize) -> (v: &V)
        requires
            i < self.keys().len(),
        ensures
            self.wf(),
            *v == self.values()[i as int],
            self@.contains_key(self.keys()[i as int]),
            v.deep_view() == self@[self.keys()[i as int]],
    {
        proof {
            use_type_invariant(self);
            self.lemma_view();
        }
        &self.vals[i]
    }

    /// The value at position `i`, to be changed in place.
    pub fn value_at_mut(&mut self, i: usize) -> (v: &mut V)
        requires
            i < old(self).keys().len(),
        ensures
            old(self).wf(),
            final(self).wf(),
            *v == old(self).values()[i as int],
            final(self).keys() == old(self).keys(),
            final(self).values() == old(self).values().update(i as int, *final(v)),
    {
        proof {
            use_type_invariant(&*self);
        }
        &mut self.vals[i]
    }

    /// Replaces the value at position `i` and hands back the one that was there.
    pub fn replace_value_at(&mut self, i: usize, v: V) -> (prev: V)
        requires
            i < old(self).keys().len(),
        ensures
            final(self).wf(),
            final(self).keys() == old(self).keys(),
            final(self).values() == old(self).values().update(i as int, v),
            prev == old(self).values()[i as int],
            final(self)@ == old(self)@.insert(old(self).keys()[i as int], v.deep_view()),
    {
        proof {
            use_type_invariant(&*self);
        }
        let ghost given = v;
        let mut v = v;
        core::mem::swap(&mut self.vals[i], &mut v);
        proof {
            old(self).lemma_view_updated(&*self, i as int, given);
        }
        v
    }

    /// The first position whose key is not below `k`.
    fn lower_bound(&self, k: u32) -> (i: usize)
        ensures
            self.wf(),
            i <= self.keys().len(),
            forall|j: int| 0 <= j < i ==> self.keys()[j] < k,
            forall|j: int| i <= j < self.keys().len() ==> self.keys()[j] >= k,
    {
        proof {
            use_type_invariant(self);
        }
        let mut lo: usize = 0;
        let mut hi: usize = self.keys.len();
        while lo < hi
            invariant
                lo <= hi <= self.keys.len(),
                strictly_ascending(self.keys@),
                forall|j: int| 0 <= j < lo ==> self.keys@[j] < k,
                forall|j: int| hi <= j < self.keys.len() ==> self.keys@[j] >= k,
            decreases hi - lo,
        {
            let mid: usize = lo + (hi - lo) / 2;
            if self.keys[mid] < k {
                lo = mid + 1;
            } else {
                hi = mid;
            }
        }
        lo
    }

    /// The position of key `k`, if the map holds it.
    pub fn position(&self, k: u32) -> (r: Option<usize>)
        ensures
            self.wf(),
            match r {
                Some(i) => self.has_at(i as int, k),
                None => !self.keys().contains(k),
            },
    {
        proof {
            use_type_invariant(self);
        }
        let i = self.lower_bound(k);
        if i < self.keys.len() && self.keys[i] == k {
            Some(i)
        } else {
            None
        }
    }

    /// Whether the map holds key `k`.
    pub fn contains_key(&self, k: u32) -> (b: bool)
        ensures
            self.wf(),
            b == self.keys().contains(k),
            b == self@.contains_key(k),
    {
        self.position(k).is_some()
    }

    /// The value under key `k`, if any.
    pub fn get(&self, k: u32) -> (r: Option<&V>)
        ensures
            self.wf(),
            match r {
                Some(v) => self@.contains_key(k) && v.deep_view() == self@[k] && exists|i: int|
                    self.has_at(i, k) && *v == self.values()[i],
                None => !self@.contains_key(k),
            },
    {
        match self.position(k) {
            Some(i) => Some(self.value_at(i)),
            None => None,
        }
    }

    /// Puts `v` under key `k`; hands back the value that `k` had before, if any.
    pub fn insert(&mut self, k: u32, v: V) -> (prev: Option<V>)
        ensures
            final(self).wf(),
            final(self)@ == old(self)@.insert(k, v.deep_view()),
            prev is Some <==> old(self)@.contains_key(k),
            prev matches Some(p) ==> p.deep_view() == old(self)@[k],
            match prev {
                Some(p) => exists|i: int|
                    old(self).has_at(i, k) && p == old(self).values()[i] && final(self).keys()
                        == old(self).keys() && final(self).values() == old(self).values().update(
                        i,
                        v,
                    ),
                None => !old(self).keys().contains(k) && exists|i: int|
                    0 <= i <= old(self).keys().len() && final(self).keys() == old(
                        self,
                    ).keys().insert(i, k) && final(self).values() == old(self).values().insert(
                        i,
                        v,
                    ),
            },
    {
        proof {
            use_type_invariant(&*self);
        }
        let i = self.lower_bound(k);
        if i < self.keys.len() && self.keys[i] == k {
            let prev = self.replace_value_at(i, v);
            assert(old(self).has_at(i as int, k) && final(self).values() == old(self).values().update(
                i as int,
                v,
            ));
            proof {
                old(self).lemma_view();
            }
            Some(prev)
        } else {
            let mut taken = OrdMap::new();
            core::mem::swap(self, &mut taken);
            let OrdMap { mut keys, mut vals } = taken;
            keys.insert(i, k);
            vals.insert(i, v);
            *self = OrdMap { keys, vals };
            assert(!old(self).keys().contains(k));
            proof {
                old(self).lemma_view_inserted(&*self, i as int, k, v);
            }
            None
        }
    }

    /// Takes key `k` out; hands back its value, if it had one.
    pub fn remove(&mut self, k: u32) -> (prev: Option<V>)
        ensures
            final(self).wf(),
            final(self)@ == old(self)@.remove(k),
            prev is Some <==> old(self)@.contains_key(k),
            prev matches Some(p) ==> p.deep_view() == old(self)@[k],
            match prev {
                Some(p) => exists|i: int|
                    old(self).has_at(i, k) && p == old(self).values()[i] && final(self).keys()
                        == old(self).keys().remove(i) && final(self).values() == old(
                        self,
                    ).values().remove(i),
                None => !old(self).keys().contains(k) && final(self).keys() == old(self).keys()
                    && final(self).values() == old(self).values(),
            },
    {
        proof {
            use_type_invariant(&*self);
        }
        match self.position(k) {
            Some(i) => {
                let mut taken = OrdMap::new();
                core::mem::swap(self, &mut taken);
                let OrdMap { mut keys, mut vals } = taken;
                keys.remove(i);
                let prev = vals.remove(i);
                *self = OrdMap { keys, vals };
                proof {
                    old(self).lemma_view();
                    old(self).lemma_view_removed(&*self, i as int);
                }
                Some(prev)
            },
            None => {
                assert(self@ =~= old(self)@.remove(k));
                None
            },
        }
    }
}

impl<V: DeepView> OrdMap<V> {
    /// The keys of the map, ascending.
    pub fn keys_vec(&self) -> (r: Vec<u32>)
        ensures
            self.wf(),
            r@ == self.keys(),
            r@ == ascending(self@.dom()),
    {
        proof {
            use_type_invariant(self);
            self.lemma_view();
        }
        let mut out: Vec<u32> = Vec::new();
        let mut i: usize = 0;
        while i < self.keys.len()
            invariant
                i <= self.keys.len(),
                out@ == self.keys@.take(i as int),
            decreases self.keys.len() - i,
        {
            out.push(self.keys[i]);
            assert(self.keys@.take(i as int + 1) =~= self.keys@.take(i as int).push(
                self.keys@[i as int],
            ));
            i += 1;
        }
        assert(self.keys@.take(self.keys.len() as int) =~= self.keys@);
        out
    }

    /// Takes out the entry with the largest key, if there is any entry.
    pub fn pop_last(&mut self) -> (r: Option<(u32, V)>)
        ensures
            final(self).wf(),
            match r {
                Some((k, v)) => old(self)@.contains_key(k) && v.deep_view() == old(self)@[k]
                    && final(self)@ == old(self)@.remove(k) && final(self).keys().len() + 1
                    == old(self).keys().len(),
                None => old(self).keys().len() == 0 && final(self)@ == old(self)@ && old(self)@
                    == Map::<u32, V::V>::empty(),
            },
    {
        proof {
            use_type_invariant(&*self);
            self.lemma_view();
        }
        if self.keys.len() == 0 {
            assert(self@ =~= Map::<u32, V::V>::empty());
            return None;
        }
        let last = self.keys.len() - 1;
        let mut taken = OrdMap::new();
        core::mem::swap(self, &mut taken);
        let OrdMap { mut keys, mut vals } = taken;
        let k = keys.remove(last);
        let v = vals.remove(last);
        *self = OrdMap { keys, vals };
        proof {
            old(self).lemma_view_removed(&*self, last as int);
        }
        Some((k, v))
    }
}

impl<V: DeepClone> OrdMap<V> {
    /// Copies every entry of `more` into this map; an entry of `more`
    /// replaces the one this map has under the same key.
    pub fn extend_from(&mut self, more: &OrdMap<V>)
        ensures
            final(self)@ == old(self)@.union_prefer_right(more@),
    {
        let n = more.len();
        let mut i: usize = 0;
        proof {
            more.lemma_view();
        }
        while i < n
            invariant
                i <= n,
                n == more.keys().len(),
                more.wf(),
                forall|k: u32|
                    self@.contains_key(k) <==> old(self)@.contains_key(k) || exists|j: int|
                        0 <= j < i && more.keys()[j] == k,
                forall|j: int| 0 <= j < i ==> self@[#[trigger] more.keys()[j]] == more@[more.keys()[j]],
                forall|k: u32|
                    old(self)@.contains_key(k) && !(exists|j: int| 0 <= j < i && more.keys()[j] == k)
                        ==> self@[k] == old(self)@[k],
            decreases n - i,
        {
            let k = more.key_at(i);
            let v = more.value_at(i).deep_clone();
            let ghost before = self@;
            self.insert(k, v);
            proof {
                more.lemma_view();
                assert forall|x: u32|
                    self@.contains_key(x) <==> old(self)@.contains_key(x) || exists|j: int|
                        0 <= j < i + 1 && more.keys()[j] == x by {
                    if x == k {
                        assert(more.keys()[i as int] == x);
                    }
                    if before.contains_key(x) && !old(self)@.contains_key(x) {
                        let j = choose|j: int| 0 <= j < i && more.keys()[j] == x;
                        assert(0 <= j < i + 1 && more.keys()[j] == x);
                    }
                }
                assert forall|x: u32|
                    old(self)@.contains_key(x) && !(exists|j: int|
                        0 <= j < i + 1 && more.keys()[j] == x) implies self@[x] == old(self)@[x] by {
                    assert(x != k);
                    if exists|j: int| 0 <= j < i && more.keys()[j] == x {
                        let j = choose|j: int| 0 <= j < i && more.keys()[j] == x;
                        assert(0 <= j < i + 1 && more.keys()[j] == x);
                    }
                }
            }
            i += 1;
        }
        proof {
            more.lemma_view();
            let want = old(self)@.union_prefer_right(more@);
            assert forall|x: u32| self@.contains_key(x) == want.contains_key(x) by {
                if more@.contains_key(x) {
                    let j = more.keys().index_of(x);
                    assert(0 <= j < n && more.keys()[j] == x);
                }
            }
            assert forall|x: u32| self@.contains_key(x) implies self@[x] == want[x] by {
                if more@.contains_key(x) {
                    let j = more.keys().index_of(x);
                    assert(0 <= j < n && more.keys()[j] == x);
                }
            }
            assert(self@ =~= want);
        }
    }
}

impl<V: Clone> Clone for OrdMap<V> {
    /// A map with the same keys, each with a clone of its value.
    fn clone(&self) -> (r: Self)
        ensures
            r.wf(),
            r.keys() == self.keys(),
            forall|i: int|
                0 <= i < self.keys().len() ==> cloned::<V>(
                    #[trigger] self.values()[i],
                    r.values()[i],
                ),
    {
        proof {
            use_type_invariant(self);
        }
        let keys = self.keys.clone();
        let vals = self.vals.clone();
        assert(keys@ =~= self.keys@);
        OrdMap { keys, vals }
    }
}

impl DeepClone for () {
    fn deep_clone(&self) -> (r: Self) {
        ()
    }
}

impl<V: DeepClone> DeepClone for OrdMap<V> {
    fn deep_clone(&self) -> (r: Self) {
        proof {
            use_type_invariant(self);
        }
        let keys = self.keys.deep_clone();
        let vals = self.vals.deep_clone();
        assert(keys@ =~= self.keys@) by {
            assert(keys.deep_view().len() == self.keys.deep_view().len());
            assert forall|i: int| 0 <= i < keys@.len() implies keys@[i] == self.keys@[i] by {
                assert(keys.deep_view()[i] == self.keys.deep_view()[i]);
            }
        }
        assert(vals@.len() == self.vals@.len()) by {
            assert(vals.deep_view().len() == self.vals.deep_view().len());
        }
        let r = OrdMap { keys, vals };
        proof {
            r.lemma_view();
            self.lemma_view();
            assert forall|k: u32| r@.dom().contains(k) implies r@[k] == self@[k] by {
                let j = r.keys().index_of(k);
                assert(r.vals.deep_view()[j] == self.vals.deep_view()[j]);
            }
            assert(r@ =~= self@);
        }
        r
    }
}

} // verus!
