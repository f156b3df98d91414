//! Collections that keep the order of first insertion.
//!
//! Equality of two collections is order-sensitive, and serialized output
//! follows that order.

use vstd::prelude::*;

verus! {

/// Types whose values can be compared through their views.
pub trait Same: View + Sized {
    /// Whether the two values have the same view.
    fn same(&self, other: &Self) -> (r: bool)
        ensures
            r == (self@ == other@);
}

/// `x` added at the end of `s`, unless `s` already holds it.
pub open spec fn seq_insert<A>(s: Seq<A>, x: A) -> Seq<A> {
    if s.contains(x) {
        s
    } else {
        s.push(x)
    }
}

/// The items of `xs` inserted into `s` one after another, first to last.
pub open spec fn seq_insert_all<A>(s: Seq<A>, xs: Seq<A>) -> Seq<A>
    decreases xs.len(),
{
    if xs.len() == 0 {
        s
    } else {
        seq_insert_all(seq_insert(s, xs[0]), xs.drop_first())
    }
}

/// Whether some entry of `s` has the key `k`.
pub open spec fn has_key<K, V>(s: Seq<(K, V)>, k: K) -> bool {
    exists|i: int| 0 <= i < s.len() && (#[trigger] s[i]).0 == k
}

/// The position of the first entry of `s` with the key `k`.
pub open spec fn key_index<K, V>(s: Seq<(K, V)>, k: K) -> int {
    choose|i: int|
        0 <= i < s.len() && (#[trigger] s[i]).0 == k && forall|j: int|
            0 <= j < i ==> (#[trigger] s[j]).0 != k
}

/// `s` with the value of key `k` set to `v`: in place where the key is
/// present, at the end otherwise.
pub open spec fn map_put<K, V>(s: Seq<(K, V)>, k: K, v: V) -> Seq<(K, V)> {
    if has_key(s, k) {
        s.update(key_index(s, k), (k, v))
    } else {
        s.push((k, v))
    }
}

/// The entries of `s` whose keys `keep` holds, in order.
pub open spec fn retain_keys<K, V>(s: Seq<(K, V)>, keep: Seq<K>) -> Seq<(K, V)>
    decreases s.len(),
{
    if s.len() == 0 {
        s
    } else if keep.contains(s.last().0) {
        retain_keys(s.drop_last(), keep).push(s.last())
    } else {
        retain_keys(s.drop_last(), keep)
    }
}

/// The value of key `k` in `s`, if any.
pub open spec fn map_get<K, V>(s: Seq<(K, V)>, k: K) -> Option<V> {
    if has_key(s, k) {
        Some(s[key_index(s, k)].1)
    } else {
        None
    }
}

proof fn lemma_key_index<K, V>(s: Seq<(K, V)>, k: K, i: int)
    requires
        0 <= i < s.len(),
        s[i].0 == k,
        forall|j: int| 0 <= j < i ==> (#[trigger] s[j]).0 != k,
    ensures
        has_key(s, k),
        key_index(s, k) == i,
{
    let w = key_index(s, k);
    assert(0 <= w < s.len() && s[w].0 == k && forall|j: int| 0 <= j < w ==> (#[trigger] s[j]).0
        != k);
    if w < i {
        assert(s[w].0 != k);
    }
    if i < w {
        assert(s[i].0 != k);
    }
}

/// A set that keeps its items in the order in which they were first inserted.
#[derive(Debug, Clone, PartialEq, Eq, Hash)]
pub struct OrderedSet<T> {
    items: Vec<T>,
}

impl<T: View> View for OrderedSet<T> {
    type V = Seq<T::V>;

    closed spec fn view(&self) -> Seq<T::V> {
        self.items@.map_values(|x: T| x@)
    }
}

impl<T: Same> OrderedSet<T> {
    /// An empty set.
    pub fn new() -> (r: Self)
        ensures
            r@ == Seq::<T::V>::empty(),
    {
        let r = OrderedSet { items: Vec::new() };
        assert(r@ =~= Seq::<T::V>::empty());
        r
    }

    /// The number of items.
    pub fn len(&self) -> (r: usize)
        ensures
            r == self@.len(),
    {
        self.items.len()
    }

    /// Whether the set is empty.
    pub fn is_empty(&self) -> (r: bool)
        ensures
            r == (self@.len() == 0),
    {
        self.items.len() == 0
    }

    /// The item at position `i`.
    pub fn get(&self, i: usize) -> (r: &T)
        requires
            i < self@.len(),
        ensures
            r@ == self@[i as int],
    {
        &self.items[i]
    }

    /// The position of `x`, if the set holds it.
    pub fn position(&self, x: &T) -> (r: Option<usize>)
        ensures
            match r {
                Some(i) => i < self@.len() && self@[i as int] == x@ && forall|j: int|
                    0 <= j < i ==> self@[j] != x@,
                None => !self@.contains(x@),
            },
    {
        let mut i: usize = 0;
        while i < self.items.len()
            invariant
                i <= self@.len(),
                forall|j: int| 0 <= j < i ==> self@[j] != x@,
            decreases self@.len() - i,
        {
            if self.items[i].same(x) {
                return Some(i);
            }
            i = i + 1;
        }
        None
    }

    /// Whether the set holds `x`.
    pub fn contains(&self, x: &T) -> (r: bool)
        ensures
            r == self@.contains(x@),
    {
        self.position(x).is_some()
    }

    /// Adds `x` at the end unless the set already holds it; returns whether it
    /// was added.
    pub fn insert(&mut self, x: T) -> (r: bool)
        ensures
            final(self)@ == seq_insert(old(self)@, x@),
            r == !old(self)@.contains(x@),
    {
        if self.contains(&x) {
            false
        } else {
            let ghost prev = self.items@;
            let ghost xv = x@;
            self.items.push(x);
            assert(self@ =~= prev.map_values(|y: T| y@).push(xv));
            true
        }
    }

    /// Removes `x` if the set holds it, keeping the order of the others;
    /// returns whether it was there.
    pub fn remove(&mut self, x: &T) -> (r: bool)
        ensures
            r == old(self)@.contains(x@),
            !r ==> final(self)@ == old(self)@,
            r ==> exists|i: int|
                0 <= i < old(self)@.len() && old(self)@[i] == x@ && (forall|j: int|
                    0 <= j < i ==> old(self)@[j] != x@) && final(self)@ == #[trigger] old(
                    self,
                )@.remove(i),
    {
        match self.position(x) {
            Some(i) => {
                let ghost prev = self.items@;
                let ghost pv = self@;
                self.items.remove(i);
                assert(self@ =~= pv.remove(i as int));
                true
            },
            None => false,
        }
    }

    /// Adds the items of `xs` in order.
    pub fn insert_all(&mut self, xs: Vec<T>)
        ensures
            final(self)@ == seq_insert_all(old(self)@, xs@.map_values(|y: T| y@)),
    {
        let ghost start = xs@;
        let mut xs = xs;
        while xs.len() > 0
            invariant
                seq_insert_all(old(self)@, start.map_values(|y: T| y@)) == seq_insert_all(
                    self@,
                    xs@.map_values(|y: T| y@),
                ),
            decreases xs.len(),
        {
            let ghost rest = xs@;
            let x = xs.remove(0);
            proof {
                let vs = rest.map_values(|y: T| y@);
                assert(xs@.map_values(|y: T| y@) =~= vs.drop_first());
            }
            self.insert(x);
        }
    }
}

/// A map that keeps its entries in the order in which their keys were first
/// inserted; setting an existing key keeps its position.
#[derive(Debug, Clone, PartialEq, Eq)]
pub struct OrderedMap<K, V> {
    entries: Vec<(K, V)>,
}

/// The view of a map entry.
pub open spec fn entry_view<K: View, V: View>(e: (K, V)) -> (K::V, V::V) {
    (e.0@, e.1@)
}

impl<K: View, V: View> View for OrderedMap<K, V> {
    type V = Seq<(K::V, V::V)>;

    closed spec fn view(&self) -> Seq<(K::V, V::V)> {
        self.entries@.map_values(|e: (K, V)| entry_view(e))
    }
}

impl<K: Same, V: View> OrderedMap<K, V> {
    /// An empty map.
    pub fn new() -> (r: Self)
        ensures
            r@ == Seq::<(K::V, V::V)>::empty(),
    {
        let r = OrderedMap { entries: Vec::new() };
        assert(r@ =~= Seq::<(K::V, V::V)>::empty());
        r
    }

    /// The number of entries.
    pub fn len(&self) -> (r: usize)
        ensures
            r == self@.len(),
    {
        self.entries.len()
    }

    /// Whether the map is empty.
    pub fn is_empty(&self) -> (r: bool)
        ensures
            r == (self@.len() == 0),
    {
        self.entries.len() == 0
    }

    /// The key of the entry at position `i`.
    pub fn key(&self, i: usize) -> (r: &K)
        requires
            i < self@.len(),
        ensures
            r@ == self@[i as int].0,
    {
        &self.entries[i].0
    }

    /// The value of the entry at position `i`.
    pub fn value(&self, i: usize) -> (r: &V)
        requires
            i < self@.len(),
        ensures
            r@ == self@[i as int].1,
    {
        &self.entries[i].1
    }

    /// The position of the entry with key `k`, if any.
    pub fn position(&self, k: &K) -> (r: Option<usize>)
        ensures
            match r {
                Some(i) => i < self@.len() && self@[i as int].0 == k@ && has_key(self@, k@) && i
                    == key_index(self@, k@),
                None => !has_key(self@, k@),
            },
    {
        let mut i: usize = 0;
        while i < self.entries.len()
            invariant
                i <= self@.len(),
                forall|j: int| 0 <= j < i ==> (#[trigger] self@[j]).0 != k@,
            decreases self@.len() - i,
        {
            if self.entries[i].0.same(k) {
                proof {
                    lemma_key_index(self@, k@, i as int);
                }
                return Some(i);
            }
            i = i + 1;
        }
        None
    }

    /// Keeps only the entries whose keys `keep` holds.
    pub fn retain(&mut self, keep: &OrderedSet<K>)
        ensures
            final(self)@ == retain_keys(old(self)@, keep@),
    {
        let ghost orig = self@;
        let n = self.entries.len();
        let mut kept: Vec<(K, V)> = Vec::new();
        let mut k: usize = 0;
        assert(orig.subrange(0, 0) =~= Seq::<(K::V, V::V)>::empty());
        while k < n
            invariant
                k <= n,
                n == orig.len(),
                self.entries@.len() == n - k,
                self.entries@.map_values(|e: (K, V)| entry_view(e)) == orig.subrange(
                    k as int,
                    n as int,
                ),
                kept@.map_values(|e: (K, V)| entry_view(e)) == retain_keys(
                    orig.subrange(0, k as int),
                    keep@,
                ),
            decreases n - k,
        {
            let ghost before = self.entries@;
            let ghost kv = kept@;
            let e = self.entries.remove(0);
            proof {
                assert(e == before[0]);
                assert(before.map_values(|e: (K, V)| entry_view(e))[0] == entry_view(e));
                let bm = before.map_values(|e: (K, V)| entry_view(e));
                assert(self.entries@ =~= before.subrange(1, before.len() as int));
                assert forall|j: int| 0 <= j < self.entries@.len() implies entry_view(
                    #[trigger] self.entries@[j],
                ) == orig[k + 1 + j] by {
                    assert(self.entries@[j] == before[j + 1]);
                    assert(bm[j + 1] == orig.subrange(k as int, n as int)[j + 1]);
                };
                assert(self.entries@.map_values(|e: (K, V)| entry_view(e)) =~= orig.subrange(
                    k + 1,
                    n as int,
                ));
                assert(orig.subrange(0, k + 1).drop_last() =~= orig.subrange(0, k as int));
                assert(orig.subrange(0, k + 1).last() == entry_view(e));
            }
            if keep.contains(&e.0) {
                kept.push(e);
                assert(kept@.map_values(|e: (K, V)| entry_view(e)) =~= kv.map_values(
                    |e: (K, V)| entry_view(e),
                ).push(entry_view(e)));
            }
            k = k + 1;
        }
        self.entries = kept;
        assert(orig.subrange(0, n as int) =~= orig);
    }

    /// The value of key `k`, if any.
    pub fn get(&self, k: &K) -> (r: Option<&V>)
        ensures
            match r {
                Some(v) => map_get(self@, k@) == Some(v@),
                None => map_get(self@, k@) is None,
            },
    {
        match self.position(k) {
            Some(i) => Some(&self.entries[i].1),
            None => None,
        }
    }

    /// Removes the entry of key `k`, keeping the order of the others, and
    /// returns its value.
    pub fn remove(&mut self, k: &K) -> (r: Option<V>)
        ensures
            match r {
                Some(v) => has_key(old(self)@, k@) && map_get(old(self)@, k@) == Some(v@)
                    && final(self)@ == old(self)@.remove(key_index(old(self)@, k@)),
                None => !has_key(old(self)@, k@) && final(self)@ == old(self)@,
            },
    {
        match self.position(k) {
            Some(i) => {
                let ghost pv = self@;
                let (_, v) = self.entries.remove(i);
                assert(self@ =~= pv.remove(i as int));
                Some(v)
            },
            None => None,
        }
    }

    /// Sets the value of key `k` to `v`.
    pub fn insert(&mut self, k: K, v: V)
        ensures
            final(self)@ == map_put(old(self)@, k@, v@),
    {
        let ghost prev = self.entries@;
        let ghost e = (k@, v@);
        match self.position(&k) {
            Some(i) => {
                self.entries.set(i, (k, v));
                assert(self@ =~= prev.map_values(|e: (K, V)| entry_view(e)).update(i as int, e));
            },
            None => {
                self.entries.push((k, v));
                assert(self@ =~= prev.map_values(|e: (K, V)| entry_view(e)).push(e));
            },
        }
    }
}

impl<K: Same, T: Same> OrderedMap<K, OrderedSet<T>> {
    /// Adds the items of `xs`, in order, to the set held under `k`, creating
    /// an empty one first where `k` is absent.
    #[verifier::rlimit(40)]
    pub fn merge(&mut self, k: K, xs: Vec<T>)
        ensures
            final(self)@ == map_put(
                old(self)@,
                k@,
                seq_insert_all(
                    match map_get(old(self)@, k@) {
                        Some(s) => s,
                        None => Seq::<T::V>::empty(),
                    },
                    xs@.map_values(|y: T| y@),
                ),
            ),
    {
        let ghost prev = self.entries@;
        let ghost pv = self@;
        let ghost xv = xs@.map_values(|y: T| y@);
        match self.position(&k) {
            Some(i) => {
                let (key, mut set) = self.entries.remove(i);
                assert(key@ == k@ && set@ == map_get(pv, k@)->0) by {
                    assert(pv[i as int] == entry_view(prev[i as int]));
                };
                set.insert_all(xs);
                let ghost e = (k@, set@);
                let ghost sv = set@;
                assert(sv == seq_insert_all(map_get(pv, k@)->0, xv));
                self.entries.insert(i, (key, set));
                assert(self.entries@ =~= prev.update(i as int, (key, set)));
                assert(self@ =~= pv.update(i as int, e));
            },
            None => {
                let mut set = OrderedSet::new();
                set.insert_all(xs);
                let ghost e = (k@, set@);
                self.entries.push((k, set));
                assert(self@ =~= pv.push(e));
            },
        }
    }
}

} // verus!
