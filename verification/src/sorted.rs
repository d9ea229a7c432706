//! Maps and sets that keep their keys in ascending order.
use vstd::prelude::*;

use crate::refs::Key;

verus! {

/// Do the keys of `s` ascend?
pub open spec fn ascending<K: Key>(s: Seq<K>) -> bool {
    forall|i: int, j: int| 0 <= i < j < s.len() ==> #[trigger] s[i].rank() < #[trigger] s[j].rank()
}

/// Two ascending sequences with the same elements are the same sequence.
pub proof fn lemma_ascending_unique<K: Key>(a: Seq<K>, b: Seq<K>)
    requires
        ascending(a),
        ascending(b),
        a.to_set() == b.to_set(),
    ensures
        a == b,
    decreases a.len(),
{
    if a.len() == 0 {
        if b.len() > 0 {
            assert(b.to_set().contains(b[0]));
            assert(a.to_set().contains(b[0]));
        }
    } else if b.len() == 0 {
        assert(a.to_set().contains(a[0]));
        assert(b.to_set().contains(a[0]));
    } else {
        assert(a.to_set().contains(a[0]));
        assert(b.to_set().contains(b[0]));
        assert(b.to_set().contains(a[0]));
        assert(a.to_set().contains(b[0]));
        let i = choose|i: int| 0 <= i < a.len() && a[i] == b[0];
        let j = choose|j: int| 0 <= j < b.len() && b[j] == a[0];
        assert(a[0].rank() == b[0].rank());
        K::lemma_rank_injective(a[0], b[0]);
        let a1 = a.drop_first();
        let b1 = b.drop_first();
        assert(ascending(a1)) by {
            assert forall|i: int, j: int| 0 <= i < j < a1.len() implies #[trigger] a1[i].rank()
                < #[trigger] a1[j].rank() by {
                assert(a[i + 1].rank() < a[j + 1].rank());
            }
        }
        assert(ascending(b1)) by {
            assert forall|i: int, j: int| 0 <= i < j < b1.len() implies #[trigger] b1[i].rank()
                < #[trigger] b1[j].rank() by {
                assert(b[i + 1].rank() < b[j + 1].rank());
            }
        }
        assert(a1.to_set() =~= b1.to_set()) by {
            assert forall|k: K| a1.to_set().contains(k) <==> b1.to_set().contains(k) by {
                if a1.contains(k) {
                    let i = choose|i: int| 0 <= i < a1.len() && a1[i] == k;
                    assert(a[i + 1] == k);
                    assert(a.to_set().contains(k));
                    assert(b.to_set().contains(k));
                    let j = choose|j: int| 0 <= j < b.len() && b[j] == k;
                    assert(a[0].rank() < a[i + 1].rank());
                    assert(b1[j - 1] == k);
                }
                if b1.contains(k) {
                    let i = choose|i: int| 0 <= i < b1.len() && b1[i] == k;
                    assert(b[i + 1] == k);
                    assert(b.to_set().contains(k));
                    assert(a.to_set().contains(k));
                    let j = choose|j: int| 0 <= j < a.len() && a[j] == k;
                    assert(b[0].rank() < b[i + 1].rank());
                    assert(a1[j - 1] == k);
                }
            }
        }
        lemma_ascending_unique(a1, b1);
        assert(a =~= seq![a[0]] + a1);
        assert(b =~= seq![b[0]] + b1);
    }
}

/// A map whose entries stand in the ascending order of their keys.
#[derive(Debug)]
pub struct SortedMap<K, V> {
    pub entries: Vec<(K, V)>,
}

impl<K: Key, V> SortedMap<K, V> {
    /// The keys, in ascending order.
    pub open spec fn keys(self) -> Seq<K> {
        Seq::new(self.entries@.len(), |i: int| self.entries@[i].0)
    }

    pub open spec fn wf(self) -> bool {
        ascending(self.keys())
    }

    /// Where `k` stands among the entries.
    pub open spec fn index_of(self, k: K) -> int {
        choose|i: int| 0 <= i < self.entries@.len() && self.entries@[i].0 == k
    }

    pub open spec fn view(self) -> Map<K, V> {
        Map::new(
            |k: K| self.keys().contains(k),
            |k: K| self.entries@[self.index_of(k)].1,
        )
    }

    /// Each entry is in the map.
    pub proof fn lemma_entry(self, i: int)
        requires
            self.wf(),
            0 <= i < self.entries@.len(),
        ensures
            self@.dom().contains(self.entries@[i].0),
            self@[self.entries@[i].0] == self.entries@[i].1,
            self.index_of(self.entries@[i].0) == i,
    {
        assert(self.keys()[i] == self.entries@[i].0);
        let k = self.entries@[i].0;
        assert(exists|j: int| 0 <= j < self.entries@.len() && self.entries@[j].0 == k);
        let j = self.index_of(k);
        assert(0 <= j < self.entries@.len() && self.entries@[j].0 == k);
        assert(self.keys()[j] == k);
        if i < j {
            assert(self.keys()[i].rank() < self.keys()[j].rank());
        }
        if j < i {
            assert(self.keys()[j].rank() < self.keys()[i].rank());
        }
    }

    /// Each key of the map is that of an entry.
    pub proof fn lemma_key(self, k: K) -> (i: int)
        requires
            self.wf(),
            self@.dom().contains(k),
        ensures
            0 <= i < self.entries@.len(),
            self.entries@[i].0 == k,
            self@[k] == self.entries@[i].1,
    {
        let i = choose|i: int| 0 <= i < self.keys().len() && self.keys()[i] == k;
        self.lemma_entry(i);
        i
    }

    /// The keys are those of the map, in ascending order.
    pub proof fn lemma_keys(self)
        requires
            self.wf(),
        ensures
            ascending(self.keys()),
            self.keys().to_set() == self@.dom(),
            self.keys().no_duplicates(),
            self@.dom().finite(),
            self@.dom().len() == self.entries@.len(),
    {
        assert(self.keys().to_set() =~= self@.dom());
        assert(self.keys().no_duplicates()) by {
            assert forall|i: int, j: int|
                0 <= i < self.keys().len() && 0 <= j < self.keys().len() && i != j implies self.keys()[i]
                != self.keys()[j] by {
                if i < j {
                    assert(self.keys()[i].rank() < self.keys()[j].rank());
                } else {
                    assert(self.keys()[j].rank() < self.keys()[i].rank());
                }
            }
        }
        self.keys().unique_seq_to_set();
        vstd::seq_lib::seq_to_set_is_finite(self.keys());
    }

    /// Another value in place of the one at a position.
    pub proof fn lemma_set_value(self, before: Self, i: int, v: V)
        requires
            before.wf(),
            0 <= i < before.entries@.len(),
            self.entries@ == before.entries@.update(i, (before.entries@[i].0, v)),
        ensures
            self.wf(),
            self@ == before@.insert(before.entries@[i].0, v),
    {
        assert(self.keys() =~= before.keys());
        let k = before.entries@[i].0;
        before.lemma_entry(i);
        let target = before@.insert(k, v);
        assert forall|q: K| self@.dom().contains(q) <==> target.dom().contains(q) by {}
        assert forall|q: K| self@.dom().contains(q) implies self@[q] == target[q] by {
            let j = self.lemma_key(q);
            before.lemma_entry(j);
        }
        assert(self@ =~= target);
    }

    pub fn new() -> (r: Self)
        ensures
            r.wf(),
            r@ == Map::<K, V>::empty(),
            r.entries@.len() == 0,
    {
        let r = SortedMap { entries: Vec::new() };
        assert(r@ =~= Map::<K, V>::empty());
        r
    }

    pub fn len(&self) -> (r: usize)
        requires
            self.wf(),
        ensures
            r == self@.dom().len(),
            r == self.entries@.len(),
    {
        proof {
            self.lemma_keys();
        }
        self.entries.len()
    }

    pub fn is_empty(&self) -> (r: bool)
        requires
            self.wf(),
        ensures
            r == (self@ == Map::<K, V>::empty()),
            r == (self.entries@.len() == 0),
    {
        proof {
            if self.entries@.len() == 0 {
                assert(self@ =~= Map::<K, V>::empty());
            } else {
                self.lemma_entry(0);
            }
        }
        self.entries.len() == 0
    }

    /// The number of keys that come before `k`.
    pub fn lower_bound(&self, k: &K) -> (r: usize)
        requires
            self.wf(),
        ensures
            r <= self.entries@.len(),
            forall|i: int| 0 <= i < r ==> (#[trigger] self.entries@[i]).0.rank() < k.rank(),
            forall|i: int|
                r <= i < self.entries@.len() ==> (#[trigger] self.entries@[i]).0.rank()
                    >= k.rank(),
    {
        let mut lo: usize = 0;
        let mut hi: usize = self.entries.len();
        while lo < hi
            invariant
                self.wf(),
                lo <= hi <= self.entries@.len(),
                forall|i: int| 0 <= i < lo ==> (#[trigger] self.entries@[i]).0.rank() < k.rank(),
                forall|i: int|
                    hi <= i < self.entries@.len() ==> (#[trigger] self.entries@[i]).0.rank()
                        >= k.rank(),
            decreases hi - lo,
        {
            let mid: usize = lo + (hi - lo) / 2;
            if self.entries[mid].0.precedes(k) {
                proof {
                    assert forall|i: int| 0 <= i < mid + 1 implies (
                    #[trigger] self.entries@[i]).0.rank() < k.rank() by {
                        if i < mid {
                            assert(self.keys()[i].rank() < self.keys()[mid as int].rank());
                        }
                    }
                }
                lo = mid + 1;
            } else {
                proof {
                    assert forall|i: int| mid <= i < self.entries@.len() implies (
                    #[trigger] self.entries@[i]).0.rank() >= k.rank() by {
                        if i > mid {
                            assert(self.keys()[mid as int].rank() < self.keys()[i].rank());
                        }
                    }
                }
                hi = mid;
            }
        }
        lo
    }

    /// Where the entry of `k` stands, if there is one.
    pub fn find(&self, k: &K) -> (r: Option<usize>)
        requires
            self.wf(),
        ensures
            match r {
                Some(i) => i < self.entries@.len() && self.entries@[i as int].0 == *k
                    && self@.dom().contains(*k) && self@[*k] == self.entries@[i as int].1,
                None => !self@.dom().contains(*k),
            },
    {
        let i = self.lower_bound(k);
        if i < self.entries.len() && !k.precedes(&self.entries[i].0) {
            proof {
                K::lemma_rank_injective(self.entries@[i as int].0, *k);
                self.lemma_entry(i as int);
            }
            Some(i)
        } else {
            proof {
                if self@.dom().contains(*k) {
                    let j = self.lemma_key(*k);
                    assert(self.entries@[j].0.rank() == k.rank());
                    if i < j {
                        assert(self.keys()[i as int].rank() < self.keys()[j].rank());
                    }
                }
            }
            None
        }
    }

    pub fn contains_key(&self, k: &K) -> (r: bool)
        requires
            self.wf(),
        ensures
            r == self@.dom().contains(*k),
    {
        self.find(k).is_some()
    }

    pub fn get(&self, k: &K) -> (r: Option<&V>)
        requires
            self.wf(),
        ensures
            match r {
                Some(v) => self@.dom().contains(*k) && *v == self@[*k],
                None => !self@.dom().contains(*k),
            },
    {
        match self.find(k) {
            Some(i) => Some(&self.entries[i].1),
            None => None,
        }
    }

    /// Maps `k` to `v`, and returns what `k` was mapped to before.
    pub fn insert(&mut self, k: K, v: V) -> (r: Option<V>)
        requires
            old(self).wf(),
        ensures
            final(self).wf(),
            final(self)@ == old(self)@.insert(k, v),
            match r {
                Some(o) => old(self)@.dom().contains(k) && o == old(self)@[k],
                None => !old(self)@.dom().contains(k),
            },
    {
        let i = self.lower_bound(&k);
        let ghost before = *self;
        if i < self.entries.len() && !k.precedes(&self.entries[i].0) {
            proof {
                K::lemma_rank_injective(self.entries@[i as int].0, k);
                self.lemma_entry(i as int);
            }
            let mut e = (k, v);
            core::mem::swap(&mut self.entries[i], &mut e);
            proof {
                assert(self.keys() =~= before.keys());
                assert(self@ =~= before@.insert(k, v)) by {
                    assert forall|q: K| self@.dom().contains(q) implies self@[q] == before@.insert(
                        k,
                        v,
                    )[q] by {
                        let a = self.lemma_key(q);
                        before.lemma_entry(a);
                    }
                }
            }
            Some(e.1)
        } else {
            proof {
                if self@.dom().contains(k) {
                    let j = self.lemma_key(k);
                    if i < j {
                        assert(self.keys()[i as int].rank() < self.keys()[j].rank());
                    }
                }
            }
            self.entries.insert(i, (k, v));
            proof {
                assert(self.keys() =~= before.keys().insert(i as int, k));
                assert forall|a: int, b: int| 0 <= a < b < self.keys().len() implies
                    #[trigger] self.keys()[a].rank() < #[trigger] self.keys()[b].rank() by {
                    let a0 = if a < i { a } else { a - 1 };
                    let b0 = if b < i { b } else { b - 1 };
                    if a != i && b != i {
                        assert(before.keys()[a0].rank() < before.keys()[b0].rank());
                    } else if a == i {
                        assert(before.entries@[b0].0.rank() >= k.rank());
                        if before.entries@[b0].0.rank() == k.rank() {
                            K::lemma_rank_injective(before.entries@[b0].0, k);
                            before.lemma_entry(b0);
                        }
                    } else {
                        assert(before.entries@[a0].0.rank() < k.rank());
                    }
                }
                assert(self@ =~= before@.insert(k, v)) by {
                    assert forall|q: K|
                        self@.dom().contains(q) <==> before@.insert(k, v).dom().contains(q) by {
                        if self@.dom().contains(q) {
                            let a = self.lemma_key(q);
                            if a < i {
                                before.lemma_entry(a);
                            } else if a > i {
                                before.lemma_entry(a - 1);
                            }
                        }
                        if q == k {
                            self.lemma_entry(i as int);
                        } else if before@.dom().contains(q) {
                            let a = before.lemma_key(q);
                            if a < i {
                                self.lemma_entry(a);
                            } else {
                                self.lemma_entry(a + 1);
                            }
                        }
                    }
                    assert forall|q: K| self@.dom().contains(q) implies self@[q] == before@.insert(
                        k,
                        v,
                    )[q] by {
                        let a = self.lemma_key(q);
                        if a < i {
                            before.lemma_entry(a);
                        } else if a > i {
                            before.lemma_entry(a - 1);
                        }
                    }
                }
            }
            None
        }
    }

    /// Removes the entry at position `i`.
    pub fn remove_at(&mut self, i: usize) -> (r: (K, V))
        requires
            old(self).wf(),
            i < old(self).entries@.len(),
        ensures
            final(self).wf(),
            r == old(self).entries@[i as int],
            old(self)@.dom().contains(r.0),
            r.1 == old(self)@[r.0],
            final(self)@ == old(self)@.remove(r.0),
            final(self).entries@ == old(self).entries@.remove(i as int),
    {
        let ghost before = *self;
        let r = self.entries.remove(i);
        proof {
            let k = r.0;
            before.lemma_entry(i as int);
            assert(self.keys() =~= before.keys().remove(i as int));
            assert forall|a: int, b: int| 0 <= a < b < self.keys().len() implies
                #[trigger] self.keys()[a].rank() < #[trigger] self.keys()[b].rank() by {
                let a0 = if a < i { a } else { a + 1 };
                let b0 = if b < i { b } else { b + 1 };
                assert(before.keys()[a0].rank() < before.keys()[b0].rank());
            }
            assert(self@ =~= before@.remove(k)) by {
                assert forall|q: K|
                    self@.dom().contains(q) <==> before@.remove(k).dom().contains(q) by {
                    if self@.dom().contains(q) {
                        let a = self.lemma_key(q);
                        let a0 = if a < i { a } else { a + 1 };
                        before.lemma_entry(a0);
                    }
                    if q != k && before@.dom().contains(q) {
                        let a = before.lemma_key(q);
                        self.lemma_entry(if a < i { a } else { a - 1 });
                    }
                }
                assert forall|q: K| self@.dom().contains(q) implies self@[q] == before@.remove(k)[q] by {
                    let a = self.lemma_key(q);
                    let a0 = if a < i { a } else { a + 1 };
                    before.lemma_entry(a0);
                }
            }
        }
        r
    }

    /// Removes `k`, and returns what it was mapped to.
    pub fn remove(&mut self, k: &K) -> (r: Option<V>)
        requires
            old(self).wf(),
        ensures
            final(self).wf(),
            final(self)@ == old(self)@.remove(*k),
            match r {
                Some(o) => old(self)@.dom().contains(*k) && o == old(self)@[*k],
                None => !old(self)@.dom().contains(*k),
            },
    {
        match self.find(k) {
            Some(i) => {
                let r = self.remove_at(i);
                Some(r.1)
            },
            None => {
                assert(self@ =~= self@.remove(*k));
                None
            },
        }
    }

    /// Removes the entry with the least key.
    pub fn pop_first(&mut self) -> (r: Option<(K, V)>)
        requires
            old(self).wf(),
        ensures
            final(self).wf(),
            match r {
                Some(e) => {
                    &&& old(self)@.dom().contains(e.0)
                    &&& e.1 == old(self)@[e.0]
                    &&& forall|k: K| #[trigger]
                        old(self)@.dom().contains(k) ==> e.0.rank() <= k.rank()
                    &&& final(self)@ == old(self)@.remove(e.0)
                    &&& old(self).entries@.len() > 0
                    &&& final(self).entries@ == old(self).entries@.drop_first()
                },
                None => old(self)@ == Map::<K, V>::empty() && final(self)@ == old(self)@
                    && old(self).entries@.len() == 0,
            },
    {
        if self.entries.len() == 0 {
            assert(self@ =~= Map::<K, V>::empty());
            None
        } else {
            proof {
                assert forall|k: K| #[trigger] self@.dom().contains(k) implies self.entries@[0].0.rank()
                    <= k.rank() by {
                    let i = self.lemma_key(k);
                    if i > 0 {
                        assert(self.keys()[0].rank() < self.keys()[i].rank());
                    }
                }
            }
            let ghost before = self.entries@;
            let r = self.remove_at(0);
            assert(self.entries@ =~= before.drop_first());
            Some(r)
        }
    }

    /// Cuts the map in two: `self` keeps the keys that come before `k`, and
    /// the rest is returned.
    pub fn split_off(&mut self, k: &K) -> (r: Self)
        requires
            old(self).wf(),
        ensures
            final(self).wf(),
            r.wf(),
            final(self)@ == old(self)@.restrict(
                old(self)@.dom().filter(|q: K| q.rank() < k.rank()),
            ),
            r@ == old(self)@.restrict(old(self)@.dom().filter(|q: K| q.rank() >= k.rank())),
            final(self).entries@ + r.entries@ == old(self).entries@,
    {
        let ghost before = *self;
        let i = self.lower_bound(k);
        let tail = self.entries.split_off(i);
        let r = SortedMap { entries: tail };
        proof {
            assert(self.keys() =~= before.keys().subrange(0, i as int));
            assert(r.keys() =~= before.keys().subrange(i as int, before.keys().len() as int));
            assert(ascending(self.keys()));
            assert forall|a: int, b: int| 0 <= a < b < r.keys().len() implies
                #[trigger] r.keys()[a].rank() < #[trigger] r.keys()[b].rank() by {
                assert(before.keys()[a + i].rank() < before.keys()[b + i].rank());
            }
            let low = before@.restrict(before@.dom().filter(|q: K| q.rank() < k.rank()));
            let high = before@.restrict(before@.dom().filter(|q: K| q.rank() >= k.rank()));
            assert forall|q: K| self@.dom().contains(q) <==> low.dom().contains(q) by {
                if self@.dom().contains(q) {
                    let a = self.lemma_key(q);
                    assert(self.entries@[a] == before.entries@[a]);
                    before.lemma_entry(a);
                }
                if low.dom().contains(q) {
                    let a = before.lemma_key(q);
                    assert(a < i);
                    assert(self.entries@[a] == before.entries@[a]);
                    self.lemma_entry(a);
                }
            }
            assert forall|q: K| self@.dom().contains(q) implies self@[q] == low[q] by {
                let a = self.lemma_key(q);
                assert(self.entries@[a] == before.entries@[a]);
                before.lemma_entry(a);
            }
            assert(self@ =~= low);
            assert forall|q: K| r@.dom().contains(q) <==> high.dom().contains(q) by {
                if r@.dom().contains(q) {
                    let a = r.lemma_key(q);
                    assert(r.entries@[a] == before.entries@[a + i]);
                    before.lemma_entry(a + i);
                }
                if high.dom().contains(q) {
                    let a = before.lemma_key(q);
                    assert(a >= i);
                    assert(r.entries@[a - i] == before.entries@[a]);
                    r.lemma_entry(a - i);
                }
            }
            assert forall|q: K| r@.dom().contains(q) implies r@[q] == high[q] by {
                let a = r.lemma_key(q);
                assert(r.entries@[a] == before.entries@[a + i]);
                before.lemma_entry(a + i);
            }
            assert(r@ =~= high);
            assert(self.entries@ + r.entries@ =~= before.entries@);
        }
        r
    }
}

/// A set whose elements stand in ascending order.
#[derive(Debug)]
pub struct SortedSet<K> {
    pub map: SortedMap<K, ()>,
}

impl<K: Key> SortedSet<K> {
    /// The elements, in ascending order.
    pub open spec fn items(self) -> Seq<K> {
        self.map.keys()
    }

    pub open spec fn wf(self) -> bool {
        self.map.wf()
    }

    pub open spec fn view(self) -> Set<K> {
        self.map@.dom()
    }

    /// `items` holds the elements of the set, in ascending order.
    pub proof fn lemma_items(self)
        requires
            self.wf(),
        ensures
            ascending(self.items()),
            self.items().no_duplicates(),
            self.items().to_set() == self@,
            self@.finite(),
            self@.len() == self.items().len(),
    {
        self.map.lemma_keys();
    }

    /// What stands at a position is in the set.
    pub proof fn lemma_item(self, i: int)
        requires
            self.wf(),
            0 <= i < self.items().len(),
        ensures
            self@.contains(self.items()[i]),
    {
        self.map.lemma_entry(i);
    }

    /// Each element stands at a position.
    pub proof fn lemma_position(self, k: K) -> (i: int)
        requires
            self.wf(),
            self@.contains(k),
        ensures
            0 <= i < self.items().len(),
            self.items()[i] == k,
    {
        self.map.lemma_key(k)
    }

    pub fn new() -> (r: Self)
        ensures
            r.wf(),
            r@ == Set::<K>::empty(),
            r.items() == Seq::<K>::empty(),
    {
        let r = SortedSet { map: SortedMap::new() };
        assert(r@ =~= Set::<K>::empty());
        assert(r.items() =~= Seq::<K>::empty());
        r
    }

    pub fn len(&self) -> (r: usize)
        requires
            self.wf(),
        ensures
            r == self@.len(),
            r == self.items().len(),
    {
        self.map.len()
    }

    pub fn is_empty(&self) -> (r: bool)
        requires
            self.wf(),
        ensures
            r == (self@ == Set::<K>::empty()),
            r == (self.items().len() == 0),
    {
        proof {
            if self.items().len() == 0 {
                assert(self@ =~= Set::<K>::empty());
            } else {
                self.lemma_item(0);
            }
        }
        self.map.is_empty()
    }

    /// The element at position `i`.
    pub fn at(&self, i: usize) -> (r: K)
        requires
            self.wf(),
            i < self.items().len(),
        ensures
            r == self.items()[i as int],
            self@.contains(r),
    {
        proof {
            self.lemma_item(i as int);
        }
        self.map.entries[i].0
    }

    pub fn contains(&self, k: &K) -> (r: bool)
        requires
            self.wf(),
        ensures
            r == self@.contains(*k),
    {
        self.map.contains_key(k)
    }

    /// Adds `k`; was it new?
    pub fn insert(&mut self, k: K) -> (r: bool)
        requires
            old(self).wf(),
        ensures
            final(self).wf(),
            final(self)@ == old(self)@.insert(k),
            r == !old(self)@.contains(k),
    {
        let o = self.map.insert(k, ());
        assert(self@ =~= old(self)@.insert(k));
        o.is_none()
    }

    /// Removes `k`; was it there?
    pub fn remove(&mut self, k: &K) -> (r: bool)
        requires
            old(self).wf(),
        ensures
            final(self).wf(),
            final(self)@ == old(self)@.remove(*k),
            r == old(self)@.contains(*k),
    {
        let o = self.map.remove(k);
        assert(self@ =~= old(self)@.remove(*k));
        o.is_some()
    }

    /// Removes the least element.
    pub fn pop_first(&mut self) -> (r: Option<K>)
        requires
            old(self).wf(),
        ensures
            final(self).wf(),
            match r {
                Some(k) => {
                    &&& old(self)@.contains(k)
                    &&& forall|q: K| #[trigger] old(self)@.contains(q) ==> k.rank() <= q.rank()
                    &&& final(self)@ == old(self)@.remove(k)
                    &&& old(self).items().len() > 0
                    &&& k == old(self).items()[0]
                    &&& final(self).items() == old(self).items().drop_first()
                },
                None => old(self)@ == Set::<K>::empty() && *final(self) == *old(self)
                    && old(self).items().len() == 0,
            },
    {
        if self.map.entries.len() == 0 {
            proof {
                assert(self@ =~= Set::<K>::empty());
            }
            return None;
        }
        let ghost before = *self;
        let o = self.map.pop_first();
        match o {
            Some(e) => {
                proof {
                    assert(self@ =~= before@.remove(e.0));
                    assert(self.items() =~= before.items().drop_first());
                    before.lemma_item(0);
                    before.map.lemma_entry(0);
                    let j = before.lemma_position(e.0);
                    if j > 0 {
                        assert(before.items()[0].rank() < before.items()[j].rank());
                    }
                }
                Some(e.0)
            },
            None => None,
        }
    }

    /// Cuts the set in two: `self` keeps what comes before `k`, and the rest
    /// is returned.
    pub fn split_off(&mut self, k: &K) -> (r: Self)
        requires
            old(self).wf(),
        ensures
            final(self).wf(),
            r.wf(),
            final(self)@ == old(self)@.filter(|q: K| q.rank() < k.rank()),
            r@ == old(self)@.filter(|q: K| q.rank() >= k.rank()),
            final(self).items() + r.items() == old(self).items(),
    {
        let ghost before = *self;
        let m = self.map.split_off(k);
        let r = SortedSet { map: m };
        proof {
            assert(self@ =~= before@.filter(|q: K| q.rank() < k.rank()));
            assert(r@ =~= before@.filter(|q: K| q.rank() >= k.rank()));
            assert(before.map.entries@ == self.map.entries@ + r.map.entries@);
            assert(self.items() + r.items() =~= before.items());
        }
        r
    }

    /// The elements, in ascending order.
    pub fn to_vec(&self) -> (r: Vec<K>)
        requires
            self.wf(),
        ensures
            r@ == self.items(),
    {
        let mut r: Vec<K> = Vec::new();
        let n: usize = self.map.entries.len();
        let mut i: usize = 0;
        while i < n
            invariant
                n == self.map.entries@.len(),
                i <= n,
                r@ == self.items().subrange(0, i as int),
            decreases n - i,
        {
            r.push(self.map.entries[i].0);
            i = i + 1;
            assert(r@ =~= self.items().subrange(0, i as int));
        }
        assert(r@ =~= self.items());
        r
    }

    /// The set of the elements of `v`.
    pub fn from_vec(v: &Vec<K>) -> (r: Self)
        ensures
            r.wf(),
            r@ == v@.to_set(),
    {
        let mut r = SortedSet::new();
        let n: usize = v.len();
        let mut i: usize = 0;
        assert(r@ =~= v@.subrange(0, 0).to_set());
        while i < n
            invariant
                n == v@.len(),
                i <= n,
                r.wf(),
                r@ == v@.subrange(0, i as int).to_set(),
            decreases n - i,
        {
            let ghost before = r@;
            r.insert(v[i]);
            proof {
                let a = v@.subrange(0, i as int);
                let b = v@.subrange(0, i + 1);
                assert(b =~= a.push(v@[i as int]));
                assert forall|k: K| b.to_set().contains(k) <==> before.insert(
                    v@[i as int],
                ).contains(k) by {
                    if a.contains(k) {
                        let j = choose|j: int| 0 <= j < a.len() && a[j] == k;
                        assert(b[j] == k);
                    }
                    if k == v@[i as int] {
                        assert(b[i as int] == k);
                    }
                    if b.contains(k) {
                        let j = choose|j: int| 0 <= j < b.len() && b[j] == k;
                        if j < i {
                            assert(a[j] == k);
                        }
                    }
                }
                assert(r@ =~= b.to_set());
            }
            i = i + 1;
        }
        assert(v@.subrange(0, n as int) =~= v@);
        r
    }
}

} // verus!
