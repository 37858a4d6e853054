use crate::entries::Bound;
use crate::entries::end_index;
use crate::entries::entries_map;
use crate::entries::has_key;
use crate::entries::in_bounds;
use crate::entries::index_for;
use crate::entries::lemma_index_unique;
use crate::entries::lemma_map_size;
use crate::entries::lemma_sorted_canonical;
use crate::entries::lemma_sorted_insert;
use crate::entries::lemma_sorted_remove;
use crate::entries::lemma_sorted_update;
use crate::entries::lower_bound;
use crate::entries::pairs_map;
use crate::entries::search;
use crate::entries::sorted;
use crate::entries::start_index;
use crate::entries::upper_bound;
use crate::order::KeyOrder;
use crate::order::TotalOrder;
use crate::order::lt;
use vstd::pervasive::VecAdditionalExecFns;
use vstd::prelude::*;

verus! {

/// Memory-efficient mutable ordered map backed by a contiguous flat array.
///
/// Lookup is a binary search. Insert and remove are linear in general, but
/// run in constant time when they touch the current maximum key.
pub struct FlatMap<K: TotalOrder, V> {
    items: Vec<(K, V)>,
}

impl<K: TotalOrder, V> FlatMap<K, V> {
    /// The backing entries, ascending by key.
    pub closed spec fn entries(&self) -> Seq<(K, V)> {
        self.items@
    }

    /// The container invariant: entries strictly ascending by key, hence
    /// duplicate-free. Every constructor establishes it and every operation
    /// preserves it.
    pub open spec fn wf(&self) -> bool {
        sorted(self.entries())
    }

    /// The mathematical map this container holds.
    pub open spec fn as_map(&self) -> Map<K, V> {
        entries_map(self.entries())
    }

    /// An empty map.
    pub fn new() -> (r: Self)
        ensures
            r.wf(),
            r.entries() == Seq::<(K, V)>::empty(),
            r.as_map() == Map::<K, V>::empty(),
    {
        let r = FlatMap { items: Vec::new() };
        proof {
            assert(r.as_map() =~= Map::<K, V>::empty());
        }
        r
    }

    /// Builds the map from a pair list of any order; a key given several
    /// times keeps the value of its last occurrence.
    pub fn from_vec(items: Vec<(K, V)>) -> (r: Self)
        ensures
            r.wf(),
            r.as_map() == pairs_map(items@),
    {
        let ghost input = items@;
        let mut rest = items;
        let mut rev: Vec<(K, V)> = Vec::new();
        while rest.len() > 0
            invariant
                rev@.len() + rest@.len() == input.len(),
                rest@ == input.subrange(0, rest@.len() as int),
                forall|j: int|
                    0 <= j < rev@.len() ==> #[trigger] rev@[j] == input[input.len() - 1 - j],
            decreases rest.len(),
        {
            let ghost l = rest@.len() as int;
            let p = rest.pop().unwrap();
            proof {
                assert(p == input[l - 1]);
                assert(rest@ =~= input.subrange(0, l - 1));
            }
            rev.push(p);
        }
        let mut m = Self::new();
        proof {
            assert(input.subrange(0, 0) =~= Seq::<(K, V)>::empty());
        }
        while rev.len() > 0
            invariant
                m.wf(),
                rev@.len() <= input.len(),
                forall|j: int|
                    0 <= j < rev@.len() ==> #[trigger] rev@[j] == input[input.len() - 1 - j],
                m.as_map() == pairs_map(input.subrange(0, input.len() - rev@.len())),
            decreases rev.len(),
        {
            let ghost done = input.len() - rev@.len();
            let p = rev.pop().unwrap();
            proof {
                assert(p == input[done]);
                let t = input.subrange(0, done + 1);
                assert(t.drop_last() =~= input.subrange(0, done));
                assert(t.last() == input[done]);
            }
            let (k, v) = p;
            m.insert(k, v);
        }
        proof {
            assert(input.subrange(0, input.len() as int) =~= input);
        }
        m
    }

    /// Whether the map holds an entry for `key`.
    pub fn contains_key(&self, key: &K) -> (r: bool)
        requires
            self.wf(),
        ensures
            r == self.as_map().dom().contains(*key),
    {
        match search(&self.items, key) {
            Some(i) => {
                proof {
                    lemma_index_unique(self.items@, i as int, *key);
                }
                true
            }
            None => false,
        }
    }

    /// The value stored for `key`, or absence.
    pub fn get(&self, key: &K) -> (r: Option<&V>)
        requires
            self.wf(),
        ensures
            match r {
                Some(v) => self.as_map().dom().contains(*key) && *v == self.as_map()[*key],
                None => !self.as_map().dom().contains(*key),
            },
    {
        match search(&self.items, key) {
            Some(i) => {
                proof {
                    lemma_index_unique(self.items@, i as int, *key);
                }
                Some(&self.items[i].1)
            }
            None => None,
        }
    }

    /// An exclusive reference to the value stored for `key`, or absence.
    /// Only the value can be reached this way, never the key, so the caller
    /// cannot disturb the key order.
    pub fn get_mut(&mut self, key: &K) -> (r: Option<&mut V>)
        requires
            old(self).wf(),
        ensures
            old(self).as_map().dom().contains(*key) <==> (r is Some),
            r is None ==> *final(self) == *old(self),
            r matches Some(v) ==> *v == old(self).as_map()[*key] && final(self).wf()
                && final(self).as_map() == old(self).as_map().insert(*key, *final(v)),
    {
        let ghost s0 = self.items@;
        match search(&self.items, key) {
            Some(i) => {
                proof {
                    lemma_index_unique(s0, i as int, *key);
                }
                let e = &mut self.items[i];
                let v = &mut e.1;
                proof {
                    lemma_sorted_update(s0, i as int, *key, *final(v));
                }
                Some(v)
            }
            None => None,
        }
    }

    /// The stored key and value for `key`, or absence.
    pub fn get_key_value(&self, key: &K) -> (r: Option<(&K, &V)>)
        requires
            self.wf(),
        ensures
            match r {
                Some(p) => self.as_map().dom().contains(*key) && *p.0 == *key && *p.1
                    == self.as_map()[*key],
                None => !self.as_map().dom().contains(*key),
            },
    {
        match search(&self.items, key) {
            Some(i) => {
                proof {
                    lemma_index_unique(self.items@, i as int, *key);
                }
                let e = &self.items[i];
                Some((&e.0, &e.1))
            }
            None => None,
        }
    }

    /// Stores `value` under `key` and returns the value it replaces, if any.
    ///
    /// Appending above the current maximum key, or overwriting the value at
    /// that key, takes constant time; any other position pays a linear shift.
    /// Both paths meet this one contract, so the fast path is observably
    /// identical to the general one.
    pub fn insert(&mut self, key: K, value: V) -> (r: Option<V>)
        requires
            old(self).wf(),
        ensures
            final(self).wf(),
            final(self).as_map() == old(self).as_map().insert(key, value),
            r == (if old(self).as_map().dom().contains(key) {
                Some(old(self).as_map()[key])
            } else {
                None::<V>
            }),
    {
        let ghost s0 = self.items@;
        let n = self.items.len();
        if n > 0 {
            match self.items[n - 1].0.cmp_with(&key) {
                KeyOrder::Less => {
                    proof {
                        assert forall|j: int| 0 <= j < s0.len() implies lt(
                            #[trigger] s0[j].0,
                            key,
                        ) by {
                            if j < s0.len() - 1 {
                                assert(lt(s0[j].0, s0[s0.len() - 1].0));
                                K::lemma_transitive(s0[j].0, s0[s0.len() - 1].0, key);
                                if s0[j].0 == key {
                                    K::lemma_antisymmetric(s0[s0.len() - 1].0, s0[j].0);
                                }
                            }
                        }
                        lemma_sorted_insert(s0, s0.len() as int, key, value);
                        assert(s0.insert(s0.len() as int, (key, value)) =~= s0.push((key, value)));
                    }
                    self.items.push((key, value));
                    return None;
                }
                KeyOrder::Equal => {
                    proof {
                        lemma_index_unique(s0, s0.len() - 1, key);
                        lemma_sorted_update(s0, s0.len() - 1, key, value);
                    }
                    let mut pair = (key, value);
                    self.items.set_and_swap(n - 1, &mut pair);
                    return Some(pair.1);
                }
                KeyOrder::Greater => {},
            }
        }
        let lb = lower_bound(&self.items, &key);
        if lb < self.items.len() {
            let hit = match self.items[lb].0.cmp_with(&key) {
                KeyOrder::Equal => true,
                _ => false,
            };
            if hit {
                proof {
                    lemma_index_unique(s0, lb as int, key);
                    lemma_sorted_update(s0, lb as int, key, value);
                }
                let mut pair = (key, value);
                self.items.set_and_swap(lb, &mut pair);
                return Some(pair.1);
            }
        }
        proof {
            lemma_sorted_insert(s0, lb as int, key, value);
        }
        self.items.insert(lb, (key, value));
        None
    }

    /// Removes the entry for `key` and returns its value, if any; an absent
    /// key leaves the map untouched.
    ///
    /// Removing the current maximum key takes constant time; any other
    /// position pays a linear shift. Both paths meet this one contract.
    pub fn remove(&mut self, key: &K) -> (r: Option<V>)
        requires
            old(self).wf(),
        ensures
            final(self).wf(),
            final(self).as_map() == old(self).as_map().remove(*key),
            r == (if old(self).as_map().dom().contains(*key) {
                Some(old(self).as_map()[*key])
            } else {
                None::<V>
            }),
            !old(self).as_map().dom().contains(*key) ==> final(self).entries() == old(
                self,
            ).entries(),
    {
        let ghost s0 = self.items@;
        let n = self.items.len();
        if n > 0 {
            match self.items[n - 1].0.cmp_with(key) {
                KeyOrder::Less => {
                    proof {
                        if has_key(s0, *key) {
                            let j = index_for(s0, *key);
                            assert(0 <= j < s0.len() && s0[j].0 == *key);
                            if j < s0.len() - 1 {
                                assert(lt(s0[j].0, s0[s0.len() - 1].0));
                                K::lemma_antisymmetric(s0[s0.len() - 1].0, s0[j].0);
                            }
                            assert(false);
                        }
                        assert(old(self).as_map().remove(*key) =~= old(self).as_map());
                    }
                    return None;
                }
                KeyOrder::Equal => {
                    proof {
                        lemma_index_unique(s0, s0.len() - 1, *key);
                        lemma_sorted_remove(s0, s0.len() - 1, *key);
                        assert(s0.remove(s0.len() - 1) =~= s0.subrange(0, s0.len() - 1));
                    }
                    let p = self.items.pop().unwrap();
                    return Some(p.1);
                }
                KeyOrder::Greater => {},
            }
        }
        match search(&self.items, key) {
            Some(i) => {
                proof {
                    lemma_index_unique(s0, i as int, *key);
                    lemma_sorted_remove(s0, i as int, *key);
                }
                let p = self.items.remove(i);
                Some(p.1)
            }
            None => {
                proof {
                    assert(old(self).as_map().remove(*key) =~= old(self).as_map());
                }
                None
            }
        }
    }

    /// Whether the map holds no entry.
    pub fn is_empty(&self) -> (r: bool)
        ensures
            r == (self.entries().len() == 0),
    {
        self.items.is_empty()
    }

    /// Drops every entry.
    pub fn clear(&mut self)
        ensures
            final(self).wf(),
            final(self).entries() == Seq::<(K, V)>::empty(),
            final(self).as_map() == Map::<K, V>::empty(),
    {
        self.items.clear();
        proof {
            assert(self.as_map() =~= Map::<K, V>::empty());
        }
    }

    /// The number of entries.
    pub fn len(&self) -> (r: usize)
        ensures
            r == self.entries().len(),
    {
        self.items.len()
    }

    /// The entries within the queried key range, ascending by key.
    ///
    /// A start bound resolves to the first position whose key it admits, an
    /// end bound to the first position beyond the keys it admits, and the
    /// result is that contiguous slice of the entries; a range whose bounds
    /// cross is empty.
    pub fn range(&self, start: Bound<K>, end: Bound<K>) -> (r: Vec<(&K, &V)>)
        requires
            self.wf(),
        ensures
            ({
                let s = self.entries();
                let lo = start_index(s, start);
                let hi = end_index(s, end);
                &&& r@.len() == (if lo <= hi {
                    hi - lo
                } else {
                    0
                })
                &&& forall|j: int|
                    0 <= j < r@.len() ==> *(#[trigger] r@[j]).0 == s[lo + j].0 && *r@[j].1 == s[lo
                        + j].1
                &&& forall|j: int|
                    0 <= j < s.len() ==> (in_bounds(#[trigger] s[j].0, start, end) <==> lo <= j
                        < hi)
            }),
    {
        let lo = match &start {
            Bound::Included(k) => lower_bound(&self.items, k),
            Bound::Excluded(k) => upper_bound(&self.items, k),
            Bound::Unbounded => 0,
        };
        let hi = match &end {
            Bound::Included(k) => upper_bound(&self.items, k),
            Bound::Excluded(k) => lower_bound(&self.items, k),
            Bound::Unbounded => self.items.len(),
        };
        let mut out: Vec<(&K, &V)> = Vec::new();
        if lo < hi {
            let mut i = lo;
            while i < hi
                invariant
                    lo <= i <= hi <= self.items@.len(),
                    out@.len() == i - lo,
                    forall|j: int|
                        0 <= j < out@.len() ==> *(#[trigger] out@[j]).0 == self.items@[lo + j].0
                            && *out@[j].1 == self.items@[lo + j].1,
                decreases hi - i,
            {
                let e = &self.items[i];
                out.push((&e.0, &e.1));
                i += 1;
            }
        }
        out
    }

    /// Every entry, ascending by key, as borrowed pairs.
    pub fn iter(&self) -> (r: Vec<(&K, &V)>)
        ensures
            r@.len() == self.entries().len(),
            forall|j: int|
                0 <= j < r@.len() ==> *(#[trigger] r@[j]).0 == self.entries()[j].0 && *r@[j].1
                    == self.entries()[j].1,
    {
        let mut out: Vec<(&K, &V)> = Vec::new();
        let mut i: usize = 0;
        while i < self.items.len()
            invariant
                i <= self.items@.len(),
                out@.len() == i,
                forall|j: int|
                    0 <= j < out@.len() ==> *(#[trigger] out@[j]).0 == self.items@[j].0
                        && *out@[j].1 == self.items@[j].1,
            decreases self.items@.len() - i,
        {
            let e = &self.items[i];
            out.push((&e.0, &e.1));
            i += 1;
        }
        out
    }

    /// Every key, ascending.
    pub fn keys(&self) -> (r: Vec<&K>)
        ensures
            r@.len() == self.entries().len(),
            forall|j: int| 0 <= j < r@.len() ==> *(#[trigger] r@[j]) == self.entries()[j].0,
    {
        let mut out: Vec<&K> = Vec::new();
        let mut i: usize = 0;
        while i < self.items.len()
            invariant
                i <= self.items@.len(),
                out@.len() == i,
                forall|j: int| 0 <= j < out@.len() ==> *(#[trigger] out@[j]) == self.items@[j].0,
            decreases self.items@.len() - i,
        {
            out.push(&self.items[i].0);
            i += 1;
        }
        out
    }

    /// Every value, ascending by its key.
    pub fn values(&self) -> (r: Vec<&V>)
        ensures
            r@.len() == self.entries().len(),
            forall|j: int| 0 <= j < r@.len() ==> *(#[trigger] r@[j]) == self.entries()[j].1,
    {
        let mut out: Vec<&V> = Vec::new();
        let mut i: usize = 0;
        while i < self.items.len()
            invariant
                i <= self.items@.len(),
                out@.len() == i,
                forall|j: int| 0 <= j < out@.len() ==> *(#[trigger] out@[j]) == self.items@[j].1,
            decreases self.items@.len() - i,
        {
            out.push(&self.items[i].1);
            i += 1;
        }
        out
    }
}

/// Sortedness invariant, read on adjacent entries: in a well-formed map each
/// key is strictly below its successor — never equal, never descending — so
/// no key ever repeats.
pub proof fn lemma_sorted_adjacent<K: TotalOrder, V>(m: FlatMap<K, V>)
    requires
        m.wf(),
    ensures
        forall|i: int|
            0 <= i && i + 1 < m.entries().len() ==> lt(
                #[trigger] m.entries()[i].0,
                m.entries()[i + 1].0,
            ),
        forall|i: int, j: int|
            #![trigger m.entries()[i], m.entries()[j]]
            0 <= i < j < m.entries().len() ==> m.entries()[i].0 != m.entries()[j].0,
{
}

/// Insert/remove round trip, stated on the map view that `insert`, `get`,
/// `remove` and `contains_key` are specified against: after storing `v1`
/// under `k` the map holds `v1` for `k`; storing `v2` over it leaves exactly
/// one entry for `k`, holding `v2`; and removing `k` afterwards leaves no
/// entry for `k`.
pub proof fn lemma_insert_remove_round_trip<K: TotalOrder, V>(m: FlatMap<K, V>, k: K, v1: V, v2: V)
    requires
        m.wf(),
    ensures
        m.as_map().insert(k, v1).dom().contains(k),
        m.as_map().insert(k, v1)[k] == v1,
        m.as_map().insert(k, v1).insert(k, v2) == m.as_map().insert(k, v2),
        !m.as_map().insert(k, v1).remove(k).dom().contains(k),
{
    assert(m.as_map().insert(k, v1).insert(k, v2) =~= m.as_map().insert(k, v2));
}

/// Removing an absent key is a no-op, once or twice: the map view is
/// unchanged either time.
pub proof fn lemma_remove_absent_idempotent<K: TotalOrder, V>(m: FlatMap<K, V>, k: K)
    requires
        m.wf(),
        !m.as_map().dom().contains(k),
    ensures
        m.as_map().remove(k) == m.as_map(),
        m.as_map().remove(k).remove(k) == m.as_map(),
{
    assert(m.as_map().remove(k) =~= m.as_map());
}

/// A well-formed map holds one entry per key: `len` reports the size of the
/// map view's domain.
pub proof fn lemma_len_is_map_size<K: TotalOrder, V>(m: FlatMap<K, V>)
    requires
        m.wf(),
    ensures
        m.as_map().dom().finite(),
        m.as_map().dom().len() == m.entries().len(),
{
    lemma_map_size(m.entries());
}

/// A well-formed container's backing sequence is determined by its map view.
/// The tail fast paths of `insert` and `remove` are therefore pure
/// optimisations: any two operation sequences that reach the same map view —
/// through the constant-time tail path or the linear general path — leave
/// observably identical containers.
pub proof fn lemma_canonical_representation<K: TotalOrder, V>(a: FlatMap<K, V>, b: FlatMap<K, V>)
    requires
        a.wf(),
        b.wf(),
        a.as_map() == b.as_map(),
    ensures
        a.entries() == b.entries(),
{
    lemma_sorted_canonical(a.entries(), b.entries());
}

} // verus!
