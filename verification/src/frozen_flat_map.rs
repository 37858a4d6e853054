use crate::entries::Bound;
use crate::entries::end_index;
use crate::entries::entries_map;
use crate::entries::in_bounds;
use crate::entries::lemma_map_size;
use crate::entries::pairs_map;
use crate::entries::sorted;
use crate::entries::start_index;
use crate::flat_map::FlatMap;
use crate::order::TotalOrder;
use vstd::prelude::*;

verus! {

/// Memory-efficient immutable ordered map backed by a contiguous flat array.
///
/// Its content and size are fixed at construction: only the read side of the
/// [`FlatMap`] contract is offered, for key sets known never to change.
pub struct FrozenFlatMap<K: TotalOrder, V> {
    inner: FlatMap<K, V>,
}

impl<K: TotalOrder, V> FrozenFlatMap<K, V> {
    /// The backing entries, ascending by key.
    pub closed spec fn entries(&self) -> Seq<(K, V)> {
        self.inner.entries()
    }

    /// The container invariant: entries strictly ascending by key.
    pub open spec fn wf(&self) -> bool {
        sorted(self.entries())
    }

    /// The mathematical map this container holds.
    pub open spec fn as_map(&self) -> Map<K, V> {
        entries_map(self.entries())
    }

    /// A well-formed map holds one entry per key: `len` reports the size of
    /// the map view's domain.
    pub proof fn lemma_len_is_map_size(&self)
        requires
            self.wf(),
        ensures
            self.as_map().dom().finite(),
            self.as_map().dom().len() == self.entries().len(),
    {
        lemma_map_size(self.entries());
    }

    /// Builds the map from a pair list of any order; a key given several
    /// times keeps the value of its last occurrence.
    pub fn from_vec(items: Vec<(K, V)>) -> (r: Self)
        ensures
            r.wf(),
            r.as_map() == pairs_map(items@),
    {
        FrozenFlatMap { inner: FlatMap::from_vec(items) }
    }

    /// Whether the map holds an entry for `key`.
    pub fn contains_key(&self, key: &K) -> (r: bool)
        requires
            self.wf(),
        ensures
            r == self.as_map().dom().contains(*key),
    {
        self.inner.contains_key(key)
    }

    /// The value stored for `key`, or absence.
    pub fn get(&self, key: &K) -> (r: Option<&V>)
        requires
            self.wf(),
        ensures
            match r {
                Some(v) => self.as_map().dom().contains(*key) && *v == self.as_map()[*key],
                None => !self.as_map().dom().contains(*key),
            },
    {
        self.inner.get(key)
    }

    /// The stored key and value for `key`, or absence.
    pub fn get_key_value(&self, key: &K) -> (r: Option<(&K, &V)>)
        requires
            self.wf(),
        ensures
            match r {
                Some(p) => self.as_map().dom().contains(*key) && *p.0 == *key && *p.1
                    == self.as_map()[*key],
                None => !self.as_map().dom().contains(*key),
            },
    {
        self.inner.get_key_value(key)
    }

    /// The entries within the queried key range, ascending by key, resolved
    /// exactly as [`FlatMap::range`] resolves them.
    pub fn range(&self, start: Bound<K>, end: Bound<K>) -> (r: Vec<(&K, &V)>)
        requires
            self.wf(),
        ensures
            ({
                let s = self.entries();
                let lo = start_index(s, start);
                let hi = end_index(s, end);
                &&& r@.len() == (if lo <= hi {
                    hi - lo
                } else {
                    0
                })
                &&& forall|j: int|
                    0 <= j < r@.len() ==> *(#[trigger] r@[j]).0 == s[lo + j].0 && *r@[j].1 == s[lo
                        + j].1
                &&& forall|j: int|
                    0 <= j < s.len() ==> (in_bounds(#[trigger] s[j].0, start, end) <==> lo <= j
                        < hi)
            }),
    {
        self.inner.range(start, end)
    }

    /// Whether the map holds no entry.
    pub fn is_empty(&self) -> (r: bool)
        ensures
            r == (self.entries().len() == 0),
    {
        self.inner.is_empty()
    }

    /// The number of entries.
    pub fn len(&self) -> (r: usize)
        ensures
            r == self.entries().len(),
    {
        self.inner.len()
    }

    /// Every entry, ascending by key, as borrowed pairs.
    pub fn iter(&self) -> (r: Vec<(&K, &V)>)
        ensures
            r@.len() == self.entries().len(),
            forall|j: int|
                0 <= j < r@.len() ==> *(#[trigger] r@[j]).0 == self.entries()[j].0 && *r@[j].1
                    == self.entries()[j].1,
    {
        self.inner.iter()
    }

    /// Every key, ascending.
    pub fn keys(&self) -> (r: Vec<&K>)
        ensures
            r@.len() == self.entries().len(),
            forall|j: int| 0 <= j < r@.len() ==> *(#[trigger] r@[j]) == self.entries()[j].0,
    {
        self.inner.keys()
    }

    /// Every value, ascending by its key.
    pub fn values(&self) -> (r: Vec<&V>)
        ensures
            r@.len() == self.entries().len(),
            forall|j: int| 0 <= j < r@.len() ==> *(#[trigger] r@[j]) == self.entries()[j].1,
    {
        self.inner.values()
    }
}

} // verus!
