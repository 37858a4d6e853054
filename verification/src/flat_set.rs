use crate::entries::has_key;
use crate::entries::index_for;
use crate::entries::lemma_map_size;
use crate::entries::lemma_pairs_map_dom;
use crate::flat_map::FlatMap;
use crate::order::TotalOrder;
use crate::order::lt;
use vstd::prelude::*;

verus! {

/// Zero-size marker stored beside every key of a set; it carries no
/// information.
pub struct NoValue;

/// Memory-efficient ordered set backed by a contiguous flat array: a
/// [`FlatMap`] whose values carry no information. It adds no algorithm of its
/// own.
pub struct FlatSet<K: TotalOrder> {
    inner: FlatMap<K, NoValue>,
}

impl<K: TotalOrder> FlatSet<K> {
    /// The mathematical set this container holds.
    pub closed spec fn as_set(&self) -> Set<K> {
        self.inner.as_map().dom()
    }

    /// The keys as a sequence, ascending when well-formed.
    pub closed spec fn key_seq(&self) -> Seq<K> {
        self.inner.entries().map_values(|p: (K, NoValue)| p.0)
    }

    /// The container invariant: keys strictly ascending, hence
    /// duplicate-free.
    pub closed spec fn wf(&self) -> bool {
        self.inner.wf()
    }

    /// The key sequence of a well-formed set ascends strictly and holds
    /// exactly the set's elements, each once; `len` therefore reports the
    /// size of the set view.
    pub proof fn lemma_elements(&self)
        requires
            self.wf(),
        ensures
            forall|i: int, j: int|
                #![trigger self.key_seq()[i], self.key_seq()[j]]
                0 <= i < j < self.key_seq().len() ==> lt(self.key_seq()[i], self.key_seq()[j]),
            self.as_set() == self.key_seq().to_set(),
            self.as_set().finite(),
            self.as_set().len() == self.key_seq().len(),
    {
        let s = self.inner.entries();
        lemma_map_size(s);
        assert forall|i: int, j: int|
            #![trigger self.key_seq()[i], self.key_seq()[j]]
            0 <= i < j < self.key_seq().len() implies lt(self.key_seq()[i], self.key_seq()[j]) by {
            assert(self.key_seq()[i] == s[i].0);
            assert(self.key_seq()[j] == s[j].0);
        }
        assert forall|k: K| #[trigger] self.as_set().contains(k) implies self.key_seq().to_set().contains(k) by {
            let i = index_for(s, k);
            assert(0 <= i < s.len() && s[i].0 == k);
            assert(self.key_seq()[i] == k);
        }
        assert forall|k: K| self.key_seq().to_set().contains(k) implies #[trigger] self.as_set().contains(k) by {
            let i = choose|i: int| 0 <= i < self.key_seq().len() && self.key_seq()[i] == k;
            assert(s[i].0 == k);
            assert(has_key(s, k));
        }
        assert(self.as_set() =~= self.key_seq().to_set());
    }

    /// An empty set.
    pub fn new() -> (r: Self)
        ensures
            r.wf(),
            r.as_set() == Set::<K>::empty(),
            r.key_seq() == Seq::<K>::empty(),
    {
        let r = FlatSet { inner: FlatMap::new() };
        proof {
            assert(r.as_set() =~= Set::<K>::empty());
            assert(r.key_seq() =~= Seq::<K>::empty());
        }
        r
    }

    /// Builds the set from a key list of any order; duplicates collapse to
    /// one element.
    pub fn from_vec(values: Vec<K>) -> (r: Self)
        ensures
            r.wf(),
            r.as_set() == values@.to_set(),
    {
        let ghost input = values@;
        let mut rest = values;
        let mut pairs: Vec<(K, NoValue)> = Vec::new();
        while rest.len() > 0
            invariant
                pairs@.len() + rest@.len() == input.len(),
                rest@ == input.subrange(0, rest@.len() as int),
                forall|j: int|
                    0 <= j < pairs@.len() ==> (#[trigger] pairs@[j]).0 == input[input.len() - 1
                        - j],
            decreases rest.len(),
        {
            let ghost l = rest@.len() as int;
            let k = rest.pop().unwrap();
            proof {
                assert(k == input[l - 1]);
                assert(rest@ =~= input.subrange(0, l - 1));
            }
            pairs.push((k, NoValue));
        }
        let ghost ps = pairs@;
        let inner = FlatMap::from_vec(pairs);
        let r = FlatSet { inner };
        proof {
            lemma_pairs_map_dom(ps);
            assert forall|k: K| #[trigger] has_key(ps, k) implies input.to_set().contains(k) by {
                let j = index_for(ps, k);
                assert(0 <= j < ps.len() && ps[j].0 == k);
                assert(input[input.len() - 1 - j] == k);
            }
            assert forall|k: K| input.to_set().contains(k) implies #[trigger] has_key(ps, k) by {
                let i = choose|i: int| 0 <= i < input.len() && input[i] == k;
                assert(ps[input.len() - 1 - i].0 == k);
            }
            assert(r.as_set() =~= input.to_set());
        }
        r
    }

    /// Whether the set holds `key`.
    pub fn contains(&self, key: &K) -> (r: bool)
        requires
            self.wf(),
        ensures
            r == self.as_set().contains(*key),
    {
        self.inner.contains_key(key)
    }

    /// Adds `key` and reports whether it was newly added: true exactly when
    /// the key was absent.
    pub fn insert(&mut self, key: K) -> (r: bool)
        requires
            old(self).wf(),
        ensures
            final(self).wf(),
            final(self).as_set() == old(self).as_set().insert(key),
            r == !old(self).as_set().contains(key),
    {
        let prev = self.inner.insert(key, NoValue);
        proof {
            assert(self.as_set() =~= old(self).as_set().insert(key));
        }
        prev.is_none()
    }

    /// Drops `key`; an absent key leaves the set untouched.
    pub fn remove(&mut self, key: &K)
        requires
            old(self).wf(),
        ensures
            final(self).wf(),
            final(self).as_set() == old(self).as_set().remove(*key),
    {
        self.inner.remove(key);
        proof {
            assert(self.as_set() =~= old(self).as_set().remove(*key));
        }
    }

    /// Whether the set holds no element.
    pub fn is_empty(&self) -> (r: bool)
        ensures
            r == (self.key_seq().len() == 0),
    {
        self.inner.is_empty()
    }

    /// Drops every element.
    pub fn clear(&mut self)
        ensures
            final(self).wf(),
            final(self).as_set() == Set::<K>::empty(),
            final(self).key_seq() == Seq::<K>::empty(),
    {
        self.inner.clear();
        proof {
            assert(self.as_set() =~= Set::<K>::empty());
            assert(self.key_seq() =~= Seq::<K>::empty());
        }
    }

    /// The number of elements.
    pub fn len(&self) -> (r: usize)
        ensures
            r == self.key_seq().len(),
    {
        self.inner.len()
    }

    /// Every element, ascending.
    pub fn iter(&self) -> (r: Vec<&K>)
        ensures
            r@.len() == self.key_seq().len(),
            forall|j: int| 0 <= j < r@.len() ==> *(#[trigger] r@[j]) == self.key_seq()[j],
    {
        let r = self.inner.keys();
        proof {
            assert forall|j: int| 0 <= j < r@.len() implies *(#[trigger] r@[j])
                == self.key_seq()[j] by {
                assert(self.key_seq()[j] == self.inner.entries()[j].0);
            }
        }
        r
    }
}

/// Set semantics of repeated insertion: adding `k` leaves a set that holds
/// `k`, and adding `k` to a set that already holds it changes nothing — so,
/// across repeated inserts of the same key, only the first reports "newly
/// added".
pub proof fn lemma_insert_once<K: TotalOrder>(s: FlatSet<K>, k: K)
    requires
        s.wf(),
    ensures
        s.as_set().insert(k).contains(k),
        s.as_set().insert(k).insert(k) == s.as_set().insert(k),
{
    assert(s.as_set().insert(k).insert(k) =~= s.as_set().insert(k));
}

} // verus!
