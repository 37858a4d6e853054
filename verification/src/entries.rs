use crate::order::KeyOrder;
use crate::order::TotalOrder;
use crate::order::lt;
use vstd::prelude::*;

verus! {

/// One endpoint of a key range query.
pub enum Bound<K> {
    /// Keys equal to the endpoint belong to the range.
    Included(K),
    /// Keys equal to the endpoint do not belong to the range.
    Excluded(K),
    /// The range is open on this side.
    Unbounded,
}

/// The backing sequence is strictly ascending by key: no duplicates, never
/// descending.
pub open spec fn sorted<K: TotalOrder, V>(s: Seq<(K, V)>) -> bool {
    forall|i: int, j: int|
        #![trigger s[i], s[j]]
        0 <= i < j < s.len() ==> lt(s[i].0, s[j].0)
}

/// Some entry of `s` carries the key `k`.
pub open spec fn has_key<K, V>(s: Seq<(K, V)>, k: K) -> bool {
    exists|i: int| #![trigger s[i]] 0 <= i < s.len() && s[i].0 == k
}

/// An index of an entry of `s` carrying the key `k` (unique when `s` is
/// sorted).
pub open spec fn index_for<K, V>(s: Seq<(K, V)>, k: K) -> int {
    choose|i: int| #![trigger s[i]] 0 <= i < s.len() && s[i].0 == k
}

/// The value stored beside the key `k`.
pub open spec fn value_for<K, V>(s: Seq<(K, V)>, k: K) -> V {
    s[index_for(s, k)].1
}

/// The mathematical map held by a sequence of entries with distinct keys.
pub open spec fn entries_map<K, V>(s: Seq<(K, V)>) -> Map<K, V> {
    Map::new(|k: K| has_key(s, k), |k: K| value_for(s, k))
}

/// The map described by an arbitrary pair list, where a key given several
/// times keeps the value of its last occurrence.
pub open spec fn pairs_map<K, V>(s: Seq<(K, V)>) -> Map<K, V>
    decreases s.len(),
{
    if s.len() == 0 {
        Map::empty()
    } else {
        pairs_map(s.drop_last()).insert(s.last().0, s.last().1)
    }
}

/// The first position whose key is not below `k`: the index of `k` when
/// present, and the insertion point for `k` when absent.
pub open spec fn lower_index<K: TotalOrder, V>(s: Seq<(K, V)>, k: K) -> int
    decreases s.len(),
{
    if s.len() == 0 {
        0
    } else if lt(s[0].0, k) {
        1 + lower_index(s.drop_first(), k)
    } else {
        0
    }
}

/// The first position whose key is above `k`.
pub open spec fn upper_index<K: TotalOrder, V>(s: Seq<(K, V)>, k: K) -> int
    decreases s.len(),
{
    if s.len() == 0 {
        0
    } else if lt(k, s[0].0) {
        0
    } else {
        1 + upper_index(s.drop_first(), k)
    }
}

/// The key `k` lies on or above the start bound.
pub open spec fn above_start<K: TotalOrder>(k: K, b: Bound<K>) -> bool {
    match b {
        Bound::Included(s) => !lt(k, s),
        Bound::Excluded(s) => lt(s, k),
        Bound::Unbounded => true,
    }
}

/// The key `k` lies on or below the end bound.
pub open spec fn below_end<K: TotalOrder>(k: K, b: Bound<K>) -> bool {
    match b {
        Bound::Included(e) => !lt(e, k),
        Bound::Excluded(e) => lt(k, e),
        Bound::Unbounded => true,
    }
}

/// The key `k` lies within the queried range.
pub open spec fn in_bounds<K: TotalOrder>(k: K, start: Bound<K>, end: Bound<K>) -> bool {
    above_start(k, start) && below_end(k, end)
}

/// The index interval a start bound resolves to begins here.
pub open spec fn start_index<K: TotalOrder, V>(s: Seq<(K, V)>, b: Bound<K>) -> int {
    match b {
        Bound::Included(k) => lower_index(s, k),
        Bound::Excluded(k) => upper_index(s, k),
        Bound::Unbounded => 0,
    }
}

/// The index interval an end bound resolves to stops here (exclusive).
pub open spec fn end_index<K: TotalOrder, V>(s: Seq<(K, V)>, b: Bound<K>) -> int {
    match b {
        Bound::Included(k) => upper_index(s, k),
        Bound::Excluded(k) => lower_index(s, k),
        Bound::Unbounded => s.len() as int,
    }
}

/// In a sorted sequence an entry's index is determined by its key, and the
/// map view holds exactly that entry.
pub proof fn lemma_index_unique<K: TotalOrder, V>(s: Seq<(K, V)>, i: int, k: K)
    requires
        sorted(s),
        0 <= i < s.len(),
        s[i].0 == k,
    ensures
        has_key(s, k),
        index_for(s, k) == i,
        value_for(s, k) == s[i].1,
        entries_map(s).dom().contains(k),
        entries_map(s)[k] == s[i].1,
{
    assert(has_key(s, k));
    let j = index_for(s, k);
    assert(0 <= j < s.len() && s[j].0 == k);
    if i < j {
        assert(lt(s[i].0, s[j].0));
    }
    if j < i {
        assert(lt(s[j].0, s[i].0));
    }
}

/// `lower_index` is characterised by what stands on each side of it.
pub proof fn lemma_lower_index<K: TotalOrder, V>(s: Seq<(K, V)>, k: K)
    requires
        sorted(s),
    ensures
        0 <= lower_index(s, k) <= s.len(),
        forall|j: int| 0 <= j < lower_index(s, k) ==> lt(#[trigger] s[j].0, k),
        forall|j: int| lower_index(s, k) <= j < s.len() ==> !lt(#[trigger] s[j].0, k),
    decreases s.len(),
{
    if s.len() == 0 {
    } else {
        let t = s.drop_first();
        assert forall|i: int, j: int|
            #![trigger t[i], t[j]]
            0 <= i < j < t.len() implies lt(t[i].0, t[j].0) by {
            assert(t[i] == s[i + 1]);
            assert(t[j] == s[j + 1]);
        }
        lemma_lower_index(t, k);
        if lt(s[0].0, k) {
            let low = lower_index(s, k);
            assert(low == 1 + lower_index(t, k));
            assert forall|j: int| 0 <= j < low implies lt(#[trigger] s[j].0, k) by {
                if j > 0 {
                    assert(s[j] == t[j - 1]);
                }
            }
            assert forall|j: int| low <= j < s.len() implies !lt(#[trigger] s[j].0, k) by {
                assert(s[j] == t[j - 1]);
            }
        } else {
            assert forall|j: int| 0 <= j < s.len() implies !lt(#[trigger] s[j].0, k) by {
                if j > 0 && lt(s[j].0, k) {
                    assert(lt(s[0].0, s[j].0));
                    K::lemma_transitive(s[0].0, s[j].0, k);
                    // since !lt(s[0].0, k) yet s[0].0.le(k), the head key is k
                    assert(s[0].0 == k);
                    K::lemma_antisymmetric(s[j].0, s[0].0);
                }
            }
        }
    }
}

/// `upper_index` is characterised by what stands on each side of it.
pub proof fn lemma_upper_index<K: TotalOrder, V>(s: Seq<(K, V)>, k: K)
    requires
        sorted(s),
    ensures
        0 <= upper_index(s, k) <= s.len(),
        forall|j: int| 0 <= j < upper_index(s, k) ==> !lt(k, #[trigger] s[j].0),
        forall|j: int| upper_index(s, k) <= j < s.len() ==> lt(k, #[trigger] s[j].0),
    decreases s.len(),
{
    if s.len() == 0 {
    } else {
        let t = s.drop_first();
        assert forall|i: int, j: int|
            #![trigger t[i], t[j]]
            0 <= i < j < t.len() implies lt(t[i].0, t[j].0) by {
            assert(t[i] == s[i + 1]);
            assert(t[j] == s[j + 1]);
        }
        lemma_upper_index(t, k);
        if lt(k, s[0].0) {
            assert forall|j: int| 0 <= j < s.len() implies lt(k, #[trigger] s[j].0) by {
                if j > 0 {
                    assert(lt(s[0].0, s[j].0));
                    K::lemma_transitive(k, s[0].0, s[j].0);
                    if k == s[j].0 {
                        K::lemma_antisymmetric(s[0].0, s[j].0);
                    }
                }
            }
        } else {
            let up = upper_index(s, k);
            assert(up == 1 + upper_index(t, k));
            assert forall|j: int| 0 <= j < up implies !lt(k, #[trigger] s[j].0) by {
                if j > 0 {
                    assert(s[j] == t[j - 1]);
                }
            }
            assert forall|j: int| up <= j < s.len() implies lt(k, #[trigger] s[j].0) by {
                assert(s[j] == t[j - 1]);
            }
        }
    }
}

/// Updating the value beside an existing key keeps the sequence sorted and
/// overwrites exactly that key's entry in the map view.
pub proof fn lemma_sorted_update<K: TotalOrder, V>(s: Seq<(K, V)>, i: int, k: K, v: V)
    requires
        sorted(s),
        0 <= i < s.len(),
        s[i].0 == k,
    ensures
        sorted(s.update(i, (k, v))),
        entries_map(s.update(i, (k, v))) == entries_map(s).insert(k, v),
{
    let s2 = s.update(i, (k, v));
    assert forall|a: int, b: int|
        #![trigger s2[a], s2[b]]
        0 <= a < b < s2.len() implies lt(s2[a].0, s2[b].0) by {
        assert(s2[a].0 == s[a].0);
        assert(s2[b].0 == s[b].0);
    }
    lemma_index_unique(s, i, k);
    lemma_index_unique(s2, i, k);
    assert forall|x: K| #[trigger] has_key(s2, x) implies has_key(s, x) by {
        let j = index_for(s2, x);
        assert(0 <= j < s2.len() && s2[j].0 == x);
        assert(s[j].0 == x);
    }
    assert forall|x: K| has_key(s, x) implies #[trigger] has_key(s2, x) by {
        let j = index_for(s, x);
        assert(0 <= j < s.len() && s[j].0 == x);
        assert(s2[j].0 == x);
    }
    assert forall|x: K| has_key(s, x) && x != k implies #[trigger] value_for(s2, x) == value_for(
        s,
        x,
    ) by {
        let j = index_for(s, x);
        assert(0 <= j < s.len() && s[j].0 == x);
        lemma_index_unique(s, j, x);
        assert(s2[j] == s[j]);
        lemma_index_unique(s2, j, x);
    }
    assert(entries_map(s2) =~= entries_map(s).insert(k, v));
}

/// Inserting a fresh key at its ordered position keeps the sequence sorted
/// and adds exactly that entry to the map view.
pub proof fn lemma_sorted_insert<K: TotalOrder, V>(s: Seq<(K, V)>, pos: int, k: K, v: V)
    requires
        sorted(s),
        0 <= pos <= s.len(),
        forall|j: int| 0 <= j < pos ==> lt(#[trigger] s[j].0, k),
        forall|j: int| pos <= j < s.len() ==> !lt(#[trigger] s[j].0, k),
        pos < s.len() ==> s[pos].0 != k,
    ensures
        !has_key(s, k),
        sorted(s.insert(pos, (k, v))),
        entries_map(s.insert(pos, (k, v))) == entries_map(s).insert(k, v),
{
    assert forall|j: int| pos <= j < s.len() implies lt(k, #[trigger] s[j].0) by {
        K::lemma_total(s[pos].0, k);
        if j > pos {
            assert(lt(s[pos].0, s[j].0));
            K::lemma_transitive(k, s[pos].0, s[j].0);
            if k == s[j].0 {
                K::lemma_antisymmetric(s[pos].0, s[j].0);
            }
        }
    }
    if has_key(s, k) {
        let j = index_for(s, k);
        assert(0 <= j < s.len() && s[j].0 == k);
    }
    let s2 = s.insert(pos, (k, v));
    s.insert_ensures(pos, (k, v));
    assert forall|a: int, b: int|
        #![trigger s2[a], s2[b]]
        0 <= a < b < s2.len() implies lt(s2[a].0, s2[b].0) by {
        if a < pos {
            assert(s2[a] == s[a]);
        } else if a == pos {
            assert(s2[a] == (k, v));
        } else {
            assert(s2[a] == s[a - 1]);
        }
        if b < pos {
            assert(s2[b] == s[b]);
        } else if b == pos {
            assert(s2[b] == (k, v));
        } else {
            assert(s2[b] == s[b - 1]);
        }
    }
    lemma_index_unique(s2, pos, k);
    assert forall|x: K| #[trigger] has_key(s2, x) implies has_key(s, x) || x == k by {
        let j = index_for(s2, x);
        assert(0 <= j < s2.len() && s2[j].0 == x);
        if j < pos {
            assert(s[j].0 == x);
        } else if j > pos {
            assert(s[j - 1].0 == x);
        }
    }
    assert forall|x: K| has_key(s, x) implies #[trigger] has_key(s2, x) by {
        let j = index_for(s, x);
        assert(0 <= j < s.len() && s[j].0 == x);
        if j < pos {
            assert(s2[j].0 == x);
        } else {
            assert(s2[j + 1].0 == x);
        }
    }
    assert forall|x: K| has_key(s, x) && x != k implies #[trigger] value_for(s2, x) == value_for(
        s,
        x,
    ) by {
        let j = index_for(s, x);
        assert(0 <= j < s.len() && s[j].0 == x);
        lemma_index_unique(s, j, x);
        if j < pos {
            assert(s2[j] == s[j]);
            lemma_index_unique(s2, j, x);
        } else {
            assert(s2[j + 1] == s[j]);
            lemma_index_unique(s2, j + 1, x);
        }
    }
    assert(entries_map(s2) =~= entries_map(s).insert(k, v));
}

/// Removing an entry keeps the sequence sorted and deletes exactly its key
/// from the map view.
pub proof fn lemma_sorted_remove<K: TotalOrder, V>(s: Seq<(K, V)>, i: int, k: K)
    requires
        sorted(s),
        0 <= i < s.len(),
        s[i].0 == k,
    ensures
        sorted(s.remove(i)),
        !has_key(s.remove(i), k),
        entries_map(s.remove(i)) == entries_map(s).remove(k),
{
    let s2 = s.remove(i);
    s.remove_ensures(i);
    lemma_index_unique(s, i, k);
    assert forall|a: int, b: int|
        #![trigger s2[a], s2[b]]
        0 <= a < b < s2.len() implies lt(s2[a].0, s2[b].0) by {
        if a < i {
            assert(s2[a] == s[a]);
        } else {
            assert(s2[a] == s[a + 1]);
        }
        if b < i {
            assert(s2[b] == s[b]);
        } else {
            assert(s2[b] == s[b + 1]);
        }
    }
    assert forall|x: K| #[trigger] has_key(s2, x) implies has_key(s, x) && x != k by {
        let j = index_for(s2, x);
        assert(0 <= j < s2.len() && s2[j].0 == x);
        if j < i {
            assert(s[j].0 == x);
            if x == k {
                assert(lt(s[j].0, s[i].0));
            }
        } else {
            assert(s[j + 1].0 == x);
            if x == k {
                assert(lt(s[i].0, s[j + 1].0));
            }
        }
    }
    assert forall|x: K| has_key(s, x) && x != k implies #[trigger] has_key(s2, x) by {
        let j = index_for(s, x);
        assert(0 <= j < s.len() && s[j].0 == x);
        if j < i {
            assert(s2[j].0 == x);
        } else {
            assert(j > i);
            assert(s2[j - 1].0 == x);
        }
    }
    assert forall|x: K| has_key(s, x) && x != k implies #[trigger] value_for(s2, x) == value_for(
        s,
        x,
    ) by {
        let j = index_for(s, x);
        assert(0 <= j < s.len() && s[j].0 == x);
        lemma_index_unique(s, j, x);
        if j < i {
            assert(s2[j] == s[j]);
            lemma_index_unique(s2, j, x);
        } else {
            assert(j > i);
            assert(s2[j - 1] == s[j]);
            lemma_index_unique(s2, j - 1, x);
        }
    }
    assert(entries_map(s2) =~= entries_map(s).remove(k));
}

/// The keys of the last-wins map of a pair list are exactly the keys of the
/// list.
pub proof fn lemma_pairs_map_dom<K, V>(s: Seq<(K, V)>)
    ensures
        pairs_map(s).dom() == Set::new(|k: K| has_key(s, k)),
    decreases s.len(),
{
    if s.len() == 0 {
        assert(pairs_map(s).dom() =~= Set::new(|k: K| has_key(s, k)));
    } else {
        let t = s.drop_last();
        lemma_pairs_map_dom(t);
        assert forall|x: K| #[trigger] has_key(s, x) implies has_key(t, x) || x == s.last().0 by {
            let j = index_for(s, x);
            assert(0 <= j < s.len() && s[j].0 == x);
            if j < s.len() - 1 {
                assert(t[j].0 == x);
            }
        }
        assert forall|x: K| has_key(t, x) implies #[trigger] has_key(s, x) by {
            let j = index_for(t, x);
            assert(0 <= j < t.len() && t[j].0 == x);
            assert(s[j].0 == x);
        }
        assert(has_key(s, s.last().0));
        assert(pairs_map(s).dom() =~= Set::new(|k: K| has_key(s, k)));
    }
}

/// Last occurrence wins: an entry whose key never appears again supplies the
/// value that the map built from the pair list holds for that key.
pub proof fn lemma_pairs_map_last_wins<K, V>(s: Seq<(K, V)>, i: int)
    requires
        0 <= i < s.len(),
        forall|j: int| #![trigger s[j]] i < j < s.len() ==> s[j].0 != s[i].0,
    ensures
        pairs_map(s).dom().contains(s[i].0),
        pairs_map(s)[s[i].0] == s[i].1,
    decreases s.len(),
{
    if i == s.len() - 1 {
    } else {
        let t = s.drop_last();
        assert forall|j: int| #![trigger t[j]] i < j < t.len() implies t[j].0 != t[i].0 by {
            assert(t[j] == s[j]);
            assert(t[i] == s[i]);
        }
        assert(t[i] == s[i]);
        lemma_pairs_map_last_wins(t, i);
        assert(s.last().0 != s[i].0);
    }
}

/// A sorted sequence holds one entry per key of its map view: the map's
/// domain is finite and exactly as large as the sequence.
pub proof fn lemma_map_size<K: TotalOrder, V>(s: Seq<(K, V)>)
    requires
        sorted(s),
    ensures
        entries_map(s).dom().finite(),
        entries_map(s).dom().len() == s.len(),
    decreases s.len(),
{
    if s.len() == 0 {
        assert(entries_map(s).dom() =~= Set::<K>::empty());
    } else {
        let t = s.drop_last();
        let k = s.last().0;
        assert forall|i: int, j: int|
            #![trigger t[i], t[j]]
            0 <= i < j < t.len() implies lt(t[i].0, t[j].0) by {
            assert(t[i] == s[i]);
            assert(t[j] == s[j]);
        }
        lemma_map_size(t);
        lemma_sorted_remove(s, s.len() - 1, k);
        assert(s.remove(s.len() - 1) =~= t);
        lemma_index_unique(s, s.len() - 1, k);
        if has_key(t, k) {
            let j = index_for(t, k);
            assert(0 <= j < t.len() && t[j].0 == k);
            assert(t[j] == s[j]);
            assert(lt(s[j].0, s[s.len() - 1].0));
            assert(false);
        }
        assert(entries_map(s).dom() =~= entries_map(t).dom().insert(k));
    }
}

/// A sorted sequence of entries is determined by its map view: two sorted
/// sequences holding the same map are the same sequence. In particular every
/// code path that leaves a container with a given map view leaves it with the
/// same backing sequence.
pub proof fn lemma_sorted_canonical<K: TotalOrder, V>(s1: Seq<(K, V)>, s2: Seq<(K, V)>)
    requires
        sorted(s1),
        sorted(s2),
        entries_map(s1) == entries_map(s2),
    ensures
        s1 == s2,
    decreases s1.len(),
{
    if s1.len() == 0 {
        if s2.len() > 0 {
            lemma_index_unique(s2, s2.len() - 1, s2.last().0);
            assert(entries_map(s1).dom().contains(s2.last().0));
            assert(false);
        }
        assert(s1 =~= s2);
    } else if s2.len() == 0 {
        lemma_index_unique(s1, s1.len() - 1, s1.last().0);
        assert(entries_map(s2).dom().contains(s1.last().0));
        assert(false);
    } else {
        let ka = s1.last().0;
        let kb = s2.last().0;
        lemma_index_unique(s1, s1.len() - 1, ka);
        lemma_index_unique(s2, s2.len() - 1, kb);
        assert(entries_map(s2).dom().contains(ka));
        assert(has_key(s2, ka));
        let ja = index_for(s2, ka);
        assert(0 <= ja < s2.len() && s2[ja].0 == ka);
        assert(entries_map(s1).dom().contains(kb));
        assert(has_key(s1, kb));
        let jb = index_for(s1, kb);
        assert(0 <= jb < s1.len() && s1[jb].0 == kb);
        if ka != kb {
            assert(lt(s2[ja].0, s2[s2.len() - 1].0));
            assert(lt(s1[jb].0, s1[s1.len() - 1].0));
            K::lemma_antisymmetric(ka, kb);
            assert(false);
        }
        assert(s1.last().1 == entries_map(s1)[ka]);
        assert(s2.last().1 == entries_map(s2)[ka]);
        let t1 = s1.drop_last();
        let t2 = s2.drop_last();
        lemma_sorted_remove(s1, s1.len() - 1, ka);
        assert(s1.remove(s1.len() - 1) =~= t1);
        lemma_sorted_remove(s2, s2.len() - 1, ka);
        assert(s2.remove(s2.len() - 1) =~= t2);
        lemma_sorted_canonical(t1, t2);
        assert(s1.len() == s2.len());
        assert forall|idx: int| 0 <= idx < s1.len() implies s1[idx] == s2[idx] by {
            if idx < s1.len() - 1 {
                assert(t1[idx] == s1[idx]);
                assert(t2[idx] == s2[idx]);
            } else {
                assert(s1[idx].0 == ka);
                assert(s1[idx].1 == entries_map(s1)[ka]);
                assert(s2[idx].0 == ka);
                assert(s2[idx].1 == entries_map(s2)[ka]);
            }
        }
        assert(s1 =~= s2);
    }
}

/// Binary search for the first position whose key is not below `key`.
pub(crate) fn lower_bound<K: TotalOrder, V>(items: &Vec<(K, V)>, key: &K) -> (r: usize)
    requires
        sorted(items@),
    ensures
        r <= items@.len(),
        r == lower_index(items@, *key),
        forall|j: int| 0 <= j < r ==> lt(#[trigger] items@[j].0, *key),
        forall|j: int| r <= j < items@.len() ==> !lt(#[trigger] items@[j].0, *key),
{
    let ghost s = items@;
    let mut lo: usize = 0;
    let mut hi: usize = items.len();
    while lo < hi
        invariant
            lo <= hi <= s.len(),
            items@ == s,
            sorted(s),
            forall|j: int| 0 <= j < lo ==> lt(#[trigger] s[j].0, *key),
            forall|j: int| hi <= j < s.len() ==> !lt(#[trigger] s[j].0, *key),
        decreases hi - lo,
    {
        let mid = lo + (hi - lo) / 2;
        match items[mid].0.cmp_with(key) {
            KeyOrder::Less => {
                proof {
                    assert forall|j: int| 0 <= j < mid + 1 implies lt(#[trigger] s[j].0, *key) by {
                        if j < mid {
                            assert(lt(s[j].0, s[mid as int].0));
                            K::lemma_transitive(s[j].0, s[mid as int].0, *key);
                            if s[j].0 == *key {
                                K::lemma_antisymmetric(s[mid as int].0, s[j].0);
                            }
                        }
                    }
                }
                lo = mid + 1;
            }
            KeyOrder::Equal => {
                proof {
                    assert forall|j: int| mid <= j < s.len() implies !lt(#[trigger] s[j].0, *key) by {
                        if j > mid && lt(s[j].0, *key) {
                            assert(lt(s[mid as int].0, s[j].0));
                            K::lemma_antisymmetric(s[j].0, s[mid as int].0);
                        }
                    }
                }
                hi = mid;
            }
            KeyOrder::Greater => {
                proof {
                    assert forall|j: int| mid <= j < s.len() implies !lt(#[trigger] s[j].0, *key) by {
                        if lt(s[j].0, *key) {
                            if j > mid {
                                assert(lt(s[mid as int].0, s[j].0));
                                K::lemma_transitive(s[mid as int].0, s[j].0, *key);
                                K::lemma_antisymmetric(s[mid as int].0, *key);
                                K::lemma_antisymmetric(s[j].0, s[mid as int].0);
                            } else {
                                K::lemma_antisymmetric(s[mid as int].0, *key);
                            }
                        }
                    }
                }
                hi = mid;
            }
        }
    }
    proof {
        lemma_lower_index(s, *key);
        let li = lower_index(s, *key);
        if li < lo {
            assert(lt(s[li].0, *key));
        }
        if lo < li {
            assert(lt(s[lo as int].0, *key));
        }
    }
    lo
}

/// Binary search for the first position whose key is above `key`: one past
/// the key's own position when present, the insertion point otherwise.
pub(crate) fn upper_bound<K: TotalOrder, V>(items: &Vec<(K, V)>, key: &K) -> (r: usize)
    requires
        sorted(items@),
    ensures
        r <= items@.len(),
        r == upper_index(items@, *key),
        forall|j: int| 0 <= j < r ==> !lt(*key, #[trigger] items@[j].0),
        forall|j: int| r <= j < items@.len() ==> lt(*key, #[trigger] items@[j].0),
{
    let ghost s = items@;
    let lb = lower_bound(items, key);
    let mut r = lb;
    if lb < items.len() {
        match items[lb].0.cmp_with(key) {
            KeyOrder::Equal => {
                r = lb + 1;
            }
            _ => {},
        }
    }
    proof {
        assert forall|j: int| 0 <= j < lb implies !lt(*key, #[trigger] s[j].0) by {
            if lt(*key, s[j].0) {
                K::lemma_antisymmetric(s[j].0, *key);
            }
        }
        if r == lb + 1 {
            assert forall|j: int| r <= j < s.len() implies lt(*key, #[trigger] s[j].0) by {
                assert(lt(s[lb as int].0, s[j].0));
            }
        } else if lb < s.len() {
            // the key is absent here: the entry at `lb` compared above it
            assert forall|j: int| r <= j < s.len() implies lt(*key, #[trigger] s[j].0) by {
                if j > lb {
                    assert(lt(s[lb as int].0, s[j].0));
                    K::lemma_transitive(*key, s[lb as int].0, s[j].0);
                    if *key == s[j].0 {
                        K::lemma_antisymmetric(s[lb as int].0, s[j].0);
                    }
                }
            }
        }
        lemma_upper_index(s, *key);
        let ui = upper_index(s, *key);
        if ui < r {
            assert(!lt(*key, s[ui].0));
            assert(lt(*key, s[ui].0));
        }
        if r < ui {
            assert(lt(*key, s[r as int].0));
            assert(!lt(*key, s[r as int].0));
        }
    }
    r
}

/// Binary search for the exact position of `key`, when present.
pub(crate) fn search<K: TotalOrder, V>(items: &Vec<(K, V)>, key: &K) -> (r: Option<usize>)
    requires
        sorted(items@),
    ensures
        match r {
            Some(i) => i < items@.len() && items@[i as int].0 == *key,
            None => !has_key(items@, *key),
        },
{
    let lb = lower_bound(items, key);
    if lb < items.len() {
        match items[lb].0.cmp_with(key) {
            KeyOrder::Equal => Some(lb),
            _ => {
                proof {
                    if has_key(items@, *key) {
                        let i = index_for(items@, *key);
                        assert(0 <= i < items@.len() && items@[i].0 == *key);
                        if i > lb {
                            assert(lt(items@[lb as int].0, items@[i].0));
                        }
                    }
                }
                None
            }
        }
    } else {
        proof {
            if has_key(items@, *key) {
                let i = index_for(items@, *key);
                assert(0 <= i < items@.len() && items@[i].0 == *key);
                assert(lt(items@[i].0, *key));
            }
        }
        None
    }
}

} // verus!
