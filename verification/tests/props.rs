use flatmap::Bound;
use flatmap::FlatMap;
use flatmap::FlatSet;
use flatmap::FrozenFlatMap;

#[test]
fn sortedness_after_mutation() {
    let mut m: FlatMap<i64, i64> = FlatMap::new();
    for (k, v) in [(5, 50), (1, 10), (9, 90), (3, 30), (7, 70), (3, 31)] {
        m.insert(k, v);
    }
    m.remove(&5);
    let keys: Vec<i64> = m.keys().into_iter().copied().collect();
    assert_eq!(keys, vec![1, 3, 7, 9]);
    for w in keys.windows(2) {
        assert!(w[0] < w[1]);
    }
}

#[test]
fn dedup_last_wins() {
    let m = FlatMap::from_vec(vec![(1i64, "a".to_string()), (1, "b".to_string())]);
    assert_eq!(m.len(), 1);
    assert_eq!(m.get(&1), Some(&"b".to_string()));
}

#[test]
fn dedup_last_wins_unordered() {
    let m = FlatMap::from_vec(vec![(3i64, 30i64), (1, 10), (3, 31), (2, 20), (1, 11)]);
    assert_eq!(m.iter(), vec![(&1, &11), (&2, &20), (&3, &31)]);
}

#[test]
fn frozen_dedup_last_wins() {
    let m = FrozenFlatMap::from_vec(vec![(1i64, "a".to_string()), (1, "b".to_string())]);
    assert_eq!(m.len(), 1);
    assert_eq!(m.get(&1), Some(&"b".to_string()));
}

#[test]
fn lookup_present_and_absent() {
    let m = FlatMap::from_vec(vec![(1i64, 2i64), (3, 4), (5, 6)]);
    assert_eq!(m.get(&3), Some(&4));
    assert_eq!(m.get(&100), None);
}

#[test]
fn range_bound_kinds() {
    let m = FlatMap::from_vec(vec![(1i64, 2i64), (3, 4), (5, 6), (7, 8), (9, 10)]);
    // non-matching endpoints: inclusivity makes no difference
    assert_eq!(
        m.range(Bound::Included(2), Bound::Excluded(8)),
        vec![(&3, &4), (&5, &6), (&7, &8)]
    );
    assert_eq!(
        m.range(Bound::Excluded(2), Bound::Included(8)),
        vec![(&3, &4), (&5, &6), (&7, &8)]
    );
    // matching endpoints: inclusivity decides
    assert_eq!(
        m.range(Bound::Included(3), Bound::Included(7)),
        vec![(&3, &4), (&5, &6), (&7, &8)]
    );
    assert_eq!(m.range(Bound::Excluded(3), Bound::Excluded(7)), vec![(&5, &6)]);
    // open ends
    assert_eq!(m.range(Bound::Unbounded, Bound::Excluded(5)), vec![(&1, &2), (&3, &4)]);
    assert_eq!(m.range(Bound::Excluded(5), Bound::Unbounded), vec![(&7, &8), (&9, &10)]);
    assert_eq!(m.range(Bound::Unbounded, Bound::Unbounded).len(), 5);
    // empty and crossed ranges
    assert_eq!(m.range(Bound::Included(4), Bound::Excluded(5)), vec![]);
    assert_eq!(m.range(Bound::Included(8), Bound::Excluded(2)), vec![]);
}

#[test]
fn insert_remove_round_trip() {
    let mut m: FlatMap<i64, i64> = FlatMap::new();
    assert_eq!(m.insert(4, 40), None);
    assert_eq!(m.get(&4), Some(&40));
    assert_eq!(m.insert(4, 41), Some(40));
    assert_eq!(m.len(), 1);
    assert_eq!(m.remove(&4), Some(41));
    assert!(!m.contains_key(&4));
}

#[test]
fn tail_fast_path_matches_general_path() {
    // appending the maximum key (fast path) against building in a mixed order
    // (general path): identical content, order and returned values
    let mut fast: FlatMap<i64, i64> = FlatMap::from_vec(vec![(1, 10), (2, 20)]);
    assert_eq!(fast.insert(3, 30), None);
    let mut general: FlatMap<i64, i64> = FlatMap::from_vec(vec![(3, 99), (2, 20)]);
    assert_eq!(general.insert(1, 10), None);
    assert_eq!(general.insert(3, 30), Some(99));
    assert_eq!(fast.iter(), general.iter());

    // removing the maximum key (fast path) against removing it from inside
    // after growing past it: identical result and content
    let mut a = FlatMap::from_vec(vec![(1i64, 10i64), (2, 20), (3, 30)]);
    assert_eq!(a.remove(&3), Some(30));
    let mut b = FlatMap::from_vec(vec![(1i64, 10i64), (2, 20), (3, 30), (4, 40)]);
    assert_eq!(b.remove(&3), Some(30));
    assert_eq!(b.remove(&4), Some(40));
    assert_eq!(a.iter(), b.iter());
}

#[test]
fn interior_overwrite_returns_previous() {
    // overwriting below the maximum key reports the replaced value, exactly
    // as overwriting at the maximum key does
    let mut m = FlatMap::from_vec(vec![(1i64, 2i64), (3, 4), (5, 6)]);
    assert_eq!(m.insert(3, 44), Some(4));
    assert_eq!(m.get(&3), Some(&44));
    assert_eq!(m.len(), 3);
}

#[test]
fn set_insert_present_interior_key() {
    // re-adding an element below the maximum reports "already present"
    let mut s: FlatSet<i64> = FlatSet::from_vec(vec![1, 5, 9]);
    assert!(!s.insert(5));
    assert_eq!(s.len(), 3);
}

#[test]
fn set_insert_true_once() {
    let mut s: FlatSet<i64> = FlatSet::new();
    assert!(s.insert(9));
    assert!(!s.insert(9));
    assert!(!s.insert(9));
    assert_eq!(s.len(), 1);
}

#[test]
fn set_iter_ascending_distinct() {
    let s: FlatSet<i64> = FlatSet::from_vec(vec![3, 1, 2, 3, 1]);
    assert_eq!(s.iter(), vec![&1, &2, &3]);
    assert!(s.contains(&1));
    assert!(!s.contains(&4));
}

#[test]
fn clear_idempotent() {
    let mut m = FlatMap::from_vec(vec![(1i64, 2i64), (3, 4)]);
    m.clear();
    assert!(m.is_empty());
    assert_eq!(m.len(), 0);
    m.clear();
    assert!(m.is_empty());
    assert_eq!(m.iter(), vec![]);
}

#[test]
fn remove_absent_idempotent() {
    let mut m = FlatMap::from_vec(vec![(1i64, 2i64), (3, 4)]);
    assert_eq!(m.remove(&7), None);
    assert_eq!(m.iter(), vec![(&1, &2), (&3, &4)]);
    assert_eq!(m.remove(&7), None);
    assert_eq!(m.iter(), vec![(&1, &2), (&3, &4)]);
}

#[test]
fn empty_map_operations() {
    let mut m: FlatMap<i64, i64> = FlatMap::new();
    assert!(m.is_empty());
    assert_eq!(m.len(), 0);
    assert_eq!(m.get(&1), None);
    assert_eq!(m.remove(&1), None);
    assert_eq!(m.range(Bound::Unbounded, Bound::Unbounded), vec![]);
    assert_eq!(m.iter(), vec![]);
}

#[test]
fn frozen_reads_match_mutable() {
    let pairs = vec![(2i64, 20i64), (4, 40), (6, 60)];
    let m = FlatMap::from_vec(pairs.clone());
    let f = FrozenFlatMap::from_vec(pairs);
    assert_eq!(m.iter(), f.iter());
    assert_eq!(m.get(&4), f.get(&4));
    assert_eq!(m.get_key_value(&2), f.get_key_value(&2));
    assert_eq!(m.contains_key(&5), f.contains_key(&5));
    assert_eq!(
        m.range(Bound::Included(3), Bound::Unbounded),
        f.range(Bound::Included(3), Bound::Unbounded)
    );
    assert_eq!(m.keys(), f.keys());
    assert_eq!(m.values(), f.values());
    assert!(!f.is_empty());
}
