use flatmap::Bound;
use flatmap::FrozenFlatMap;

fn sample() -> FrozenFlatMap<i64, i64> {
    FrozenFlatMap::from_vec(vec![(1, 2), (3, 4), (5, 6)])
}

#[test]
fn frozen_flat_map_test_contains_key() {
    let m = sample();
    assert!(m.contains_key(&1));
    assert!(m.contains_key(&3));
    assert!(m.contains_key(&5));
    assert!(!m.contains_key(&-100));
    assert!(!m.contains_key(&100));
}

#[test]
fn frozen_flat_map_test_get() {
    let m = sample();
    assert_eq!(m.get(&1), Some(&2));
    assert_eq!(m.get(&3), Some(&4));
    assert_eq!(m.get(&5), Some(&6));
    assert_eq!(m.get(&-100), None);
    assert_eq!(m.get(&100), None);
}

#[test]
fn frozen_flat_map_test_get_key_value() {
    let m = sample();
    assert_eq!(m.get_key_value(&1), Some((&1, &2)));
    assert_eq!(m.get_key_value(&3), Some((&3, &4)));
    assert_eq!(m.get_key_value(&5), Some((&5, &6)));
    assert_eq!(m.get_key_value(&-100), None);
    assert_eq!(m.get_key_value(&100), None);
}

#[test]
fn frozen_flat_map_test_range() {
    let m = FrozenFlatMap::from_vec(vec![(1, 2), (3, 4), (5, 6), (7, 8), (9, 10)]);
    assert_eq!(
        m.range(Bound::Included(2), Bound::Excluded(8)),
        vec![(&3, &4), (&5, &6), (&7, &8)]
    );
}

#[test]
fn frozen_flat_map_test_len() {
    let m = sample();
    assert_eq!(m.len(), 3);
}

#[test]
fn frozen_flat_map_test_iter() {
    let m = sample();
    assert_eq!(m.iter(), vec![(&1, &2), (&3, &4), (&5, &6)]);
}

#[test]
fn frozen_flat_map_test_keys() {
    let m = sample();
    assert_eq!(m.keys(), vec![&1, &3, &5]);
}

#[test]
fn frozen_flat_map_test_values() {
    let m = sample();
    assert_eq!(m.values(), vec![&2, &4, &6]);
}
