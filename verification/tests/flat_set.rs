use flatmap::FlatSet;

#[test]
fn test_contains() {
    let m: FlatSet<i64> = FlatSet::from_vec(vec![1, 2, 3]);
    assert!(m.contains(&1));
    assert!(m.contains(&2));
    assert!(m.contains(&3));
    assert!(!m.contains(&-100));
    assert!(!m.contains(&100));
}

#[test]
fn flat_set_test_insert() {
    let mut m: FlatSet<i64> = FlatSet::from_vec(vec![1, 2, 3]);
    assert!(m.insert(4));
    assert!(!m.insert(4));
}

#[test]
fn flat_set_test_remove() {
    let mut m: FlatSet<i64> = FlatSet::from_vec(vec![1, 2, 3]);
    m.remove(&2);
    assert!(!m.contains(&2));
}

#[test]
fn test_is_empty() {
    let mut m: FlatSet<i64> = FlatSet::from_vec(vec![1, 2, 3]);
    assert!(!m.is_empty());
    m.clear();
    assert!(m.is_empty());
}

#[test]
fn flat_set_test_len() {
    let m: FlatSet<i64> = FlatSet::from_vec(vec![1, 2, 3]);
    assert_eq!(m.len(), 3);
}

#[test]
fn flat_set_test_iter() {
    let m: FlatSet<i64> = FlatSet::from_vec(vec![1, 2, 3]);
    assert_eq!(m.iter().len(), 3);
}
