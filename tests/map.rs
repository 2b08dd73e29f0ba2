use bimultimap::{BiMultiMap, FstRange, HashProvider, MapError, StdHashProvider};
use std::collections::HashSet;

fn set_of(items: &[u64]) -> HashSet<u64> {
    items.iter().copied().collect()
}

#[test]
fn key_iter_lists_values_of_a_key() {
    let mut map = BiMultiMap::new(10, 10).unwrap();
    assert!(map.insert(10, 10));
    assert!(map.insert(12, 32));
    assert!(map.insert(10, 3389283));
    let ten: HashSet<u64> = map.key_iter(10).into_iter().collect();
    assert_eq!(ten, set_of(&[10, 3389283]));
    let twelve: HashSet<u64> = map.key_iter(12).into_iter().collect();
    assert_eq!(twelve, set_of(&[32]));
}

#[test]
fn val_iter_lists_keys_of_a_value() {
    let mut map = BiMultiMap::new(10, 10).unwrap();
    assert!(map.insert(10, 10));
    assert!(map.insert(12, 10));
    assert!(map.insert(9, 3));
    let ten: HashSet<u64> = map.val_iter(10).into_iter().collect();
    assert_eq!(ten, set_of(&[10, 12]));
    let three: HashSet<u64> = map.val_iter(3).into_iter().collect();
    assert_eq!(three, set_of(&[9]));
}

#[test]
fn insert_twice_is_idempotent() {
    let mut map = BiMultiMap::new(4, 4).unwrap();
    assert!(map.insert(1, 2));
    let before = map.iter().len();
    assert!(map.insert(7, 8));
    assert!(!map.insert(7, 8));
    assert_eq!(map.iter().len(), before + 1);
}

#[test]
fn insert_then_remove_restores_the_map() {
    let mut map = BiMultiMap::new(3, 5).unwrap();
    map.insert(1, 1);
    map.insert(2, 3);
    let before: HashSet<(u64, u64)> = map.iter().into_iter().collect();
    assert!(map.insert(4, 9));
    assert!(map.remove(&(4, 9)));
    let after: HashSet<(u64, u64)> = map.iter().into_iter().collect();
    assert_eq!(before, after);
}

#[test]
fn remove_of_absent_relation_is_a_no_op() {
    let mut map = BiMultiMap::new(2, 2).unwrap();
    assert!(!map.remove(&(1, 1)));
    map.insert(1, 1);
    assert!(map.remove(&(1, 1)));
    assert!(!map.remove(&(1, 1)));
    assert!(map.iter().is_empty());
}

#[test]
fn both_directions_agree() {
    let mut map = BiMultiMap::new(3, 3).unwrap();
    map.insert(5, 6);
    map.insert(5, 7);
    map.insert(8, 6);
    assert!(map.key_iter(5).contains(&6));
    assert!(map.val_iter(6).contains(&5));
    assert!(!map.key_iter(8).contains(&7));
    assert!(!map.val_iter(7).contains(&8));
    assert!(map.key_iter(99).is_empty());
    assert!(map.val_iter(99).is_empty());
}

#[test]
fn iter_yields_every_relation_once() {
    let mut map = BiMultiMap::new(2, 3).unwrap();
    let pairs: Vec<(u64, u64)> = vec![(0, 0), (0, 1), (1, 0), (5, 9), (9, 5), (100, 100), (u64::MAX, 0)];
    for &(k, v) in &pairs {
        assert!(map.insert(k, v));
    }
    map.remove(&(1, 0));
    let all = map.iter();
    assert_eq!(all.len(), pairs.len() - 1);
    let got: HashSet<(u64, u64)> = all.into_iter().collect();
    let want: HashSet<(u64, u64)> = pairs.into_iter().filter(|p| *p != (1, 0)).collect();
    assert_eq!(got, want);
}

#[test]
fn key_with_many_values_yields_each_once() {
    let mut map = BiMultiMap::new(2, 2).unwrap();
    for v in 0..20u64 {
        map.insert(3, v);
        map.insert(4, v * 2);
    }
    let vals = map.key_iter(3);
    assert_eq!(vals.len(), 20);
    assert_eq!(vals.into_iter().collect::<HashSet<u64>>(), (0..20u64).collect::<HashSet<u64>>());
    let keys = map.val_iter(4);
    assert_eq!(keys.into_iter().collect::<HashSet<u64>>(), set_of(&[3, 4]));
}

#[test]
fn zero_dimension_is_rejected() {
    assert!(matches!(BiMultiMap::new(0, 4), Err(MapError::InvalidCapacity)));
    assert!(matches!(BiMultiMap::new(4, 0), Err(MapError::InvalidCapacity)));
    assert!(matches!(BiMultiMap::new(0, 0), Err(MapError::InvalidCapacity)));
    assert!(matches!(
        BiMultiMap::with_hasher(0, 1, StdHashProvider),
        Err(MapError::InvalidCapacity)
    ));
}

#[test]
fn single_bucket_holds_everything() {
    let mut map = BiMultiMap::new(1, 1).unwrap();
    for k in 0..10u64 {
        assert!(map.insert(k, 10 - k));
    }
    assert_eq!(map.iter().len(), 10);
    assert_eq!(map.key_iter(4), vec![6]);
    assert_eq!(map.val_iter(6), vec![4]);
}

#[test]
fn with_hasher_builds_a_working_map() {
    let mut map = BiMultiMap::with_hasher(5, 7, StdHashProvider).unwrap();
    assert!(map.insert(1, 2));
    assert_eq!(map.key_iter(1), vec![2]);
}

#[test]
fn default_provider_hashes_deterministically() {
    let h = StdHashProvider;
    assert_eq!(h.hash(10), h.hash(10));
    assert_eq!(h.hash(10), StdHashProvider.hash(10));
    assert_ne!(h.hash(10), 10);
    assert_ne!(h.hash(10), h.hash(11));
}

#[test]
fn fst_range_wraps_a_bound() {
    let r = FstRange(3u64..7);
    assert!(r.0.contains(&5));
}
