use ordered::OrderedHashMap;
use std::collections::hash_map::RandomState;

#[test]
fn it_works() {}

#[test]
fn new_is_empty() {
    let m: OrderedHashMap<&str, i32> = OrderedHashMap::new();
    assert!(m.is_empty());
    assert_eq!(m.len(), 0);
    assert!(m.iter_in_order().is_empty());
}

#[test]
fn update_keeps_position_and_value() {
    let mut m: OrderedHashMap<&str, i32> = OrderedHashMap::new();
    m.insert("a", 1);
    m.insert("b", 2);
    m.insert("a", 3);
    assert_eq!(m.get(&"a"), Some(&3));
    assert_eq!(m.iter_in_order(), vec![("a", 3), ("b", 2)]);
}

#[test]
fn remove_keeps_relative_order() {
    let mut m: OrderedHashMap<&str, i32> = OrderedHashMap::new();
    m.insert("a", 1);
    m.insert("b", 2);
    m.insert("c", 3);
    assert_eq!(m.remove(&"b"), Some(2));
    assert_eq!(m.iter_in_order(), vec![("a", 1), ("c", 3)]);
}

#[test]
fn reinsert_moves_to_end() {
    let mut m: OrderedHashMap<&str, i32> = OrderedHashMap::new();
    m.insert("a", 1);
    m.insert("b", 2);
    assert_eq!(m.remove(&"a"), Some(1));
    m.insert("a", 9);
    assert_eq!(m.iter_in_order(), vec![("b", 2), ("a", 9)]);
}

#[test]
fn with_capacity_reserves() {
    let mut m: OrderedHashMap<&str, i32> = OrderedHashMap::with_capacity(10);
    for (i, k) in ["a", "b", "c", "d", "e"].iter().enumerate() {
        m.insert(*k, i as i32);
    }
    assert!(m.capacity() >= 10);
    assert_eq!(m.len(), 5);
    m.remove(&"a");
    m.remove(&"b");
    assert!(m.capacity() >= 10);
    assert_eq!(m.len(), 3);
}

#[test]
fn capacity_never_shrinks_under_insertion() {
    let mut m: OrderedHashMap<u64, u64> = OrderedHashMap::new();
    let mut last = m.capacity();
    for i in 0..100u64 {
        m.insert(i, i * 2);
        let now = m.capacity();
        assert!(now >= last);
        assert!(now >= m.len());
        last = now;
    }
}

#[test]
fn round_trip_distinct_keys() {
    let entries = vec![("k1", 1), ("k2", 2), ("k3", 3), ("k4", 4), ("k5", 5)];
    let mut m: OrderedHashMap<&str, i32> = OrderedHashMap::new();
    for (k, v) in entries.iter() {
        assert_eq!(m.insert(*k, *v), None);
    }
    assert_eq!(m.iter_in_order(), entries);
}

#[test]
fn order_and_index_stay_in_step() {
    let mut m: OrderedHashMap<u32, u32> = OrderedHashMap::new();
    for i in 0..20u32 {
        m.insert(i % 7, i);
    }
    for i in [1u32, 3, 5] {
        m.remove(&i);
    }
    let snapshot = m.iter_in_order();
    assert_eq!(snapshot.len(), m.len());
    for (i, (k, v)) in snapshot.iter().enumerate() {
        assert_eq!(m.get(k), Some(v));
        assert!(m.contains(k));
        for (j, (k2, _)) in snapshot.iter().enumerate() {
            assert!(i == j || k != k2);
        }
    }
}

#[test]
fn insert_returns_previous_value() {
    let mut m: OrderedHashMap<&str, i32> = OrderedHashMap::new();
    assert_eq!(m.insert("x", 1), None);
    assert_eq!(m.insert("x", 2), Some(1));
    assert_eq!(m.insert("x", 3), Some(2));
    assert_eq!(m.len(), 1);
}

#[test]
fn absent_key_queries() {
    let mut m: OrderedHashMap<&str, i32> = OrderedHashMap::new();
    m.insert("here", 1);
    assert_eq!(m.get(&"gone"), None);
    assert!(!m.contains(&"gone"));
    assert_eq!(m.remove(&"gone"), None);
    assert_eq!(m.len(), 1);
    assert_eq!(m.iter_in_order(), vec![("here", 1)]);
}

#[test]
fn with_hasher_constructors() {
    let s = RandomState::new();
    let mut m = OrderedHashMap::<u32, u32>::with_hasher(s);
    m.insert(1, 2);
    assert_eq!(m.get(&1), Some(&2));

    let s = RandomState::new();
    let mut m = OrderedHashMap::<u32, u32>::with_capacity_and_hasher(10, s);
    m.insert(1, 2);
    assert!(m.capacity() >= 10);
    assert_eq!(m.iter_in_order(), vec![(1, 2)]);
}

#[test]
fn default_is_empty() {
    let m: OrderedHashMap<u64, u64> = Default::default();
    assert!(m.is_empty());
    assert_eq!(m.capacity(), 0);
}

#[test]
fn clone_is_independent() {
    let mut m: OrderedHashMap<String, i32> = OrderedHashMap::new();
    m.insert("a".to_string(), 1);
    m.insert("b".to_string(), 2);
    let copy = m.clone();
    m.insert("c".to_string(), 3);
    m.remove(&"a".to_string());
    assert_eq!(
        copy.iter_in_order(),
        vec![("a".to_string(), 1), ("b".to_string(), 2)]
    );
    assert_eq!(
        m.iter_in_order(),
        vec![("b".to_string(), 2), ("c".to_string(), 3)]
    );
}

#[test]
fn string_keys_scenario() {
    let mut m: OrderedHashMap<String, i32> = OrderedHashMap::new();
    m.insert("a".to_string(), 1);
    m.insert("b".to_string(), 2);
    m.insert("a".to_string(), 3);
    assert_eq!(m.get(&"a".to_string()), Some(&3));
    assert_eq!(
        m.iter_in_order(),
        vec![("a".to_string(), 3), ("b".to_string(), 2)]
    );
}
