use bump_allocator::map::HashMap;

#[test]
fn insert() {
    let mut map = HashMap::new();
    assert_eq!(map.is_empty(), true);
    map.insert("key", "value");
    assert_eq!(map.insert("key", "value1"), Some("value"));
    assert_eq!(map.get(&"key"), Some(&"value1"));
    assert_eq!(map.remove(&"key"), Some("value1"));
    assert_eq!(map.get(&"key"), None);
    assert_eq!(map.len(), 0);
}

#[test]
fn empty_map_finds_nothing() {
    let mut map: HashMap<u64, u64> = HashMap::new();
    assert_eq!(map.get(&1), None);
    assert!(!map.contains_key(&1));
    assert_eq!(map.remove(&1), None);
    assert!(map.get_mut(&1).is_none());
    assert_eq!(map.len(), 0);
}

#[test]
fn many_keys_are_all_found() {
    let mut map: HashMap<u64, u64> = HashMap::new();
    for k in 0..200u64 {
        assert_eq!(map.insert(k, k * 10), None);
    }
    assert_eq!(map.len(), 200);
    for k in 0..200u64 {
        assert_eq!(map.get(&k), Some(&(k * 10)));
        assert!(map.contains_key(&k));
    }
    assert!(!map.contains_key(&500));
    for k in (0..200u64).step_by(2) {
        assert_eq!(map.remove(&k), Some(k * 10));
    }
    assert_eq!(map.len(), 100);
    assert_eq!(map.get(&4), None);
    assert_eq!(map.get(&5), Some(&50));
}

#[test]
fn get_mut_changes_in_place() {
    let mut map: HashMap<u64, u64> = HashMap::new();
    map.insert(7, 1);
    map.insert(8, 2);
    if let Some(v) = map.get_mut(&7) {
        *v = 70;
    }
    assert_eq!(map.get(&7), Some(&70));
    assert_eq!(map.get(&8), Some(&2));
    assert_eq!(map.len(), 2);
}

#[test]
fn bucket_indexed_operations() {
    let mut map: HashMap<u64, u64> = HashMap::new();
    map.insert(3, 30);
    let b = map.bucket(&3);
    assert_eq!(map.get_at(&3, b), Some(&30));
    assert!(map.contains_key_at(&3, b));
    assert_eq!(map.insert_at(3, 31, b), Some(30));
    assert_eq!(map.insert_at(4, 40, b), None);
    assert_eq!(map.get_at(&4, b), Some(&40));
    assert_eq!(map.len(), 2);
    if let Some(v) = map.get_mut_at(&4, b) {
        *v = 41;
    }
    assert_eq!(map.remove_at(&4, b), Some(41));
    assert_eq!(map.remove_at(&4, b), None);
    assert_eq!(map.len(), 1);
}

#[test]
fn overwrite_keeps_length() {
    let mut map: HashMap<u64, &str> = HashMap::new();
    assert_eq!(map.insert(1, "a"), None);
    assert_eq!(map.insert(1, "b"), Some("a"));
    assert_eq!(map.len(), 1);
    assert!(!map.is_empty());
}

#[test]
fn iter_walks_every_pair_once() {
    let mut map: HashMap<u64, u64> = HashMap::new();
    for k in 1..=50u64 {
        map.insert(k, k + 1000);
    }
    let mut it = map.iter();
    let mut seen = Vec::new();
    while let Some((k, v)) = it.next() {
        assert_eq!(*v, *k + 1000);
        seen.push(*k);
    }
    assert!(it.next().is_none());
    seen.sort();
    assert_eq!(seen, (1..=50u64).collect::<Vec<u64>>());
}

#[test]
fn iter_over_empty_map_ends_at_once() {
    let map: HashMap<u64, u64> = HashMap::new();
    let mut it = map.iter();
    assert!(it.next().is_none());
}
