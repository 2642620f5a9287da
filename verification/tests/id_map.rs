use raftify::id_map::IdMap;

#[test]
fn new_map_is_empty() {
    let m: IdMap<u32> = IdMap::new();
    assert_eq!(m.len(), 0);
    assert!(!m.contains(0));
    assert_eq!(m.get(7), None);
    assert_eq!(m.position(7), None);
}

#[test]
fn insert_keeps_increasing_order() {
    let mut m: IdMap<&'static str> = IdMap::new();
    assert_eq!(m.insert(5, "five"), None);
    assert_eq!(m.insert(1, "one"), None);
    assert_eq!(m.insert(9, "nine"), None);
    assert_eq!(m.insert(3, "three"), None);
    assert_eq!(m.len(), 4);
    let keys: Vec<u64> = (0..m.len()).map(|i| m.key_at(i)).collect();
    assert_eq!(keys, vec![1, 3, 5, 9]);
    let values: Vec<&str> = (0..m.len()).map(|i| *m.value_at(i)).collect();
    assert_eq!(values, vec!["one", "three", "five", "nine"]);
    assert_eq!(m.position(5), Some(2));
    assert_eq!(m.position(4), None);
}

#[test]
fn insert_of_a_known_key_replaces() {
    let mut m: IdMap<u32> = IdMap::new();
    assert_eq!(m.insert(2, 20), None);
    assert_eq!(m.insert(2, 21), Some(20));
    assert_eq!(m.len(), 1);
    assert_eq!(m.get(2), Some(&21));
}

#[test]
fn remove_unbinds() {
    let mut m: IdMap<u32> = IdMap::new();
    m.insert(1, 10);
    m.insert(2, 20);
    m.insert(3, 30);
    assert_eq!(m.remove(2), Some(20));
    assert_eq!(m.remove(2), None);
    assert_eq!(m.len(), 2);
    assert!(m.contains(1));
    assert!(!m.contains(2));
    assert!(m.contains(3));
    assert_eq!(m.key_at(1), 3);
}

#[test]
fn extreme_keys() {
    let mut m: IdMap<u8> = IdMap::new();
    m.insert(u64::MAX, 1);
    m.insert(0, 2);
    assert_eq!(m.key_at(0), 0);
    assert_eq!(m.key_at(1), u64::MAX);
    assert_eq!(m.get(u64::MAX), Some(&1));
}

#[test]
fn maps_with_the_same_contents_are_equal() {
    let mut a: IdMap<u32> = IdMap::new();
    let mut b: IdMap<u32> = IdMap::new();
    a.insert(1, 10);
    a.insert(2, 20);
    b.insert(2, 20);
    b.insert(1, 10);
    assert_eq!(a, b);
}
