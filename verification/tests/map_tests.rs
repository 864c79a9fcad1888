use storage_map::HashMap;

fn key(s: &str) -> Vec<u8> {
    s.as_bytes().to_vec()
}

#[test]
fn insert_then_get_round_trip() {
    let mut map: HashMap<Vec<u8>, u64> = HashMap::new();
    assert_eq!(map.len(), 0);
    assert!(map.is_empty());
    assert_eq!(map.insert(key("a"), 7), None);
    assert_eq!(map.len(), 1);
    assert!(!map.is_empty());
    assert_eq!(map.get(&key("a")), Some(&7));
    assert_eq!(map.insert(key("b"), 9), None);
    assert_eq!(map.len(), 2);
    assert_eq!(map.get(&key("b")), Some(&9));
    assert_eq!(map.get(&key("a")), Some(&7));
}

#[test]
fn insert_updates_without_duplicating() {
    let mut map: HashMap<Vec<u8>, u64> = HashMap::new();
    assert_eq!(map.insert(key("k"), 1), None);
    let cap = map.capacity();
    assert_eq!(map.insert(key("k"), 2), Some(1));
    assert_eq!(map.len(), 1);
    assert_eq!(map.capacity(), cap);
    assert_eq!(map.get(&key("k")), Some(&2));
}

#[test]
fn take_after_insert_returns_value() {
    let mut map: HashMap<Vec<u8>, u64> = HashMap::new();
    map.insert(key("x"), 42);
    assert_eq!(map.len(), 1);
    assert_eq!(map.take(&key("x")), Some(42));
    assert_eq!(map.get(&key("x")), None);
    assert_eq!(map.len(), 0);
}

#[test]
fn take_absent_is_none_and_harmless() {
    let mut map: HashMap<Vec<u8>, u64> = HashMap::new();
    assert_eq!(map.take(&key("never")), None);
    assert_eq!(map.len(), 0);
    map.insert(key("a"), 1);
    assert_eq!(map.take(&key("b")), None);
    assert_eq!(map.len(), 1);
    assert_eq!(map.take(&key("a")), Some(1));
    assert_eq!(map.take(&key("a")), None);
    assert_eq!(map.len(), 0);
}

#[test]
fn empty_map_yields_nothing() {
    let map: HashMap<Vec<u8>, u64> = HashMap::new();
    assert!(map.keys().is_empty());
    assert!(map.iter().is_empty());
    assert!(map.values().is_empty());
    assert_eq!(map.capacity(), 0);
}

#[test]
fn contains_key_tracks_membership() {
    let mut map: HashMap<Vec<u8>, u64> = HashMap::new();
    assert!(!map.contains_key(&key("a")));
    map.insert(key("a"), 1);
    assert!(map.contains_key(&key("a")));
    assert!(!map.contains_key(&key("b")));
    map.take(&key("a"));
    assert!(!map.contains_key(&key("a")));
}

#[test]
fn keys_yield_exactly_the_contained_keys() {
    let mut map: HashMap<Vec<u8>, u64> = HashMap::new();
    map.insert(key("a"), 1);
    map.insert(key("b"), 2);
    map.insert(key("c"), 3);
    map.take(&key("b"));
    map.insert(key("d"), 4);
    map.insert(key("e"), 5);
    map.take(&key("e"));

    let yielded = map.keys();
    assert_eq!(yielded.len() as u32, map.len());
    // No duplicates.
    for i in 0..yielded.len() {
        for j in (i + 1)..yielded.len() {
            assert_ne!(yielded[i], yielded[j]);
        }
    }
    // Every yielded key is contained, and every contained key is yielded.
    for k in &yielded {
        assert!(map.contains_key(k));
    }
    for probe in ["a", "b", "c", "d", "e"] {
        let k = key(probe);
        assert_eq!(map.contains_key(&k), yielded.contains(&k));
    }
}

#[test]
fn iter_pairs_match_contents() {
    let mut map: HashMap<Vec<u8>, u64> = HashMap::new();
    map.insert(key("a"), 1);
    map.insert(key("b"), 2);
    map.insert(key("c"), 3);
    map.take(&key("b"));

    let pairs = map.iter();
    assert_eq!(pairs.len() as u32, map.len());
    for (k, v) in &pairs {
        assert_eq!(map.get(k), Some(*v));
    }
}

#[test]
fn values_follow_key_order() {
    let mut map: HashMap<Vec<u8>, u64> = HashMap::new();
    map.insert(key("a"), 10);
    map.insert(key("b"), 20);
    map.insert(key("c"), 30);

    let ks = map.keys();
    let vs = map.values();
    assert_eq!(ks.len(), vs.len());
    for i in 0..ks.len() {
        assert_eq!(map.get(&ks[i]), Some(vs[i]));
    }
}

#[test]
fn get_mut_rewrites_in_place() {
    let mut map: HashMap<Vec<u8>, u64> = HashMap::new();
    map.insert(key("a"), 1);
    map.insert(key("b"), 2);
    assert!(map.get_mut(&key("missing")).is_none());
    if let Some(v) = map.get_mut(&key("a")) {
        *v += 99;
    }
    assert_eq!(map.get(&key("a")), Some(&100));
    assert_eq!(map.get(&key("b")), Some(&2));
    assert_eq!(map.len(), 2);
}

#[test]
fn values_mut_rewrites_every_value() {
    let mut map: HashMap<Vec<u8>, u64> = HashMap::new();
    map.insert(key("a"), 1);
    map.insert(key("b"), 2);
    map.insert(key("c"), 3);
    map.take(&key("b"));
    map.values_mut(|v| v * 10);
    assert_eq!(map.get(&key("a")), Some(&10));
    assert_eq!(map.get(&key("c")), Some(&30));
    assert_eq!(map.len(), 2);
}

#[test]
fn iter_mut_sees_the_keys() {
    let mut map: HashMap<Vec<u8>, u64> = HashMap::new();
    map.insert(key("a"), 1);
    map.insert(key("bb"), 2);
    map.iter_mut(|k, v| *v + k.len() as u64);
    assert_eq!(map.get(&key("a")), Some(&2));
    assert_eq!(map.get(&key("bb")), Some(&4));
}

#[test]
fn integer_keys_work() {
    let mut map: HashMap<u64, String> = HashMap::new();
    assert_eq!(map.insert(3, String::from("three")), None);
    assert_eq!(map.insert(4, String::from("four")), None);
    assert_eq!(map.get(&3), Some(&String::from("three")));
    assert_eq!(
        map.insert(3, String::from("drei")),
        Some(String::from("three"))
    );
    assert_eq!(map.len(), 2);
    assert_eq!(map.take(&4), Some(String::from("four")));
    assert_eq!(map.get(&4), None);
}

#[test]
fn clear_cells_discards_storage() {
    let mut map: HashMap<Vec<u8>, u64> = HashMap::new();
    map.insert(key("a"), 1);
    map.insert(key("b"), 2);
    // Tears the storage down; the map is not used afterwards.
    map.clear_cells();
}

#[test]
fn clear_cells_on_untouched_map_is_a_no_op() {
    let mut map: HashMap<Vec<u8>, u64> = HashMap::new();
    map.clear_cells();
}
