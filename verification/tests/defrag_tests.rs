use storage_map::HashMap;

fn key(s: &str) -> Vec<u8> {
    s.as_bytes().to_vec()
}

#[test]
fn removed_slot_is_reused_before_growing() {
    let mut map: HashMap<Vec<u8>, u64> = HashMap::new();
    map.insert(key("a"), 1);
    map.insert(key("b"), 2);
    map.insert(key("c"), 3);
    assert_eq!(map.capacity(), 3);
    assert_eq!(map.take(&key("b")), Some(2));
    assert_eq!(map.len(), 2);
    assert_eq!(map.capacity(), 3);

    // The new key takes the vacant slot instead of growing the registry.
    map.insert(key("d"), 4);
    assert_eq!(map.len(), 3);
    assert_eq!(map.capacity(), 3);
    assert_eq!(map.get(&key("b")), None);

    let mut yielded = map.keys();
    yielded.sort();
    assert_eq!(yielded, vec![key("a"), key("c"), key("d")]);
}

#[test]
fn full_defrag_compacts_to_len() {
    let mut map: HashMap<Vec<u8>, u64> = HashMap::new();
    for (i, name) in ["a", "b", "c", "d", "e"].iter().enumerate() {
        map.insert(key(name), i as u64);
    }
    assert_eq!(map.capacity(), 5);
    assert_eq!(map.take(&key("b")), Some(1));
    assert_eq!(map.take(&key("d")), Some(3));
    assert_eq!(map.len(), 3);
    assert_eq!(map.capacity(), 5);

    let freed = map.defrag(None);
    assert_eq!(freed, 2);
    assert_eq!(map.len(), 3);
    assert_eq!(map.capacity(), 3);

    // Every surviving key still maps to the value it had before.
    assert_eq!(map.get(&key("a")), Some(&0));
    assert_eq!(map.get(&key("c")), Some(&2));
    assert_eq!(map.get(&key("e")), Some(&4));
    assert_eq!(map.get(&key("b")), None);
    assert_eq!(map.get(&key("d")), None);

    // A second pass has nothing left to reclaim.
    assert_eq!(map.defrag(None), 0);
    assert_eq!(map.capacity(), 3);
}

#[test]
fn bounded_defrag_reclaims_incrementally() {
    let mut map: HashMap<Vec<u8>, u64> = HashMap::new();
    for (i, name) in ["a", "b", "c", "d"].iter().enumerate() {
        map.insert(key(name), i as u64);
    }
    map.take(&key("a"));
    map.take(&key("c"));
    assert_eq!(map.capacity(), 4);

    assert_eq!(map.defrag(Some(0)), 0);
    assert_eq!(map.capacity(), 4);

    assert_eq!(map.defrag(Some(1)), 1);
    assert_eq!(map.capacity(), 3);

    assert_eq!(map.defrag(Some(1)), 1);
    assert_eq!(map.capacity(), 2);
    assert_eq!(map.len(), 2);

    assert_eq!(map.defrag(Some(1)), 0);
    assert_eq!(map.get(&key("b")), Some(&1));
    assert_eq!(map.get(&key("d")), Some(&3));
}

#[test]
fn defrag_bound_larger_than_vacancies() {
    let mut map: HashMap<Vec<u8>, u64> = HashMap::new();
    map.insert(key("a"), 1);
    map.insert(key("b"), 2);
    map.take(&key("a"));
    assert_eq!(map.defrag(Some(100)), 1);
    assert_eq!(map.capacity(), 1);
    assert_eq!(map.get(&key("b")), Some(&2));
}

#[test]
fn defrag_on_empty_and_dense_maps() {
    let mut map: HashMap<Vec<u8>, u64> = HashMap::new();
    assert_eq!(map.defrag(None), 0);
    map.insert(key("a"), 1);
    map.insert(key("b"), 2);
    // No slot is vacant, so there is nothing to reclaim.
    assert_eq!(map.defrag(None), 0);
    assert_eq!(map.capacity(), 2);
}

#[test]
fn defrag_keeps_values_across_many_operations() {
    let mut map: HashMap<u64, u64> = HashMap::new();
    for i in 0..20u64 {
        map.insert(i, i * 10);
    }
    for i in (0..20u64).step_by(2) {
        assert_eq!(map.take(&i), Some(i * 10));
    }
    assert_eq!(map.len(), 10);
    assert_eq!(map.capacity(), 20);
    assert_eq!(map.defrag(None), 10);
    assert_eq!(map.capacity(), 10);
    for i in (1..20u64).step_by(2) {
        assert_eq!(map.get(&i), Some(&(i * 10)));
    }
    for i in (0..20u64).step_by(2) {
        assert_eq!(map.get(&i), None);
    }
}
