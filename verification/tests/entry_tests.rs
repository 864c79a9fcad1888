use storage_map::{Entry, HashMap};

fn key(s: &str) -> Vec<u8> {
    s.as_bytes().to_vec()
}

#[test]
fn or_insert_fills_then_keeps() {
    let mut map: HashMap<Vec<u8>, u64> = HashMap::new();
    let e = map.entry(key("x"));
    let stored = *e.or_insert(&mut map, 10);
    assert_eq!(stored, 10);
    assert_eq!(map.get(&key("x")), Some(&10));

    // A second call must not overwrite the present value.
    let e = map.entry(key("x"));
    let stored = *e.or_insert(&mut map, 20);
    assert_eq!(stored, 10);
    assert_eq!(map.get(&key("x")), Some(&10));
    assert_eq!(map.len(), 1);
}

#[test]
fn or_default_inserts_the_default_value() {
    let mut map: HashMap<Vec<u8>, u64> = HashMap::new();
    let e = map.entry(key("n"));
    assert_eq!(*e.or_default(&mut map), 0);
    assert_eq!(map.get(&key("n")), Some(&0));

    map.insert(key("m"), 5);
    let e = map.entry(key("m"));
    assert_eq!(*e.or_default(&mut map), 5);
    assert_eq!(map.get(&key("m")), Some(&5));
}

#[test]
fn or_insert_with_only_runs_for_vacant() {
    let mut map: HashMap<Vec<u8>, u64> = HashMap::new();
    let e = map.entry(key("a"));
    assert_eq!(*e.or_insert_with(&mut map, || 3 + 4), 7);
    assert_eq!(map.get(&key("a")), Some(&7));

    let e = map.entry(key("a"));
    assert_eq!(*e.or_insert_with(&mut map, || 100), 7);
    assert_eq!(map.len(), 1);
}

#[test]
fn or_insert_with_key_derives_from_the_key() {
    let mut map: HashMap<Vec<u8>, u64> = HashMap::new();
    let e = map.entry(key("abc"));
    assert_eq!(*e.or_insert_with_key(&mut map, |k| k.len() as u64), 3);
    assert_eq!(map.get(&key("abc")), Some(&3));
}

#[test]
fn and_modify_touches_only_present_values() {
    let mut map: HashMap<Vec<u8>, u64> = HashMap::new();

    // Vacant: nothing happens, and the cursor stays usable.
    let e = map.entry(key("c"));
    let e = e.and_modify(&mut map, |v| v + 1);
    assert!(matches!(e, Entry::Vacant(_)));
    assert_eq!(map.get(&key("c")), None);
    let _ = e.or_insert(&mut map, 1);
    assert_eq!(map.get(&key("c")), Some(&1));

    // Occupied: the value is rewritten in place.
    let e = map.entry(key("c"));
    let e = e.and_modify(&mut map, |v| v + 10);
    assert!(matches!(e, Entry::Occupied(_)));
    assert_eq!(map.get(&key("c")), Some(&11));
}

#[test]
fn entry_key_accessors() {
    let mut map: HashMap<Vec<u8>, u64> = HashMap::new();
    let e = map.entry(key("k"));
    assert_eq!(e.key(), &key("k"));

    map.insert(key("k"), 1);
    let e = map.entry(key("k"));
    assert_eq!(e.key(), &key("k"));
    match e {
        Entry::Occupied(o) => assert_eq!(o.key(), &key("k")),
        Entry::Vacant(_) => panic!("the key was inserted"),
    }

    let e = map.entry(key("other"));
    match e {
        Entry::Vacant(v) => {
            assert_eq!(v.key(), &key("other"));
            assert_eq!(v.into_key(), key("other"));
        }
        Entry::Occupied(_) => panic!("the key was never inserted"),
    }
}

#[test]
fn vacant_insert_writes_the_pair() {
    let mut map: HashMap<Vec<u8>, u64> = HashMap::new();
    match map.entry(key("v")) {
        Entry::Vacant(v) => {
            assert_eq!(*v.insert(&mut map, 9), 9);
        }
        Entry::Occupied(_) => panic!("the key was never inserted"),
    }
    assert_eq!(map.get(&key("v")), Some(&9));
    assert_eq!(map.len(), 1);
}

#[test]
fn occupied_get_insert_and_into_mut() {
    let mut map: HashMap<Vec<u8>, u64> = HashMap::new();
    map.insert(key("o"), 1);
    match map.entry(key("o")) {
        Entry::Occupied(o) => {
            assert_eq!(*o.get(&map), 1);
            assert_eq!(o.insert(&mut map, 2), 1);
            assert_eq!(*o.get(&map), 2);
            *o.get_mut(&mut map) += 5;
            assert_eq!(*o.get(&map), 7);
            let v = o.into_mut(&mut map);
            *v = 9;
        }
        Entry::Vacant(_) => panic!("the key was inserted"),
    }
    assert_eq!(map.len(), 1);
    assert_eq!(map.get(&key("o")), Some(&9));
}

#[test]
fn or_insert_reference_writes_through() {
    let mut map: HashMap<Vec<u8>, u64> = HashMap::new();
    let e = map.entry(key("w"));
    *e.or_insert(&mut map, 1) = 41;
    let e = map.entry(key("w"));
    *e.or_insert(&mut map, 0) += 1;
    assert_eq!(map.get(&key("w")), Some(&42));
}

#[test]
fn occupied_remove_and_remove_entry() {
    let mut map: HashMap<Vec<u8>, u64> = HashMap::new();
    map.insert(key("a"), 1);
    map.insert(key("b"), 2);

    match map.entry(key("a")) {
        Entry::Occupied(o) => assert_eq!(o.remove(&mut map), 1),
        Entry::Vacant(_) => panic!("the key was inserted"),
    }
    assert_eq!(map.get(&key("a")), None);
    assert_eq!(map.len(), 1);

    match map.entry(key("b")) {
        Entry::Occupied(o) => {
            let (k, v) = o.remove_entry(&mut map);
            assert_eq!(k, key("b"));
            assert_eq!(v, 2);
        }
        Entry::Vacant(_) => panic!("the key was inserted"),
    }
    assert!(map.is_empty());
}
