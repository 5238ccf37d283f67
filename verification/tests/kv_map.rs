use midencrypto::utils::kv_map::RecordingMap;

const ITEMS: [(u64, u64); 5] = [(0, 0), (1, 1), (2, 2), (3, 3), (4, 4)];

#[test]
fn get_item() {
    let mut map = RecordingMap::from_entries(&ITEMS);
    let get_items = [0, 1, 2];
    for key in &get_items {
        assert!(map.get(*key).is_some());
    }
    let (_, proof) = map.finalize();
    for (key, value) in ITEMS {
        if get_items.contains(&key) {
            assert_eq!(proof.get(&key), Some(&value));
        } else {
            assert_eq!(proof.get(&key), None);
        }
    }
}

#[test]
fn contains_key() {
    let mut map = RecordingMap::from_entries(&ITEMS);
    let get_items = [0, 1, 2];
    for key in get_items {
        assert!(map.contains_key(key));
    }
    let (_, proof) = map.finalize();
    for (key, _) in ITEMS {
        if get_items.contains(&key) {
            assert!(proof.contains_key(&key));
        } else {
            assert!(!proof.contains_key(&key));
        }
    }
}

#[test]
fn len() {
    let mut map = RecordingMap::from_entries(&ITEMS);
    assert_eq!(map.len(), ITEMS.len());
    assert_eq!(map.insert(4, 5), Some(4));
    assert_eq!(map.len(), ITEMS.len());
    assert_eq!(map.trace_len(), 1);
    assert_eq!(map.updates_len(), 1);
    assert!(map.insert(5, 5).is_none());
    assert_eq!(map.len(), ITEMS.len() + 1);
    assert_eq!(map.trace_len(), 1);
    assert_eq!(map.updates_len(), 2);
    let get_items = [0, 1, 2];
    for key in get_items {
        assert!(map.contains_key(key));
    }
    assert_eq!(map.trace_len(), 4);
    assert_eq!(map.updates_len(), 2);
    let get_items = [0, 1, 2];
    for key in get_items {
        assert!(map.contains_key(key));
    }
    assert_eq!(map.trace_len(), 4);
    assert_eq!(map.updates_len(), 2);
    let _ = map.get(5).unwrap();
    assert_eq!(map.trace_len(), 4);
    assert_eq!(map.updates_len(), 2);
    map.insert(5, 11);
    assert_eq!(map.trace_len(), 4);
    assert_eq!(map.updates_len(), 2);
    let (_, proof) = map.finalize();
    assert_eq!(proof.len(), get_items.len() + 1);
}

#[test]
fn iter() {
    let mut map = RecordingMap::from_entries(&ITEMS);
    assert!(map.entries().iter().all(|(x, y)| ITEMS.contains(&(*x, *y))));
    let new_value = 5;
    map.insert(4, 5);
    assert_eq!(map.entries().len(), ITEMS.len());
    assert!(map.entries().iter().all(|(x, y)| if *x == 4 { *y == new_value } else { ITEMS.contains(&(*x, *y)) }));
}

#[test]
fn is_empty() {
    let empty_map = RecordingMap::<u64>::default();
    assert!(empty_map.is_empty());
    let map = RecordingMap::from_entries(&ITEMS);
    assert!(!map.is_empty());
}

#[test]
fn remove() {
    let mut map = RecordingMap::from_entries(&ITEMS);
    let key = 0;
    let value = map.remove(key).unwrap();
    assert_eq!(value, ITEMS[0].1);
    assert_eq!(map.len(), ITEMS.len() - 1);
    assert_eq!(map.trace_len(), 1);
    assert_eq!(map.updates_len(), 1);
    let key = 0;
    let value = 0;
    map.insert(key, value);
    let value = map.remove(key).unwrap();
    assert_eq!(value, 0);
    assert_eq!(map.len(), ITEMS.len() - 1);
    assert_eq!(map.trace_len(), 1);
    assert_eq!(map.updates_len(), 1);
    let key = 100;
    let value = map.remove(key);
    assert!(value.is_none());
    assert_eq!(map.len(), ITEMS.len() - 1);
    assert_eq!(map.trace_len(), 1);
    assert_eq!(map.updates_len(), 1);
    let key = 100;
    let value = 100;
    map.insert(key, value);
    let value = map.remove(key).unwrap();
    assert_eq!(value, 100);
    assert_eq!(map.len(), ITEMS.len() - 1);
    assert_eq!(map.trace_len(), 1);
    assert_eq!(map.updates_len(), 2);
    let (_, proof) = map.finalize();
    for (key, value) in ITEMS {
        match key {
            0 => assert_eq!(proof.get(&key), Some(&value)),
            _ => assert!(proof.get(&key).is_none()),
        }
    }
}
