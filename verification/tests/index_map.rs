use libreda_db::index_map::IndexMap;

#[test]
fn test_index_map() {
    let mut map = IndexMap::new();

    let h1 = map.insert(1);
    let h2 = map.insert(2);

    assert_eq!(map.get(h1), Some(&1));
    assert_eq!(map.get(h2), Some(&2));

    assert_eq!(map.remove(h1), Some(1));

    let h3 = map.insert(3);
    assert_eq!(map.num_slots_used(), 2, "position of 1 was reused");
    assert_eq!(map.get(h1), None);
    assert_eq!(map.get(h3), Some(&3));

    assert_eq!(map.iter().len(), 2);
}

#[test]
fn index_map_len_and_clear() {
    let mut map = IndexMap::new();
    assert!(map.is_empty());
    let a = map.insert("a");
    let b = map.insert("b");
    assert_eq!(map.len(), 2);
    assert!(map.contains_key(a));
    assert_eq!(map.keys(), vec![a, b]);
    assert_eq!(map.values(), vec![&"a", &"b"]);
    map.clear();
    assert_eq!(map.len(), 0);
    assert!(!map.contains_key(a));
    assert_eq!(map.get(b), None);
}

#[test]
fn index_map_remove_twice() {
    let mut map = IndexMap::new();
    let a = map.insert(10u32);
    assert_eq!(map.remove(a), Some(10));
    assert_eq!(map.remove(a), None);
    assert_eq!(map.len(), 0);
    // A new element in the freed slot gets a new key.
    let b = map.insert(11);
    assert_ne!(a, b);
    assert_eq!(map.get(a), None);
    assert_eq!(map.get(b), Some(&11));
}

#[test]
fn index_map_shrink_drops_free_tail() {
    let mut map = IndexMap::new();
    let a = map.insert(1);
    let b = map.insert(2);
    let c = map.insert(3);
    map.remove(b);
    map.remove(c);
    assert_eq!(map.num_slots_used(), 3);
    map.shrink();
    assert_eq!(map.num_slots_used(), 1);
    assert_eq!(map.get(a), Some(&1));
    let d = map.insert(4);
    assert_eq!(map.num_slots_used(), 2);
    assert_eq!(map.get(d), Some(&4));
}

#[test]
fn index_map_keys_not_repeated_after_clear() {
    let mut map = IndexMap::new();
    let h1 = map.insert(1);
    map.clear();
    assert_eq!(map.len(), 0);
    assert_eq!(map.get(h1), None);
    let h2 = map.insert(2);
    assert_ne!(h1, h2);
    assert_eq!(map.get(h1), None);
    assert_eq!(map.get(h2), Some(&2));
}

#[test]
fn index_map_shrink_keeps_pairs() {
    let mut map = IndexMap::new();
    let a = map.insert('a');
    let b = map.insert('b');
    let c = map.insert('c');
    map.remove(c);
    let before: Vec<_> = map.iter().into_iter().map(|(k, v)| (k, *v)).collect();
    map.shrink();
    let after: Vec<_> = map.iter().into_iter().map(|(k, v)| (k, *v)).collect();
    assert_eq!(before, after);
    assert_eq!(after, vec![(a, 'a'), (b, 'b')]);
    assert_eq!(map.remove(c), None);
    assert_eq!(map.keys(), vec![a, b]);
}

#[test]
fn index_map_reuses_the_most_recently_freed_slot() {
    let mut map = IndexMap::new();
    let a = map.insert('a');
    let b = map.insert('b');
    let c = map.insert('c');
    map.remove(a);
    map.remove(c);
    let d = map.insert('d');
    // `d` takes the slot of `c`, which was freed last, so it comes after `b`.
    assert_eq!(map.keys(), vec![b, d]);
    let e = map.insert('e');
    assert_eq!(map.keys(), vec![e, b, d]);
    assert_eq!(map.num_slots_used(), 3);
}

#[test]
fn index_map_holds_keys_inserted_and_not_removed_since() {
    let mut map = IndexMap::new();
    let a = map.insert('a');
    let b = map.insert('b');
    map.remove(a);
    let c = map.insert('c');
    assert!(!map.contains_key(a));
    assert!(map.contains_key(b));
    assert!(map.contains_key(c));
    assert_eq!(map.contains_key(b), map.get(b).is_some());
    map.clear();
    let d = map.insert('d');
    assert!(!map.contains_key(b));
    assert!(!map.contains_key(c));
    assert!(map.contains_key(d));
}
