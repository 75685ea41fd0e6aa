use libreda_db::ref_wrapper::{HashMapRefWrapper, RefWrapper};
use std::cell::RefCell;
use std::collections::HashMap;

#[test]
fn test_refwrapper_into_iter() {
    let vec = RefCell::new(vec![1, 2, 3]);
    let i = RefWrapper::new(vec.borrow());

    let collected: Vec<_> = i.into_iter().copied().collect();
    assert_eq!(collected, vec![1, 2, 3]);
}

#[test]
fn test_refwrapper_iter() {
    let vec = RefCell::new(vec![1, 2, 3]);
    let i = RefWrapper::new(vec.borrow());

    let collected: Vec<_> = i.iter().copied().collect();
    assert_eq!(collected, vec![1, 2, 3]);
}

#[test]
fn test_refwrapper_iter_flatten() {
    let vec = RefCell::new(vec![vec![1, 2], vec![3]]);
    let i = RefWrapper::new(vec.borrow());

    let collected: Vec<_> = i.iter().flatten().copied().collect();
    assert_eq!(collected, vec![1, 2, 3]);
}

#[test]
fn hashmap_refwrapper_access() {
    let mut m = HashMap::new();
    m.insert(1u32, "a".to_string());
    m.insert(2u32, "b".to_string());
    let cell = RefCell::new(m);
    let w = HashMapRefWrapper::new(cell.borrow());
    assert_eq!(w.len(), 2);
    let mut keys: Vec<u32> = w.keys().copied().collect();
    keys.sort();
    assert_eq!(keys, vec![1, 2]);
    let mut values = w.values_vec();
    values.sort();
    assert_eq!(values, vec!["a".to_string(), "b".to_string()]);
    assert_eq!(w.iter().count(), 2);
    assert_eq!(w.values().count(), 2);
}

#[test]
fn refwrapper_len_of_iterator() {
    let cell = RefCell::new(vec![4, 5, 6].into_iter());
    let w = RefWrapper::new(cell.borrow());
    assert_eq!(w.len(), 3);
}
