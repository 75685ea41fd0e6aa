//! Wrappers around shared borrows of the contents of a `RefCell`, so that a
//! container inside a `RefCell` can be handed out and iterated.
//!
//! The borrowed contents are opaque here: the functions of this module pass
//! the calls on to the borrowed value and state nothing about what it holds.

use std::cell::Ref;
use std::collections::hash_map::{Keys, Values};
use std::slice::Iter;
use std::collections::HashMap;
use vstd::prelude::*;

verus! {

broadcast use vstd::std_specs::hash::group_hash_axioms;

/// A shared borrow of the contents of a `RefCell`, carried opaquely.
#[verifier::external_type_specification]
#[verifier::external_body]
#[verifier::reject_recursive_types(T)]
pub struct ExRef<'b, T: ?Sized>(Ref<'b, T>);

/// `Ref::deref`: the borrowed value. The contents of a `Ref` are not modelled,
/// so nothing is stated about the result.
#[verifier::external_body]
fn ref_deref<'c, 'b, T>(r: &'c Ref<'b, T>) -> (res: &'c T) {
    r
}

/// `Iterator::next` of the values of a hash map: the next value, if any. The
/// contents of the borrowed map are not modelled here, so nothing is stated
/// about the result.
#[verifier::external_body]
fn values_next<'b, K, V>(values: &mut Values<'b, K, V>) -> (res: Option<&'b V>) {
    values.next()
}

/// Wrapper around `Ref<HashMap<K, V>>`, which makes it possible to hand out a
/// hash map that lives inside a `RefCell` and iterate over it.
#[verifier::reject_recursive_types(K)]
#[verifier::reject_recursive_types(V)]
pub struct HashMapRefWrapper<'a, K, V: 'a> {
    r: Ref<'a, HashMap<K, V>>,
}

impl<'a, K, V: 'a> HashMapRefWrapper<'a, K, V> {
    /// The borrow held by the wrapper.
    pub closed spec fn borrowed(&self) -> Ref<'a, HashMap<K, V>> {
        self.r
    }

    /// Wrap a borrowed hash map.
    pub fn new(r: Ref<'a, HashMap<K, V>>) -> (res: Self)
        ensures
            res.borrowed() == r,
    {
        HashMapRefWrapper { r }
    }

    /// Iterate over the values of the hash map.
    pub fn values(&'a self) -> (res: Values<'a, K, V>) {
        ref_deref(&self.r).values()
    }

    /// Iterate over the keys of the hash map.
    pub fn keys(&'a self) -> (res: Keys<'a, K, V>) {
        ref_deref(&self.r).keys()
    }

    /// Return the size of the hash map.
    pub fn len(&'a self) -> (res: usize) {
        ref_deref(&self.r).len()
    }

    /// Iterate over the key-value pairs of the hash map.
    pub fn iter(&'a self) -> (res: std::collections::hash_map::Iter<'a, K, V>) {
        ref_deref(&self.r).iter()
    }
}

impl<'a, K, V: 'a + Clone> HashMapRefWrapper<'a, K, V> {
    /// Get the cloned values of the hash map in a `Vec`.
    pub fn values_vec(&'a self) -> (res: Vec<V>) {
        let m = ref_deref(&self.r);
        let n = m.len();
        let mut values = m.values();
        let mut res: Vec<V> = Vec::new();
        let mut k: usize = 0;
        while k < n
            decreases n - k,
        {
            match values_next(&mut values) {
                Some(v) => {
                    res.push(v.clone());
                },
                None => {
                    break;
                },
            }
            k = k + 1;
        }
        res
    }
}

/// Wrapper around `Ref<_>`, which makes it possible to hand out a container
/// that lives inside a `RefCell` and iterate over it.
#[verifier::reject_recursive_types(I)]
pub struct RefWrapper<'a, I> {
    r: Ref<'a, I>,
}

impl<'a, I> RefWrapper<'a, I> {
    /// The borrow held by the wrapper.
    pub closed spec fn borrowed(&self) -> Ref<'a, I> {
        self.r
    }

    /// Wrap a borrowed value.
    pub fn new(r: Ref<'a, I>) -> (res: Self)
        ensures
            res.borrowed() == r,
    {
        RefWrapper { r }
    }
}

impl<'a, I: ExactSizeIterator> RefWrapper<'a, I> {
    /// The number of items of the borrowed iterator: `ExactSizeIterator::len`
    /// of the borrowed value, a call into an implementation of an outside trait.
    /// Nothing is stated about the result.
    #[verifier::external_body]
    pub fn len(&'a self) -> (res: usize) {
        self.r.len()
    }
}

impl<'a, T> RefWrapper<'a, Vec<T>> {
    /// Iterate over the items of the borrowed vector.
    pub fn iter(&self) -> (res: Iter<'_, T>) {
        ref_deref(&self.r).as_slice().iter()
    }

    /// Iterate over the items of the borrowed vector; the same as [`RefWrapper::iter`].
    pub fn into_iter(&self) -> (res: Iter<'_, T>) {
        self.iter()
    }
}

} // verus!
