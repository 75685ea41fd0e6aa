//! Hash maps and hash sets with the FNV hasher, which is fast for integer keys.
//!
//! The functions here are the only places where the crate calls into
//! `fnv::FnvHashMap` and `fnv::FnvHashSet`. Both are the standard hash
//! collections with the deterministic FNV hasher in place of the randomly seeded
//! one; each function states, over the standard view of the collection, what
//! the standard method does for keys whose `Eq` and `Hash` agree with equality
//! of values (`obeys_key_model`, which holds for the integer types).

use fnv::{FnvHashMap, FnvHashSet};
use std::hash::Hash;
use vstd::prelude::*;
use vstd::std_specs::hash::obeys_key_model;

verus! {

/// The FNV hasher of the `fnv` crate, carried opaquely inside the hash collections.
#[verifier::external_type_specification]
#[verifier::external_body]
pub struct ExFnvHasher(fnv::FnvHasher);

/// The standard builder of default-constructed hashers, carried opaquely inside the hash collections.
#[verifier::external_type_specification]
#[verifier::external_body]
#[verifier::reject_recursive_types(H)]
pub struct ExBuildHasherDefault<H>(std::hash::BuildHasherDefault<H>);

/// `FnvHashMap::insert`: claims that the map afterwards maps `k` to `v` and is
/// unchanged elsewhere, and that the previous value of `k` is returned.
#[verifier::external_body]
pub(crate) fn fnv_map_insert<K: Eq + Hash, V>(m: &mut FnvHashMap<K, V>, k: K, v: V) -> (res: Option<V>)
    requires
        obeys_key_model::<K>(),
    ensures
        final(m)@ == old(m)@.insert(k, v),
        match res {
            Some(prev) => old(m)@.contains_key(k) && prev == old(m)@[k],
            None => !old(m)@.contains_key(k),
        },
{
    m.insert(k, v)
}

/// `FnvHashMap::remove`: claims that `k` is removed and its value returned.
#[verifier::external_body]
pub(crate) fn fnv_map_remove<K: Eq + Hash, V>(m: &mut FnvHashMap<K, V>, k: &K) -> (res: Option<V>)
    requires
        obeys_key_model::<K>(),
    ensures
        final(m)@ == old(m)@.remove(*k),
        match res {
            Some(prev) => old(m)@.contains_key(*k) && prev == old(m)@[*k],
            None => !old(m)@.contains_key(*k),
        },
{
    m.remove(k)
}

/// `FnvHashMap::get`: claims that the value of `k` is returned if there is one.
#[verifier::external_body]
pub(crate) fn fnv_map_get<'a, K: Eq + Hash, V>(m: &'a FnvHashMap<K, V>, k: &K) -> (res: Option<&'a V>)
    requires
        obeys_key_model::<K>(),
    ensures
        match res {
            Some(v) => m@.contains_key(*k) && *v == m@[*k],
            None => !m@.contains_key(*k),
        },
{
    m.get(k)
}

/// `FnvHashMap::contains_key`: claims that the result tells whether `k` has a value.
#[verifier::external_body]
pub(crate) fn fnv_map_contains_key<K: Eq + Hash, V>(m: &FnvHashMap<K, V>, k: &K) -> (res: bool)
    requires
        obeys_key_model::<K>(),
    ensures
        res == m@.contains_key(*k),
{
    m.contains_key(k)
}

/// `FnvHashMap::len`: claims that the result is the number of keys.
#[verifier::external_body]
pub(crate) fn fnv_map_len<K: Eq + Hash, V>(m: &FnvHashMap<K, V>) -> (res: usize)
    requires
        obeys_key_model::<K>(),
    ensures
        res == m@.len(),
{
    m.len()
}

/// `FnvHashMap::keys`, collected: claims that every key occurs once in the result.
/// The order is the order in which the hash map is walked, which nothing here states.
#[verifier::external_body]
pub(crate) fn fnv_map_keys<K: Eq + Hash + Copy, V>(m: &FnvHashMap<K, V>) -> (res: Vec<K>)
    requires
        obeys_key_model::<K>(),
    ensures
        res@.no_duplicates(),
        res@.to_set() == m@.dom(),
{
    m.keys().copied().collect()
}

/// `FnvHashSet::insert`: claims that `k` is added and that the result tells
/// whether it was absent before.
#[verifier::external_body]
pub(crate) fn fnv_set_insert<K: Eq + Hash>(s: &mut FnvHashSet<K>, k: K) -> (res: bool)
    requires
        obeys_key_model::<K>(),
    ensures
        final(s)@ == old(s)@.insert(k),
        res == !old(s)@.contains(k),
{
    s.insert(k)
}

/// `FnvHashSet::remove`: claims that `k` is removed and that the result tells
/// whether it was present before.
#[verifier::external_body]
pub(crate) fn fnv_set_remove<K: Eq + Hash>(s: &mut FnvHashSet<K>, k: &K) -> (res: bool)
    requires
        obeys_key_model::<K>(),
    ensures
        final(s)@ == old(s)@.remove(*k),
        res == old(s)@.contains(*k),
{
    s.remove(k)
}

/// `FnvHashSet::contains`: claims that the result tells whether `k` is present.
#[verifier::external_body]
pub(crate) fn fnv_set_contains<K: Eq + Hash>(s: &FnvHashSet<K>, k: &K) -> (res: bool)
    requires
        obeys_key_model::<K>(),
    ensures
        res == s@.contains(*k),
{
    s.contains(k)
}

/// `FnvHashSet::len`: claims that the result is the number of elements.
#[verifier::external_body]
pub(crate) fn fnv_set_len<K: Eq + Hash>(s: &FnvHashSet<K>) -> (res: usize)
    requires
        obeys_key_model::<K>(),
    ensures
        res == s@.len(),
{
    s.len()
}

/// `FnvHashSet::iter`, collected: claims that every element occurs once in the result.
/// The order is the order in which the hash set is walked, which nothing here states.
#[verifier::external_body]
pub(crate) fn fnv_set_to_vec<K: Eq + Hash + Copy>(s: &FnvHashSet<K>) -> (res: Vec<K>)
    requires
        obeys_key_model::<K>(),
    ensures
        res@.no_duplicates(),
        res@.to_set() == s@,
{
    s.iter().copied().collect()
}

} // verus!
