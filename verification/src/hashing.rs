//! The hash maps and hash sets of `rustc_hash`, keyed by integers.
//!
//! `FxHashMap` and `FxHashSet` are the standard collections with a hasher that starts every hash
//! from the same state, so that equal keys always meet. The functions below are the operations
//! that the library performs on them; what each one does to the contents is taken on trust.

use rustc_hash::{FxBuildHasher, FxHashMap, FxHashSet};
use vstd::prelude::*;

verus! {

/// The hasher factory behind `FxHashMap` and `FxHashSet`.
#[verifier::external_type_specification]
#[verifier::external_body]
pub struct ExFxBuildHasher(FxBuildHasher);

/// `HashMap::get`: the value stored under `key`, if there is one.
#[verifier::external_body]
pub(crate) fn map_get<'a, V>(map: &'a FxHashMap<u32, V>, key: &u32) -> (value: Option<&'a V>)
    ensures
        match value {
            Some(v) => map@.contains_key(*key) && *v == map@[*key],
            None => !map@.contains_key(*key),
        },
{
    map.get(key)
}

/// `HashMap::insert`: stores `value` under `key` and hands back what stood there before.
#[verifier::external_body]
pub(crate) fn map_insert<V>(map: &mut FxHashMap<u32, V>, key: u32, value: V) -> (previous: Option<V>)
    ensures
        final(map)@ == old(map)@.insert(key, value),
        match previous {
            Some(v) => old(map)@.contains_key(key) && v == old(map)@[key],
            None => !old(map)@.contains_key(key),
        },
{
    map.insert(key, value)
}

/// `HashMap::remove`: takes the value stored under `key` out of the map.
#[verifier::external_body]
pub(crate) fn map_remove<V>(map: &mut FxHashMap<u32, V>, key: &u32) -> (removed: Option<V>)
    ensures
        final(map)@ == old(map)@.remove(*key),
        match removed {
            Some(v) => old(map)@.contains_key(*key) && v == old(map)@[*key],
            None => !old(map)@.contains_key(*key),
        },
{
    map.remove(key)
}

/// `HashMap::keys`: every key once, in an order that the map does not promise.
#[verifier::external_body]
pub(crate) fn map_keys<V>(map: &FxHashMap<u32, V>) -> (keys: Vec<u32>)
    ensures
        keys@.no_duplicates(),
        keys@.to_set() == map@.dom(),
{
    map.keys().cloned().collect()
}

/// `HashSet::contains`: whether `item` is in the set.
#[verifier::external_body]
pub(crate) fn set_contains(set: &FxHashSet<u32>, item: &u32) -> (found: bool)
    ensures
        found == set@.contains(*item),
{
    set.contains(item)
}

/// `HashSet::insert`: puts `item` into the set and tells whether it is new there.
#[verifier::external_body]
pub(crate) fn set_insert(set: &mut FxHashSet<u32>, item: u32) -> (added: bool)
    ensures
        final(set)@ == old(set)@.insert(item),
        added == !old(set)@.contains(item),
{
    set.insert(item)
}

/// `HashSet::iter`: every item once, in an order that the set does not promise.
#[verifier::external_body]
pub(crate) fn set_items(set: &FxHashSet<u32>) -> (items: Vec<u32>)
    ensures
        items@.no_duplicates(),
        items@.to_set() == set@,
{
    set.iter().cloned().collect()
}

/// `HashSet::clone`: a set with the same items.
#[verifier::external_body]
pub(crate) fn set_clone(set: &FxHashSet<u32>) -> (copy: FxHashSet<u32>)
    ensures
        copy@ == set@,
{
    set.clone()
}

} // verus!
