//! The map from a tenant to the number of characters that it holds: a `dashmap::DashMap`.
//!
//! A `DashMap` can be changed through a shared reference. Here the functions that change one take
//! it by exclusive reference, so that what a map holds stays the same from one change to the next.

use dashmap::DashMap;
use vstd::prelude::*;

verus! {

/// `dashmap::DashMap`, a concurrent hash map, as an opaque type.
#[verifier::external_type_specification]
#[verifier::external_body]
#[verifier::reject_recursive_types(K)]
#[verifier::reject_recursive_types(V)]
#[verifier::reject_recursive_types(S)]
pub struct ExDashMap<K, V, S>(dashmap::DashMap<K, V, S>);

/// What a map holds, each key by its characters.
pub uninterp spec fn counts_of(map: DashMap<String, usize>) -> Map<Seq<char>, usize>;

/// Calls `DashMap::new`: the new map holds nothing.
#[verifier::external_body]
pub(crate) fn counts_new() -> (map: DashMap<String, usize>)
    ensures
        (counts_of(map) == Map::<Seq<char>, usize>::empty()),
{
    DashMap::new()
}

/// Calls `DashMap::get` and copies the value out: the value under the key, if there is one.
#[verifier::external_body]
pub(crate) fn counts_get(map: &DashMap<String, usize>, key: &str) -> (value: Option<usize>)
    ensures
        value == counts_of(*map).get(key@),
{
    map.get(key).map(|entry| *entry.value())
}

/// Calls `DashMap::contains_key`: whether the map holds something under the key.
#[verifier::external_body]
pub(crate) fn counts_contains_key(map: &DashMap<String, usize>, key: &str) -> (found: bool)
    ensures
        found == counts_of(*map).contains_key(key@),
{
    map.contains_key(key)
}

/// Calls `DashMap::is_empty`: whether the map holds nothing.
#[verifier::external_body]
pub(crate) fn counts_is_empty(map: &DashMap<String, usize>) -> (empty: bool)
    ensures
        empty == counts_of(*map).is_empty(),
{
    map.is_empty()
}

/// Calls `DashMap::insert`: the key now leads to the value, every other key to what it led to.
#[verifier::external_body]
pub(crate) fn counts_insert(map: &mut DashMap<String, usize>, key: String, value: usize)
    ensures
        counts_of(*final(map)) == counts_of(*old(map)).insert(key@, value),
{
    map.insert(key, value);
}

/// Calls `DashMap::remove`: the key now leads nowhere, every other key to what it led to.
#[verifier::external_body]
pub(crate) fn counts_remove(map: &mut DashMap<String, usize>, key: &str)
    ensures
        counts_of(*final(map)) == counts_of(*old(map)).remove(key@),
{
    map.remove(key);
}

} // verus!
