//! The map from a model to its prefix tree: a `dashmap::DashMap`.
//!
//! As with the character counts, whatever changes a map takes it by exclusive reference, and an
//! entry that is read borrows the map, so that no call waits for a lock that its caller holds.

use dashmap::mapref::one::Ref;
use dashmap::DashMap;
use vstd::prelude::*;

use crate::tree::Tree;

verus! {

/// `dashmap::mapref::one::Ref`, an entry of a map that is being read, as an opaque type.
#[verifier::external_type_specification]
#[verifier::external_body]
#[verifier::reject_recursive_types(K)]
#[verifier::reject_recursive_types(V)]
pub struct ExRef<'a, K, V>(dashmap::mapref::one::Ref<'a, K, V>);

/// What a map holds, each key by its characters.
pub uninterp spec fn trees_of(map: DashMap<String, Tree>) -> Map<Seq<char>, Tree>;

/// The tree in an entry that is being read.
pub uninterp spec fn tree_in(entry: Ref<'_, String, Tree>) -> Tree;

/// Calls `DashMap::new`: the new map holds nothing.
#[verifier::external_body]
pub(crate) fn trees_new() -> (map: DashMap<String, Tree>)
    ensures
        (trees_of(map) == Map::<Seq<char>, Tree>::empty()),
{
    DashMap::new()
}

/// Calls `DashMap::get`: the entry under the key, if there is one.
#[verifier::external_body]
pub(crate) fn trees_get<'a>(map: &'a DashMap<String, Tree>, key: &str) -> (entry: Option<Ref<'a, String, Tree>>)
    ensures
        entry is Some <==> trees_of(*map).contains_key(key@),
        entry is Some ==> tree_in(entry->0) == trees_of(*map)[key@],
{
    map.get(key)
}

/// Calls `Ref::value`: the tree in the entry.
#[verifier::external_body]
pub(crate) fn entry_tree<'a, 'b>(entry: &'b Ref<'a, String, Tree>) -> (tree: &'b Tree)
    ensures
        *tree == tree_in(*entry),
{
    entry.value()
}

/// Calls `DashMap::contains_key`: whether the map holds something under the key.
#[verifier::external_body]
pub(crate) fn trees_contains_key(map: &DashMap<String, Tree>, key: &str) -> (found: bool)
    ensures
        found == trees_of(*map).contains_key(key@),
{
    map.contains_key(key)
}

/// Calls `DashMap::iter` and clones the key of each entry: every key once, in no stated order.
#[verifier::external_body]
pub(crate) fn trees_keys(map: &DashMap<String, Tree>) -> (keys: Vec<String>)
    ensures
        forall|i: int| 0 <= i < keys@.len() ==> trees_of(*map).contains_key((#[trigger] keys@[i])@),
        forall|k: Seq<char>| trees_of(*map).contains_key(k) ==> exists|i: int| 0 <= i < keys@.len() && (#[trigger] keys@[i])@ == k,
        forall|i: int, j: int| 0 <= i < j < keys@.len() ==> (#[trigger] keys@[i])@ != (#[trigger] keys@[j])@,
{
    map.iter().map(|entry| entry.key().clone()).collect()
}

/// Calls `DashMap::insert`: the key now leads to the tree, every other key to what it led to.
#[verifier::external_body]
pub(crate) fn trees_insert(map: &mut DashMap<String, Tree>, key: String, tree: Tree)
    ensures
        trees_of(*final(map)) == trees_of(*old(map)).insert(key@, tree),
{
    map.insert(key, tree);
}

/// Calls `DashMap::remove`: the key now leads nowhere, every other key to what it led to. The tree
/// that was under the key is handed back.
#[verifier::external_body]
pub(crate) fn trees_remove(map: &mut DashMap<String, Tree>, key: &str) -> (tree: Option<Tree>)
    ensures
        trees_of(*final(map)) == trees_of(*old(map)).remove(key@),
        tree == trees_of(*old(map)).get(key@),
{
    map.remove(key).map(|entry| entry.1)
}

/// Calls `DashMap::remove_if` with [`Tree::is_empty`]: where the tree under the key has no tenants,
/// the key now leads nowhere; else nothing changes.
#[verifier::external_body]
pub(crate) fn trees_remove_if_empty(map: &mut DashMap<String, Tree>, key: &str)
    requires
        trees_of(*old(map)).contains_key(key@) ==> trees_of(*old(map))[key@].wf(),
    ensures
        trees_of(*final(map)) == (if trees_of(*old(map)).contains_key(key@) && trees_of(*old(map))[key@]@.is_empty() {
            trees_of(*old(map)).remove(key@)
        } else {
            trees_of(*old(map))
        }),
{
    map.remove_if(key, |_, tree| tree.is_empty());
}

} // verus!
