//! The mathematical model of a prefix tree that several tenants share.
//!
//! A tree is a set of nodes. A node is named by its path: the characters that lead to it from
//! the root, whose path is empty. Each node remembers which tenants hold it and when each of
//! them last used it. A tenant that holds a node has every prefix of the node's path cached.

use vstd::prelude::*;

verus! {

/// The tenants that hold a node, each with the time of its last use.
pub type Holders = Map<Seq<char>, u64>;

/// The nodes of a tree, by path.
pub type Nodes = Map<Seq<char>, Holders>;

/// The nodes that one tenant holds, each with the time of its last use.
pub type Lane = Map<Seq<char>, u64>;

/// Whether some node lies at `s` or below it.
pub open spec fn reaches(nodes: Nodes, s: Seq<char>) -> bool {
    exists|p: Seq<char>| nodes.contains_key(p) && #[trigger] s.is_prefix_of(p)
}

/// The greatest length, up to `k`, at which a prefix of `text` is reached.
pub open spec fn longest_reached(nodes: Nodes, text: Seq<char>, k: nat) -> nat
    decreases k,
{
    if k == 0 || reaches(nodes, text.take(k as int)) {
        k
    } else {
        longest_reached(nodes, text, (k - 1) as nat)
    }
}

/// How many characters at the start of `text` the tree has cached.
pub open spec fn match_len(nodes: Nodes, text: Seq<char>) -> nat {
    longest_reached(nodes, text, text.len())
}

/// Whether `p` is the node in whose stretch of text the path `s` ends: the first node at `s` or
/// below it.
pub open spec fn is_host(nodes: Nodes, s: Seq<char>, p: Seq<char>) -> bool {
    &&& nodes.contains_key(p)
    &&& s.is_prefix_of(p)
    &&& forall|q: Seq<char>| nodes.contains_key(q) && #[trigger] s.is_prefix_of(q) ==> p.is_prefix_of(q)
}

/// The node in whose stretch of text the path `s` ends.
pub open spec fn host(nodes: Nodes, s: Seq<char>) -> Seq<char> {
    choose|p: Seq<char>| is_host(nodes, s, p)
}

/// The path at which `text` leaves the tree.
pub open spec fn branch(nodes: Nodes, text: Seq<char>) -> Seq<char> {
    text.take(match_len(nodes, text) as int)
}

/// The node at which a lookup of `text` ends.
pub open spec fn hit(nodes: Nodes, text: Seq<char>) -> Seq<char> {
    host(nodes, branch(nodes, text))
}

/// Whether the node `p` exists once `text` has been inserted.
pub open spec fn inserted_has(nodes: Nodes, text: Seq<char>, p: Seq<char>) -> bool {
    nodes.contains_key(p) || p == branch(nodes, text) || p == text
}

/// The holders that the node `p` brings into the insertion of `text`: its own, for a node that
/// is already there; those of the node that is cut in two, for the node at the cut; none, for a
/// node that is new.
pub open spec fn inserted_base(nodes: Nodes, text: Seq<char>, p: Seq<char>) -> Holders {
    if nodes.contains_key(p) {
        nodes[p]
    } else if p == branch(nodes, text) {
        nodes[host(nodes, p)]
    } else {
        Map::empty()
    }
}

/// The nodes after `tenant` inserted `text` at time `now`: the node where the text leaves the
/// tree is cut there, the rest of the text hangs below the cut, and `tenant` now holds every node
/// on the way.
pub open spec fn inserted(nodes: Nodes, text: Seq<char>, tenant: Seq<char>, now: u64) -> Nodes {
    Map::new(
        |p: Seq<char>| inserted_has(nodes, text, p),
        |p: Seq<char>|
            if p.is_prefix_of(text) {
                inserted_base(nodes, text, p).insert(tenant, now)
            } else {
                inserted_base(nodes, text, p)
            },
    )
}

/// The nodes after `tenant` used the node `path` at time `now`: the use counts for every node on
/// the way to it.
pub open spec fn touched(nodes: Nodes, path: Seq<char>, tenant: Seq<char>, now: u64) -> Nodes {
    Map::new(
        |p: Seq<char>| nodes.contains_key(p),
        |p: Seq<char>|
            if p.is_prefix_of(path) {
                nodes[p].insert(tenant, now)
            } else {
                nodes[p]
            },
    )
}

/// Whether `tenant` is a holder that used the node no earlier than any other holder.
pub open spec fn is_latest(holders: Holders, tenant: Seq<char>) -> bool {
    &&& holders.contains_key(tenant)
    &&& forall|t: Seq<char>| #[trigger] holders.contains_key(t) ==> holders[t] <= holders[tenant]
}

/// Whether anyone holds the node.
pub open spec fn is_held(holders: Holders) -> bool {
    exists|t: Seq<char>| holders.contains_key(t)
}

/// The nodes after `tenant` gave up every node: what nobody else holds is gone, except for the
/// node `top`.
pub open spec fn forgotten(nodes: Nodes, top: Seq<char>, tenant: Seq<char>) -> Nodes {
    Map::new(
        |p: Seq<char>| nodes.contains_key(p) && (p == top || is_held(nodes[p].remove(tenant))),
        |p: Seq<char>| nodes[p].remove(tenant),
    )
}

/// The nodes after `tenant` gave up the node `path`, which is gone if nobody else holds it.
pub open spec fn released(nodes: Nodes, path: Seq<char>, tenant: Seq<char>) -> Nodes {
    if is_held(nodes[path].remove(tenant)) {
        nodes.insert(path, nodes[path].remove(tenant))
    } else {
        nodes.remove(path)
    }
}

/// What `tenant` holds.
pub open spec fn lane(nodes: Nodes, tenant: Seq<char>) -> Lane {
    Map::new(
        |p: Seq<char>| nodes.contains_key(p) && nodes[p].contains_key(tenant),
        |p: Seq<char>| nodes[p][tenant],
    )
}

/// The texts that are cached by whoever holds these nodes: their non-empty prefixes.
pub open spec fn cached(lane: Lane) -> Set<Seq<char>> {
    Set::new(|s: Seq<char>| s.len() > 0 && exists|p: Seq<char>| lane.contains_key(p) && #[trigger] s.is_prefix_of(p))
}

/// The non-empty prefixes of a text.
pub open spec fn prefixes(text: Seq<char>) -> Set<Seq<char>> {
    Set::new(|s: Seq<char>| s.len() > 0 && s.is_prefix_of(text))
}

/// How many characters of the tree `tenant` holds: each one is the last character of one cached
/// text.
pub open spec fn char_count(nodes: Nodes, tenant: Seq<char>) -> nat {
    cached(lane(nodes, tenant)).len()
}

/// A number as a `usize`, where the numbers that do not fit become the greatest one.
pub open spec fn capped(n: nat) -> usize {
    if n < usize::MAX {
        n as usize
    } else {
        usize::MAX
    }
}

/// Whether `p` is a node of the lane with no other node of the lane below it. The root is never
/// a leaf.
pub open spec fn is_leaf(lane: Lane, p: Seq<char>) -> bool {
    &&& lane.contains_key(p)
    &&& p.len() > 0
    &&& forall|q: Seq<char>| lane.contains_key(q) && #[trigger] p.is_prefix_of(q) ==> q == p
}

/// Whether `p` is a leaf that was used no later than any other leaf.
pub open spec fn is_oldest_leaf(lane: Lane, p: Seq<char>) -> bool {
    &&& is_leaf(lane, p)
    &&& forall|q: Seq<char>| #[trigger] is_leaf(lane, q) ==> lane[p] <= lane[q]
}

/// The lane without the nodes in `gone`.
pub open spec fn shed(lane: Lane, gone: Seq<Seq<char>>) -> Lane
    decreases gone.len(),
{
    if gone.len() == 0 {
        lane
    } else {
        shed(lane, gone.drop_last()).remove(gone.last())
    }
}

/// Whether a lane is too large for the limit. A count that no `usize` can hold is read as the
/// greatest `usize`.
pub open spec fn exceeds(lane: Lane, max_size: usize) -> bool {
    cached(lane).len() > max_size && max_size < usize::MAX
}

/// Whether giving up the nodes in `gone`, in that order, is an eviction: before each step the lane
/// exceeds the limit and the node given up is its oldest leaf; after the last one it does not.
pub open spec fn is_eviction(lane: Lane, gone: Seq<Seq<char>>, max_size: usize) -> bool {
    &&& forall|i: int| 0 <= i < gone.len() ==> exceeds(#[trigger] shed(lane, gone.take(i)), max_size)
    &&& forall|i: int| 0 <= i < gone.len() ==> is_oldest_leaf(shed(lane, gone.take(i)), #[trigger] gone[i])
    &&& !exceeds(shed(lane, gone), max_size)
}

/// Whether `after` is what an eviction leaves of the lane `before`.
pub open spec fn is_evicted_lane(before: Lane, after: Lane, max_size: usize) -> bool {
    exists|gone: Seq<Seq<char>>| is_eviction(before, gone, max_size) && after == #[trigger] shed(before, gone)
}

/// Whether `after` is `before` with every tenant cut down to the limit, by giving up its oldest
/// leaves. What nobody holds any more is gone.
pub open spec fn is_evicted(before: Nodes, after: Nodes, max_size: usize) -> bool {
    &&& forall|t: Seq<char>| is_evicted_lane(lane(before, t), #[trigger] lane(after, t), max_size)
    &&& forall|p: Seq<char>| #[trigger]
        after.contains_key(p) <==> before.contains_key(p) && (p.len() == 0 || exists|t: Seq<char>|
            #[trigger] lane(after, t).contains_key(p))
}

/// The longest common start of two paths.
pub open spec fn is_common_prefix(p: Seq<char>, q: Seq<char>, c: Seq<char>) -> bool {
    &&& c.is_prefix_of(p)
    &&& c.is_prefix_of(q)
    &&& forall|d: Seq<char>| d.is_prefix_of(p) && #[trigger] d.is_prefix_of(q) ==> d.is_prefix_of(c)
}

/// What holds of the nodes of every prefix tree: there is a root; any two paths part at a node;
/// who holds a node also holds the nodes on the way to it; nobody-held nodes do not exist, except
/// for the root.
pub open spec fn is_prefix_tree(nodes: Nodes) -> bool {
    &&& nodes.contains_key(Seq::<char>::empty())
    &&& forall|p: Seq<char>, q: Seq<char>, c: Seq<char>|
        nodes.contains_key(p) && nodes.contains_key(q) && #[trigger] is_common_prefix(p, q, c) ==> nodes.contains_key(c)
    &&& forall|p: Seq<char>, q: Seq<char>, t: Seq<char>|
        nodes.contains_key(p) && nodes.contains_key(q) && #[trigger] p.is_prefix_of(q) && #[trigger] nodes[q].contains_key(t)
            ==> nodes[p].contains_key(t)
    &&& forall|p: Seq<char>| #[trigger] nodes.contains_key(p) && p.len() > 0 ==> is_held(nodes[p])
}

} // verus!
