//! Laws of the prefix tree.

use vstd::prelude::*;

use crate::model::{
    branch, cached, exceeds, hit, host, inserted_base, is_common_prefix, is_eviction, is_evicted_lane, is_held, is_host, is_leaf,
    is_oldest_leaf, is_prefix_tree, lane, match_len, prefixes, reaches, shed, Lane, Nodes,
};
use crate::node::{lemma_host_unique, lemma_longest_reached_bounds};
use crate::node_count::lemma_prefixes;
use crate::prefix::{
    lemma_prefix_antisymmetric, lemma_prefix_is_take, lemma_prefix_nested, lemma_prefix_pointwise, lemma_prefix_take,
    lemma_prefix_trans,
};
use crate::tree::{lemma_shed_subset, next_time, TreeModel};

verus! {

/// Two paths have a longest common start.
proof fn lemma_common_prefix_exists(p: Seq<char>, q: Seq<char>) -> (c: Seq<char>)
    ensures
        is_common_prefix(p, q, c),
    decreases p.len(),
{
    if p.is_prefix_of(q) {
        assert(is_common_prefix(p, q, p)) by {
            lemma_prefix_take(p, p.len() as int);
            assert(p.take(p.len() as int) =~= p);
        }
        p
    } else {
        assert(p.len() > 0) by {
            if p.len() == 0 {
                lemma_prefix_pointwise(p, q);
            }
        }
        let shorter = p.drop_last();
        assert(shorter =~= p.take(p.len() - 1));
        lemma_prefix_take(p, p.len() - 1);
        let c = lemma_common_prefix_exists(shorter, q);
        lemma_prefix_trans(c, shorter, p);
        assert forall|d: Seq<char>| d.is_prefix_of(p) && #[trigger] d.is_prefix_of(q) implies d.is_prefix_of(c) by {
            if d.len() == p.len() {
                lemma_prefix_is_take(d, p);
                assert(d =~= p);
            } else {
                lemma_prefix_nested(d, shorter, p);
            }
        }
        c
    }
}

/// In a prefix tree, the first node at a path or below it can be found from any such node.
proof fn lemma_host_above(nodes: Nodes, s: Seq<char>, p: Seq<char>)
    requires
        is_prefix_tree(nodes),
        nodes.contains_key(p),
        s.is_prefix_of(p),
    ensures
        is_host(nodes, s, host(nodes, s)),
    decreases p.len(),
{
    if forall|q: Seq<char>| nodes.contains_key(q) && #[trigger] s.is_prefix_of(q) ==> p.is_prefix_of(q) {
        assert(is_host(nodes, s, p));
    } else {
        let q = choose|q: Seq<char>| nodes.contains_key(q) && #[trigger] s.is_prefix_of(q) && !p.is_prefix_of(q);
        let c = lemma_common_prefix_exists(p, q);
        assert(nodes.contains_key(c));
        assert(s.is_prefix_of(c));
        if c.len() == p.len() {
            lemma_prefix_is_take(c, p);
            assert(c =~= p);
        }
        lemma_host_above(nodes, s, c);
    }
}

/// In a prefix tree, every path that is reached ends in the stretch of some node.
pub proof fn law_reached_is_hosted(nodes: Nodes, s: Seq<char>)
    requires
        is_prefix_tree(nodes),
        reaches(nodes, s),
    ensures
        is_host(nodes, s, host(nodes, s)),
{
    let p = choose|p: Seq<char>| nodes.contains_key(p) && #[trigger] s.is_prefix_of(p);
    lemma_host_above(nodes, s, p);
}

/// Where a text leaves the tree.
proof fn lemma_branch(nodes: Nodes, text: Seq<char>)
    requires
        is_prefix_tree(nodes),
    ensures
        match_len(nodes, text) <= text.len(),
        branch(nodes, text).is_prefix_of(text),
        branch(nodes, text).len() == match_len(nodes, text),
        reaches(nodes, branch(nodes, text)),
        is_host(nodes, branch(nodes, text), hit(nodes, text)),
        forall|s: Seq<char>| s.is_prefix_of(text) && #[trigger] reaches(nodes, s) ==> s.is_prefix_of(branch(nodes, text)),
{
    let k = match_len(nodes, text);
    let b = branch(nodes, text);
    lemma_longest_reached_bounds(nodes, text, text.len());
    lemma_prefix_take(text, k as int);
    if k == 0 {
        assert(b =~= Seq::<char>::empty());
        lemma_prefix_take(b, 0);
        assert(b.take(0) =~= b);
        assert(b.is_prefix_of(Seq::<char>::empty()));
    }
    law_reached_is_hosted(nodes, b);
    assert forall|s: Seq<char>| s.is_prefix_of(text) && #[trigger] reaches(nodes, s) implies s.is_prefix_of(b) by {
        lemma_prefix_is_take(s, text);
        if s.len() > k {
            assert(!reaches(nodes, text.take(s.len() as int)));
        }
        lemma_prefix_nested(s, b, text);
    }
}

/// A lookup finds the longest prefix of a text that any tenant has cached, and it answers with a
/// tenant that has this prefix cached.
pub proof fn law_lookup_finds_longest(tree: TreeModel, text: Seq<char>, tenant: Seq<char>)
    requires
        tree.is_valid(),
        tree.answers(text, tenant),
    ensures
        match_len(tree.nodes, text) <= text.len(),
        match_len(tree.nodes, text) > 0 ==> cached(lane(tree.nodes, tenant)).contains(branch(tree.nodes, text)),
        forall|t: Seq<char>, s: Seq<char>|
            s.is_prefix_of(text) && #[trigger] cached(lane(tree.nodes, t)).contains(s) ==> s.len() <= match_len(
                tree.nodes,
                text,
            ),
{
    let nodes = tree.nodes;
    let b = branch(nodes, text);
    let h = hit(nodes, text);
    lemma_branch(nodes, text);
    if match_len(nodes, text) > 0 {
        assert(h.len() > 0) by {
            lemma_prefix_is_take(b, h);
        }
        assert(is_held(nodes[h]));
        assert(lane(nodes, tenant).contains_key(h));
        assert(b.is_prefix_of(h));
    }
    assert forall|t: Seq<char>, s: Seq<char>|
        s.is_prefix_of(text) && #[trigger] cached(lane(nodes, t)).contains(s) implies s.len() <= match_len(nodes, text) by {
        let p = choose|p: Seq<char>| lane(nodes, t).contains_key(p) && #[trigger] s.is_prefix_of(p);
        assert(nodes.contains_key(p));
        assert(reaches(nodes, s));
        assert(s.is_prefix_of(b));
    }
}

/// Inserting a text caches its prefixes for the tenant that inserted it, and changes nothing else
/// about what is cached.
pub proof fn law_insert_caches_prefixes(tree: TreeModel, text: Seq<char>, tenant: Seq<char>, other: Seq<char>)
    requires
        tree.is_valid(),
    ensures
        cached(lane(tree.insert(text, tenant).nodes, tenant)) == cached(lane(tree.nodes, tenant)).union(prefixes(text)),
        other != tenant ==> cached(lane(tree.insert(text, tenant).nodes, other)) == cached(lane(tree.nodes, other)),
{
    let nodes = tree.nodes;
    let after = tree.insert(text, tenant).nodes;
    let b = branch(nodes, text);
    let h = hit(nodes, text);
    lemma_branch(nodes, text);
    lemma_prefix_take(text, text.len() as int);
    assert(text.take(text.len() as int) =~= text);
    assert(lane(after, tenant).contains_key(text));
    assert forall|t: Seq<char>, s: Seq<char>| #[trigger] cached(lane(nodes, t)).contains(s) implies cached(
        lane(after, t),
    ).contains(s) by {
        let p = choose|p: Seq<char>| lane(nodes, t).contains_key(p) && #[trigger] s.is_prefix_of(p);
        assert(lane(after, t).contains_key(p));
    }
    assert forall|t: Seq<char>, s: Seq<char>| #[trigger] cached(lane(after, t)).contains(s) implies cached(
        lane(nodes, t),
    ).contains(s) || (t == tenant && prefixes(text).contains(s)) by {
        let p = choose|p: Seq<char>| lane(after, t).contains_key(p) && #[trigger] s.is_prefix_of(p);
        if t == tenant && p.is_prefix_of(text) {
            lemma_prefix_trans(s, p, text);
        } else {
            assert(inserted_base(nodes, text, p).contains_key(t));
            if nodes.contains_key(p) {
                assert(lane(nodes, t).contains_key(p));
            } else {
                assert(p == b);
                lemma_prefix_trans(s, b, h);
                assert(lane(nodes, t).contains_key(h));
            }
        }
    }
    assert forall|s: Seq<char>| #[trigger] prefixes(text).contains(s) implies cached(lane(after, tenant)).contains(s) by {}
    assert(cached(lane(after, tenant)) =~= cached(lane(nodes, tenant)).union(prefixes(text)));
    if other != tenant {
        assert(cached(lane(after, other)) =~= cached(lane(nodes, other)));
    }
}

/// A fresh tree is valid.
pub proof fn law_fresh_is_valid()
    ensures
        TreeModel::fresh().is_valid(),
{
    let nodes = TreeModel::fresh().nodes;
    let root = Seq::<char>::empty();
    assert forall|p: Seq<char>, q: Seq<char>, c: Seq<char>|
        nodes.contains_key(p) && nodes.contains_key(q) && #[trigger] is_common_prefix(p, q, c) implies nodes.contains_key(c) by {
        lemma_prefix_is_take(c, p);
        assert(c =~= root);
    }
    assert forall|t: Seq<char>| cached(#[trigger] lane(nodes, t)).finite() by {
        assert(cached(lane(nodes, t)) =~= Set::empty());
    }
}

/// Where the node at which a text leaves the tree is cut, common starts stay nodes.
proof fn lemma_insert_common_prefix(nodes: Nodes, text: Seq<char>, p: Seq<char>, q: Seq<char>, c: Seq<char>)
    requires
        is_prefix_tree(nodes),
        nodes.contains_key(p),
        q == branch(nodes, text) || q == text,
        is_common_prefix(p, q, c),
    ensures
        nodes.contains_key(c) || c == branch(nodes, text),
{
    let b = branch(nodes, text);
    let h = hit(nodes, text);
    lemma_branch(nodes, text);
    lemma_prefix_take(text, text.len() as int);
    assert(text.take(text.len() as int) =~= text);
    assert(c.is_prefix_of(text)) by {
        lemma_prefix_trans(c, q, text);
    }
    assert(reaches(nodes, c));
    assert(c.is_prefix_of(b));
    if b.is_prefix_of(p) {
        if q == text {
            assert(b.is_prefix_of(q));
        } else {
            lemma_prefix_take(b, b.len() as int);
            assert(b.take(b.len() as int) =~= b);
        }
        lemma_prefix_antisymmetric(b, c);
    } else {
        assert(is_common_prefix(p, h, c)) by {
            lemma_prefix_trans(c, b, h);
            assert forall|d: Seq<char>| d.is_prefix_of(p) && #[trigger] d.is_prefix_of(h) implies d.is_prefix_of(c) by {
                if d.len() <= b.len() {
                    lemma_prefix_nested(d, b, h);
                    if q == text {
                        lemma_prefix_trans(d, b, text);
                    }
                    assert(d.is_prefix_of(q));
                } else {
                    lemma_prefix_nested(b, d, h);
                    lemma_prefix_trans(b, d, p);
                }
            }
        }
    }
}

/// The longest common start of two paths, one of which starts the other, is that one.
proof fn lemma_common_prefix_of_prefix(p: Seq<char>, q: Seq<char>, c: Seq<char>)
    requires
        is_common_prefix(p, q, c),
        p.is_prefix_of(q),
    ensures
        c == p,
{
    lemma_prefix_take(p, p.len() as int);
    assert(p.take(p.len() as int) =~= p);
    lemma_prefix_antisymmetric(c, p);
}

/// An insertion keeps a prefix tree a prefix tree.
proof fn lemma_insert_prefix_tree(tree: TreeModel, text: Seq<char>, tenant: Seq<char>)
    requires
        tree.is_valid(),
    ensures
        is_prefix_tree(tree.insert(text, tenant).nodes),
{
    let nodes = tree.nodes;
    let after = tree.insert(text, tenant).nodes;
    let b = branch(nodes, text);
    let h = hit(nodes, text);
    lemma_branch(nodes, text);
    lemma_prefix_take(text, text.len() as int);
    assert(text.take(text.len() as int) =~= text);
    lemma_prefix_take(b, b.len() as int);
    assert(b.take(b.len() as int) =~= b);
    assert forall|p: Seq<char>, q: Seq<char>, c: Seq<char>|
        after.contains_key(p) && after.contains_key(q) && #[trigger] is_common_prefix(p, q, c) implies after.contains_key(c) by {
        assert(is_common_prefix(q, p, c));
        if nodes.contains_key(p) && nodes.contains_key(q) {
        } else if nodes.contains_key(p) {
            lemma_insert_common_prefix(nodes, text, p, q, c);
        } else if nodes.contains_key(q) {
            lemma_insert_common_prefix(nodes, text, q, p, c);
        } else if p == b {
            lemma_common_prefix_of_prefix(p, q, c);
        } else if q == b {
            lemma_common_prefix_of_prefix(q, p, c);
        } else {
            lemma_common_prefix_of_prefix(p, q, c);
        }
    }
    assert forall|p: Seq<char>, q: Seq<char>, t: Seq<char>|
        after.contains_key(p) && after.contains_key(q) && #[trigger] p.is_prefix_of(q) && #[trigger] after[q].contains_key(
            t,
        ) implies after[p].contains_key(t) by {
        if t == tenant && q.is_prefix_of(text) {
            lemma_prefix_trans(p, q, text);
        } else {
            assert(inserted_base(nodes, text, q).contains_key(t));
            let source = if nodes.contains_key(q) {
                q
            } else {
                h
            };
            assert(nodes.contains_key(source) && nodes[source].contains_key(t));
            assert(p.is_prefix_of(source)) by {
                if !nodes.contains_key(q) {
                    lemma_prefix_trans(p, b, h);
                }
            }
            if nodes.contains_key(p) {
                assert(nodes[p].contains_key(t));
            } else if p == b {
                assert(h.is_prefix_of(source));
                assert(nodes[h].contains_key(t));
            } else {
                assert(reaches(nodes, text));
                assert(text.is_prefix_of(b));
                lemma_prefix_antisymmetric(text, b);
            }
        }
    }
    assert forall|p: Seq<char>| #[trigger] after.contains_key(p) && p.len() > 0 implies is_held(after[p]) by {
        if p.is_prefix_of(text) {
            assert(after[p].contains_key(tenant));
        } else {
            assert(nodes.contains_key(p));
            let t = choose|t: Seq<char>| nodes[p].contains_key(t);
            assert(after[p].contains_key(t));
        }
    }
}

/// An insertion keeps a tree valid.
pub proof fn law_insert_keeps_valid(tree: TreeModel, text: Seq<char>, tenant: Seq<char>)
    requires
        tree.is_valid(),
    ensures
        tree.insert(text, tenant).is_valid(),
{
    let nodes = tree.nodes;
    let after = tree.insert(text, tenant);
    lemma_insert_prefix_tree(tree, text, tenant);
    lemma_branch(nodes, text);
    lemma_prefixes(text);
    assert forall|t: Seq<char>| cached(#[trigger] lane(after.nodes, t)).finite() by {
        law_insert_caches_prefixes(tree, text, tenant, t);
        assert(cached(lane(nodes, t)).finite());
    }
    assert forall|p: Seq<char>, t: Seq<char>|
        after.nodes.contains_key(p) && #[trigger] after.nodes[p].contains_key(t) implies after.nodes[p][t] <= after.clock by {
        if !(t == tenant && p.is_prefix_of(text)) {
            let base = inserted_base(nodes, text, p);
            assert(base.contains_key(t));
            assert(after.nodes[p][t] == base[t]);
        }
    }
}

/// A lookup keeps a tree valid, and it changes nothing about what is cached.
pub proof fn law_look_up_keeps_cache(tree: TreeModel, text: Seq<char>, tenant: Seq<char>)
    requires
        tree.is_valid(),
        tree.answers(text, tenant),
    ensures
        tree.look_up(text, tenant).is_valid(),
        tree.look_up(text, tenant).nodes.dom() == tree.nodes.dom(),
        forall|t: Seq<char>|
            (#[trigger] lane(tree.look_up(text, tenant).nodes, t)).dom() == lane(tree.nodes, t).dom() && cached(
                lane(tree.look_up(text, tenant).nodes, t),
            ) == cached(lane(tree.nodes, t)),
{
    let nodes = tree.nodes;
    let after = tree.look_up(text, tenant);
    let h = hit(nodes, text);
    lemma_branch(nodes, text);
    assert(after.nodes.dom() =~= nodes.dom());
    assert forall|p: Seq<char>, t: Seq<char>| nodes.contains_key(p) implies (#[trigger] after.nodes[p].contains_key(t)
        <==> nodes[p].contains_key(t)) by {
        if is_held(tree.hit_holders(text)) && t == tenant && p.is_prefix_of(h) {
            assert(nodes[h].contains_key(tenant));
            assert(nodes[p].contains_key(tenant));
        }
    }
    assert forall|t: Seq<char>|
        (#[trigger] lane(after.nodes, t)).dom() == lane(nodes, t).dom() && cached(lane(after.nodes, t)) == cached(
            lane(nodes, t),
        ) by {
        assert(lane(after.nodes, t).dom() =~= lane(nodes, t).dom());
        assert forall|p: Seq<char>| lane(after.nodes, t).contains_key(p) <==> lane(nodes, t).contains_key(p) by {
            assert(lane(after.nodes, t).dom().contains(p) <==> lane(nodes, t).dom().contains(p));
        }
        assert(cached(lane(after.nodes, t)) =~= cached(lane(nodes, t)));
    }
    assert forall|p: Seq<char>| #[trigger] after.nodes.contains_key(p) && p.len() > 0 implies is_held(after.nodes[p]) by {
        let t = choose|t: Seq<char>| nodes[p].contains_key(t);
        assert(after.nodes[p].contains_key(t));
    }
    assert forall|t: Seq<char>| cached(#[trigger] lane(after.nodes, t)).finite() by {
        assert(cached(lane(nodes, t)).finite());
    }
    assert forall|p: Seq<char>, t: Seq<char>|
        after.nodes.contains_key(p) && #[trigger] after.nodes[p].contains_key(t) implies after.nodes[p][t] <= after.clock by {
        assert(nodes[p].contains_key(t));
    }
}

/// A text that was just inserted is cached as a whole, and a lookup of it can answer with the
/// tenant that inserted it. Unless the clock has run out, it can answer with nobody else.
pub proof fn law_inserted_text_is_found(tree: TreeModel, text: Seq<char>, tenant: Seq<char>, answer: Seq<char>)
    requires
        tree.is_valid(),
    ensures
        match_len(tree.insert(text, tenant).nodes, text) == text.len(),
        tree.insert(text, tenant).answers(text, tenant),
        tree.clock < u64::MAX && tree.insert(text, tenant).answers(text, answer) ==> answer == tenant,
{
    let after = tree.insert(text, tenant);
    lemma_prefix_take(text, text.len() as int);
    assert(text.take(text.len() as int) =~= text);
    assert(after.nodes.contains_key(text));
    assert(reaches(after.nodes, text));
    assert(branch(after.nodes, text) == text);
    law_shared_prefix_is_found(tree, text, tenant, text, answer);
}

/// After a text was inserted, take another text of which nothing is cached beyond what it shares
/// with the inserted one. A lookup of it can answer with the tenant that inserted the first. Unless
/// the clock has run out, it can answer with nobody else.
pub proof fn law_shared_prefix_is_found(
    tree: TreeModel,
    text: Seq<char>,
    tenant: Seq<char>,
    similar: Seq<char>,
    answer: Seq<char>,
)
    requires
        tree.is_valid(),
        branch(tree.insert(text, tenant).nodes, similar).is_prefix_of(text),
    ensures
        tree.insert(text, tenant).answers(similar, tenant),
        tree.clock < u64::MAX && tree.insert(text, tenant).answers(similar, answer) ==> answer == tenant,
{
    let nodes = tree.nodes;
    let after = tree.insert(text, tenant);
    law_insert_keeps_valid(tree, text, tenant);
    lemma_branch(after.nodes, similar);
    lemma_branch(nodes, text);
    let h = hit(after.nodes, similar);
    let now = next_time(tree.clock);
    assert(after.nodes.contains_key(text));
    assert(h.is_prefix_of(text));
    let holders = after.nodes[h];
    assert(holders.contains_key(tenant) && holders[tenant] == now);
    assert forall|t: Seq<char>| #[trigger] holders.contains_key(t) implies holders[t] <= now by {}
    assert forall|t: Seq<char>| #[trigger] holders.contains_key(t) && t != tenant implies holders[t] <= tree.clock by {
        let base = inserted_base(nodes, text, h);
        assert(base.contains_key(t) && base[t] == holders[t]);
    }
}

/// A tenant that is removed holds nothing, and nobody else loses anything.
pub proof fn law_removed_tenant_is_gone(tree: TreeModel, tenant: Seq<char>, other: Seq<char>)
    requires
        tree.is_valid(),
    ensures
        tree.remove_tenant(tenant).is_valid(),
        !tree.remove_tenant(tenant).has_tenant(tenant),
        (lane(tree.remove_tenant(tenant).nodes, tenant) == Map::<Seq<char>, u64>::empty()),
        tree.remove_tenant(tenant).tenant_size(tenant) == 0,
        other != tenant ==> lane(tree.remove_tenant(tenant).nodes, other) == lane(tree.nodes, other),
        other != tenant ==> tree.remove_tenant(tenant).has_tenant(other) == tree.has_tenant(other),
        other != tenant ==> tree.remove_tenant(tenant).tenant_size(other) == tree.tenant_size(other),
{
    let nodes = tree.nodes;
    let after = tree.remove_tenant(tenant);
    let root = Seq::<char>::empty();
    assert forall|t: Seq<char>| t != tenant implies #[trigger] lane(after.nodes, t) == lane(nodes, t) by {
        assert forall|p: Seq<char>| #[trigger] lane(nodes, t).contains_key(p) implies lane(after.nodes, t).contains_key(p) by {
            assert(nodes[p].remove(tenant).contains_key(t));
        }
        assert(lane(after.nodes, t) =~= lane(nodes, t));
    }
    assert(lane(after.nodes, tenant) =~= Map::<Seq<char>, u64>::empty());
    assert(cached(lane(after.nodes, tenant)) =~= Set::empty());
    assert forall|t: Seq<char>| cached(#[trigger] lane(after.nodes, t)).finite() by {
        if t != tenant {
            assert(cached(lane(nodes, t)).finite());
        }
    }
    assert forall|p: Seq<char>, q: Seq<char>, c: Seq<char>|
        after.nodes.contains_key(p) && after.nodes.contains_key(q) && #[trigger] is_common_prefix(
            p,
            q,
            c,
        ) implies after.nodes.contains_key(c) by {
        assert(nodes.contains_key(c));
        if c.len() == 0 {
            assert(c =~= root);
        } else {
            lemma_prefix_is_take(c, p);
            assert(p != root);
            let t = choose|t: Seq<char>| nodes[p].remove(tenant).contains_key(t);
            assert(nodes[p].contains_key(t));
            assert(nodes[c].contains_key(t));
            assert(nodes[c].remove(tenant).contains_key(t));
        }
    }
    assert forall|p: Seq<char>| #[trigger] after.nodes.contains_key(p) && p.len() > 0 implies is_held(after.nodes[p]) by {
        assert(p != root);
    }
    assert forall|p: Seq<char>, t: Seq<char>|
        after.nodes.contains_key(p) && #[trigger] after.nodes[p].contains_key(t) implies after.nodes[p][t] <= after.clock by {
        assert(nodes[p].contains_key(t));
    }
}

/// What is left of a lane that is cut down leaf by leaf: with a node, all nodes on the way to it.
proof fn lemma_shed_keeps_way(l: Lane, gone: Seq<Seq<char>>, p: Seq<char>, q: Seq<char>)
    requires
        forall|i: int| 0 <= i < gone.len() ==> is_oldest_leaf(shed(l, gone.take(i)), #[trigger] gone[i]),
        l.contains_key(p),
        p.is_prefix_of(q),
        shed(l, gone).contains_key(q),
    ensures
        shed(l, gone).contains_key(p),
    decreases gone.len(),
{
    if gone.len() > 0 {
        let n = gone.len() - 1;
        let rest = gone.drop_last();
        assert(gone.take(n) =~= rest);
        assert forall|i: int| 0 <= i < rest.len() implies is_oldest_leaf(
            shed(l, rest.take(i)),
            #[trigger] rest[i],
        ) by {
            assert(rest.take(i) =~= gone.take(i));
            assert(rest[i] == gone[i]);
        }
        lemma_shed_keeps_way(l, rest, p, q);
        assert(is_oldest_leaf(shed(l, rest), gone[n]));
        if p == gone.last() {
            assert(q == p);
        }
    }
}

/// An eviction keeps a tree valid. No tenant then has more characters than allowed; none has
/// anything that it did not have before; none leaves the tree; and a tenant that had no more than
/// allowed keeps everything.
pub proof fn law_eviction_bounds_tenants(tree: TreeModel, after: TreeModel, max_size: usize, tenant: Seq<char>)
    requires
        tree.is_valid(),
        tree.evicts_to(after, max_size),
    ensures
        after.is_valid(),
        after.tenant_size(tenant) <= max_size,
        after.has_tenant(tenant) == tree.has_tenant(tenant),
        cached(lane(after.nodes, tenant)).subset_of(cached(lane(tree.nodes, tenant))),
        tree.tenant_size(tenant) <= max_size ==> lane(after.nodes, tenant) == lane(tree.nodes, tenant),
{
    let nodes = tree.nodes;
    let root = Seq::<char>::empty();
    assert forall|t: Seq<char>, p: Seq<char>| #[trigger] lane(after.nodes, t).contains_key(p) implies lane(
        nodes,
        t,
    ).contains_key(p) && lane(after.nodes, t)[p] == lane(nodes, t)[p] by {
        assert(is_evicted_lane(lane(nodes, t), lane(after.nodes, t), max_size));
        let gone = choose|gone: Seq<Seq<char>>|
            is_eviction(lane(nodes, t), gone, max_size) && lane(after.nodes, t) == #[trigger] shed(lane(nodes, t), gone);
        lemma_shed_subset(lane(nodes, t), gone, p);
    }
    assert forall|t: Seq<char>, p: Seq<char>, q: Seq<char>|
        #![trigger lane(after.nodes, t).contains_key(q), p.is_prefix_of(q)]
        lane(nodes, t).contains_key(p) && p.is_prefix_of(q) && lane(after.nodes, t).contains_key(q) implies lane(
        after.nodes,
        t,
    ).contains_key(p) by {
        assert(is_evicted_lane(lane(nodes, t), lane(after.nodes, t), max_size));
        let gone = choose|gone: Seq<Seq<char>>|
            is_eviction(lane(nodes, t), gone, max_size) && lane(after.nodes, t) == #[trigger] shed(lane(nodes, t), gone);
        lemma_shed_keeps_way(lane(nodes, t), gone, p, q);
    }
    lemma_eviction_valid(tree, after, max_size);
    assert(is_evicted_lane(lane(nodes, tenant), lane(after.nodes, tenant), max_size));
    let l = lane(nodes, tenant);
    let gone = choose|gone: Seq<Seq<char>>|
        is_eviction(l, gone, max_size) && lane(after.nodes, tenant) == #[trigger] shed(l, gone);
    assert(!exceeds(shed(l, gone), max_size));
    if !exceeds(l, max_size) && gone.len() > 0 {
        assert(exceeds(shed(l, gone.take(0)), max_size));
        assert(gone.take(0).len() == 0);
        assert(false);
    }
    lemma_root_is_kept(l, gone);
}

/// The root is never given up.
proof fn lemma_root_is_kept(l: Lane, gone: Seq<Seq<char>>)
    requires
        forall|i: int| 0 <= i < gone.len() ==> is_oldest_leaf(shed(l, gone.take(i)), #[trigger] gone[i]),
    ensures
        shed(l, gone).contains_key(Seq::<char>::empty()) <==> l.contains_key(Seq::<char>::empty()),
    decreases gone.len(),
{
    if gone.len() > 0 {
        let n = gone.len() - 1;
        let rest = gone.drop_last();
        assert(gone.take(n) =~= rest);
        assert forall|i: int| 0 <= i < rest.len() implies is_oldest_leaf(
            shed(l, rest.take(i)),
            #[trigger] rest[i],
        ) by {
            assert(rest.take(i) =~= gone.take(i));
            assert(rest[i] == gone[i]);
        }
        lemma_root_is_kept(l, rest);
        assert(is_oldest_leaf(shed(l, rest), gone[n]));
    }
}

/// An eviction keeps a tree valid.
proof fn lemma_eviction_valid(tree: TreeModel, after: TreeModel, max_size: usize)
    requires
        tree.is_valid(),
        tree.evicts_to(after, max_size),
        forall|t: Seq<char>, p: Seq<char>|
            #[trigger] lane(after.nodes, t).contains_key(p) ==> lane(tree.nodes, t).contains_key(p) && lane(after.nodes, t)[p]
                == lane(tree.nodes, t)[p],
        forall|t: Seq<char>, p: Seq<char>, q: Seq<char>|
            #![trigger lane(after.nodes, t).contains_key(q), p.is_prefix_of(q)]
            lane(tree.nodes, t).contains_key(p) && p.is_prefix_of(q) && lane(after.nodes, t).contains_key(q) ==> lane(
                after.nodes,
                t,
            ).contains_key(p),
    ensures
        after.is_valid(),
        forall|t: Seq<char>| cached(#[trigger] lane(after.nodes, t)).subset_of(cached(lane(tree.nodes, t))),
{
    let nodes = tree.nodes;
    let root = Seq::<char>::empty();
    assert forall|p: Seq<char>, q: Seq<char>, c: Seq<char>|
        after.nodes.contains_key(p) && after.nodes.contains_key(q) && #[trigger] is_common_prefix(
            p,
            q,
            c,
        ) implies after.nodes.contains_key(c) by {
        assert(nodes.contains_key(c));
        if c.len() > 0 {
            lemma_prefix_is_take(c, p);
            let t = choose|t: Seq<char>| #[trigger] lane(after.nodes, t).contains_key(p);
            assert(lane(nodes, t).contains_key(p));
            assert(nodes[c].contains_key(t));
            assert(lane(nodes, t).contains_key(c));
            assert(lane(after.nodes, t).contains_key(c));
        }
    }
    assert forall|p: Seq<char>, q: Seq<char>, t: Seq<char>|
        after.nodes.contains_key(p) && after.nodes.contains_key(q) && #[trigger] p.is_prefix_of(q)
            && #[trigger] after.nodes[q].contains_key(t) implies after.nodes[p].contains_key(t) by {
        assert(lane(after.nodes, t).contains_key(q));
        assert(lane(nodes, t).contains_key(q));
        assert(nodes[p].contains_key(t));
        assert(lane(nodes, t).contains_key(p));
        assert(lane(after.nodes, t).contains_key(p));
    }
    assert forall|p: Seq<char>| #[trigger] after.nodes.contains_key(p) && p.len() > 0 implies is_held(after.nodes[p]) by {
        let t = choose|t: Seq<char>| #[trigger] lane(after.nodes, t).contains_key(p);
        assert(after.nodes[p].contains_key(t));
    }
    assert forall|t: Seq<char>| cached(#[trigger] lane(after.nodes, t)).subset_of(cached(lane(nodes, t))) by {
        assert forall|s: Seq<char>| cached(lane(after.nodes, t)).contains(s) implies cached(lane(nodes, t)).contains(s) by {
            let p = choose|p: Seq<char>| lane(after.nodes, t).contains_key(p) && #[trigger] s.is_prefix_of(p);
            assert(lane(nodes, t).contains_key(p));
        }
    }
    assert forall|t: Seq<char>| cached(#[trigger] lane(after.nodes, t)).finite() by {
        assert(cached(lane(nodes, t)).finite());
        vstd::set_lib::lemma_set_subset_finite(cached(lane(nodes, t)), cached(lane(after.nodes, t)));
    }
    assert forall|p: Seq<char>, t: Seq<char>|
        after.nodes.contains_key(p) && #[trigger] after.nodes[p].contains_key(t) implies after.nodes[p][t] <= after.clock by {
        assert(lane(after.nodes, t).contains_key(p));
        assert(lane(nodes, t).contains_key(p));
        assert(nodes[p].contains_key(t));
    }
}

/// What a lane loses was given up at some step.
proof fn lemma_given_up(l: Lane, gone: Seq<Seq<char>>, p: Seq<char>) -> (i: int)
    requires
        l.contains_key(p),
        !shed(l, gone).contains_key(p),
    ensures
        0 <= i < gone.len(),
        gone[i] == p,
        shed(l, gone.take(i)).contains_key(p),
    decreases gone.len(),
{
    let n = gone.len() - 1;
    let rest = gone.drop_last();
    assert(gone.take(n) =~= rest);
    if shed(l, rest).contains_key(p) {
        n
    } else {
        let i = lemma_given_up(l, rest, p);
        assert(rest.take(i) =~= gone.take(i));
        i
    }
}

/// What is left at the end was left at every step.
proof fn lemma_left_at_every_step(l: Lane, gone: Seq<Seq<char>>, i: int, q: Seq<char>)
    requires
        0 <= i <= gone.len(),
        shed(l, gone).contains_key(q),
    ensures
        shed(l, gone.take(i)).contains_key(q),
    decreases gone.len(),
{
    if i < gone.len() {
        let rest = gone.drop_last();
        lemma_left_at_every_step(l, rest, i, q);
        assert(rest.take(i) =~= gone.take(i));
    } else {
        assert(gone.take(i) =~= gone);
    }
}

/// An eviction gives up what was not used for the longest time: whatever is given up of a lane, every
/// leaf of the lane that was used earlier is given up too.
pub proof fn law_eviction_takes_oldest_of_lane(before: Lane, after: Lane, max_size: usize, p: Seq<char>, q: Seq<char>)
    requires
        is_evicted_lane(before, after, max_size),
        before.contains_key(p),
        !after.contains_key(p),
        before.contains_key(q),
        q.len() > 0,
        forall|r: Seq<char>| before.contains_key(r) && #[trigger] q.is_prefix_of(r) ==> r == q,
        before[q] < before[p],
    ensures
        !after.contains_key(q),
{
    if after.contains_key(q) {
        let gone = choose|gone: Seq<Seq<char>>| is_eviction(before, gone, max_size) && after == #[trigger] shed(before, gone);
        let i = lemma_given_up(before, gone, p);
        let left = shed(before, gone.take(i));
        lemma_left_at_every_step(before, gone, i, q);
        assert forall|r: Seq<char>| left.contains_key(r) && #[trigger] q.is_prefix_of(r) implies r == q by {
            lemma_shed_subset(before, gone.take(i), r);
        }
        assert(is_leaf(left, q));
        assert(is_oldest_leaf(left, gone[i]));
        lemma_shed_subset(before, gone.take(i), p);
        lemma_shed_subset(before, gone.take(i), q);
        assert(false);
    }
}

/// An eviction is least-recently-used: whatever node a tenant loses, it also loses every leaf of its
/// own that it used earlier.
pub proof fn law_eviction_is_least_recently_used(
    tree: TreeModel,
    after: TreeModel,
    max_size: usize,
    tenant: Seq<char>,
    p: Seq<char>,
    q: Seq<char>,
)
    requires
        tree.is_valid(),
        tree.evicts_to(after, max_size),
        tree.nodes.contains_key(p) && tree.nodes[p].contains_key(tenant),
        !(after.nodes.contains_key(p) && after.nodes[p].contains_key(tenant)),
        tree.nodes.contains_key(q) && tree.nodes[q].contains_key(tenant),
        q.len() > 0,
        forall|r: Seq<char>|
            tree.nodes.contains_key(r) && tree.nodes[r].contains_key(tenant) && #[trigger] q.is_prefix_of(r) ==> r == q,
        tree.nodes[q][tenant] < tree.nodes[p][tenant],
    ensures
        !(after.nodes.contains_key(q) && after.nodes[q].contains_key(tenant)),
{
    let before = lane(tree.nodes, tenant);
    let left = lane(after.nodes, tenant);
    assert(is_evicted_lane(before, left, max_size));
    assert(before.contains_key(p) && before.contains_key(q));
    assert(!left.contains_key(p));
    law_eviction_takes_oldest_of_lane(before, left, max_size, p, q);
}

/// An eviction gives up leaves only: whoever loses a node also loses every node of its own below it.
/// Nobody gains a node, and what is kept keeps the time of its last use.
pub proof fn law_eviction_takes_leaves(tree: TreeModel, after: TreeModel, max_size: usize, tenant: Seq<char>)
    requires
        tree.is_valid(),
        tree.evicts_to(after, max_size),
    ensures
        after.clock == tree.clock,
        forall|p: Seq<char>|
            #[trigger] after.nodes.contains_key(p) && after.nodes[p].contains_key(tenant) ==> tree.nodes.contains_key(p)
                && tree.nodes[p].contains_key(tenant) && after.nodes[p][tenant] == tree.nodes[p][tenant],
        forall|p: Seq<char>, q: Seq<char>|
            #![trigger after.nodes.contains_key(q), p.is_prefix_of(q)]
            tree.nodes.contains_key(p) && tree.nodes[p].contains_key(tenant) && p.is_prefix_of(q) && after.nodes.contains_key(q)
                && after.nodes[q].contains_key(tenant) ==> after.nodes.contains_key(p) && after.nodes[p].contains_key(tenant),
{
    let before = lane(tree.nodes, tenant);
    let left = lane(after.nodes, tenant);
    assert(is_evicted_lane(before, left, max_size));
    let gone = choose|gone: Seq<Seq<char>>| is_eviction(before, gone, max_size) && left == #[trigger] shed(before, gone);
    assert forall|p: Seq<char>|
        #[trigger] after.nodes.contains_key(p) && after.nodes[p].contains_key(tenant) implies tree.nodes.contains_key(p)
        && tree.nodes[p].contains_key(tenant) && after.nodes[p][tenant] == tree.nodes[p][tenant] by {
        assert(left.contains_key(p));
        lemma_shed_subset(before, gone, p);
        assert(before.contains_key(p));
    }
    assert forall|p: Seq<char>, q: Seq<char>|
        #![trigger after.nodes.contains_key(q), p.is_prefix_of(q)]
        tree.nodes.contains_key(p) && tree.nodes[p].contains_key(tenant) && p.is_prefix_of(q) && after.nodes.contains_key(q)
            && after.nodes[q].contains_key(tenant) implies after.nodes.contains_key(p) && after.nodes[p].contains_key(tenant) by {
        assert(left.contains_key(q));
        assert(before.contains_key(p));
        lemma_shed_keeps_way(before, gone, p, q);
        assert(left.contains_key(p));
    }
}

/// An eviction takes no more than it must: of what a tenant loses, there is a node with which it would
/// still have more texts cached than allowed.
pub proof fn law_eviction_takes_no_more_than_needed(
    tree: TreeModel,
    after: TreeModel,
    max_size: usize,
    tenant: Seq<char>,
    lost: Seq<char>,
) -> (last: Seq<char>)
    requires
        tree.is_valid(),
        tree.evicts_to(after, max_size),
        tree.nodes.contains_key(lost) && tree.nodes[lost].contains_key(tenant),
        !(after.nodes.contains_key(lost) && after.nodes[lost].contains_key(tenant)),
    ensures
        tree.nodes.contains_key(last) && tree.nodes[last].contains_key(tenant),
        !(after.nodes.contains_key(last) && after.nodes[last].contains_key(tenant)),
        forall|texts: Set<Seq<char>>|
            (forall|s: Seq<char>| #[trigger]
                texts.contains(s) <==> s.len() > 0 && (s.is_prefix_of(last) || exists|p: Seq<char>|
                    after.nodes.contains_key(p) && after.nodes[p].contains_key(tenant) && #[trigger] s.is_prefix_of(p)))
                ==> (#[trigger] texts.len()) > max_size,
{
    let before = lane(tree.nodes, tenant);
    let left = lane(after.nodes, tenant);
    assert(is_evicted_lane(before, left, max_size));
    let gone = choose|gone: Seq<Seq<char>>| is_eviction(before, gone, max_size) && left == #[trigger] shed(before, gone);
    assert(before.contains_key(lost) && !left.contains_key(lost));
    let i = lemma_given_up(before, gone, lost);
    let n = gone.len() - 1;
    let last = gone[n];
    let rest = shed(before, gone.take(n));
    assert(gone.take(n) =~= gone.drop_last());
    assert(exceeds(rest, max_size));
    assert(is_oldest_leaf(rest, last));
    lemma_shed_subset(before, gone.take(n), last);
    assert(before.contains_key(last) && !left.contains_key(last));
    assert forall|texts: Set<Seq<char>>|
        (forall|s: Seq<char>| #[trigger]
            texts.contains(s) <==> s.len() > 0 && (s.is_prefix_of(last) || exists|p: Seq<char>|
                after.nodes.contains_key(p) && after.nodes[p].contains_key(tenant) && #[trigger] s.is_prefix_of(p)))
        implies (#[trigger] texts.len()) > max_size by {
        assert forall|s: Seq<char>| #[trigger] texts.contains(s) <==> cached(rest).contains(s) by {
            if s.len() > 0 && s.is_prefix_of(last) {
                assert(rest.contains_key(last));
            }
            if exists|p: Seq<char>|
                after.nodes.contains_key(p) && after.nodes[p].contains_key(tenant) && #[trigger] s.is_prefix_of(p) {
                let p = choose|p: Seq<char>|
                    after.nodes.contains_key(p) && after.nodes[p].contains_key(tenant) && #[trigger] s.is_prefix_of(p);
                assert(left.contains_key(p));
                assert(rest.contains_key(p));
            }
            if cached(rest).contains(s) {
                let p = choose|p: Seq<char>| rest.contains_key(p) && #[trigger] s.is_prefix_of(p);
                if p != last {
                    assert(left.contains_key(p));
                }
            }
        }
        assert(texts =~= cached(rest));
    }
    last
}

/// The size of a tenant is the number of non-empty texts that start the path to a node of its own. A
/// number that no `usize` can hold is read as the greatest one.
pub proof fn law_size_counts_texts(tree: TreeModel, tenant: Seq<char>, texts: Set<Seq<char>>)
    requires
        tree.is_valid(),
        forall|s: Seq<char>| #[trigger]
            texts.contains(s) <==> s.len() > 0 && exists|p: Seq<char>|
                tree.nodes.contains_key(p) && tree.nodes[p].contains_key(tenant) && #[trigger] s.is_prefix_of(p),
    ensures
        texts.finite(),
        texts.len() <= usize::MAX ==> tree.tenant_size(tenant) == texts.len(),
        texts.len() > usize::MAX ==> tree.tenant_size(tenant) == usize::MAX,
{
    let l = lane(tree.nodes, tenant);
    assert forall|s: Seq<char>| #[trigger] texts.contains(s) <==> cached(l).contains(s) by {
        if texts.contains(s) {
            let p = choose|p: Seq<char>|
                tree.nodes.contains_key(p) && tree.nodes[p].contains_key(tenant) && #[trigger] s.is_prefix_of(p);
            assert(l.contains_key(p));
        }
        if cached(l).contains(s) {
            let p = choose|p: Seq<char>| l.contains_key(p) && #[trigger] s.is_prefix_of(p);
            assert(tree.nodes.contains_key(p) && tree.nodes[p].contains_key(tenant));
        }
    }
    assert(texts =~= cached(l));
}

/// A tenant takes part in a tree exactly if it holds some node, and a tree is empty exactly if nobody
/// takes part in it.
pub proof fn law_taking_part(tree: TreeModel, tenant: Seq<char>)
    requires
        tree.is_valid(),
    ensures
        tree.has_tenant(tenant) <==> exists|p: Seq<char>|
            tree.nodes.contains_key(p) && (#[trigger] tree.nodes[p]).contains_key(tenant),
        tree.is_empty() <==> forall|t: Seq<char>| !(#[trigger] tree.has_tenant(t)),
{
    let root = Seq::<char>::empty();
    if tree.has_tenant(tenant) {
        assert(tree.nodes.contains_key(root) && tree.nodes[root].contains_key(tenant));
    }
    if exists|p: Seq<char>| tree.nodes.contains_key(p) && (#[trigger] tree.nodes[p]).contains_key(tenant) {
        let p = choose|p: Seq<char>| tree.nodes.contains_key(p) && (#[trigger] tree.nodes[p]).contains_key(tenant);
        lemma_prefix_take(p, 0);
        assert(p.take(0) =~= root);
        assert(root.is_prefix_of(p));
        assert(tree.nodes[p].contains_key(tenant));
    }
    if tree.is_empty() {
        assert forall|t: Seq<char>| !(#[trigger] tree.has_tenant(t)) by {}
    } else {
        let t = choose|t: Seq<char>| tree.nodes[root].contains_key(t);
        assert(tree.has_tenant(t));
    }
}

/// The length of a match is that of the longest start of the text with which the path to some node
/// starts.
pub proof fn law_match_is_longest(tree: TreeModel, text: Seq<char>, p: Seq<char>, k: int)
    requires
        tree.is_valid(),
        tree.nodes.contains_key(p),
        0 <= k <= p.len(),
        k <= text.len(),
        forall|i: int| 0 <= i < k ==> p[i] == text[i],
    ensures
        k <= match_len(tree.nodes, text) <= text.len(),
        exists|q: Seq<char>| #[trigger]
            tree.nodes.contains_key(q) && q.len() >= match_len(tree.nodes, text) && forall|i: int|
                0 <= i < match_len(tree.nodes, text) ==> q[i] == text[i],
{
    let nodes = tree.nodes;
    let b = branch(nodes, text);
    lemma_branch(nodes, text);
    let s = text.take(k);
    lemma_prefix_take(text, k);
    lemma_prefix_pointwise(s, p);
    assert(reaches(nodes, s));
    lemma_prefix_is_take(s, b);
    let q = choose|q: Seq<char>| nodes.contains_key(q) && #[trigger] b.is_prefix_of(q);
    lemma_prefix_is_take(b, q);
    assert forall|i: int| 0 <= i < match_len(nodes, text) implies q[i] == text[i] by {
        assert(b[i] == q[i]);
        assert(b[i] == text[i]);
    }
}

/// A lookup in a tree in which somebody takes part ends at the first node at the matched start of the
/// text or below it. It answers with the tenant that used this node last, and this counts as a use
/// by that tenant, now, of this node and of those on the way to it. Nothing else changes.
pub proof fn law_look_up_is_a_use(tree: TreeModel, text: Seq<char>, tenant: Seq<char>) -> (place: Seq<char>)
    requires
        tree.is_valid(),
        !tree.is_empty(),
        tree.answers(text, tenant),
    ensures
        tree.nodes.contains_key(place),
        text.take(match_len(tree.nodes, text) as int).is_prefix_of(place),
        forall|q: Seq<char>|
            tree.nodes.contains_key(q) && #[trigger] text.take(match_len(tree.nodes, text) as int).is_prefix_of(q)
                ==> place.is_prefix_of(q),
        tree.nodes[place].contains_key(tenant),
        forall|t: Seq<char>|
            #[trigger] tree.nodes[place].contains_key(t) ==> tree.nodes[place][t] <= tree.nodes[place][tenant],
        tree.clock < u64::MAX ==> tree.look_up(text, tenant).clock == tree.clock + 1,
        forall|p: Seq<char>|
            tree.nodes.contains_key(p) && #[trigger] p.is_prefix_of(place) ==> tree.look_up(
                text,
                tenant,
            ).nodes[p].contains_key(tenant) && tree.look_up(text, tenant).nodes[p][tenant] == tree.look_up(text, tenant).clock,
        forall|p: Seq<char>| #[trigger]
            tree.look_up(text, tenant).nodes.contains_key(p) <==> tree.nodes.contains_key(p),
        forall|p: Seq<char>, t: Seq<char>|
            tree.nodes.contains_key(p) && (t != tenant || !p.is_prefix_of(place)) ==> (#[trigger] tree.look_up(
                text,
                tenant,
            ).nodes[p].get(t)) == tree.nodes[p].get(t),
{
    let nodes = tree.nodes;
    let h = hit(nodes, text);
    let root = Seq::<char>::empty();
    lemma_branch(nodes, text);
    assert(is_held(nodes[h])) by {
        if h.len() == 0 {
            assert(h =~= root);
        }
    }
    h
}

/// A lookup in a tree in which nobody takes part answers that it is empty, and nothing is cached.
pub proof fn law_look_up_in_empty_tree(tree: TreeModel, text: Seq<char>, tenant: Seq<char>)
    requires
        tree.is_valid(),
        tree.is_empty(),
        tree.answers(text, tenant),
    ensures
        tenant == "empty"@,
        match_len(tree.nodes, text) == 0,
        tree.look_up(text, tenant).nodes == tree.nodes,
{
    let nodes = tree.nodes;
    let h = hit(nodes, text);
    let b = branch(nodes, text);
    let root = Seq::<char>::empty();
    lemma_branch(nodes, text);
    assert(h.len() == 0) by {
        if h.len() > 0 {
            let t = choose|t: Seq<char>| nodes[h].contains_key(t);
            lemma_prefix_take(h, 0);
            assert(h.take(0) =~= root);
            assert(root.is_prefix_of(h));
            assert(nodes[h].contains_key(t));
            assert(nodes[root].contains_key(t));
        }
    }
    lemma_prefix_is_take(b, h);
    assert(h =~= root);
}

/// An insertion counts as a use by the tenant, now, of the node at the text and of all nodes on the way
/// to it. Of the nodes that were there, nothing else changes. The clock moves on.
pub proof fn law_insert_is_a_use(tree: TreeModel, text: Seq<char>, tenant: Seq<char>)
    requires
        tree.is_valid(),
    ensures
        tree.clock < u64::MAX ==> tree.insert(text, tenant).clock == tree.clock + 1,
        tree.insert(text, tenant).clock >= tree.clock,
        tree.insert(text, tenant).nodes.contains_key(text),
        forall|p: Seq<char>|
            tree.insert(text, tenant).nodes.contains_key(p) && #[trigger] p.is_prefix_of(text) ==> tree.insert(
                text,
                tenant,
            ).nodes[p].contains_key(tenant) && tree.insert(text, tenant).nodes[p][tenant] == tree.insert(text, tenant).clock,
        forall|p: Seq<char>| #[trigger]
            tree.nodes.contains_key(p) ==> tree.insert(text, tenant).nodes.contains_key(p),
        forall|p: Seq<char>| #[trigger]
            tree.insert(text, tenant).nodes.contains_key(p) && !tree.nodes.contains_key(p) ==> p.is_prefix_of(text),
        forall|p: Seq<char>, t: Seq<char>|
            tree.nodes.contains_key(p) && (t != tenant || !p.is_prefix_of(text)) ==> (#[trigger] tree.insert(
                text,
                tenant,
            ).nodes[p].get(t)) == tree.nodes[p].get(t),
        forall|p: Seq<char>, q: Seq<char>, t: Seq<char>|
            #![trigger tree.insert(text, tenant).nodes[p].get(t), tree.nodes[q].get(t)]
            !tree.nodes.contains_key(p) && tree.insert(text, tenant).nodes.contains_key(p) && t != tenant
                && tree.nodes.contains_key(q) && p.is_prefix_of(q) && (forall|r: Seq<char>|
                tree.nodes.contains_key(r) && #[trigger] p.is_prefix_of(r) ==> q.is_prefix_of(r)) ==> tree.insert(
                text,
                tenant,
            ).nodes[p].get(t) == tree.nodes[q].get(t),
{
    let nodes = tree.nodes;
    let after = tree.insert(text, tenant).nodes;
    let b = branch(nodes, text);
    lemma_branch(nodes, text);
    assert(text.is_prefix_of(text)) by {
        assert(text =~= text.subrange(0, text.len() as int));
    }
    assert forall|p: Seq<char>, q: Seq<char>, t: Seq<char>|
        #![trigger after[p].get(t), nodes[q].get(t)]
        !nodes.contains_key(p) && after.contains_key(p) && t != tenant && nodes.contains_key(q) && p.is_prefix_of(q) && (forall|
            r: Seq<char>,
        |
            nodes.contains_key(r) && #[trigger] p.is_prefix_of(r) ==> q.is_prefix_of(r)) implies after[p].get(t)
        == nodes[q].get(t) by {
        assert(is_host(nodes, p, q));
        lemma_host_unique(nodes, p, q);
        if p != b {
            assert(p == text);
            assert(reaches(nodes, text));
            lemma_prefix_take(text, text.len() as int);
            assert(text.take(text.len() as int) =~= text);
            assert(text.is_prefix_of(b));
            lemma_prefix_antisymmetric(text, b);
        }
    }
}

/// A removal takes the tenant away from every node, leaves everybody else what they have, and drops
/// the nodes, other than the root, that nobody else holds.
pub proof fn law_removal_by_node(tree: TreeModel, tenant: Seq<char>, p: Seq<char>, t: Seq<char>)
    requires
        tree.is_valid(),
    ensures
        tree.remove_tenant(tenant).clock == tree.clock,
        tree.remove_tenant(tenant).nodes.contains_key(p) ==> tree.nodes.contains_key(p)
            && !tree.remove_tenant(tenant).nodes[p].contains_key(tenant),
        tree.nodes.contains_key(p) && t != tenant && tree.nodes[p].contains_key(t) ==> tree.remove_tenant(
            tenant,
        ).nodes.contains_key(p) && tree.remove_tenant(tenant).nodes[p].contains_key(t) && tree.remove_tenant(tenant).nodes[p][t]
            == tree.nodes[p][t],
        tree.remove_tenant(tenant).nodes.contains_key(p) && tree.remove_tenant(tenant).nodes[p].contains_key(t)
            ==> tree.nodes[p].contains_key(t) && t != tenant,
        p.len() > 0 && tree.remove_tenant(tenant).nodes.contains_key(p) ==> exists|o: Seq<char>|
            o != tenant && #[trigger] tree.nodes[p].contains_key(o),
{
    if tree.nodes.contains_key(p) && t != tenant && tree.nodes[p].contains_key(t) {
        assert(tree.nodes[p].remove(tenant).contains_key(t));
    }
    if p.len() > 0 && tree.remove_tenant(tenant).nodes.contains_key(p) {
        let o = choose|o: Seq<char>| tree.nodes[p].remove(tenant).contains_key(o);
        assert(o != tenant && tree.nodes[p].contains_key(o));
    }
}

} // verus!
