//! A prefix tree of texts that several tenants share.

use dashmap::DashMap;
use vstd::prelude::*;

use crate::counts::{
    counts_contains_key, counts_get, counts_insert, counts_is_empty, counts_new, counts_of, counts_remove,
};
use crate::model::{
    branch, cached, capped, char_count, exceeds, forgotten, hit, inserted, is_eviction, is_evicted, is_evicted_lane,
    is_held, is_latest, is_oldest_leaf, is_prefix_tree, lane, match_len, released, shed, touched, Holders, Lane, Nodes,
};
use crate::node::Node;
use crate::node_remove::lemma_sum_zero;
use crate::owners::Owners;

verus! {

/// The name that a lookup answers with where no tenant holds anything.
pub const NO_TENANT: &'static str = "empty";

/// What a tree stands for: its nodes, and the time of the last insertion or lookup.
#[verifier::ext_equal]
pub struct TreeModel {
    pub nodes: Nodes,
    pub clock: u64,
}

/// The time after `clock`.
pub open spec fn next_time(clock: u64) -> u64 {
    if clock < u64::MAX {
        (clock + 1) as u64
    } else {
        clock
    }
}

impl TreeModel {
    /// A tree that nobody has used.
    pub open spec fn fresh() -> TreeModel {
        TreeModel { nodes: Map::empty().insert(Seq::<char>::empty(), Map::empty()), clock: 0 }
    }

    /// The tree after `tenant` inserted `text`.
    pub open spec fn insert(self, text: Seq<char>, tenant: Seq<char>) -> TreeModel {
        TreeModel {
            nodes: inserted(self.nodes, text, tenant, next_time(self.clock)),
            clock: next_time(self.clock),
        }
    }

    /// The holders of the node at which a lookup of `text` ends.
    pub open spec fn hit_holders(self, text: Seq<char>) -> Holders {
        self.nodes[hit(self.nodes, text)]
    }

    /// Whether a lookup of `text` may answer with `tenant`: the holder that used the place where
    /// the lookup ends last.
    pub open spec fn answers(self, text: Seq<char>, tenant: Seq<char>) -> bool {
        if is_held(self.hit_holders(text)) {
            is_latest(self.hit_holders(text), tenant)
        } else {
            tenant == NO_TENANT@
        }
    }

    /// The tree after a lookup of `text` that answered with `tenant`.
    pub open spec fn look_up(self, text: Seq<char>, tenant: Seq<char>) -> TreeModel {
        TreeModel {
            nodes: if is_held(self.hit_holders(text)) {
                touched(self.nodes, hit(self.nodes, text), tenant, next_time(self.clock))
            } else {
                self.nodes
            },
            clock: next_time(self.clock),
        }
    }

    /// Whether `tenant` takes part in the tree.
    pub open spec fn has_tenant(self, tenant: Seq<char>) -> bool {
        self.nodes[Seq::<char>::empty()].contains_key(tenant)
    }

    /// Whether no tenant takes part in the tree.
    pub open spec fn is_empty(self) -> bool {
        !is_held(self.nodes[Seq::<char>::empty()])
    }

    /// How many characters `tenant` holds, as far as a `usize` can tell.
    pub open spec fn tenant_size(self, tenant: Seq<char>) -> usize {
        capped(char_count(self.nodes, tenant))
    }

    /// The tree after `tenant` left it.
    pub open spec fn remove_tenant(self, tenant: Seq<char>) -> TreeModel {
        TreeModel { nodes: forgotten(self.nodes, Seq::empty(), tenant), clock: self.clock }
    }

    /// What holds of every tree: it is a prefix tree, nothing was used later than now, and every
    /// tenant has finitely many texts cached.
    pub open spec fn is_valid(self) -> bool {
        &&& is_prefix_tree(self.nodes)
        &&& forall|t: Seq<char>| cached(#[trigger] lane(self.nodes, t)).finite()
        &&& forall|p: Seq<char>, t: Seq<char>|
            self.nodes.contains_key(p) && #[trigger] self.nodes[p].contains_key(t) ==> self.nodes[p][t] <= self.clock
    }

    /// Whether `after` is this tree with every tenant cut down to `max_size` characters.
    pub open spec fn evicts_to(self, after: TreeModel, max_size: usize) -> bool {
        is_evicted(self.nodes, after.nodes, max_size) && after.clock == self.clock
    }
}

/// The answer to a lookup: the tenant with the longest cached prefix of the text, the length of
/// that prefix, and the length of the text, both in characters.
pub struct PrefixMatchResult {
    pub tenant: String,
    pub matched_char_count: usize,
    pub input_char_count: usize,
}

/// A prefix tree of texts, with the tenants that have them cached.
pub struct Tree {
    root: Node,
    tenant_char_count: DashMap<String, usize>,
    clock: u64,
}

/// The characters of a text.
pub fn chars_of(text: &str) -> (chars: Vec<char>)
    ensures
        chars@ == text@,
{
    let mut chars: Vec<char> = Vec::new();
    for c in it: text.chars()
        invariant
            chars@ == it.seq().take(it.index()),
    {
        chars.push(c);
    }
    chars
}

/// What releasing a node does to the lanes.
proof fn lemma_released_lanes(nodes: Nodes, p: Seq<char>, tenant: Seq<char>)
    requires
        nodes.contains_key(p),
    ensures
        lane(released(nodes, p, tenant), tenant) == lane(nodes, tenant).remove(p),
        forall|t: Seq<char>| t != tenant ==> #[trigger] lane(released(nodes, p, tenant), t) == lane(nodes, t),
{
    let after = released(nodes, p, tenant);
    assert(lane(after, tenant) =~= lane(nodes, tenant).remove(p));
    assert forall|t: Seq<char>| t != tenant implies #[trigger] lane(after, t) == lane(nodes, t) by {
        if !is_held(nodes[p].remove(tenant)) {
            assert(!nodes[p].remove(tenant).contains_key(t));
        }
        assert(lane(after, t) =~= lane(nodes, t));
    }
}

/// Nothing need be given up of a lane that does not exceed the limit.
proof fn lemma_no_eviction(l: Lane, max_size: usize)
    requires
        !exceeds(l, max_size),
    ensures
        is_evicted_lane(l, l, max_size),
{
    let none = Seq::<Seq<char>>::empty();
    assert(shed(l, none) == l);
    assert(is_eviction(l, none, max_size));
}

impl Node {
    /// Whether the nodes, seen from a root, are those of `before` with only `tenant` cut down.
    spec fn is_trimmed(before: Node, after: Node, tenant: Seq<char>) -> bool {
        &&& after.wf()
        &&& after.text@.len() == 0
        &&& after.owners@ == before.owners@
        &&& forall|t: Seq<char>| t != tenant ==> #[trigger] lane(after.nodes(), t) == lane(before.nodes(), t)
        &&& forall|t: Seq<char>| t != tenant ==> (#[trigger] after.size(t)) == before.size(t)
        &&& forall|p: Seq<char>| #[trigger] after.nodes().contains_key(p) ==> before.nodes().contains_key(p)
    }

    /// Cuts `tenant` down to `max_size` characters. Returns how many it then holds.
    fn trim(&mut self, tenant: &String, max_size: usize) -> (count: usize)
        requires
            old(self).wf(),
            old(self).text@.len() == 0,
        ensures
            Node::is_trimmed(*old(self), *final(self), tenant@),
            is_evicted_lane(lane(old(self).nodes(), tenant@), lane(final(self).nodes(), tenant@), max_size),
            count == capped(final(self).size(tenant@)),
    {
        let ghost start = lane(old(self).nodes(), tenant@);
        let ghost mut gone: Seq<Seq<char>> = Seq::empty();
        let mut count = self.count_chars(tenant);
        while count > max_size
            invariant
                Node::is_trimmed(*old(self), *self, tenant@),
                start == lane(old(self).nodes(), tenant@),
                lane(self.nodes(), tenant@) == shed(start, gone),
                count == capped(self.size(tenant@)),
                forall|i: int| 0 <= i < gone.len() ==> exceeds(#[trigger] shed(start, gone.take(i)), max_size),
                forall|i: int| 0 <= i < gone.len() ==> is_oldest_leaf(shed(start, gone.take(i)), #[trigger] gone[i]),
            decreases self.size(tenant@),
        {
            let ghost before = *self;
            let ghost old_gone = gone;
            proof {
                self.lemma_size_is_cached(tenant@);
                assert(exceeds(shed(start, gone), max_size));
            }
            let released_one = self.release_oldest(tenant);
            proof {
                if !released_one {
                    assert forall|j: int| 0 <= j < before.children@.len() implies (#[trigger] before.children@[j]).size(
                        tenant@,
                    ) == 0 by {
                        before.children@[j].lemma_size_unheld(tenant@);
                    }
                    lemma_sum_zero(before.children@, tenant@);
                    assert(false);
                }
                let p = choose|p: Seq<char>|
                    #[trigger] is_oldest_leaf(lane(before.nodes(), tenant@), p) && p != before.text@ && self.nodes()
                        == released(before.nodes(), p, tenant@);
                lemma_released_lanes(before.nodes(), p, tenant@);
                gone = gone.push(p);
                assert(gone.drop_last() =~= old_gone);
                assert forall|i: int| 0 <= i < gone.len() implies exceeds(#[trigger] shed(start, gone.take(i)), max_size)
                    && is_oldest_leaf(shed(start, gone.take(i)), gone[i]) by {
                    if i < old_gone.len() {
                        assert(gone.take(i) =~= old_gone.take(i));
                        assert(gone[i] == old_gone[i]);
                    } else {
                        assert(gone.take(i) =~= old_gone);
                    }
                }
                assert forall|i: int| 0 <= i < gone.len() implies is_oldest_leaf(
                    shed(start, gone.take(i)),
                    #[trigger] gone[i],
                ) by {
                    assert(exceeds(shed(start, gone.take(i)), max_size));
                }
                assert forall|t: Seq<char>| t != tenant@ implies #[trigger] lane(self.nodes(), t) == lane(
                    old(self).nodes(),
                    t,
                ) by {
                    assert(lane(before.nodes(), t) == lane(old(self).nodes(), t));
                }
                assert forall|t: Seq<char>| t != tenant@ implies (#[trigger] self.size(t)) == old(self).size(t) by {
                    assert(before.size(t) == old(self).size(t));
                }
                assert forall|q: Seq<char>| #[trigger] self.nodes().contains_key(q) implies old(self).nodes().contains_key(
                    q,
                ) by {
                    assert(before.nodes().contains_key(q));
                }
            }
            count = self.count_chars(tenant);
        }
        proof {
            self.lemma_size_is_cached(tenant@);
            assert(is_eviction(start, gone, max_size));
        }
        count
    }
}

/// What the character counts are for a tree.
spec fn expected_counts(root: Node) -> Map<Seq<char>, usize> {
    Map::new(|t: Seq<char>| root.owners@.contains_key(t), |t: Seq<char>| capped(root.size(t)))
}

impl View for Tree {
    type V = TreeModel;

    closed spec fn view(&self) -> TreeModel {
        TreeModel { nodes: self.root.nodes(), clock: self.clock }
    }
}

impl Tree {
    /// The tree is well shaped, and the character counts are right.
    pub closed spec fn wf(&self) -> bool {
        &&& self.root.wf()
        &&& self.root.text@.len() == 0
        &&& counts_of(self.tenant_char_count) == expected_counts(self.root)
        &&& forall|p: Seq<char>, t: Seq<char>|
            self@.nodes.contains_key(p) && #[trigger] self@.nodes[p].contains_key(t) ==> self@.nodes[p][t] <= self.clock
    }

    /// What holds of every tree holds of this one.
    pub proof fn lemma_valid(&self)
        requires
            self.wf(),
        ensures
            self@.is_valid(),
    {
        let root = self.root;
        let nodes = self@.nodes;
        root.lemma_at_self();
        assert(root.text@ =~= Seq::<char>::empty());
        assert forall|p: Seq<char>, q: Seq<char>, c: Seq<char>|
            nodes.contains_key(p) && nodes.contains_key(q) && #[trigger] crate::model::is_common_prefix(
                p,
                q,
                c,
            ) implies nodes.contains_key(c) by {
            root.lemma_common_prefix(p, q, c);
        }
        assert forall|p: Seq<char>, q: Seq<char>, t: Seq<char>|
            nodes.contains_key(p) && nodes.contains_key(q) && #[trigger] p.is_prefix_of(q)
                && #[trigger] nodes[q].contains_key(t) implies nodes[p].contains_key(t) by {
            root.lemma_holds_upwards(p, q, t);
        }
        assert forall|p: Seq<char>| #[trigger] nodes.contains_key(p) && p.len() > 0 implies is_held(nodes[p]) by {
            root.lemma_held(p);
        }
        assert forall|t: Seq<char>| cached(#[trigger] lane(nodes, t)).finite() by {
            root.lemma_size_is_cached(t);
        }
    }

    /// The root stands at the empty path.
    proof fn lemma_root(&self)
        requires
            self.wf(),
        ensures
            self.root.text@ == Seq::<char>::empty(),
            self@.nodes.contains_key(Seq::<char>::empty()),
            self@.nodes[Seq::<char>::empty()] == self.root.owners@,
    {
        self.root.lemma_at_self();
        assert(self.root.text@ =~= Seq::<char>::empty());
    }

    /// A tree with no tenants.
    pub fn new() -> (tree: Tree)
        ensures
            tree.wf(),
            tree@ == TreeModel::fresh(),
    {
        let root = Node { text: Vec::new(), children: Vec::new(), owners: Owners::new() };
        let tree = Tree { root, tenant_char_count: counts_new(), clock: 0 };
        proof {
            let r = tree.root;
            assert(r.text@ =~= Seq::<char>::empty());
            r.lemma_at_self();
            assert forall|p: Seq<char>| p.len() > 0 implies #[trigger] r.at(p) is None by {}
            assert forall|p: Seq<char>| #[trigger] tree@.nodes.contains_key(p) implies p == Seq::<char>::empty() by {
                assert(p =~= Seq::<char>::empty());
            }
            assert(tree@.nodes =~= TreeModel::fresh().nodes);
            assert(counts_of(tree.tenant_char_count) =~= expected_counts(r));
            assert(r.wf());
        }
        tree
    }

    /// Inserts `text` for `tenant`: every prefix of it is now cached by `tenant`.
    pub fn insert(&mut self, text: &str, tenant: &str)
        requires
            old(self).wf(),
        ensures
            final(self).wf(),
            final(self)@ == old(self)@.insert(text@, tenant@),
    {
        proof {
            self.lemma_root();
        }
        let chars = chars_of(text);
        let name = tenant.to_owned();
        let now = self.clock.saturating_add(1);
        assert(chars@.len() == chars.len());
        let added = self.root.insert_below(&chars, 0, &name, now);
        self.clock = now;
        let count: usize = match counts_get(&self.tenant_char_count, tenant) {
            Some(count) => count,
            None => 0,
        };
        counts_insert(&mut self.tenant_char_count, name, count.saturating_add(added));
        proof {
            assert(chars@.skip(0) =~= text@);
            assert(old(self).root.text@ + text@ =~= text@);
            if !old(self).root.owners@.contains_key(tenant@) {
                old(self).root.lemma_size_unheld(tenant@);
            }
            assert forall|t: Seq<char>| #[trigger] expected_counts(self.root).contains_key(t) implies expected_counts(
                self.root,
            )[t] == counts_of(self.tenant_char_count)[t] by {
                assert(self.root.size(t) == old(self).root.size(t) + (if t == tenant@ { added as int } else { 0 }));
            }
            assert(counts_of(self.tenant_char_count) =~= expected_counts(self.root));
            old(self).lemma_stamps_inserted(text@, tenant@);
            assert(self@ =~= old(self)@.insert(text@, tenant@));
        }
    }

    /// An insertion keeps all times up to now.
    proof fn lemma_stamps_inserted(&self, text: Seq<char>, tenant: Seq<char>)
        requires
            self.wf(),
        ensures
            forall|p: Seq<char>, t: Seq<char>|
                self@.insert(text, tenant).nodes.contains_key(p) && #[trigger] self@.insert(
                    text,
                    tenant,
                ).nodes[p].contains_key(t) ==> self@.insert(text, tenant).nodes[p][t] <= self@.insert(text, tenant).clock,
    {
        let nodes = self@.nodes;
        let after = self@.insert(text, tenant);
        let b = branch(nodes, text);
        self.lemma_root();
        crate::node::lemma_longest_reached_bounds(nodes, text, text.len());
        if b.len() == 0 {
            assert(b =~= Seq::<char>::empty());
        } else {
            self.root.lemma_host_exists(b);
        }
    }

    /// Looks `text` up: who used the longest cached prefix of it last, and how long that prefix
    /// is. This counts as a use of it by that tenant.
    pub fn prefix_match_with_counts(&mut self, text: &str) -> (result: PrefixMatchResult)
        requires
            old(self).wf(),
        ensures
            final(self).wf(),
            result.matched_char_count == match_len(old(self)@.nodes, text@),
            result.input_char_count == text@.len(),
            result.matched_char_count <= result.input_char_count,
            old(self)@.answers(text@, result.tenant@),
            final(self)@ == old(self)@.look_up(text@, result.tenant@),
    {
        proof {
            self.lemma_root();
        }
        let chars = chars_of(text);
        let now = self.clock.saturating_add(1);
        let (matched, found) = self.root.match_below(&chars, 0, now);
        self.clock = now;
        proof {
            assert(chars@.skip(0) =~= text@);
            assert(old(self).root.text@ + text@ =~= text@);
            assert forall|t: Seq<char>| self.root.owners@.contains_key(t) <==> old(self).root.owners@.contains_key(t) by {}
            assert(expected_counts(self.root) =~= expected_counts(old(self).root));
        }
        let tenant = match found {
            Some(tenant) => tenant,
            None => NO_TENANT.to_owned(),
        };
        PrefixMatchResult { tenant, matched_char_count: matched, input_char_count: chars.len() }
    }

    /// Takes `tenant` out of the tree, with everything that only it has cached.
    pub fn remove_tenant(&mut self, tenant: &str)
        requires
            old(self).wf(),
        ensures
            final(self).wf(),
            final(self)@ == old(self)@.remove_tenant(tenant@),
    {
        proof {
            self.lemma_root();
        }
        let name = tenant.to_owned();
        self.root.forget_below(&name);
        counts_remove(&mut self.tenant_char_count, tenant);
        assert(counts_of(self.tenant_char_count) =~= expected_counts(self.root));
    }

    /// Whether no tenant takes part in the tree.
    pub fn is_empty(&self) -> (empty: bool)
        requires
            self.wf(),
        ensures
            empty == self@.is_empty(),
    {
        proof {
            self.lemma_root();
            let counts = counts_of(self.tenant_char_count);
            if self@.is_empty() {
                assert(counts.dom() =~= Set::empty());
            } else {
                let t = choose|t: Seq<char>| self.root.owners@.contains_key(t);
                assert(counts.contains_key(t));
            }
        }
        counts_is_empty(&self.tenant_char_count)
    }

    /// Whether `tenant` takes part in the tree.
    pub fn has_tenant(&self, tenant: &str) -> (found: bool)
        requires
            self.wf(),
        ensures
            found == self@.has_tenant(tenant@),
    {
        proof {
            self.lemma_root();
        }
        counts_contains_key(&self.tenant_char_count, tenant)
    }

    /// How many characters `tenant` holds: none, where it takes no part in the tree.
    pub fn tenant_size(&self, tenant: &str) -> (size: usize)
        requires
            self.wf(),
        ensures
            size == self@.tenant_size(tenant@),
    {
        proof {
            self.lemma_root();
            self.root.lemma_size_is_cached(tenant@);
            if !self.root.owners@.contains_key(tenant@) {
                self.root.lemma_size_unheld(tenant@);
            }
        }
        match counts_get(&self.tenant_char_count, tenant) {
            Some(count) => count,
            None => 0,
        }
    }

    /// Cuts every tenant down to `max_size` characters, by giving up leaves that it has not used for
    /// the longest time.
    pub fn evict_tenant_by_size(&mut self, max_size: usize)
        requires
            old(self).wf(),
        ensures
            final(self).wf(),
            old(self)@.evicts_to(final(self)@, max_size),
    {
        proof {
            self.lemma_root();
        }
        let names = self.root.owners.tenants();
        let mut n: usize = 0;
        while n < names.len()
            invariant
                old(self).wf(),
                self.wf(),
                self.clock == old(self).clock,
                n <= names@.len(),
                self.root.owners@ == old(self).root.owners@,
                forall|i: int| 0 <= i < names@.len() ==> old(self).root.owners@.contains_key((#[trigger] names@[i])@),
                forall|t: Seq<char>|
                    old(self).root.owners@.contains_key(t) ==> exists|i: int|
                        0 <= i < names@.len() && (#[trigger] names@[i])@ == t,
                forall|i: int, j: int| 0 <= i < j < names@.len() ==> (#[trigger] names@[i])@ != (#[trigger] names@[j])@,
                forall|i: int|
                    0 <= i < n ==> is_evicted_lane(
                        lane(old(self)@.nodes, (#[trigger] names@[i])@),
                        lane(self@.nodes, names@[i]@),
                        max_size,
                    ),
                forall|t: Seq<char>|
                    (forall|i: int| 0 <= i < n ==> (#[trigger] names@[i])@ != t) ==> #[trigger] lane(self@.nodes, t) == lane(
                        old(self)@.nodes,
                        t,
                    ),
                forall|p: Seq<char>| #[trigger] self@.nodes.contains_key(p) ==> old(self)@.nodes.contains_key(p),
            decreases names@.len() - n,
        {
            let ghost before = *self;
            let ghost t0 = names@[n as int]@;
            let count = self.root.trim(&names[n], max_size);
            counts_insert(&mut self.tenant_char_count, names[n].clone(), count);
            proof {
                assert(counts_of(self.tenant_char_count) =~= expected_counts(self.root)) by {
                    assert forall|t: Seq<char>| #[trigger] expected_counts(self.root).contains_key(t) implies expected_counts(
                        self.root,
                    )[t] == counts_of(self.tenant_char_count)[t] by {
                        if t != t0 {
                            assert(self.root.size(t) == before.root.size(t));
                        }
                    }
                }
                assert forall|p: Seq<char>, t: Seq<char>|
                    self@.nodes.contains_key(p) && #[trigger] self@.nodes[p].contains_key(t) implies self@.nodes[p][t]
                    <= self.clock by {
                    self.lemma_lane_bound(before, p, t, t0, max_size);
                }
                assert forall|t: Seq<char>|
                    (forall|i: int| 0 <= i < n + 1 ==> (#[trigger] names@[i])@ != t) implies #[trigger] lane(self@.nodes, t)
                    == lane(old(self)@.nodes, t) by {
                    assert(names@[n as int]@ != t);
                    assert(lane(self@.nodes, t) == lane(before@.nodes, t));
                }
                assert(lane(before@.nodes, t0) == lane(old(self)@.nodes, t0)) by {
                    assert forall|i: int| 0 <= i < n implies (#[trigger] names@[i])@ != t0 by {}
                }
                assert forall|i: int| 0 <= i < n + 1 implies is_evicted_lane(
                    lane(old(self)@.nodes, (#[trigger] names@[i])@),
                    lane(self@.nodes, names@[i]@),
                    max_size,
                ) by {
                    if i < n {
                        assert(names@[i]@ != t0);
                        assert(lane(self@.nodes, names@[i]@) == lane(before@.nodes, names@[i]@));
                    }
                }
                assert forall|p: Seq<char>| #[trigger] self@.nodes.contains_key(p) implies old(self)@.nodes.contains_key(
                    p,
                ) by {
                    assert(before@.nodes.contains_key(p));
                }
            }
            n += 1;
        }
        proof {
            let before = old(self)@.nodes;
            let after = self@.nodes;
            assert forall|t: Seq<char>| is_evicted_lane(lane(before, t), #[trigger] lane(after, t), max_size) by {
                if old(self).root.owners@.contains_key(t) {
                    let i = choose|i: int| 0 <= i < names@.len() && (#[trigger] names@[i])@ == t;
                    assert(is_evicted_lane(lane(before, names@[i]@), lane(after, names@[i]@), max_size));
                } else {
                    assert forall|i: int| 0 <= i < n implies (#[trigger] names@[i])@ != t by {}
                    assert(lane(after, t) == lane(before, t));
                    old(self).root.lemma_size_unheld(t);
                    old(self).root.lemma_size_is_cached(t);
                    lemma_no_eviction(lane(before, t), max_size);
                }
            }
            self.lemma_root();
            assert forall|p: Seq<char>| #[trigger]
                after.contains_key(p) <==> before.contains_key(p) && (p.len() == 0 || exists|t: Seq<char>|
                    #[trigger] lane(after, t).contains_key(p)) by {
                if after.contains_key(p) && p.len() > 0 {
                    self.root.lemma_held(p);
                    let t = choose|t: Seq<char>| after[p].contains_key(t);
                    assert(lane(after, t).contains_key(p));
                }
                if p.len() == 0 {
                    assert(p =~= Seq::<char>::empty());
                }
            }
        }
    }

    /// Cutting a tenant down keeps all times up to now.
    proof fn lemma_lane_bound(&self, before: Tree, p: Seq<char>, t: Seq<char>, tenant: Seq<char>, max_size: usize)
        requires
            before.wf(),
            self@.nodes.contains_key(p),
            self@.nodes[p].contains_key(t),
            t != tenant ==> lane(self@.nodes, t) == lane(before@.nodes, t),
            is_evicted_lane(lane(before@.nodes, tenant), lane(self@.nodes, tenant), max_size),
        ensures
            self@.nodes[p][t] <= before@.clock,
    {
        assert(lane(self@.nodes, t).contains_key(p));
        if t == tenant {
            let gone = choose|gone: Seq<Seq<char>>|
                is_eviction(lane(before@.nodes, t), gone, max_size) && lane(self@.nodes, t) == #[trigger] shed(
                    lane(before@.nodes, t),
                    gone,
                );
            lemma_shed_subset(lane(before@.nodes, t), gone, p);
        }
        assert(lane(before@.nodes, t).contains_key(p));
        assert(lane(before@.nodes, t)[p] == lane(self@.nodes, t)[p]);
    }
}

/// What is left of a lane was there before.
pub proof fn lemma_shed_subset(l: Lane, gone: Seq<Seq<char>>, p: Seq<char>)
    requires
        shed(l, gone).contains_key(p),
    ensures
        l.contains_key(p),
        l[p] == shed(l, gone)[p],
    decreases gone.len(),
{
    if gone.len() > 0 {
        lemma_shed_subset(l, gone.drop_last(), p);
    }
}

} // verus!
