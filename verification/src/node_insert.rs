//! Inserting a text below a node.

use vstd::prelude::*;

use crate::model::{
    branch, host, inserted, inserted_base, inserted_has, is_held, match_len, reaches,
};
use crate::node::{are_siblings, child_index, has_child, sum_sizes, Node};
use crate::owners::Owners;
use crate::prefix::{
    lemma_prefix_antisymmetric, lemma_prefix_concat, lemma_prefix_is_take, lemma_prefix_nested, lemma_prefix_split,
    lemma_prefix_take, lemma_prefix_trans,
};

verus! {

/// How many characters two texts share, the second one read from `from` on.
pub fn shared_len(a: &Vec<char>, b: &Vec<char>, from: usize) -> (k: usize)
    requires
        from <= b@.len(),
    ensures
        k <= a@.len(),
        k <= b@.len() - from,
        forall|j: int| 0 <= j < k ==> a@[j] == b@[from + j],
        k < a@.len() && k < b@.len() - from ==> a@[k as int] != b@[from + k],
{
    let mut k: usize = 0;
    while k < a.len() && k < b.len() - from && a[k] == b[from + k]
        invariant
            from <= b@.len(),
            k <= a@.len(),
            k <= b@.len() - from,
            forall|j: int| 0 <= j < k ==> a@[j] == b@[from + j],
        decreases a@.len() - k,
    {
        k += 1;
    }
    k
}

/// With one of the nodes replaced, the sum changes by the difference of the two sizes.
pub proof fn lemma_sum_update(children: Seq<Node>, i: int, child: Node, tenant: Seq<char>)
    requires
        0 <= i < children.len(),
    ensures
        sum_sizes(children.update(i, child), tenant) == sum_sizes(children, tenant) - children[i].size(tenant) + child.size(
            tenant,
        ),
        sum_sizes(children, tenant) >= children[i].size(tenant),
    decreases children.len(),
{
    let after = children.update(i, child);
    if i == children.len() - 1 {
        assert(after.drop_last() =~= children.drop_last());
    } else {
        assert(after.drop_last() =~= children.drop_last().update(i, child));
        lemma_sum_update(children.drop_last(), i, child, tenant);
    }
}

impl Node {
    /// The child that starts with `c`.
    pub fn find_child(&self, c: char) -> (found: Option<usize>)
        requires
            are_siblings(self.children@),
        ensures
            found is None ==> !has_child(self.children@, c),
            found matches Some(i) ==> i < self.children@.len() && self.children@[i as int].text@[0] == c && has_child(
                self.children@,
                c,
            ),
    {
        let mut i: usize = 0;
        while i < self.children.len()
            invariant
                are_siblings(self.children@),
                i <= self.children@.len(),
                forall|j: int| 0 <= j < i ==> (#[trigger] self.children@[j]).text@[0] != c,
            decreases self.children@.len() - i,
        {
            assert(self.children@[i as int].text@.len() > 0);
            if self.children[i].text[0] == c {
                return Some(i);
            }
            i += 1;
        }
        None
    }

    /// Cutting a node in two adds a node at the cut, with the same holders.
    proof fn lemma_cut(self, cut: Node, k: int)
        requires
            0 < k < self.text@.len(),
            cut.text@ == self.text@.take(k),
            cut.owners@ == self.owners@,
            cut.children@.len() == 1,
            cut.children@[0].text@ == self.text@.skip(k),
            cut.children@[0].children == self.children,
            cut.children@[0].owners@ == self.owners@,
        ensures
            forall|p: Seq<char>|
                (#[trigger] cut.at(p)) == (if p == self.text@.take(k) {
                    Some(self.owners@)
                } else {
                    self.at(p)
                }),
            forall|t: Seq<char>| cut.size(t) == self.size(t),
    {
        let top = self.text@.take(k);
        let tail = cut.children@[0];
        lemma_prefix_take(self.text@, k);
        assert(self.text@ =~= top + tail.text@);
        cut.lemma_at_self();
        assert(are_siblings(cut.children@));
        assert forall|p: Seq<char>|
            (#[trigger] cut.at(p)) == (if p == top {
                Some(self.owners@)
            } else {
                self.at(p)
            }) by {
            if p != top {
                if self.text@.is_prefix_of(p) {
                    lemma_prefix_trans(top, self.text@, p);
                    lemma_prefix_split(top, p);
                    lemma_prefix_split(self.text@, p);
                    let q = p.skip(k);
                    assert(p == top + q);
                    lemma_prefix_concat(top, tail.text@, q);
                    assert(tail.text@.is_prefix_of(q));
                    lemma_prefix_is_take(tail.text@, q);
                    cut.lemma_at_child(0, q);
                    assert(q.skip(tail.text@.len() as int) =~= p.skip(self.text@.len() as int));
                } else if top.is_prefix_of(p) && p.len() > k {
                    lemma_prefix_split(top, p);
                    let q = p.skip(k);
                    lemma_prefix_concat(top, tail.text@, q);
                    assert(!tail.text@.is_prefix_of(q));
                    if q[0] == tail.text@[0] {
                        cut.lemma_at_child(0, q);
                    } else {
                        cut.lemma_at_no_child(q);
                    }
                } else if top.is_prefix_of(p) {
                    lemma_prefix_nested(p, top, p);
                }
            }
        }
        assert forall|t: Seq<char>| cut.size(t) == self.size(t) by {
            assert(cut.children@.drop_last() =~= Seq::<Node>::empty());
            assert(sum_sizes(cut.children@.drop_last(), t) == 0);
            assert(cut.children@.last() == tail);
            assert(sum_sizes(cut.children@, t) == tail.size(t));
        }
    }

    /// Cuts the node in two after `k` characters.
    fn cut(&mut self, k: usize)
        requires
            old(self).wf(),
            is_held(old(self).owners@),
            0 < k < old(self).text@.len(),
        ensures
            final(self).wf(),
            final(self).text@ == old(self).text@.take(k as int),
            final(self).owners@ == old(self).owners@,
            forall|p: Seq<char>|
                (#[trigger] final(self).at(p)) == (if p == old(self).text@.take(k as int) {
                    Some(old(self).owners@)
                } else {
                    old(self).at(p)
                }),
            forall|t: Seq<char>| final(self).size(t) == old(self).size(t),
    {
        let tail_text = self.text.split_off(k);
        let mut below: Vec<Node> = Vec::new();
        std::mem::swap(&mut self.children, &mut below);
        let owners = self.owners.duplicate();
        self.children.push(Node { text: tail_text, children: below, owners });
        proof {
            assert(self.text@ =~= old(self).text@.take(k as int));
            assert(self.children@[0].text@ =~= old(self).text@.skip(k as int));
            old(self).lemma_cut(*self, k as int);
            let tail = self.children@[0];
            assert(tail.children == old(self).children);
            assert(tail.wf());
        }
    }

    /// Inserting into a node that has been cut at the right place inserts into the node itself.
    proof fn lemma_inserted_cut(self, cut: Node, text: Seq<char>, k: int, tenant: Seq<char>, now: u64)
        requires
            0 < k < self.text@.len(),
            k <= text.len(),
            forall|j: int| 0 <= j < k ==> text[j] == self.text@[j],
            k < text.len() ==> text[k] != self.text@[k],
            cut.wf(),
            cut.text@ == self.text@.take(k),
            forall|p: Seq<char>|
                (#[trigger] cut.at(p)) == (if p == self.text@.take(k) {
                    Some(self.owners@)
                } else {
                    self.at(p)
                }),
        ensures
            inserted(cut.nodes(), text, tenant, now) == inserted(self.nodes(), text, tenant, now),
    {
        let top = self.text@.take(k);
        self.lemma_match_within(text, k);
        self.lemma_at_self();
        lemma_prefix_take(text, k);
        let rest = text.skip(k);
        assert(text =~= top + rest);
        if rest.len() > 0 && has_child(cut.children@, rest[0]) {
            let i = child_index(cut.children@, rest[0]);
            let child = cut.children@[i];
            cut.lemma_at_child(i, child.text@);
            child.lemma_at_self();
            assert(self.at(top + child.text@) is Some);
            self.lemma_at_below(top + child.text@);
            lemma_prefix_is_take(self.text@, top + child.text@);
            assert((top + child.text@)[k] == child.text@[0]);
        }
        cut.lemma_match_here(rest);
        assert(inserted(cut.nodes(), text, tenant, now) =~= inserted(self.nodes(), text, tenant, now));
    }

    /// Inserting a text that ends at this node.
    proof fn lemma_inserted_here(self, after: Node, tenant: Seq<char>, now: u64)
        requires
            self.wf(),
            after.text@ == self.text@,
            after.children == self.children,
            after.owners@ == self.owners@.insert(tenant, now),
        ensures
            after.nodes() == inserted(self.nodes(), self.text@, tenant, now),
    {
        let text = self.text@;
        assert(text + Seq::<char>::empty() =~= text);
        self.lemma_match_here(Seq::empty());
        self.lemma_at_self();
        after.lemma_at_self();
        assert forall|p: Seq<char>| p != text implies #[trigger] after.at(p) == self.at(p) by {
            if text.is_prefix_of(p) && p.len() == text.len() {
                lemma_prefix_nested(p, text, p);
            }
        }
        assert forall|p: Seq<char>| self.nodes().contains_key(p) && #[trigger] p.is_prefix_of(text) implies p == text by {
            self.lemma_at_below(p);
            lemma_prefix_antisymmetric(p, text);
        }
        assert(after.nodes() =~= inserted(self.nodes(), text, tenant, now));
    }

    /// Inserting a text whose rest no child starts with.
    proof fn lemma_inserted_leaf(self, after: Node, leaf: Node, rest: Seq<char>, tenant: Seq<char>, now: u64)
        requires
            self.wf(),
            rest.len() > 0,
            !has_child(self.children@, rest[0]),
            leaf.text@ == rest,
            leaf.children@.len() == 0,
            leaf.owners@ == Map::<Seq<char>, u64>::empty().insert(tenant, now),
            after.text@ == self.text@,
            after.children@ == self.children@.push(leaf),
            after.owners@ == self.owners@.insert(tenant, now),
        ensures
            are_siblings(after.children@),
            after.nodes() == inserted(self.nodes(), self.text@ + rest, tenant, now),
    {
        let n = self.children@.len() as int;
        let text = self.text@ + rest;
        self.lemma_match_here(rest);
        self.lemma_at_self();
        self.lemma_at_no_child(rest);
        after.lemma_at_self();
        leaf.lemma_at_self();
        lemma_prefix_concat(self.text@, rest, rest);
        assert(after.children@[n] == leaf);
        assert(are_siblings(after.children@)) by {
            assert forall|i: int, j: int| 0 <= i < j < after.children@.len() implies (#[trigger] after.children@[i]).text@[0]
                != (#[trigger] after.children@[j]).text@[0] by {
                assert(after.children@[i] == self.children@[i]);
                if j < n {
                    assert(after.children@[j] == self.children@[j]);
                }
            }
            assert forall|i: int| 0 <= i < after.children@.len() implies (#[trigger] after.children@[i]).text@.len() > 0 by {
                if i < n {
                    assert(after.children@[i] == self.children@[i]);
                }
            }
        }
        after.lemma_at_child(n, rest);
        assert forall|p: Seq<char>| p != self.text@ && p != text implies #[trigger] after.at(p) == self.at(p) by {
            if self.text@.is_prefix_of(p) {
                lemma_prefix_split(self.text@, p);
                let q = p.skip(self.text@.len() as int);
                if q.len() == 0 {
                    assert(p =~= self.text@);
                } else if has_child(self.children@, q[0]) {
                    let i = child_index(self.children@, q[0]);
                    assert(after.children@[i] == self.children@[i]);
                    self.lemma_at_child(i, q);
                    after.lemma_at_child(i, q);
                } else {
                    self.lemma_at_no_child(q);
                    if has_child(after.children@, q[0]) {
                        let i = child_index(after.children@, q[0]);
                        if i < n {
                            assert(after.children@[i] == self.children@[i]);
                        }
                        after.lemma_at_child(n, q);
                        if rest.is_prefix_of(q) && q.len() == rest.len() {
                            lemma_prefix_nested(rest, q, q);
                        }
                        assert(leaf.at(q) is None);
                    } else {
                        after.lemma_at_no_child(q);
                    }
                }
            }
        }
        assert forall|p: Seq<char>| self.nodes().contains_key(p) && #[trigger] p.is_prefix_of(text) implies p
            == self.text@ by {
            self.lemma_at_below(p);
            let q = p.skip(self.text@.len() as int);
            lemma_prefix_concat(self.text@, q, rest);
            if q.len() > 0 {
                lemma_prefix_is_take(q, rest);
            } else {
                assert(p =~= self.text@);
            }
        }
        lemma_prefix_concat(self.text@, Seq::empty(), rest);
        assert(after.nodes() =~= inserted(self.nodes(), text, tenant, now));
    }

    /// Inserting a text whose rest is inserted into a child.
    proof fn lemma_inserted_child(self, after: Node, i: int, rest: Seq<char>, tenant: Seq<char>, now: u64)
        requires
            self.wf(),
            0 <= i < self.children@.len(),
            rest.len() > 0,
            rest[0] == self.children@[i].text@[0],
            after.text@ == self.text@,
            after.owners@ == self.owners@.insert(tenant, now),
            after.children@.len() == self.children@.len(),
            after.children@ == self.children@.update(i, after.children@[i]),
            after.children@[i].text@.len() > 0,
            after.children@[i].text@[0] == self.children@[i].text@[0],
            after.children@[i].nodes() == inserted(self.children@[i].nodes(), rest, tenant, now),
        ensures
            are_siblings(after.children@),
            after.nodes() == inserted(self.nodes(), self.text@ + rest, tenant, now),
    {
        let result = inserted(self.nodes(), self.text@ + rest, tenant, now);
        assert forall|j: int| 0 <= j < self.children@.len() && j != i implies #[trigger] after.children@[j]
            == self.children@[j] by {}
        assert forall|p: Seq<char>| #[trigger] after.nodes().contains_key(p) <==> result.contains_key(p) by {
            self.lemma_inserted_child_at(after, i, rest, tenant, now, p);
        }
        assert forall|p: Seq<char>| #[trigger] after.nodes().contains_key(p) implies after.nodes()[p] == result[p] by {
            self.lemma_inserted_child_at(after, i, rest, tenant, now, p);
        }
        assert(after.nodes() =~= result);
    }

    /// The longest match of a text that starts as this node does is reached.
    proof fn lemma_reaches_branch(self, text: Seq<char>)
        requires
            match_len(self.nodes(), text) > 0,
        ensures
            reaches(self.nodes(), branch(self.nodes(), text)),
            branch(self.nodes(), text).len() == match_len(self.nodes(), text) <= text.len(),
    {
        crate::node::lemma_longest_reached_bounds(self.nodes(), text, text.len());
    }

    /// What an insertion below a child does to the node at `p`.
    proof fn lemma_inserted_child_at(
        self,
        after: Node,
        i: int,
        rest: Seq<char>,
        tenant: Seq<char>,
        now: u64,
        p: Seq<char>,
    )
        requires
            self.wf(),
            0 <= i < self.children@.len(),
            rest.len() > 0,
            rest[0] == self.children@[i].text@[0],
            after.text@ == self.text@,
            after.owners@ == self.owners@.insert(tenant, now),
            after.children@.len() == self.children@.len(),
            after.children@ == self.children@.update(i, after.children@[i]),
            after.children@[i].text@.len() > 0,
            after.children@[i].text@[0] == self.children@[i].text@[0],
            after.children@[i].nodes() == inserted(self.children@[i].nodes(), rest, tenant, now),
            are_siblings(after.children@),
        ensures
            after.nodes().contains_key(p) <==> inserted(self.nodes(), self.text@ + rest, tenant, now).contains_key(p),
            after.nodes().contains_key(p) ==> after.nodes()[p] == inserted(self.nodes(), self.text@ + rest, tenant, now)[p],
    {
        let text = self.text@ + rest;
        let child = self.children@[i];
        let child_after = after.children@[i];
        self.lemma_match_child(i, rest);
        let b = branch(child.nodes(), rest);
        self.lemma_at_self();
        after.lemma_at_self();
        lemma_prefix_concat(self.text@, rest, rest);
        child.lemma_reaches_branch(rest);
        child.lemma_host_exists(b);
        assert(b[0] == rest[0]);
        self.lemma_host_child(i, b, host(child.nodes(), b));
        if p == self.text@ {
            lemma_prefix_concat(self.text@, Seq::empty(), rest);
            assert(self.text@.is_prefix_of(text));
        } else if self.text@.is_prefix_of(p) {
            lemma_prefix_split(self.text@, p);
            let q = p.skip(self.text@.len() as int);
            if q.len() == 0 {
                assert(p =~= self.text@);
            }
            lemma_prefix_concat(self.text@, q, rest);
            lemma_prefix_concat(self.text@, b, q);
            lemma_prefix_concat(self.text@, q, q);
            assert(p == text ==> q == rest);
            assert(p == self.text@ + b ==> q == b) by {
                lemma_prefix_concat(self.text@, b, b);
            }
            if q[0] == rest[0] {
                self.lemma_at_child(i, q);
                after.lemma_at_child(i, q);
                let inner = inserted(child.nodes(), rest, tenant, now);
                let outer = inserted(self.nodes(), text, tenant, now);
                assert(self.nodes().contains_key(p) <==> child.nodes().contains_key(q));
                assert(inserted_has(self.nodes(), text, p) <==> inserted_has(child.nodes(), rest, q));
                assert(outer.contains_key(p) <==> inner.contains_key(q));
                assert(after.nodes().contains_key(p) <==> child_after.nodes().contains_key(q));
                if inner.contains_key(q) {
                    assert(inserted_base(self.nodes(), text, p) == inserted_base(child.nodes(), rest, q));
                    assert(outer[p] == inner[q]);
                    assert(after.nodes()[p] == child_after.nodes()[q]);
                }
            } else {
                if q.is_prefix_of(rest) {
                    lemma_prefix_is_take(q, rest);
                }
                if has_child(self.children@, q[0]) {
                    let j = child_index(self.children@, q[0]);
                    assert(j != i);
                    assert(after.children@[j] == self.children@[j]);
                    self.lemma_at_child(j, q);
                    after.lemma_at_child(j, q);
                } else {
                    self.lemma_at_no_child(q);
                    if has_child(after.children@, q[0]) {
                        let j = child_index(after.children@, q[0]);
                        if j != i {
                            assert(after.children@[j] == self.children@[j]);
                        }
                        assert(false);
                    }
                    after.lemma_at_no_child(q);
                }
            }
        } else {
            if p == text {
                assert(false);
            }
            if p == self.text@ + b {
                lemma_prefix_concat(self.text@, b, b);
            }
        }
    }

    /// Inserts what is left of `text` from `from` on, for `tenant`, at time `now`. Returns how many
    /// characters `tenant` holds more than before.
    pub fn insert_below(&mut self, text: &Vec<char>, from: usize, tenant: &String, now: u64) -> (added: usize)
        requires
            old(self).wf(),
            from <= text@.len(),
            old(self).text@.len() + (text@.len() - from) <= usize::MAX,
        ensures
            final(self).wf(),
            final(self).text@ == old(self).text@,
            final(self).owners@ == old(self).owners@.insert(tenant@, now),
            final(self).nodes() == inserted(old(self).nodes(), old(self).text@ + text@.skip(from as int), tenant@, now),
            forall|t: Seq<char>|
                (#[trigger] final(self).size(t)) == old(self).size(t) + (if t == tenant@ {
                    added as int
                } else {
                    0
                }),
            added <= old(self).text@.len() + (text@.len() - from),
        decreases text@.len() - from,
    {
        let ghost rest = text@.skip(from as int);
        let own: usize = match self.owners.stamp_of(tenant) {
            Some(_) => 0,
            None => self.text.len(),
        };
        self.owners.set(tenant, now);
        if from == text.len() {
            proof {
                assert(rest =~= Seq::<char>::empty());
                assert(self.text@ + rest =~= self.text@);
                old(self).lemma_inserted_here(*self, tenant@, now);
                assert(self.wf());
            }
            return own;
        }
        assert(rest[0] == text@[from as int]);
        match self.find_child(text[from]) {
            None => {
                let mut leaf_text: Vec<char> = Vec::new();
                let mut j: usize = from;
                while j < text.len()
                    invariant
                        from <= j <= text@.len(),
                        leaf_text@ =~= text@.subrange(from as int, j as int),
                    decreases text@.len() - j,
                {
                    leaf_text.push(text[j]);
                    j += 1;
                }
                let mut leaf_owners = Owners::new();
                leaf_owners.set(tenant, now);
                let leaf = Node { text: leaf_text, children: Vec::new(), owners: leaf_owners };
                let ghost placed = leaf;
                self.children.push(leaf);
                proof {
                    assert(placed.text@ =~= rest);
                    old(self).lemma_inserted_leaf(*self, placed, rest, tenant@, now);
                    assert(placed.owners@.contains_key(tenant@));
                    assert(placed.wf());
                    old(self).lemma_wf_push(*self, placed);
                    assert forall|t: Seq<char>| (#[trigger] self.size(t)) == old(self).size(t) + (if t == tenant@ {
                        own + rest.len()
                    } else {
                        0
                    }) by {
                        assert(self.children@.drop_last() =~= old(self).children@);
                        assert(self.children@.last() == placed);
                        assert(sum_sizes(placed.children@, t) == 0);
                        assert(placed.size(t) == (if t == tenant@ { rest.len() } else { 0 }));
                    }
                }
                own + (text.len() - from)
            },
            Some(i) => {
                let ghost child = self.children@[i as int];
                assert(child.text@.len() > 0);
                let k = shared_len(&self.children[i].text, text, from);
                assert(k > 0);
                if k < self.children[i].text.len() {
                    self.children[i].cut(k);
                    proof {
                        assert forall|j: int| 0 <= j < k implies rest[j] == child.text@[j] by {}
                        child.lemma_inserted_cut(self.children@[i as int], rest, k as int, tenant@, now);
                    }
                }
                let ghost cut = self.children@[i as int];
                assert(cut.text@ =~= child.text@.take(k as int));
                assert(rest =~= cut.text@ + text@.skip(from + k));
                assert(inserted(cut.nodes(), rest, tenant@, now) == inserted(child.nodes(), rest, tenant@, now));
                let below = self.children[i].insert_below(text, from + k, tenant, now);
                proof {
                    let grown = self.children@[i as int];
                    assert(self.children@ =~= old(self).children@.update(i as int, grown));
                    old(self).lemma_inserted_child(*self, i as int, rest, tenant@, now);
                    assert(grown.owners@.contains_key(tenant@));
                    old(self).lemma_wf_update(*self, i as int, grown);
                    assert forall|t: Seq<char>| (#[trigger] self.size(t)) == old(self).size(t) + (if t == tenant@ {
                        own + below
                    } else {
                        0
                    }) by {
                        lemma_sum_update(old(self).children@, i as int, grown, t);
                        assert(grown.size(t) == cut.size(t) + (if t == tenant@ { below as int } else { 0 }));
                    }
                }
                own + below
            },
        }
    }

    /// A node keeps its shape when a well-shaped child joins it.
    proof fn lemma_wf_push(self, after: Node, leaf: Node)
        requires
            self.wf(),
            after.owners.wf(),
            leaf.wf(),
            is_held(leaf.owners@),
            after.children@ == self.children@.push(leaf),
            are_siblings(after.children@),
            forall|t: Seq<char>| leaf.owners@.contains_key(t) ==> after.owners@.contains_key(t),
            forall|t: Seq<char>| self.owners@.contains_key(t) ==> after.owners@.contains_key(t),
        ensures
            after.wf(),
    {
        assert forall|j: int| 0 <= j < after.children@.len() implies after.children@[j] == leaf || (0 <= j
            < self.children@.len() && #[trigger] after.children@[j] == self.children@[j]) by {}
    }

    /// A node keeps its shape when a child is replaced by a well-shaped one.
    pub proof fn lemma_wf_update(self, after: Node, i: int, child: Node)
        requires
            self.wf(),
            after.owners.wf(),
            child.wf(),
            is_held(child.owners@),
            0 <= i < self.children@.len(),
            after.children@ == self.children@.update(i, child),
            are_siblings(after.children@),
            forall|t: Seq<char>| child.owners@.contains_key(t) ==> after.owners@.contains_key(t),
            forall|t: Seq<char>| self.owners@.contains_key(t) ==> after.owners@.contains_key(t),
        ensures
            after.wf(),
    {
        assert forall|j: int| 0 <= j < after.children@.len() implies after.children@[j] == child || #[trigger] after.children@[j]
            == self.children@[j] by {}
        assert forall|j: int| 0 <= j < after.children@.len() implies (#[trigger] after.children@[j]).wf() by {
            if j != i {
                assert(after.children@[j] == self.children@[j]);
            }
        }
    }
}

} // verus!
