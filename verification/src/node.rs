//! A node of a prefix tree, with everything below it.

use vstd::prelude::*;

use crate::model::{
    branch, host, is_held, is_host, longest_reached, match_len, reaches, Holders, Nodes,
};
use crate::owners::Owners;
use crate::prefix::{
    lemma_prefix_antisymmetric, lemma_prefix_concat, lemma_prefix_is_take, lemma_prefix_nested, lemma_prefix_pointwise,
    lemma_prefix_split, lemma_prefix_take,
};

verus! {

/// A node: the stretch of text that leads to it from its parent, the nodes below it, and who
/// holds it.
pub struct Node {
    pub text: Vec<char>,
    pub children: Vec<Node>,
    pub owners: Owners,
}

/// Whether one of the nodes starts with `c`.
pub open spec fn has_child(children: Seq<Node>, c: char) -> bool {
    exists|i: int| 0 <= i < children.len() && (#[trigger] children[i]).text@.len() > 0 && children[i].text@[0] == c
}

/// Which of the nodes starts with `c`.
pub open spec fn child_index(children: Seq<Node>, c: char) -> int {
    choose|i: int| 0 <= i < children.len() && (#[trigger] children[i]).text@.len() > 0 && children[i].text@[0] == c
}

/// No two of the nodes start alike, and none is empty.
pub open spec fn are_siblings(children: Seq<Node>) -> bool {
    &&& forall|i: int| 0 <= i < children.len() ==> (#[trigger] children[i]).text@.len() > 0
    &&& forall|i: int, j: int|
        0 <= i < j < children.len() ==> (#[trigger] children[i]).text@[0] != (#[trigger] children[j]).text@[0]
}

/// How many characters of the trees `tenant` holds.
pub open spec fn sum_sizes(children: Seq<Node>, tenant: Seq<char>) -> nat
    decreases children,
{
    if children.len() == 0 {
        0
    } else {
        sum_sizes(children.drop_last(), tenant) + children.last().size(tenant)
    }
}

impl Node {
    /// The holders of the node that `path` leads to. The path starts with the text of this node.
    pub open spec fn at(self, path: Seq<char>) -> Option<Holders>
        decreases self,
    {
        if !self.text@.is_prefix_of(path) {
            None
        } else if path.len() == self.text@.len() {
            Some(self.owners@)
        } else {
            let rest = path.skip(self.text@.len() as int);
            if has_child(self.children@, rest[0]) {
                self.children@[child_index(self.children@, rest[0])].at(rest)
            } else {
                None
            }
        }
    }

    /// This node and all nodes below it, each under the path that leads to it from the parent of
    /// this node.
    pub open spec fn nodes(self) -> Nodes {
        Map::new(|p: Seq<char>| self.at(p) is Some, |p: Seq<char>| self.at(p)->0)
    }

    /// The nodes below start differently, are held, and are held only by holders of this node; so
    /// further down.
    pub open spec fn wf(self) -> bool
        decreases self,
    {
        &&& self.owners.wf()
        &&& are_siblings(self.children@)
        &&& forall|i: int| 0 <= i < self.children@.len() ==> is_held((#[trigger] self.children@[i]).owners@)
        &&& forall|i: int, t: Seq<char>|
            0 <= i < self.children@.len() && #[trigger] self.children@[i].owners@.contains_key(t)
                ==> self.owners@.contains_key(t)
        &&& forall|i: int| 0 <= i < self.children@.len() ==> (#[trigger] self.children@[i]).wf()
    }

    /// How many characters `tenant` holds from this node down.
    pub open spec fn size(self, tenant: Seq<char>) -> nat
        decreases self,
    {
        (if self.owners@.contains_key(tenant) {
            self.text@.len()
        } else {
            0
        }) + sum_sizes(self.children@, tenant)
    }

    // ---- where a path leads ----

    /// A child is the one that starts as it does.
    proof fn lemma_child_index(self, i: int)
        requires
            are_siblings(self.children@),
            0 <= i < self.children@.len(),
        ensures
            has_child(self.children@, self.children@[i].text@[0]),
            child_index(self.children@, self.children@[i].text@[0]) == i,
    {
        let c = self.children@[i].text@[0];
        assert(self.children@[i].text@.len() > 0);
        let j = child_index(self.children@, c);
        assert(self.children@[j].text@[0] == c);
    }

    /// Below this node a path leads into the child that starts as the rest of the path does.
    pub proof fn lemma_at_child(self, i: int, rest: Seq<char>)
        requires
            are_siblings(self.children@),
            0 <= i < self.children@.len(),
            rest.len() > 0,
            rest[0] == self.children@[i].text@[0],
        ensures
            self.at(self.text@ + rest) == self.children@[i].at(rest),
    {
        lemma_prefix_concat(self.text@, rest, rest);
        self.lemma_child_index(i);
    }

    /// Where no child starts as the rest of a path does, the path leads nowhere.
    pub proof fn lemma_at_no_child(self, rest: Seq<char>)
        requires
            rest.len() > 0,
            !has_child(self.children@, rest[0]),
        ensures
            self.at(self.text@ + rest) is None,
    {
        lemma_prefix_concat(self.text@, rest, rest);
    }

    /// The text of this node leads to it.
    pub proof fn lemma_at_self(self)
        ensures
            self.at(self.text@) == Some(self.owners@),
    {
        assert(self.text@.is_prefix_of(self.text@)) by {
            assert(self.text@ =~= self.text@.subrange(0, self.text@.len() as int));
        }
    }

    /// Every path that leads somewhere starts with the text of this node.
    pub proof fn lemma_at_below(self, path: Seq<char>)
        requires
            self.at(path) is Some,
        ensures
            self.text@.is_prefix_of(path),
            path == self.text@ + path.skip(self.text@.len() as int),
            path.len() > self.text@.len() ==> has_child(self.children@, path.skip(self.text@.len() as int)[0]),
    {
        lemma_prefix_split(self.text@, path);
    }

    /// Paths that lead below this node are reached through a child.
    pub proof fn lemma_reaches_child(self, i: int, s: Seq<char>)
        requires
            are_siblings(self.children@),
            0 <= i < self.children@.len(),
            s.len() > 0,
            s[0] == self.children@[i].text@[0],
        ensures
            reaches(self.nodes(), self.text@ + s) <==> reaches(self.children@[i].nodes(), s),
    {
        let child = self.children@[i];
        if reaches(child.nodes(), s) {
            let q = choose|q: Seq<char>| child.nodes().contains_key(q) && #[trigger] s.is_prefix_of(q);
            lemma_prefix_is_take(s, q);
            assert(q[0] == s[0]);
            self.lemma_at_child(i, q);
            lemma_prefix_concat(self.text@, s, q);
            assert(self.nodes().contains_key(self.text@ + q));
        }
        if reaches(self.nodes(), self.text@ + s) {
            let p = choose|p: Seq<char>| self.nodes().contains_key(p) && #[trigger] (self.text@ + s).is_prefix_of(p);
            self.lemma_at_below(p);
            let q = p.skip(self.text@.len() as int);
            lemma_prefix_concat(self.text@, s, q);
            lemma_prefix_is_take(s, q);
            self.lemma_at_child(i, q);
            assert(child.nodes().contains_key(q));
        }
    }

    /// Where no child starts as the rest of a path does, nothing lies at the path or below it.
    pub proof fn lemma_reaches_no_child(self, s: Seq<char>)
        requires
            s.len() > 0,
            !has_child(self.children@, s[0]),
        ensures
            !reaches(self.nodes(), self.text@ + s),
    {
        if reaches(self.nodes(), self.text@ + s) {
            let p = choose|p: Seq<char>| self.nodes().contains_key(p) && #[trigger] (self.text@ + s).is_prefix_of(p);
            self.lemma_at_below(p);
            let q = p.skip(self.text@.len() as int);
            lemma_prefix_concat(self.text@, s, q);
            lemma_prefix_is_take(s, q);
            assert(q[0] == s[0]);
        }
    }

    /// Every prefix of the text of this node is reached.
    pub proof fn lemma_reaches_own(self, s: Seq<char>)
        requires
            s.is_prefix_of(self.text@),
        ensures
            reaches(self.nodes(), s),
    {
        self.lemma_at_self();
        assert(self.nodes().contains_key(self.text@));
    }

    /// A path is hosted below this node where its rest is hosted below a child.
    pub proof fn lemma_host_child(self, i: int, s: Seq<char>, h: Seq<char>)
        requires
            are_siblings(self.children@),
            0 <= i < self.children@.len(),
            s.len() > 0,
            s[0] == self.children@[i].text@[0],
            is_host(self.children@[i].nodes(), s, h),
        ensures
            is_host(self.nodes(), self.text@ + s, self.text@ + h),
            host(self.nodes(), self.text@ + s) == self.text@ + h,
            host(self.children@[i].nodes(), s) == h,
            self.nodes()[self.text@ + h] == self.children@[i].nodes()[h],
    {
        let child = self.children@[i];
        lemma_prefix_is_take(s, h);
        self.lemma_at_child(i, h);
        lemma_prefix_concat(self.text@, s, h);
        assert forall|p: Seq<char>|
            self.nodes().contains_key(p) && #[trigger] (self.text@ + s).is_prefix_of(p) implies (self.text@
            + h).is_prefix_of(p) by {
            self.lemma_at_below(p);
            let q = p.skip(self.text@.len() as int);
            lemma_prefix_concat(self.text@, s, q);
            lemma_prefix_is_take(s, q);
            self.lemma_at_child(i, q);
            assert(child.nodes().contains_key(q));
            lemma_prefix_concat(self.text@, h, q);
        }
        lemma_host_unique(self.nodes(), self.text@ + s, self.text@ + h);
        lemma_host_unique(child.nodes(), s, h);
    }

    /// A start of this node's text ends in the stretch of this node.
    pub proof fn lemma_host_own(self, s: Seq<char>)
        requires
            s.is_prefix_of(self.text@),
        ensures
            is_host(self.nodes(), s, self.text@),
            host(self.nodes(), s) == self.text@,
    {
        self.lemma_at_self();
        assert forall|p: Seq<char>| self.nodes().contains_key(p) && #[trigger] s.is_prefix_of(p) implies self.text@.is_prefix_of(
            p,
        ) by {
            self.lemma_at_below(p);
        }
        lemma_host_unique(self.nodes(), s, self.text@);
    }

    /// Every path that is reached is hosted.
    pub proof fn lemma_host_exists(self, s: Seq<char>)
        requires
            self.wf(),
            reaches(self.nodes(), s),
        ensures
            is_host(self.nodes(), s, host(self.nodes(), s)),
        decreases self,
    {
        let p = choose|p: Seq<char>| self.nodes().contains_key(p) && #[trigger] s.is_prefix_of(p);
        self.lemma_at_below(p);
        if s.len() <= self.text@.len() {
            lemma_prefix_nested(s, self.text@, p);
            self.lemma_host_own(s);
        } else {
            lemma_prefix_nested(self.text@, s, p);
            lemma_prefix_split(self.text@, s);
            let rest = s.skip(self.text@.len() as int);
            if !has_child(self.children@, rest[0]) {
                self.lemma_reaches_no_child(rest);
            }
            let i = child_index(self.children@, rest[0]);
            self.lemma_reaches_child(i, rest);
            self.children@[i].lemma_host_exists(rest);
            self.lemma_host_child(i, rest, host(self.children@[i].nodes(), rest));
        }
    }
}

impl Node {
    /// Where a text runs below this node into a child, the child matches the rest of it.
    pub proof fn lemma_match_child(self, i: int, rest: Seq<char>)
        requires
            are_siblings(self.children@),
            0 <= i < self.children@.len(),
            rest.len() > 0,
            rest[0] == self.children@[i].text@[0],
        ensures
            match_len(self.nodes(), self.text@ + rest) == self.text@.len() + match_len(self.children@[i].nodes(), rest),
            branch(self.nodes(), self.text@ + rest) == self.text@ + branch(self.children@[i].nodes(), rest),
            match_len(self.children@[i].nodes(), rest) >= 1,
    {
        let child = self.children@[i];
        let n = self.text@.len();
        let text = self.text@ + rest;
        let k = match_len(child.nodes(), rest);
        lemma_longest_reached_bounds(child.nodes(), rest, rest.len());
        assert(rest.take(1)[0] == rest[0]);
        assert(child.text@.len() > 0);
        lemma_prefix_pointwise(rest.take(1), child.text@);
        child.lemma_reaches_own(rest.take(1));
        assert(k >= 1) by {
            if k < 1 {
                assert(!reaches(child.nodes(), rest.take(1nat as int)));
            }
        }
        assert forall|j: nat| n < j <= text.len() implies #[trigger] text.take(j as int) == self.text@ + rest.take(
            j - n,
        ) by {
            assert(text.take(j as int) =~= self.text@ + rest.take(j - n));
        }
        assert(text.take((n + k) as int) == self.text@ + rest.take(k as int));
        self.lemma_reaches_child(i, rest.take(k as int));
        assert forall|j: nat| n + k < j <= text.len() implies !reaches(self.nodes(), #[trigger] text.take(j as int)) by {
            let m = (j - n) as nat;
            assert(!reaches(child.nodes(), rest.take(m as int)));
            self.lemma_reaches_child(i, rest.take(m as int));
        }
        lemma_longest_reached(self.nodes(), text, text.len(), n + k);
    }

    /// Where a text ends at this node, or goes on in a way that no child does, this node is as far
    /// as it matches.
    pub proof fn lemma_match_here(self, rest: Seq<char>)
        requires
            rest.len() == 0 || !has_child(self.children@, rest[0]),
        ensures
            match_len(self.nodes(), self.text@ + rest) == self.text@.len(),
            branch(self.nodes(), self.text@ + rest) == self.text@,
            host(self.nodes(), self.text@) == self.text@,
            is_host(self.nodes(), self.text@, self.text@),
    {
        let n = self.text@.len();
        let text = self.text@ + rest;
        lemma_prefix_concat(self.text@, rest, rest);
        self.lemma_at_self();
        self.lemma_host_own(self.text@);
        self.lemma_reaches_own(self.text@);
        assert(text.take(n as int) == self.text@);
        assert forall|j: nat| n < j <= text.len() implies !reaches(self.nodes(), #[trigger] text.take(j as int)) by {
            assert(text.take(j as int) =~= self.text@ + rest.take(j - n));
            self.lemma_reaches_no_child(rest.take(j - n));
        }
        lemma_longest_reached(self.nodes(), text, text.len(), n);
    }

    /// Where a text leaves the tree within the text of this node, the place is this node's.
    pub proof fn lemma_match_within(self, text: Seq<char>, k: int)
        requires
            0 < k < self.text@.len(),
            k <= text.len(),
            forall|j: int| 0 <= j < k ==> text[j] == self.text@[j],
            k < text.len() ==> text[k] != self.text@[k],
        ensures
            match_len(self.nodes(), text) == k,
            branch(self.nodes(), text) == self.text@.take(k),
            host(self.nodes(), text.take(k)) == self.text@,
            is_host(self.nodes(), text.take(k), self.text@),
            !self.nodes().contains_key(text.take(k)),
            text.take(k) == self.text@.take(k),
    {
        assert(text.take(k) =~= self.text@.take(k));
        lemma_prefix_take(self.text@, k);
        self.lemma_reaches_own(text.take(k));
        self.lemma_host_own(text.take(k));
        assert forall|j: nat| k < j <= text.len() implies !reaches(self.nodes(), #[trigger] text.take(j as int)) by {
            if reaches(self.nodes(), text.take(j as int)) {
                let p = choose|p: Seq<char>|
                    self.nodes().contains_key(p) && #[trigger] text.take(j as int).is_prefix_of(p);
                self.lemma_at_below(p);
                lemma_prefix_is_take(self.text@, p);
                lemma_prefix_is_take(text.take(j as int), p);
                assert(text.take(j as int)[k] == text[k]);
            }
        }
        lemma_longest_reached(self.nodes(), text, text.len(), k as nat);
        if self.nodes().contains_key(text.take(k)) {
            self.lemma_at_below(text.take(k));
        }
    }
}

/// A path has one host.
pub proof fn lemma_host_unique(nodes: Nodes, s: Seq<char>, h: Seq<char>)
    requires
        is_host(nodes, s, h),
    ensures
        host(nodes, s) == h,
{
    let g = host(nodes, s);
    assert(is_host(nodes, s, g));
    lemma_prefix_antisymmetric(g, h);
}

/// The greatest length at which a prefix is reached is one at which it is reached, with none beyond.
pub proof fn lemma_longest_reached(nodes: Nodes, text: Seq<char>, n: nat, k: nat)
    requires
        k <= n <= text.len(),
        k == 0 || reaches(nodes, text.take(k as int)),
        forall|j: nat| k < j <= n ==> !reaches(nodes, #[trigger] text.take(j as int)),
    ensures
        longest_reached(nodes, text, n) == k,
    decreases n,
{
    if n > k {
        assert(!reaches(nodes, text.take(n as int)));
        lemma_longest_reached(nodes, text, (n - 1) as nat, k);
    }
}

/// At the greatest length a prefix is reached, and at no length beyond.
pub proof fn lemma_longest_reached_bounds(nodes: Nodes, text: Seq<char>, n: nat)
    requires
        n <= text.len(),
    ensures
        longest_reached(nodes, text, n) <= n,
        longest_reached(nodes, text, n) > 0 ==> reaches(nodes, text.take(longest_reached(nodes, text, n) as int)),
        forall|j: nat|
            longest_reached(nodes, text, n) < j <= n ==> !reaches(nodes, #[trigger] text.take(j as int)),
    decreases n,
{
    if n > 0 && !reaches(nodes, text.take(n as int)) {
        lemma_longest_reached_bounds(nodes, text, (n - 1) as nat);
    }
}

} // verus!
