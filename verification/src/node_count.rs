//! The size of a node is the number of texts cached in it.

use vstd::prelude::*;
use vstd::relations::injective_on;
use vstd::set_lib::{lemma_int_range, lemma_map_size, lemma_set_disjoint_lens, lemma_set_union_finite_iff, set_int_range};

use crate::model::{cached, is_common_prefix, is_held, lane, prefixes};
use crate::node::{child_index, sum_sizes, Node};
use crate::prefix::{
    lemma_prefix_concat, lemma_prefix_is_take, lemma_prefix_nested, lemma_prefix_split, lemma_prefix_take,
};

verus! {

/// A text has as many non-empty prefixes as it has characters.
pub proof fn lemma_prefixes(text: Seq<char>)
    ensures
        prefixes(text).finite(),
        prefixes(text).len() == text.len(),
{
    let lens = set_int_range(1, text.len() as int + 1);
    let f = |k: int| text.take(k);
    lemma_int_range(1, text.len() as int + 1);
    assert(injective_on(f, lens)) by {
        assert forall|k: int, l: int| lens.contains(k) && lens.contains(l) && #[trigger] f(k) == #[trigger] f(l) implies k
            == l by {
            assert(f(k).len() == k);
            assert(f(l).len() == l);
        }
    }
    assert(lens.map(f) =~= prefixes(text)) by {
        assert forall|s: Seq<char>| lens.map(f).contains(s) <==> prefixes(text).contains(s) by {
            if prefixes(text).contains(s) {
                lemma_prefix_is_take(s, text);
                assert(lens.contains(s.len() as int) && f(s.len() as int) == s);
            }
            if lens.map(f).contains(s) {
                let k = choose|k: int| lens.contains(k) && f(k) == s;
                lemma_prefix_take(text, k);
            }
        }
    }
    lemma_map_size(lens, prefixes(text), f);
}

/// The texts of `below`, each after `text`.
spec fn shifted(text: Seq<char>, below: Set<Seq<char>>) -> Set<Seq<char>> {
    below.map(|s: Seq<char>| text + s)
}

/// Putting a text before others keeps them apart.
proof fn lemma_shifted(text: Seq<char>, below: Set<Seq<char>>)
    requires
        below.finite(),
    ensures
        shifted(text, below).finite(),
        shifted(text, below).len() == below.len(),
        forall|s: Seq<char>| below.contains(s) <==> #[trigger] shifted(text, below).contains(text + s),
        forall|p: Seq<char>| #[trigger] shifted(text, below).contains(p) ==> p == text + p.skip(text.len() as int),
{
    let f = |s: Seq<char>| text + s;
    assert(injective_on(f, below)) by {
        assert forall|a: Seq<char>, b: Seq<char>|
            below.contains(a) && below.contains(b) && #[trigger] f(a) == #[trigger] f(b) implies a == b by {
            lemma_prefix_concat(text, a, a);
            lemma_prefix_concat(text, b, b);
        }
    }
    lemma_map_size(below, shifted(text, below), f);
    assert forall|s: Seq<char>| below.contains(s) <==> #[trigger] shifted(text, below).contains(text + s) by {
        if below.contains(s) {
            assert(f(s) == text + s);
        }
        if shifted(text, below).contains(text + s) {
            let a = choose|a: Seq<char>| below.contains(a) && f(a) == text + s;
            lemma_prefix_concat(text, a, a);
            lemma_prefix_concat(text, s, s);
        }
    }
    assert forall|p: Seq<char>| #[trigger] shifted(text, below).contains(p) implies p == text + p.skip(
        text.len() as int,
    ) by {
        let a = choose|a: Seq<char>| below.contains(a) && f(a) == p;
        lemma_prefix_concat(text, a, a);
    }
}

impl Node {
    /// What `tenant` has cached in this node and in the first `m` children.
    spec fn cached_upto(self, tenant: Seq<char>, m: int) -> Set<Seq<char>>
        decreases m,
    {
        if m <= 0 {
            if self.owners@.contains_key(tenant) {
                prefixes(self.text@)
            } else {
                Set::empty()
            }
        } else {
            self.cached_upto(tenant, m - 1) + shifted(self.text@, cached(lane(self.children@[m - 1].nodes(), tenant)))
        }
    }

    /// A text cached below a child starts as the child does.
    proof fn lemma_cached_start(self, tenant: Seq<char>, s: Seq<char>)
        requires
            self.text@.len() > 0,
            cached(lane(self.nodes(), tenant)).contains(s),
        ensures
            s.len() > 0,
            s[0] == self.text@[0],
    {
        let p = choose|p: Seq<char>| lane(self.nodes(), tenant).contains_key(p) && #[trigger] s.is_prefix_of(p);
        self.lemma_at_below(p);
        lemma_prefix_is_take(self.text@, p);
        lemma_prefix_is_take(s, p);
    }

    /// What is cached through the first children.
    proof fn lemma_cached_upto_contains(self, tenant: Seq<char>, m: int, s: Seq<char>)
        requires
            self.wf(),
            0 <= m <= self.children@.len(),
            forall|i: int| 0 <= i < m ==> cached(lane((#[trigger] self.children@[i]).nodes(), tenant)).finite(),
        ensures
            self.cached_upto(tenant, m).contains(s) <==> {
                ||| self.owners@.contains_key(tenant) && s.len() > 0 && s.is_prefix_of(self.text@)
                ||| exists|i: int| #![trigger self.children@[i]]
                    0 <= i < m && s == self.text@ + s.skip(self.text@.len() as int) && s.len() > self.text@.len() && cached(
                        lane(self.children@[i].nodes(), tenant),
                    ).contains(s.skip(self.text@.len() as int))
            },
        decreases m,
    {
        if m > 0 {
            self.lemma_cached_upto_contains(tenant, m - 1, s);
            let below = cached(lane(self.children@[m - 1].nodes(), tenant));
            lemma_shifted(self.text@, below);
            let r = s.skip(self.text@.len() as int);
            if shifted(self.text@, below).contains(s) {
                assert(s == self.text@ + r);
                assert(below.contains(r));
                assert(self.children@[m - 1].text@.len() > 0);
                self.children@[m - 1].lemma_cached_start(tenant, r);
                assert(s.len() > self.text@.len());
            }
            assert(self.cached_upto(tenant, m).contains(s) <==> self.cached_upto(tenant, m - 1).contains(s) || shifted(
                self.text@,
                below,
            ).contains(s));
        }
    }

    /// How much is cached through the first children.
    proof fn lemma_cached_upto_len(self, tenant: Seq<char>, m: int)
        requires
            self.wf(),
            0 <= m <= self.children@.len(),
            forall|i: int|
                0 <= i < m ==> cached(lane((#[trigger] self.children@[i]).nodes(), tenant)).finite() && cached(
                    lane(self.children@[i].nodes(), tenant),
                ).len() == self.children@[i].size(tenant),
        ensures
            self.cached_upto(tenant, m).finite(),
            self.cached_upto(tenant, m).len() == (if self.owners@.contains_key(tenant) {
                self.text@.len()
            } else {
                0
            }) + sum_sizes(self.children@.take(m), tenant),
        decreases m,
    {
        lemma_prefixes(self.text@);
        if m > 0 {
            self.lemma_cached_upto_len(tenant, m - 1);
            let child = self.children@[m - 1];
            let below = cached(lane(child.nodes(), tenant));
            let left = self.cached_upto(tenant, m - 1);
            let right = shifted(self.text@, below);
            lemma_shifted(self.text@, below);
            assert(left.disjoint(right)) by {
                assert forall|s: Seq<char>| !(left.contains(s) && right.contains(s)) by {
                    if left.contains(s) && right.contains(s) {
                        self.lemma_cached_upto_contains(tenant, m - 1, s);
                        let r = s.skip(self.text@.len() as int);
                        assert(below.contains(r));
                        assert(child.text@.len() > 0);
                        child.lemma_cached_start(tenant, r);
                        assert(s.len() > self.text@.len());
                        let i = choose|i: int| #![trigger self.children@[i]]
                            0 <= i < m - 1 && s == self.text@ + s.skip(self.text@.len() as int) && s.len()
                                > self.text@.len() && cached(lane(self.children@[i].nodes(), tenant)).contains(
                                s.skip(self.text@.len() as int),
                            );
                        assert(self.children@[i].text@.len() > 0);
                        self.children@[i].lemma_cached_start(tenant, r);
                        assert(self.children@[i].text@[0] != child.text@[0]);
                    }
                }
            }
            lemma_set_disjoint_lens(left, right);
            lemma_set_union_finite_iff(left, right);
            assert(left + right == left.union(right));
            assert(self.children@.take(m).drop_last() =~= self.children@.take(m - 1));
            assert(self.children@.take(m).last() == child);
        } else {
            assert(self.children@.take(0) =~= Seq::<Node>::empty());
        }
    }

    /// The size of a node for a tenant is the number of texts that the tenant has cached in it.
    pub proof fn lemma_size_is_cached(self, tenant: Seq<char>)
        requires
            self.wf(),
        ensures
            cached(lane(self.nodes(), tenant)).finite(),
            cached(lane(self.nodes(), tenant)).len() == self.size(tenant),
        decreases self,
    {
        let n = self.children@.len() as int;
        assert forall|i: int| 0 <= i < n implies cached(lane((#[trigger] self.children@[i]).nodes(), tenant)).finite()
            && cached(lane(self.children@[i].nodes(), tenant)).len() == self.children@[i].size(tenant) by {
            self.children@[i].lemma_size_is_cached(tenant);
        }
        self.lemma_cached_upto_len(tenant, n);
        assert(self.children@.take(n) =~= self.children@);
        let l = lane(self.nodes(), tenant);
        assert forall|s: Seq<char>| cached(l).contains(s) <==> #[trigger] self.cached_upto(tenant, n).contains(s) by {
            self.lemma_cached_upto_contains(tenant, n, s);
            let r = s.skip(self.text@.len() as int);
            if cached(l).contains(s) {
                let p = choose|p: Seq<char>| l.contains_key(p) && #[trigger] s.is_prefix_of(p);
                self.lemma_at_below(p);
                if s.len() <= self.text@.len() {
                    lemma_prefix_nested(s, self.text@, p);
                    self.lemma_holds_above(p, tenant);
                } else {
                    lemma_prefix_nested(self.text@, s, p);
                    lemma_prefix_split(self.text@, s);
                    let q = p.skip(self.text@.len() as int);
                    lemma_prefix_concat(self.text@, r, q);
                    let i = child_index(self.children@, q[0]);
                    self.lemma_at_child(i, q);
                    assert(lane(self.children@[i].nodes(), tenant).contains_key(q));
                    assert(r.is_prefix_of(q));
                    assert(cached(lane(self.children@[i].nodes(), tenant)).contains(r));
                }
            }
            if self.cached_upto(tenant, n).contains(s) {
                if self.owners@.contains_key(tenant) && s.len() > 0 && s.is_prefix_of(self.text@) {
                    self.lemma_at_self();
                    assert(l.contains_key(self.text@));
                } else {
                    let i = choose|i: int| #![trigger self.children@[i]]
                        0 <= i < n && s == self.text@ + s.skip(self.text@.len() as int) && s.len() > self.text@.len()
                            && cached(lane(self.children@[i].nodes(), tenant)).contains(s.skip(self.text@.len() as int));
                    let child = self.children@[i];
                    assert(child.text@.len() > 0);
                    let q = choose|q: Seq<char>| lane(child.nodes(), tenant).contains_key(q) && #[trigger] r.is_prefix_of(q);
                    child.lemma_at_below(q);
                    lemma_prefix_is_take(child.text@, q);
                    self.lemma_at_child(i, q);
                    assert(l.contains_key(self.text@ + q));
                    lemma_prefix_concat(self.text@, r, q);
                    assert(s.is_prefix_of(self.text@ + q));
                }
            }
        }
        assert(cached(l) =~= self.cached_upto(tenant, n));
    }

    /// Two paths below this node part at a node.
    pub proof fn lemma_common_prefix(self, p: Seq<char>, q: Seq<char>, c: Seq<char>)
        requires
            self.wf(),
            self.nodes().contains_key(p),
            self.nodes().contains_key(q),
            is_common_prefix(p, q, c),
        ensures
            self.nodes().contains_key(c),
        decreases self,
    {
        let text = self.text@;
        self.lemma_at_below(p);
        self.lemma_at_below(q);
        self.lemma_at_self();
        assert(text.is_prefix_of(c));
        lemma_prefix_split(text, c);
        let p1 = p.skip(text.len() as int);
        let q1 = q.skip(text.len() as int);
        let c1 = c.skip(text.len() as int);
        lemma_prefix_concat(text, c1, p1);
        lemma_prefix_concat(text, c1, q1);
        if c1.len() == 0 {
            assert(c =~= text);
        } else {
            lemma_prefix_is_take(c1, p1);
            lemma_prefix_is_take(c1, q1);
            let i = child_index(self.children@, c1[0]);
            self.lemma_at_child(i, p1);
            self.lemma_at_child(i, q1);
            assert(is_common_prefix(p1, q1, c1)) by {
                assert forall|d: Seq<char>| d.is_prefix_of(p1) && #[trigger] d.is_prefix_of(q1) implies d.is_prefix_of(
                    c1,
                ) by {
                    lemma_prefix_concat(text, d, p1);
                    lemma_prefix_concat(text, d, q1);
                    assert((text + d).is_prefix_of(c));
                    lemma_prefix_concat(text, d, c1);
                }
            }
            self.children@[i].lemma_common_prefix(p1, q1, c1);
            self.lemma_at_child(i, c1);
        }
    }

    /// Who holds a node holds the nodes on the way to it.
    pub proof fn lemma_holds_upwards(self, p: Seq<char>, q: Seq<char>, tenant: Seq<char>)
        requires
            self.wf(),
            self.nodes().contains_key(p),
            self.nodes().contains_key(q),
            p.is_prefix_of(q),
            self.nodes()[q].contains_key(tenant),
        ensures
            self.nodes()[p].contains_key(tenant),
        decreases self,
    {
        let text = self.text@;
        self.lemma_at_below(p);
        self.lemma_at_below(q);
        self.lemma_at_self();
        let p1 = p.skip(text.len() as int);
        let q1 = q.skip(text.len() as int);
        lemma_prefix_concat(text, p1, q1);
        if p1.len() == 0 {
            assert(p =~= text);
            self.lemma_holds_above(q, tenant);
        } else {
            lemma_prefix_is_take(p1, q1);
            let i = child_index(self.children@, p1[0]);
            self.lemma_at_child(i, p1);
            self.lemma_at_child(i, q1);
            self.children@[i].lemma_holds_upwards(p1, q1, tenant);
        }
    }

    /// Every node below this one is held.
    pub proof fn lemma_held(self, p: Seq<char>)
        requires
            self.wf(),
            self.nodes().contains_key(p),
            p != self.text@ || is_held(self.owners@),
        ensures
            is_held(self.nodes()[p]),
        decreases self,
    {
        self.lemma_at_below(p);
        self.lemma_at_self();
        let q = p.skip(self.text@.len() as int);
        if q.len() == 0 {
            assert(p =~= self.text@);
        } else {
            let i = child_index(self.children@, q[0]);
            self.lemma_at_child(i, q);
            assert(is_held(self.children@[i].owners@));
            self.children@[i].lemma_held(q);
        }
    }
}

} // verus!
