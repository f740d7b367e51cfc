//! Taking a tenant away from a node and from all nodes below it.

use vstd::prelude::*;

use crate::model::{forgotten, is_held};
use crate::node::{are_siblings, child_index, has_child, sum_sizes, Node};
use crate::prefix::lemma_prefix_split;

verus! {

/// Nodes of which a tenant holds nothing sum up to nothing.
pub proof fn lemma_sum_zero(children: Seq<Node>, tenant: Seq<char>)
    requires
        forall|i: int| 0 <= i < children.len() ==> (#[trigger] children[i]).size(tenant) == 0,
    ensures
        sum_sizes(children, tenant) == 0,
    decreases children.len(),
{
    if children.len() > 0 {
        assert forall|i: int| 0 <= i < children.drop_last().len() implies (#[trigger] children.drop_last()[i]).size(tenant)
            == 0 by {
            assert(children.drop_last()[i] == children[i]);
        }
        lemma_sum_zero(children.drop_last(), tenant);
        assert(children.last() == children[children.len() - 1]);
    }
}

/// Whether `after` is `before` without `tenant`.
spec fn is_without(before: Node, after: Node, tenant: Seq<char>) -> bool {
    &&& after.wf()
    &&& after.text@ == before.text@
    &&& after.owners@ == before.owners@.remove(tenant)
    &&& after.nodes() == forgotten(before.nodes(), before.text@, tenant)
    &&& after.size(tenant) == 0
    &&& forall|t: Seq<char>| t != tenant ==> (#[trigger] after.size(t)) == before.size(t)
}

/// Whether the nodes in `kept` are those of `children` from `n` on, in some order, without
/// `tenant` and without those that nobody else holds. `from` tells where each one comes from.
spec fn is_kept(children: Seq<Node>, n: int, kept: Seq<Node>, from: Seq<int>, tenant: Seq<char>) -> bool {
    &&& kept.len() == from.len()
    &&& forall|k: int|
        0 <= k < kept.len() ==> n <= #[trigger] from[k] < children.len() && is_without(children[from[k]], kept[k], tenant)
            && is_held(kept[k].owners@)
    &&& forall|k: int, l: int| 0 <= k < l < kept.len() ==> #[trigger] from[k] != #[trigger] from[l]
    &&& forall|j: int|
        n <= j < children.len() && is_held((#[trigger] children[j]).owners@.remove(tenant)) ==> from.contains(j)
}

impl Node {
    /// Who does not hold a node holds nothing below it.
    pub proof fn lemma_size_unheld(self, tenant: Seq<char>)
        requires
            self.wf(),
            !self.owners@.contains_key(tenant),
        ensures
            self.size(tenant) == 0,
        decreases self,
    {
        assert forall|i: int| 0 <= i < self.children@.len() implies (#[trigger] self.children@[i]).size(tenant) == 0 by {
            self.children@[i].lemma_size_unheld(tenant);
        }
        lemma_sum_zero(self.children@, tenant);
    }

    /// Who holds a node below holds this node.
    pub proof fn lemma_holds_above(self, path: Seq<char>, tenant: Seq<char>)
        requires
            self.wf(),
            self.nodes().contains_key(path),
            self.nodes()[path].contains_key(tenant),
        ensures
            self.owners@.contains_key(tenant),
        decreases self,
    {
        self.lemma_at_below(path);
        if path.len() > self.text@.len() {
            let rest = path.skip(self.text@.len() as int);
            let i = child_index(self.children@, rest[0]);
            self.lemma_at_child(i, rest);
            self.children@[i].lemma_holds_above(rest, tenant);
            assert(self.children@[i].owners@.contains_key(tenant));
        } else {
            assert(path =~= self.text@);
            self.lemma_at_self();
        }
    }

    /// With the tenant gone from this node and from the children that are kept, it is forgotten.
    proof fn lemma_forgotten(self, after: Node, from: Seq<int>, tenant: Seq<char>)
        requires
            self.wf(),
            after.text@ == self.text@,
            after.owners.wf(),
            after.owners@ == self.owners@.remove(tenant),
            is_kept(self.children@, 0, after.children@, from, tenant),
        ensures
            after.wf(),
            after.nodes() == forgotten(self.nodes(), self.text@, tenant),
    {
        let kids = self.children@;
        let kept = after.children@;
        assert(are_siblings(kept)) by {
            assert forall|k: int| 0 <= k < kept.len() implies (#[trigger] kept[k]).text@.len() > 0 by {
                assert(is_without(kids[from[k]], kept[k], tenant));
                assert(kids[from[k]].text@.len() > 0);
            }
            assert forall|k: int, l: int| 0 <= k < l < kept.len() implies (#[trigger] kept[k]).text@[0] != (
            #[trigger] kept[l]).text@[0] by {
                assert(is_without(kids[from[k]], kept[k], tenant));
                assert(is_without(kids[from[l]], kept[l], tenant));
                assert(from[k] != from[l]);
                assert(kids[from[k]].text@[0] != kids[from[l]].text@[0]);
            }
        }
        assert(after.wf()) by {
            assert forall|k: int| 0 <= k < kept.len() implies is_held((#[trigger] kept[k]).owners@) && kept[k].wf() by {
                assert(is_without(kids[from[k]], kept[k], tenant));
            }
            assert forall|k: int, t: Seq<char>|
                0 <= k < kept.len() && #[trigger] kept[k].owners@.contains_key(t) implies after.owners@.contains_key(t) by {
                assert(is_without(kids[from[k]], kept[k], tenant));
                assert(kids[from[k]].owners@.contains_key(t));
            }
        }
        let result = forgotten(self.nodes(), self.text@, tenant);
        assert forall|p: Seq<char>|
            (#[trigger] after.nodes().contains_key(p) <==> result.contains_key(p)) && (after.nodes().contains_key(p)
                ==> after.nodes()[p] == result[p]) by {
            self.lemma_forgotten_at(after, from, tenant, p);
        }
        assert(after.nodes() =~= result);
    }

    /// What is left of the node at `p`.
    proof fn lemma_forgotten_at(self, after: Node, from: Seq<int>, tenant: Seq<char>, p: Seq<char>)
        requires
            self.wf(),
            after.text@ == self.text@,
            after.owners@ == self.owners@.remove(tenant),
            is_kept(self.children@, 0, after.children@, from, tenant),
            are_siblings(after.children@),
        ensures
            after.nodes().contains_key(p) <==> forgotten(self.nodes(), self.text@, tenant).contains_key(p),
            after.nodes().contains_key(p) ==> after.nodes()[p] == forgotten(self.nodes(), self.text@, tenant)[p],
    {
        let kids = self.children@;
        let kept = after.children@;
        let result = forgotten(self.nodes(), self.text@, tenant);
        self.lemma_at_self();
        after.lemma_at_self();
        if p == self.text@ {
        } else if self.text@.is_prefix_of(p) {
            lemma_prefix_split(self.text@, p);
            let q = p.skip(self.text@.len() as int);
            if q.len() == 0 {
                assert(p =~= self.text@);
            }
            if has_child(kept, q[0]) {
                let k = child_index(kept, q[0]);
                let i = from[k];
                assert(is_without(kids[i], kept[k], tenant));
                assert(kids[i].text@.len() > 0);
                self.lemma_at_child(i, q);
                after.lemma_at_child(k, q);
                assert(kept[k].nodes() == forgotten(kids[i].nodes(), kids[i].text@, tenant));
                assert(after.nodes().contains_key(p) <==> kept[k].nodes().contains_key(q));
                assert(self.nodes().contains_key(p) <==> kids[i].nodes().contains_key(q));
                if q == kids[i].text@ {
                    kids[i].lemma_at_self();
                    assert(is_held(kids[i].owners@.remove(tenant)));
                }
                if after.nodes().contains_key(p) {
                    let inner = forgotten(kids[i].nodes(), kids[i].text@, tenant);
                    assert(inner.contains_key(q) && result.contains_key(p));
                    assert(self.nodes()[p] == kids[i].nodes()[q]);
                    assert(result[p] == inner[q]);
                    assert(after.nodes()[p] == kept[k].nodes()[q]);
                }
            } else {
                after.lemma_at_no_child(q);
                if has_child(kids, q[0]) {
                    let i = child_index(kids, q[0]);
                    self.lemma_at_child(i, q);
                    if is_held(kids[i].owners@.remove(tenant)) {
                        let k = from.index_of(i);
                        assert(from.contains(i));
                        assert(from[k] == i);
                        assert(is_without(kids[i], kept[k], tenant));
                        assert(kept[k].text@.len() > 0);
                        assert(false);
                    }
                    if self.nodes().contains_key(p) && is_held(self.nodes()[p].remove(tenant)) {
                        let t = choose|t: Seq<char>| self.nodes()[p].remove(tenant).contains_key(t);
                        kids[i].lemma_holds_above(q, t);
                        assert(kids[i].owners@.remove(tenant).contains_key(t));
                    }
                } else {
                    self.lemma_at_no_child(q);
                }
            }
        }
    }

    /// Takes `tenant` away from this node and from all nodes below it.
    pub fn forget_below(&mut self, tenant: &String)
        requires
            old(self).wf(),
        ensures
            final(self).wf(),
            final(self).text@ == old(self).text@,
            final(self).owners@ == old(self).owners@.remove(tenant@),
            final(self).nodes() == forgotten(old(self).nodes(), old(self).text@, tenant@),
            final(self).size(tenant@) == 0,
            forall|t: Seq<char>| t != tenant@ ==> (#[trigger] final(self).size(t)) == old(self).size(t),
        decreases *old(self),
    {
        self.owners.remove(tenant);
        let mut left: Vec<Node> = Vec::new();
        std::mem::swap(&mut self.children, &mut left);
        let mut kept: Vec<Node> = Vec::new();
        let ghost mut from: Seq<int> = Seq::empty();
        let ghost kids = old(self).children@;
        while left.len() > 0
            invariant
                old(self).wf(),
                kids == old(self).children@,
                left@ == kids.take(left@.len() as int),
                left@.len() <= kids.len(),
                is_kept(kids, left@.len() as int, kept@, from, tenant@),
                sum_sizes(kept@, tenant@) == 0,
                forall|t: Seq<char>|
                    t != tenant@ ==> #[trigger] sum_sizes(kept@, t) + sum_sizes(left@, t) == sum_sizes(kids, t),
            decreases left@.len(),
        {
            let ghost n = left@.len() as int;
            let ghost before_left = left@;
            let ghost before_kept = kept@;
            match left.pop() {
                None => {},
                Some(popped) => {
                    let mut child = popped;
                    let ghost before = child;
                    assert(before == kids[n - 1]);
                    assert(decreases_to!(*old(self) => old(self).children@));
                    child.forget_below(tenant);
                    let ghost after = child;
                    assert(is_without(before, after, tenant@));
                    assert(left@ =~= kids.take(n - 1));
                    assert(before_left.drop_last() =~= left@);
                    if !child.owners.is_empty() {
                        kept.push(child);
                        proof {
                            let old_from = from;
                            from = from.push(n - 1);
                            assert(kept@.drop_last() =~= before_kept);
                            assert forall|k: int| 0 <= k < kept@.len() implies n - 1 <= #[trigger] from[k] < kids.len()
                                && is_without(kids[from[k]], kept@[k], tenant@) && is_held(kept@[k].owners@) by {
                                if k < before_kept.len() {
                                    assert(from[k] == old_from[k]);
                                    assert(kept@[k] == before_kept[k]);
                                }
                            }
                            assert forall|j: int|
                                n - 1 <= j < kids.len() && is_held((#[trigger] kids[j]).owners@.remove(tenant@)) implies from.contains(
                                j,
                            ) by {
                                if j == n - 1 {
                                    assert(from[old_from.len() as int] == j);
                                } else {
                                    assert(old_from.contains(j));
                                    let k = old_from.index_of(j);
                                    assert(from[k] == j);
                                }
                            }
                            assert forall|k: int, l: int| 0 <= k < l < kept@.len() implies #[trigger] from[k]
                                != #[trigger] from[l] by {
                                assert(from[k] == old_from[k]);
                                if l < old_from.len() {
                                    assert(from[l] == old_from[l]);
                                }
                            }
                            assert forall|t: Seq<char>| t != tenant@ implies #[trigger] sum_sizes(kept@, t) + sum_sizes(
                                left@,
                                t,
                            ) == sum_sizes(kids, t) by {
                                assert(sum_sizes(before_kept, t) + sum_sizes(before_left, t) == sum_sizes(kids, t));
                                assert(kept@.last() == after);
                                assert(before_left.last() == before);
                                assert(after.size(t) == before.size(t));
                            }
                            assert(kept@.last() == after);
                        }
                    } else {
                        proof {
                            assert forall|t: Seq<char>| t != tenant@ implies #[trigger] sum_sizes(kept@, t) + sum_sizes(
                                left@,
                                t,
                            ) == sum_sizes(kids, t) by {
                                assert(sum_sizes(before_kept, t) + sum_sizes(before_left, t) == sum_sizes(kids, t));
                                assert(!after.owners@.contains_key(t));
                                after.lemma_size_unheld(t);
                            }
                        }
                    }
                },
            }
        }
        self.children = kept;
        proof {
            old(self).lemma_forgotten(*self, from, tenant@);
            assert forall|t: Seq<char>| t != tenant@ implies (#[trigger] self.size(t)) == old(self).size(t) by {
                assert(sum_sizes(left@, t) == 0);
                assert(sum_sizes(self.children@, t) + sum_sizes(left@, t) == sum_sizes(kids, t));
            }
        }
    }
}

} // verus!
