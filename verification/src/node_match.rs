//! Looking a text up below a node.

use vstd::prelude::*;

use crate::model::{branch, hit, is_held, is_host, is_latest, match_len, touched};
use crate::node::{are_siblings, child_index, has_child, Node};
use crate::node_insert::{lemma_sum_update, shared_len};
use crate::prefix::{
    lemma_prefix_antisymmetric, lemma_prefix_concat, lemma_prefix_is_take, lemma_prefix_nested, lemma_prefix_split,
};

verus! {

impl Node {
    /// A use of this node alone.
    proof fn lemma_touched_here(self, after: Node, tenant: Seq<char>, now: u64)
        requires
            after.text@ == self.text@,
            after.children == self.children,
            after.owners@ == self.owners@.insert(tenant, now),
        ensures
            after.nodes() == touched(self.nodes(), self.text@, tenant, now),
    {
        let text = self.text@;
        self.lemma_at_self();
        after.lemma_at_self();
        assert forall|p: Seq<char>| p != text implies #[trigger] after.at(p) == self.at(p) by {
            if text.is_prefix_of(p) && p.len() == text.len() {
                lemma_prefix_nested(p, text, p);
            }
        }
        assert forall|p: Seq<char>| self.nodes().contains_key(p) && #[trigger] p.is_prefix_of(text) implies p == text by {
            self.lemma_at_below(p);
            lemma_prefix_antisymmetric(p, text);
        }
        assert(after.nodes() =~= touched(self.nodes(), text, tenant, now));
    }

    /// A use of a node below a child is a use of this node too.
    proof fn lemma_touched_child(self, after: Node, i: int, path: Seq<char>, tenant: Seq<char>, now: u64)
        requires
            self.wf(),
            0 <= i < self.children@.len(),
            path.len() > 0,
            path[0] == self.children@[i].text@[0],
            after.text@ == self.text@,
            after.owners@ == self.owners@.insert(tenant, now),
            after.children@.len() == self.children@.len(),
            after.children@ == self.children@.update(i, after.children@[i]),
            after.children@[i].text@ == self.children@[i].text@,
            after.children@[i].nodes() == touched(self.children@[i].nodes(), path, tenant, now),
        ensures
            are_siblings(after.children@),
            after.nodes() == touched(self.nodes(), self.text@ + path, tenant, now),
    {
        assert forall|j: int| 0 <= j < self.children@.len() && j != i implies #[trigger] after.children@[j]
            == self.children@[j] by {}
        let result = touched(self.nodes(), self.text@ + path, tenant, now);
        assert forall|p: Seq<char>|
            (#[trigger] after.nodes().contains_key(p) <==> result.contains_key(p)) && (after.nodes().contains_key(p)
                ==> after.nodes()[p] == result[p]) by {
            self.lemma_touched_child_at(after, i, path, tenant, now, p);
        }
        assert(after.nodes() =~= result);
    }

    /// What a use below a child does to the node at `p`.
    proof fn lemma_touched_child_at(
        self,
        after: Node,
        i: int,
        path: Seq<char>,
        tenant: Seq<char>,
        now: u64,
        p: Seq<char>,
    )
        requires
            self.wf(),
            0 <= i < self.children@.len(),
            path.len() > 0,
            path[0] == self.children@[i].text@[0],
            after.text@ == self.text@,
            after.owners@ == self.owners@.insert(tenant, now),
            after.children@.len() == self.children@.len(),
            after.children@ == self.children@.update(i, after.children@[i]),
            after.children@[i].text@ == self.children@[i].text@,
            after.children@[i].nodes() == touched(self.children@[i].nodes(), path, tenant, now),
            are_siblings(after.children@),
        ensures
            after.nodes().contains_key(p) <==> touched(self.nodes(), self.text@ + path, tenant, now).contains_key(p),
            after.nodes().contains_key(p) ==> after.nodes()[p] == touched(
                self.nodes(),
                self.text@ + path,
                tenant,
                now,
            )[p],
    {
        let whole = self.text@ + path;
        let child = self.children@[i];
        let child_after = after.children@[i];
        self.lemma_at_self();
        after.lemma_at_self();
        lemma_prefix_concat(self.text@, path, path);
        if p == self.text@ {
            assert(self.text@.is_prefix_of(whole));
        } else if self.text@.is_prefix_of(p) {
            lemma_prefix_split(self.text@, p);
            let q = p.skip(self.text@.len() as int);
            if q.len() == 0 {
                assert(p =~= self.text@);
            }
            lemma_prefix_concat(self.text@, q, path);
            if q[0] == path[0] {
                self.lemma_at_child(i, q);
                after.lemma_at_child(i, q);
                assert(self.nodes().contains_key(p) <==> child.nodes().contains_key(q));
                assert(after.nodes().contains_key(p) <==> child_after.nodes().contains_key(q));
                if child.nodes().contains_key(q) {
                    let inner = touched(child.nodes(), path, tenant, now);
                    let outer = touched(self.nodes(), whole, tenant, now);
                    assert(self.nodes()[p] == child.nodes()[q]);
                    assert(inner.contains_key(q) && outer.contains_key(p));
                    assert(p == self.text@ + q);
                    assert(q.is_prefix_of(path) <==> p.is_prefix_of(whole));
                    assert(outer[p] == inner[q]);
                    assert(after.nodes()[p] == child_after.nodes()[q]);
                }
            } else {
                if q.is_prefix_of(path) {
                    lemma_prefix_is_take(q, path);
                }
                if has_child(self.children@, q[0]) {
                    let j = child_index(self.children@, q[0]);
                    assert(j != i);
                    assert(after.children@[j] == self.children@[j]);
                    self.lemma_at_child(j, q);
                    after.lemma_at_child(j, q);
                } else {
                    self.lemma_at_no_child(q);
                    if has_child(after.children@, q[0]) {
                        let j = child_index(after.children@, q[0]);
                        if j != i {
                            assert(after.children@[j] == self.children@[j]);
                        }
                        assert(false);
                    }
                    after.lemma_at_no_child(q);
                }
            }
        }
    }

    /// Records a use of this node by the holder that used it last.
    fn use_here(&mut self, now: u64) -> (tenant: Option<String>)
        requires
            old(self).wf(),
        ensures
            final(self).wf(),
            final(self).text@ == old(self).text@,
            tenant is None ==> !is_held(old(self).owners@) && *final(self) == *old(self),
            tenant matches Some(t) ==> is_latest(old(self).owners@, t@) && final(self).owners@ == old(self).owners@.insert(
                t@,
                now,
            ) && final(self).nodes() == touched(old(self).nodes(), old(self).text@, t@, now),
            forall|t: Seq<char>| (#[trigger] final(self).size(t)) == old(self).size(t),
    {
        match self.owners.latest() {
            None => None,
            Some(tenant) => {
                self.owners.set(&tenant, now);
                proof {
                    old(self).lemma_touched_here(*self, tenant@, now);
                    assert forall|t: Seq<char>| self.owners@.contains_key(t) <==> old(self).owners@.contains_key(t) by {}
                    assert(self.wf());
                }
                Some(tenant)
            },
        }
    }

    /// Looks up what is left of `text` from `from` on, at time `now`. Returns how many of these
    /// characters are cached, and the tenant that used the place where they end last, for which
    /// the lookup counts as a use.
    pub fn match_below(&mut self, text: &Vec<char>, from: usize, now: u64) -> (found: (usize, Option<String>))
        requires
            old(self).wf(),
            from <= text@.len(),
        ensures
            final(self).wf(),
            final(self).text@ == old(self).text@,
            found.0 <= text@.len() - from,
            match_len(old(self).nodes(), old(self).text@ + text@.skip(from as int)) == old(self).text@.len() + found.0,
            is_host(
                old(self).nodes(),
                branch(old(self).nodes(), old(self).text@ + text@.skip(from as int)),
                hit(old(self).nodes(), old(self).text@ + text@.skip(from as int)),
            ),
            found.1 is None ==> *final(self) == *old(self) && !is_held(old(self).owners@) && hit(
                old(self).nodes(),
                old(self).text@ + text@.skip(from as int),
            ) == old(self).text@,
            found.1 matches Some(t) ==> ({
                let path = hit(old(self).nodes(), old(self).text@ + text@.skip(from as int));
                &&& is_latest(old(self).nodes()[path], t@)
                &&& old(self).owners@.contains_key(t@)
                &&& final(self).owners@ == old(self).owners@.insert(t@, now)
                &&& final(self).nodes() == touched(old(self).nodes(), path, t@, now)
            }),
            forall|t: Seq<char>| (#[trigger] final(self).size(t)) == old(self).size(t),
        decreases text@.len() - from,
    {
        let ghost rest = text@.skip(from as int);
        proof {
            self.lemma_at_self();
        }
        if from == text.len() {
            proof {
                assert(rest =~= Seq::<char>::empty());
                self.lemma_match_here(rest);
            }
            return (0, self.use_here(now));
        }
        assert(rest[0] == text@[from as int]);
        match self.find_child(text[from]) {
            None => {
                proof {
                    self.lemma_match_here(rest);
                }
                (0, self.use_here(now))
            },
            Some(i) => {
                let ghost child = self.children@[i as int];
                assert(child.text@.len() > 0);
                let k = shared_len(&self.children[i].text, text, from);
                assert(k > 0);
                assert(forall|j: int| 0 <= j < k ==> rest[j] == child.text@[j]);
                proof {
                    self.lemma_match_child(i as int, rest);
                    child.lemma_at_self();
                }
                let found: (usize, Option<String>) = if k < self.children[i].text.len() {
                    proof {
                        child.lemma_match_within(rest, k as int);
                    }
                    (k, self.children[i].use_here(now))
                } else {
                    assert(rest =~= child.text@ + text@.skip(from + k));
                    let deeper = self.children[i].match_below(text, from + k, now);
                    (k + deeper.0, deeper.1)
                };
                let ghost b = branch(child.nodes(), rest);
                let ghost path = hit(child.nodes(), rest);
                proof {
                    assert(is_host(child.nodes(), b, path));
                    assert(b.len() > 0 && b[0] == rest[0]);
                    lemma_prefix_is_take(b, path);
                    old(self).lemma_host_child(i as int, b, path);
                    assert(is_held(child.owners@));
                }
                match &found.1 {
                    None => {
                        assert(false);
                    },
                    Some(tenant) => {
                        self.owners.set(tenant, now);
                        proof {
                            let grown = self.children@[i as int];
                            assert(self.children@ =~= old(self).children@.update(i as int, grown));
                            assert(child.owners@.contains_key(tenant@));
                            assert(old(self).owners@.contains_key(tenant@));
                            old(self).lemma_touched_child(*self, i as int, path, tenant@, now);
                            assert(grown.owners@.contains_key(tenant@));
                            old(self).lemma_wf_update(*self, i as int, grown);
                            assert forall|t: Seq<char>| (#[trigger] self.size(t)) == old(self).size(t) by {
                                lemma_sum_update(old(self).children@, i as int, grown, t);
                            }
                        }
                    },
                }
                found
            },
        }
    }
}

} // verus!
