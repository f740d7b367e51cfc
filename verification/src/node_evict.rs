//! Finding and releasing the leaf that a tenant has not used for the longest time.

use vstd::prelude::*;

use crate::model::{capped, is_held, is_leaf, is_oldest_leaf, lane, released};
use crate::node::{are_siblings, child_index, has_child, sum_sizes, Node};
use crate::node_insert::lemma_sum_update;
use crate::prefix::{
    lemma_prefix_concat, lemma_prefix_is_take, lemma_prefix_nested, lemma_prefix_split,
};

verus! {

/// Without one of the nodes, the sum is less by the size of that node.
pub proof fn lemma_sum_remove(children: Seq<Node>, i: int, tenant: Seq<char>)
    requires
        0 <= i < children.len(),
    ensures
        sum_sizes(children.remove(i), tenant) == sum_sizes(children, tenant) - children[i].size(tenant),
        sum_sizes(children, tenant) >= children[i].size(tenant),
    decreases children.len(),
{
    if i == children.len() - 1 {
        assert(children.remove(i) =~= children.drop_last());
    } else {
        assert(children.remove(i).drop_last() =~= children.drop_last().remove(i));
        assert(children.remove(i).last() == children.last());
        lemma_sum_remove(children.drop_last(), i, tenant);
    }
}

impl Node {
    /// How many characters `tenant` holds from this node down.
    pub fn count_chars(&self, tenant: &String) -> (count: usize)
        requires
            self.wf(),
        ensures
            count == capped(self.size(tenant@)),
        decreases self,
    {
        let mut count: usize = match self.owners.stamp_of(tenant) {
            Some(_) => self.text.len(),
            None => 0,
        };
        let ghost own: nat = count as nat;
        let mut i: usize = 0;
        assert(self.children@.take(0) =~= Seq::<Node>::empty());
        while i < self.children.len()
            invariant
                self.wf(),
                i <= self.children@.len(),
                count == capped(own + sum_sizes(self.children@.take(i as int), tenant@)),
            decreases self.children@.len() - i,
        {
            let more = self.children[i].count_chars(tenant);
            proof {
                let next = self.children@.take(i + 1);
                assert(next.drop_last() =~= self.children@.take(i as int));
                assert(next.last() == self.children@[i as int]);
            }
            count = count.saturating_add(more);
            i += 1;
        }
        assert(self.children@.take(i as int) =~= self.children@);
        count
    }

    /// A child's lane is the part of this node's lane below it.
    proof fn lemma_lane_child(self, i: int, q: Seq<char>, tenant: Seq<char>)
        requires
            self.wf(),
            0 <= i < self.children@.len(),
            q.len() > 0,
            q[0] == self.children@[i].text@[0],
        ensures
            lane(self.nodes(), tenant).contains_key(self.text@ + q) <==> lane(self.children@[i].nodes(), tenant).contains_key(
                q,
            ),
            lane(self.children@[i].nodes(), tenant).contains_key(q) ==> lane(self.nodes(), tenant)[self.text@ + q] == lane(
                self.children@[i].nodes(),
                tenant,
            )[q],
    {
        self.lemma_at_child(i, q);
    }

    /// Every entry of a child's lane starts as the child does.
    proof fn lemma_lane_start(self, q: Seq<char>, tenant: Seq<char>)
        requires
            self.text@.len() > 0,
            lane(self.nodes(), tenant).contains_key(q),
        ensures
            q.len() > 0,
            q[0] == self.text@[0],
            self.text@.is_prefix_of(q),
    {
        self.lemma_at_below(q);
        lemma_prefix_is_take(self.text@, q);
    }

    /// The leaves of a child are leaves of this node.
    proof fn lemma_leaf_child(self, i: int, q: Seq<char>, tenant: Seq<char>)
        requires
            self.wf(),
            0 <= i < self.children@.len(),
            q.len() > 0,
            q[0] == self.children@[i].text@[0],
        ensures
            is_leaf(lane(self.nodes(), tenant), self.text@ + q) <==> is_leaf(lane(self.children@[i].nodes(), tenant), q),
    {
        let outer = lane(self.nodes(), tenant);
        let inner = lane(self.children@[i].nodes(), tenant);
        self.lemma_lane_child(i, q, tenant);
        if is_leaf(inner, q) {
            assert forall|p: Seq<char>| outer.contains_key(p) && #[trigger] (self.text@ + q).is_prefix_of(p) implies p
                == self.text@ + q by {
                self.lemma_at_below(p);
                let r = p.skip(self.text@.len() as int);
                lemma_prefix_concat(self.text@, q, r);
                lemma_prefix_is_take(q, r);
                self.lemma_lane_child(i, r, tenant);
                assert(q.is_prefix_of(r));
            }
        }
        if is_leaf(outer, self.text@ + q) {
            assert forall|r: Seq<char>| inner.contains_key(r) && #[trigger] q.is_prefix_of(r) implies r == q by {
                lemma_prefix_is_take(q, r);
                self.lemma_lane_child(i, r, tenant);
                lemma_prefix_concat(self.text@, q, r);
                assert((self.text@ + q).is_prefix_of(self.text@ + r));
                assert(self.text@ + r == self.text@ + q);
                lemma_prefix_concat(self.text@, q, q);
            }
        }
    }

    /// A leaf of this node is this node itself, where nothing below is held, or a leaf of a child.
    proof fn lemma_leaf_cases(self, p: Seq<char>, tenant: Seq<char>)
        requires
            self.wf(),
            is_leaf(lane(self.nodes(), tenant), p),
        ensures
            p == self.text@ ==> forall|j: int|
                0 <= j < self.children@.len() ==> !(#[trigger] self.children@[j]).owners@.contains_key(tenant),
            p != self.text@ ==> ({
                let q = p.skip(self.text@.len() as int);
                let i = child_index(self.children@, q[0]);
                &&& q.len() > 0
                &&& p == self.text@ + q
                &&& 0 <= i < self.children@.len()
                &&& q[0] == self.children@[i].text@[0]
                &&& is_leaf(lane(self.children@[i].nodes(), tenant), q)
                &&& lane(self.nodes(), tenant)[p] == lane(self.children@[i].nodes(), tenant)[q]
            }),
    {
        let l = lane(self.nodes(), tenant);
        self.lemma_at_below(p);
        if p == self.text@ {
            assert forall|j: int| 0 <= j < self.children@.len() implies !(#[trigger] self.children@[j]).owners@.contains_key(
                tenant,
            ) by {
                let child = self.children@[j];
                assert(child.text@.len() > 0);
                child.lemma_at_self();
                self.lemma_lane_child(j, child.text@, tenant);
                lemma_prefix_concat(self.text@, child.text@, child.text@);
                if child.owners@.contains_key(tenant) {
                    assert(l.contains_key(self.text@ + child.text@));
                    assert(self.text@.is_prefix_of(self.text@ + child.text@));
                    assert((self.text@ + child.text@).len() == self.text@.len());
                }
            }
        } else {
            let q = p.skip(self.text@.len() as int);
            if q.len() == 0 {
                assert(p =~= self.text@);
            }
            let i = child_index(self.children@, q[0]);
            self.lemma_leaf_child(i, q, tenant);
            self.lemma_lane_child(i, q, tenant);
        }
    }

    /// Who holds a child has a leaf in it or below it.
    proof fn lemma_own_leaf(self, tenant: Seq<char>)
        requires
            self.wf(),
            self.text@.len() > 0,
            self.owners@.contains_key(tenant),
            forall|j: int| 0 <= j < self.children@.len() ==> !(#[trigger] self.children@[j]).owners@.contains_key(tenant),
        ensures
            is_oldest_leaf(lane(self.nodes(), tenant), self.text@),
            lane(self.nodes(), tenant)[self.text@] == self.owners@[tenant],
            forall|p: Seq<char>| lane(self.nodes(), tenant).contains_key(p) ==> p == self.text@,
    {
        let l = lane(self.nodes(), tenant);
        self.lemma_at_self();
        assert forall|p: Seq<char>| l.contains_key(p) implies p == self.text@ by {
            self.lemma_at_below(p);
            if p.len() > self.text@.len() {
                let q = p.skip(self.text@.len() as int);
                let i = child_index(self.children@, q[0]);
                self.lemma_at_child(i, q);
                self.children@[i].lemma_holds_above(q, tenant);
                assert(self.children@[i].owners@.contains_key(tenant));
            } else {
                assert(p =~= self.text@);
            }
        }
    }

    /// When `tenant` last used the leaf that it has not used for the longest time.
    fn oldest_stamp(&self, tenant: &String) -> (stamp: Option<u64>)
        requires
            self.wf(),
            self.text@.len() > 0,
        ensures
            stamp is None <==> !self.owners@.contains_key(tenant@),
            stamp matches Some(s) ==> exists|p: Seq<char>|
                #[trigger] is_oldest_leaf(lane(self.nodes(), tenant@), p) && lane(self.nodes(), tenant@)[p] == s,
        decreases self, 0int,
    {
        match self.owners.stamp_of(tenant) {
            None => None,
            Some(own) => {
                match self.oldest_child(tenant) {
                    None => {
                        proof {
                            self.lemma_own_leaf(tenant@);
                        }
                        Some(own)
                    },
                    Some((i, s)) => {
                        proof {
                            let child = self.children@[i as int];
                            let q = choose|q: Seq<char>|
                                #[trigger] is_oldest_leaf(lane(child.nodes(), tenant@), q) && lane(child.nodes(), tenant@)[q]
                                    == s;
                            self.lemma_oldest_in_child(i as int, q, s, tenant@);
                        }
                        Some(s)
                    },
                }
            },
        }
    }

    /// Whether `s` is a lower bound for when `tenant` last used the leaves below this node.
    pub open spec fn is_bound(self, n: int, tenant: Seq<char>, s: u64) -> bool {
        forall|j: int, q: Seq<char>|
            0 <= j < n && #[trigger] is_leaf(lane(self.children@[j].nodes(), tenant), q) ==> s <= lane(
                self.children@[j].nodes(),
                tenant,
            )[q]
    }

    /// The oldest leaf of a child that no other child undercuts is the oldest leaf of this node.
    proof fn lemma_oldest_in_child(self, i: int, q: Seq<char>, s: u64, tenant: Seq<char>)
        requires
            self.wf(),
            0 <= i < self.children@.len(),
            is_leaf(lane(self.children@[i].nodes(), tenant), q),
            lane(self.children@[i].nodes(), tenant)[q] == s,
            self.is_bound(self.children@.len() as int, tenant, s),
        ensures
            is_oldest_leaf(lane(self.nodes(), tenant), self.text@ + q),
            lane(self.nodes(), tenant)[self.text@ + q] == s,
    {
        let child = self.children@[i];
        assert(child.text@.len() > 0);
        child.lemma_lane_start(q, tenant);
        self.lemma_leaf_child(i, q, tenant);
        self.lemma_lane_child(i, q, tenant);
        child.lemma_holds_above(q, tenant);
        assert(child.owners@.contains_key(tenant));
        assert forall|p: Seq<char>| #[trigger] is_leaf(lane(self.nodes(), tenant), p) implies s <= lane(
            self.nodes(),
            tenant,
        )[p] by {
            self.lemma_leaf_cases(p, tenant);
        }
    }

    /// The child with the leaf that `tenant` has not used for the longest time, and when that was.
    fn oldest_child(&self, tenant: &String) -> (found: Option<(usize, u64)>)
        requires
            self.wf(),
        ensures
            found is None ==> forall|j: int|
                0 <= j < self.children@.len() ==> !(#[trigger] self.children@[j]).owners@.contains_key(tenant@),
            found matches Some((i, s)) ==> {
                &&& i < self.children@.len()
                &&& self.children@[i as int].owners@.contains_key(tenant@)
                &&& exists|q: Seq<char>|
                    #[trigger] is_oldest_leaf(lane(self.children@[i as int].nodes(), tenant@), q) && lane(
                        self.children@[i as int].nodes(),
                        tenant@,
                    )[q] == s
                &&& self.is_bound(self.children@.len() as int, tenant@, s)
            },
        decreases self.children@, 1int,
    {
        let mut found: Option<(usize, u64)> = None;
        let mut n: usize = 0;
        while n < self.children.len()
            invariant
                self.wf(),
                n <= self.children@.len(),
                found is None ==> forall|j: int|
                    0 <= j < n ==> !(#[trigger] self.children@[j]).owners@.contains_key(tenant@),
                found matches Some((i, s)) ==> {
                    &&& i < n
                    &&& self.children@[i as int].owners@.contains_key(tenant@)
                    &&& exists|q: Seq<char>|
                        #[trigger] is_oldest_leaf(lane(self.children@[i as int].nodes(), tenant@), q) && lane(
                            self.children@[i as int].nodes(),
                            tenant@,
                        )[q] == s
                    &&& self.is_bound(n as int, tenant@, s)
                },
            decreases self.children@.len() - n,
        {
            let ghost child = self.children@[n as int];
            let ghost before = found;
            assert(child.text@.len() > 0);
            match self.children[n].oldest_stamp(tenant) {
                None => {
                    proof {
                        assert forall|q: Seq<char>| !(#[trigger] is_leaf(lane(child.nodes(), tenant@), q)) by {
                            if is_leaf(lane(child.nodes(), tenant@), q) {
                                child.lemma_holds_above(q, tenant@);
                            }
                        }
                        if let Some((i, s)) = found {
                            assert(self.is_bound(n + 1, tenant@, s));
                        }
                    }
                },
                Some(s) => {
                    let better = match found {
                        None => true,
                        Some((_, best)) => s < best,
                    };
                    if better {
                        proof {
                            if found is None {
                                assert forall|j: int, q: Seq<char>| 0 <= j < n implies !(#[trigger] is_leaf(
                                    lane(self.children@[j].nodes(), tenant@),
                                    q,
                                )) by {
                                    if is_leaf(lane(self.children@[j].nodes(), tenant@), q) {
                                        self.children@[j].lemma_holds_above(q, tenant@);
                                    }
                                }
                            }
                        }
                        found = Some((n, s));
                    }
                    proof {
                        let best = (found->0).1;
                        assert forall|j: int, q: Seq<char>|
                            0 <= j < n + 1 && #[trigger] is_leaf(lane(self.children@[j].nodes(), tenant@), q) implies best
                            <= lane(self.children@[j].nodes(), tenant@)[q] by {
                            if j < n {
                                if before is Some {
                                    assert((before->0).1 <= lane(self.children@[j].nodes(), tenant@)[q]);
                                }
                            } else {
                                assert(s <= lane(child.nodes(), tenant@)[q]);
                            }
                        }
                        assert(self.is_bound(n + 1, tenant@, best));
                    }
                },
            }
            n += 1;
            assert(found matches Some((i, s)) ==> self.is_bound(n as int, tenant@, s));
        }
        found
    }

    /// Releasing a node below a child, or the child itself where someone else still holds it.
    proof fn lemma_released_child(self, after: Node, i: int, q: Seq<char>, tenant: Seq<char>)
        requires
            self.wf(),
            0 <= i < self.children@.len(),
            self.children@[i].nodes().contains_key(q),
            after.text@ == self.text@,
            after.owners@ == self.owners@,
            after.children@.len() == self.children@.len(),
            after.children@ == self.children@.update(i, after.children@[i]),
            after.children@[i].text@ == self.children@[i].text@,
            after.children@[i].nodes() == released(self.children@[i].nodes(), q, tenant),
        ensures
            are_siblings(after.children@),
            after.nodes() == released(self.nodes(), self.text@ + q, tenant),
    {
        let child = self.children@[i];
        let child_after = after.children@[i];
        assert(child.text@.len() > 0);
        child.lemma_at_below(q);
        lemma_prefix_is_take(child.text@, q);
        assert(q[0] == child.text@[0]);
        assert forall|j: int| 0 <= j < self.children@.len() && j != i implies #[trigger] after.children@[j]
            == self.children@[j] by {}
        self.lemma_at_child(i, q);
        self.lemma_at_self();
        after.lemma_at_self();
        let result = released(self.nodes(), self.text@ + q, tenant);
        let inner = released(child.nodes(), q, tenant);
        assert forall|p: Seq<char>|
            (#[trigger] after.nodes().contains_key(p) <==> result.contains_key(p)) && (after.nodes().contains_key(p)
                ==> after.nodes()[p] == result[p]) by {
            if self.text@.is_prefix_of(p) && p != self.text@ {
                lemma_prefix_split(self.text@, p);
                let r = p.skip(self.text@.len() as int);
                if r.len() == 0 {
                    assert(p =~= self.text@);
                }
                lemma_prefix_concat(self.text@, r, r);
                lemma_prefix_concat(self.text@, q, q);
                assert(p == self.text@ + q ==> r == q);
                if r[0] == q[0] {
                    self.lemma_at_child(i, r);
                    after.lemma_at_child(i, r);
                    assert(self.nodes().contains_key(p) <==> child.nodes().contains_key(r));
                    assert(after.nodes().contains_key(p) <==> child_after.nodes().contains_key(r));
                    assert(result.contains_key(p) <==> inner.contains_key(r));
                    if inner.contains_key(r) {
                        assert(after.nodes()[p] == child_after.nodes()[r]);
                        assert(result[p] == inner[r]);
                    }
                } else {
                    if has_child(self.children@, r[0]) {
                        let j = child_index(self.children@, r[0]);
                        assert(j != i);
                        assert(after.children@[j] == self.children@[j]);
                        self.lemma_at_child(j, r);
                        after.lemma_at_child(j, r);
                    } else {
                        self.lemma_at_no_child(r);
                        if has_child(after.children@, r[0]) {
                            let j = child_index(after.children@, r[0]);
                            if j != i {
                                assert(after.children@[j] == self.children@[j]);
                            }
                            assert(false);
                        }
                        after.lemma_at_no_child(r);
                    }
                }
            } else if p == self.text@ {
                assert((self.text@ + q).len() > p.len());
            } else {
                lemma_prefix_concat(self.text@, q, q);
            }
        }
        assert(after.nodes() =~= result);
    }

    /// Releasing a child that has no children and that nobody else holds.
    proof fn lemma_released_gone(self, after: Node, i: int, tenant: Seq<char>)
        requires
            self.wf(),
            0 <= i < self.children@.len(),
            self.children@[i].children@.len() == 0,
            !is_held(self.children@[i].owners@.remove(tenant)),
            after.text@ == self.text@,
            after.owners@ == self.owners@,
            after.children@ == self.children@.remove(i),
        ensures
            are_siblings(after.children@),
            after.nodes() == released(self.nodes(), self.text@ + self.children@[i].text@, tenant),
    {
        let child = self.children@[i];
        assert(child.text@.len() > 0);
        let gone = self.text@ + child.text@;
        child.lemma_at_self();
        self.lemma_at_child(i, child.text@);
        self.lemma_at_self();
        after.lemma_at_self();
        assert forall|j: int| 0 <= j < after.children@.len() implies #[trigger] after.children@[j] == self.children@[if j < i {
            j
        } else {
            j + 1
        }] by {}
        assert(are_siblings(after.children@)) by {
            assert forall|j: int, k: int| 0 <= j < k < after.children@.len() implies (#[trigger] after.children@[j]).text@[0]
                != (#[trigger] after.children@[k]).text@[0] by {
                let j0 = if j < i { j } else { j + 1 };
                let k0 = if k < i { k } else { k + 1 };
                assert(self.children@[j0].text@[0] != self.children@[k0].text@[0]);
            }
        }
        let result = released(self.nodes(), gone, tenant);
        assert forall|p: Seq<char>|
            (#[trigger] after.nodes().contains_key(p) <==> result.contains_key(p)) && (after.nodes().contains_key(p)
                ==> after.nodes()[p] == result[p]) by {
            if self.text@.is_prefix_of(p) && p != self.text@ {
                lemma_prefix_split(self.text@, p);
                let r = p.skip(self.text@.len() as int);
                if r.len() == 0 {
                    assert(p =~= self.text@);
                }
                if has_child(after.children@, r[0]) {
                    let j = child_index(after.children@, r[0]);
                    let j0 = if j < i { j } else { j + 1 };
                    assert(after.children@[j] == self.children@[j0]);
                    self.lemma_at_child(j0, r);
                    after.lemma_at_child(j, r);
                    assert(self.children@[j0].text@[0] != child.text@[0]);
                    lemma_prefix_concat(self.text@, child.text@, child.text@);
                    assert(p != gone);
                } else {
                    after.lemma_at_no_child(r);
                    if has_child(self.children@, r[0]) {
                        let j0 = child_index(self.children@, r[0]);
                        if j0 != i {
                            let j = if j0 < i { j0 } else { j0 - 1 };
                            assert(after.children@[j] == self.children@[j0]);
                            assert(false);
                        }
                        self.lemma_at_child(i, r);
                        if child.at(r) is Some {
                            child.lemma_at_below(r);
                            assert(r =~= child.text@);
                        }
                    } else {
                        self.lemma_at_no_child(r);
                    }
                }
            } else if p == self.text@ {
                assert(gone.len() > p.len());
            } else {
                lemma_prefix_concat(self.text@, child.text@, child.text@);
            }
        }
        assert(after.nodes() =~= result);
    }

    /// Takes `tenant` away from the leaf below this node that it has not used for the longest time.
    /// Where `tenant` holds nothing below this node, nothing happens and the result is false.
    pub fn release_oldest(&mut self, tenant: &String) -> (released_one: bool)
        requires
            old(self).wf(),
        ensures
            final(self).wf(),
            final(self).text@ == old(self).text@,
            final(self).owners@ == old(self).owners@,
            !released_one ==> *final(self) == *old(self) && forall|j: int|
                0 <= j < old(self).children@.len() ==> !(#[trigger] old(self).children@[j]).owners@.contains_key(tenant@),
            released_one ==> exists|p: Seq<char>|
                #[trigger] is_oldest_leaf(lane(old(self).nodes(), tenant@), p) && p != old(self).text@
                    && final(self).nodes() == released(old(self).nodes(), p, tenant@),
            released_one ==> final(self).size(tenant@) < old(self).size(tenant@),
            forall|t: Seq<char>| t != tenant@ ==> (#[trigger] final(self).size(t)) == old(self).size(t),
        decreases *old(self),
    {
        match self.oldest_child(tenant) {
            None => false,
            Some((i, s)) => {
                let ghost child = self.children@[i as int];
                assert(child.text@.len() > 0);
                assert(decreases_to!(*old(self) => old(self).children@));
                let deeper = self.children[i].release_oldest(tenant);
                if deeper {
                    proof {
                        let grown = self.children@[i as int];
                        assert(self.children@ =~= old(self).children@.update(i as int, grown));
                        let q = choose|q: Seq<char>|
                            #[trigger] is_oldest_leaf(lane(child.nodes(), tenant@), q) && q != child.text@ && grown.nodes()
                                == released(child.nodes(), q, tenant@);
                        let q0 = choose|q: Seq<char>|
                            #[trigger] is_oldest_leaf(lane(child.nodes(), tenant@), q) && lane(child.nodes(), tenant@)[q]
                                == s;
                        assert(lane(child.nodes(), tenant@)[q] == s);
                        old(self).lemma_oldest_in_child(i as int, q, s, tenant@);
                        old(self).lemma_released_child(*self, i as int, q, tenant@);
                        old(self).lemma_wf_update(*self, i as int, grown);
                        child.lemma_at_below(q);
                        assert((old(self).text@ + q).len() > old(self).text@.len());
                        assert forall|t: Seq<char>| t != tenant@ implies (#[trigger] self.size(t)) == old(self).size(t) by {
                            lemma_sum_update(old(self).children@, i as int, grown, t);
                        }
                        lemma_sum_update(old(self).children@, i as int, grown, tenant@);
                    }
                } else {
                    proof {
                        child.lemma_own_leaf(tenant@);
                        let q0 = choose|q: Seq<char>|
                            #[trigger] is_oldest_leaf(lane(child.nodes(), tenant@), q) && lane(child.nodes(), tenant@)[q]
                                == s;
                        assert(q0 == child.text@);
                        old(self).lemma_oldest_in_child(i as int, child.text@, s, tenant@);
                        child.lemma_at_self();
                        assert((old(self).text@ + child.text@).len() > old(self).text@.len());
                        assert forall|j: int| 0 <= j < child.children@.len() implies (#[trigger] child.children@[j]).size(
                            tenant@,
                        ) == 0 by {
                            child.children@[j].lemma_size_unheld(tenant@);
                        }
                        crate::node_remove::lemma_sum_zero(child.children@, tenant@);
                        assert(child.size(tenant@) == child.text@.len());
                    }
                    self.children[i].owners.remove(tenant);
                    if self.children[i].owners.is_empty() {
                        proof {
                            assert(child.children@.len() == 0) by {
                                if child.children@.len() > 0 {
                                    let t = choose|t: Seq<char>| child.children@[0].owners@.contains_key(t);
                                    assert(is_held(child.children@[0].owners@));
                                    assert(child.owners@.contains_key(t));
                                    assert(child.owners@.remove(tenant@).contains_key(t));
                                }
                            }
                        }
                        self.children.remove(i);
                        proof {
                            assert(self.children@ =~= old(self).children@.remove(i as int));
                            old(self).lemma_released_gone(*self, i as int, tenant@);
                            assert forall|j: int| 0 <= j < self.children@.len() implies #[trigger] self.children@[j]
                                == old(self).children@[if j < i { j } else { j + 1 }] by {}
                            assert(self.wf());
                            assert forall|t: Seq<char>| t != tenant@ implies (#[trigger] self.size(t)) == old(self).size(t) by {
                                lemma_sum_remove(old(self).children@, i as int, t);
                                assert(!child.owners@.contains_key(t)) by {
                                    if child.owners@.contains_key(t) {
                                        assert(child.owners@.remove(tenant@).contains_key(t));
                                    }
                                }
                                child.lemma_size_unheld(t);
                            }
                            lemma_sum_remove(old(self).children@, i as int, tenant@);
                        }
                    } else {
                        proof {
                            let grown = self.children@[i as int];
                            assert(self.children@ =~= old(self).children@.update(i as int, grown));
                            child.lemma_released_here(grown, tenant@);
                            old(self).lemma_released_child(*self, i as int, child.text@, tenant@);
                            old(self).lemma_wf_update(*self, i as int, grown);
                            assert forall|t: Seq<char>| t != tenant@ implies (#[trigger] self.size(t)) == old(self).size(t) by {
                                lemma_sum_update(old(self).children@, i as int, grown, t);
                                assert(grown.size(t) == child.size(t));
                            }
                            lemma_sum_update(old(self).children@, i as int, grown, tenant@);
                            assert(grown.size(tenant@) == 0);
                        }
                    }
                }
                true
            },
        }
    }

    /// Releasing this node alone, where someone else still holds it.
    proof fn lemma_released_here(self, after: Node, tenant: Seq<char>)
        requires
            self.wf(),
            after.owners.wf(),
            after.text@ == self.text@,
            after.children == self.children,
            after.owners@ == self.owners@.remove(tenant),
            is_held(after.owners@),
            forall|j: int| 0 <= j < self.children@.len() ==> !(#[trigger] self.children@[j]).owners@.contains_key(tenant),
        ensures
            after.wf(),
            after.nodes() == released(self.nodes(), self.text@, tenant),
    {
        let text = self.text@;
        self.lemma_at_self();
        after.lemma_at_self();
        assert forall|p: Seq<char>| p != text implies #[trigger] after.at(p) == self.at(p) by {
            if text.is_prefix_of(p) && p.len() == text.len() {
                lemma_prefix_nested(p, text, p);
            }
        }
        assert(after.nodes() =~= released(self.nodes(), text, tenant));
        assert forall|j: int, t: Seq<char>|
            0 <= j < after.children@.len() && #[trigger] after.children@[j].owners@.contains_key(t) implies after.owners@.contains_key(
            t,
        ) by {
            assert(self.children@[j].owners@.contains_key(t));
        }
        assert(after.wf());
    }
}

} // verus!
