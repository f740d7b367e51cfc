//! The tenants that hold one node of a prefix tree.

use vstd::prelude::*;

use crate::model::{is_held, is_latest, Holders};

verus! {

/// One tenant, with the time of its last use.
pub struct Owner {
    pub tenant: String,
    pub stamp: u64,
}

/// The tenants that hold a node. No tenant is listed twice.
pub struct Owners {
    pub list: Vec<Owner>,
}

/// Whether `tenant` is listed.
pub open spec fn is_listed(list: Seq<Owner>, tenant: Seq<char>) -> bool {
    exists|i: int| 0 <= i < list.len() && (#[trigger] list[i]).tenant@ == tenant
}

/// Where `tenant` is listed.
pub open spec fn place_of(list: Seq<Owner>, tenant: Seq<char>) -> int {
    choose|i: int| 0 <= i < list.len() && (#[trigger] list[i]).tenant@ == tenant
}

impl View for Owners {
    type V = Holders;

    open spec fn view(&self) -> Holders {
        Map::new(
            |t: Seq<char>| is_listed(self.list@, t),
            |t: Seq<char>| self.list@[place_of(self.list@, t)].stamp,
        )
    }
}

impl Owners {
    /// No tenant is listed twice.
    pub open spec fn wf(&self) -> bool {
        forall|i: int, j: int|
            0 <= i < j < self.list@.len() ==> (#[trigger] self.list@[i]).tenant@ != (#[trigger] self.list@[j]).tenant@
    }

    /// What is listed at place `i` is what the view maps to.
    pub proof fn lemma_entry(&self, i: int)
        requires
            self.wf(),
            0 <= i < self.list@.len(),
        ensures
            self@.contains_key(self.list@[i].tenant@),
            self@[self.list@[i].tenant@] == self.list@[i].stamp,
    {
        let t = self.list@[i].tenant@;
        assert(is_listed(self.list@, t));
        let j = place_of(self.list@, t);
        assert(self.list@[j].tenant@ == t);
        assert(i == j);
    }

    /// Nobody holds the node exactly when the list is empty.
    pub proof fn lemma_held(&self)
        ensures
            is_held(self@) <==> self.list@.len() > 0,
    {
        if self.list@.len() > 0 {
            assert(is_listed(self.list@, self.list@[0].tenant@));
            assert(self@.contains_key(self.list@[0].tenant@));
        }
        if is_held(self@) {
            let t = choose|t: Seq<char>| self@.contains_key(t);
            assert(is_listed(self.list@, t));
        }
    }

    /// No owners.
    pub fn new() -> (owners: Owners)
        ensures
            owners.wf(),
            owners@ == Map::<Seq<char>, u64>::empty(),
    {
        let owners = Owners { list: Vec::new() };
        assert(owners@ =~= Map::<Seq<char>, u64>::empty());
        owners
    }

    /// Whether there are no owners.
    pub fn is_empty(&self) -> (empty: bool)
        ensures
            empty == !is_held(self@),
    {
        proof {
            self.lemma_held();
        }
        self.list.len() == 0
    }

    /// Where an owner stands in the list.
    fn find(&self, tenant: &String) -> (place: Option<usize>)
        requires
            self.wf(),
        ensures
            place is None ==> !self@.contains_key(tenant@),
            place matches Some(i) ==> i < self.list@.len() && self.list@[i as int].tenant@ == tenant@
                && self@.contains_key(tenant@) && self@[tenant@] == self.list@[i as int].stamp,
    {
        let mut i: usize = 0;
        while i < self.list.len()
            invariant
                self.wf(),
                i <= self.list@.len(),
                forall|j: int| 0 <= j < i ==> (#[trigger] self.list@[j]).tenant@ != tenant@,
            decreases self.list@.len() - i,
        {
            if self.list[i].tenant == *tenant {
                proof {
                    self.lemma_entry(i as int);
                }
                return Some(i);
            }
            i += 1;
        }
        None
    }

    /// When `tenant` last used the node, if it holds it.
    pub fn stamp_of(&self, tenant: &String) -> (stamp: Option<u64>)
        requires
            self.wf(),
        ensures
            stamp == (if self@.contains_key(tenant@) {
                Some(self@[tenant@])
            } else {
                None
            }),
    {
        match self.find(tenant) {
            Some(i) => Some(self.list[i].stamp),
            None => None,
        }
    }

    /// Records that `tenant` uses the node at time `now`.
    pub fn set(&mut self, tenant: &String, now: u64)
        requires
            old(self).wf(),
        ensures
            final(self).wf(),
            final(self)@ == old(self)@.insert(tenant@, now),
    {
        match self.find(tenant) {
            Some(i) => {
                self.list[i].stamp = now;
                proof {
                    let before = old(self).list@;
                    let after = self.list@;
                    assert forall|t: Seq<char>| is_listed(before, t) <==> is_listed(after, t) by {
                        if is_listed(before, t) {
                            let j = place_of(before, t);
                            assert(after[j].tenant@ == t);
                        }
                        if is_listed(after, t) {
                            let j = place_of(after, t);
                            assert(before[j].tenant@ == t);
                        }
                    }
                    assert forall|t: Seq<char>| #[trigger] self@.contains_key(t) implies self@[t] == (old(self)@.insert(
                        tenant@,
                        now,
                    ))[t] by {
                        let j = place_of(after, t);
                        assert(after[j].tenant@ == t);
                        assert(before[j].tenant@ == t);
                        old(self).lemma_entry(j);
                        self.lemma_entry(j);
                    }
                    assert(self@ =~= old(self)@.insert(tenant@, now));
                }
            },
            None => {
                self.list.push(Owner { tenant: tenant.clone(), stamp: now });
                proof {
                    let before = old(self).list@;
                    let after = self.list@;
                    let n = before.len() as int;
                    assert(after[n].tenant@ == tenant@);
                    assert(self.wf()) by {
                        assert forall|i: int, j: int| 0 <= i < j < after.len() implies (#[trigger] after[i]).tenant@
                            != (#[trigger] after[j]).tenant@ by {
                            assert(after[i] == before[i]);
                            if j == n {
                                assert(is_listed(before, before[i].tenant@));
                            } else {
                                assert(after[j] == before[j]);
                            }
                        }
                    }
                    assert forall|t: Seq<char>| is_listed(after, t) <==> is_listed(before, t) || t == tenant@ by {
                        if is_listed(before, t) {
                            let j = place_of(before, t);
                            assert(after[j].tenant@ == t);
                        }
                        if is_listed(after, t) {
                            let j = place_of(after, t);
                            if j < n {
                                assert(before[j].tenant@ == t);
                            }
                        }
                    }
                    assert forall|t: Seq<char>| #[trigger] self@.contains_key(t) implies self@[t] == (old(self)@.insert(
                        tenant@,
                        now,
                    ))[t] by {
                        let j = place_of(after, t);
                        self.lemma_entry(j);
                        if j < n {
                            assert(before[j].tenant@ == t);
                            old(self).lemma_entry(j);
                        }
                    }
                    assert(self@ =~= old(self)@.insert(tenant@, now));
                }
            },
        }
    }

    /// Records that `tenant` gives the node up.
    pub fn remove(&mut self, tenant: &String)
        requires
            old(self).wf(),
        ensures
            final(self).wf(),
            final(self)@ == old(self)@.remove(tenant@),
    {
        match self.find(tenant) {
            Some(i) => {
                self.list.remove(i);
                proof {
                    let before = old(self).list@;
                    let after = self.list@;
                    let k = i as int;
                    assert(forall|j: int| 0 <= j < k ==> after[j] == before[j]);
                    assert(forall|j: int| k <= j < after.len() ==> after[j] == before[j + 1]);
                    assert forall|t: Seq<char>| is_listed(after, t) <==> is_listed(before, t) && t != tenant@ by {
                        if is_listed(before, t) && t != tenant@ {
                            let j = place_of(before, t);
                            if j < k {
                                assert(after[j].tenant@ == t);
                            } else {
                                assert(after[j - 1].tenant@ == t);
                            }
                        }
                        if is_listed(after, t) {
                            let j = place_of(after, t);
                            if j < k {
                                assert(before[j].tenant@ == t);
                            } else {
                                assert(before[j + 1].tenant@ == t);
                            }
                        }
                    }
                    assert forall|t: Seq<char>| #[trigger] self@.contains_key(t) implies self@[t] == old(self)@.remove(
                        tenant@,
                    )[t] by {
                        let j = place_of(after, t);
                        self.lemma_entry(j);
                        if j < k {
                            old(self).lemma_entry(j);
                        } else {
                            old(self).lemma_entry(j + 1);
                        }
                    }
                    assert(self@ =~= old(self)@.remove(tenant@));
                }
            },
            None => {
                assert(self@ =~= old(self)@.remove(tenant@));
            },
        }
    }

    /// The holder that used the node last.
    pub fn latest(&self) -> (tenant: Option<String>)
        requires
            self.wf(),
        ensures
            tenant is None <==> !is_held(self@),
            tenant matches Some(t) ==> is_latest(self@, t@),
    {
        proof {
            self.lemma_held();
        }
        if self.list.len() == 0 {
            return None;
        }
        let mut best: usize = 0;
        let mut i: usize = 1;
        while i < self.list.len()
            invariant
                self.wf(),
                best < i <= self.list@.len(),
                forall|j: int| 0 <= j < i ==> (#[trigger] self.list@[j]).stamp <= self.list@[best as int].stamp,
            decreases self.list@.len() - i,
        {
            if self.list[i].stamp > self.list[best].stamp {
                best = i;
            }
            i += 1;
        }
        proof {
            self.lemma_entry(best as int);
            let winner = self.list@[best as int].tenant@;
            assert forall|t: Seq<char>| #[trigger] self@.contains_key(t) implies self@[t] <= self@[winner] by {
                let j = place_of(self.list@, t);
                self.lemma_entry(j);
            }
        }
        Some(self.list[best].tenant.clone())
    }

    /// The same tenants with the same times.
    pub fn duplicate(&self) -> (owners: Owners)
        requires
            self.wf(),
        ensures
            owners.wf(),
            owners@ == self@,
    {
        let mut list: Vec<Owner> = Vec::new();
        let mut i: usize = 0;
        while i < self.list.len()
            invariant
                i <= self.list@.len(),
                list@ =~= self.list@.take(i as int),
            decreases self.list@.len() - i,
        {
            list.push(Owner { tenant: self.list[i].tenant.clone(), stamp: self.list[i].stamp });
            i += 1;
        }
        assert(list@ =~= self.list@);
        Owners { list }
    }

    /// The names of the tenants.
    pub fn tenants(&self) -> (names: Vec<String>)
        requires
            self.wf(),
        ensures
            forall|t: Seq<char>| self@.contains_key(t) ==> exists|i: int| 0 <= i < names@.len() && (#[trigger] names@[i])@ == t,
            forall|i: int| 0 <= i < names@.len() ==> self@.contains_key((#[trigger] names@[i])@),
            forall|i: int, j: int| 0 <= i < j < names@.len() ==> (#[trigger] names@[i])@ != (#[trigger] names@[j])@,
    {
        let mut names: Vec<String> = Vec::new();
        let mut i: usize = 0;
        while i < self.list.len()
            invariant
                self.wf(),
                i <= self.list@.len(),
                names@.len() == i,
                forall|j: int| 0 <= j < i ==> (#[trigger] names@[j])@ == self.list@[j].tenant@,
            decreases self.list@.len() - i,
        {
            names.push(self.list[i].tenant.clone());
            i += 1;
        }
        proof {
            assert forall|j: int| 0 <= j < names@.len() implies self@.contains_key((#[trigger] names@[j])@) by {
                self.lemma_entry(j);
            }
            assert forall|t: Seq<char>| self@.contains_key(t) implies exists|j: int|
                0 <= j < names@.len() && (#[trigger] names@[j])@ == t by {
                let j = place_of(self.list@, t);
                assert(names@[j]@ == t);
            }
        }
        names
    }
}

} // verus!
