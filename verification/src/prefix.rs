//! Facts about prefixes of sequences.

use vstd::prelude::*;

verus! {

/// A start of a start is a start.
pub proof fn lemma_prefix_trans(a: Seq<char>, b: Seq<char>, c: Seq<char>)
    requires
        a.is_prefix_of(b),
        b.is_prefix_of(c),
    ensures
        a.is_prefix_of(c),
{
    assert(forall|i: int| 0 <= i < a.len() ==> a[i] == b.subrange(0, a.len() as int)[i]);
    assert(forall|i: int| 0 <= i < b.len() ==> b[i] == c.subrange(0, b.len() as int)[i]);
    assert(a =~= c.subrange(0, a.len() as int));
}

/// A sequence has one prefix of each length.
pub proof fn lemma_prefix_nested(a: Seq<char>, b: Seq<char>, c: Seq<char>)
    requires
        a.is_prefix_of(c),
        b.is_prefix_of(c),
        a.len() <= b.len(),
    ensures
        a.is_prefix_of(b),
        a.len() == b.len() ==> a == b,
{
    assert(forall|i: int| 0 <= i < a.len() ==> a[i] == c.subrange(0, a.len() as int)[i]);
    assert(forall|i: int| 0 <= i < b.len() ==> b[i] == c.subrange(0, b.len() as int)[i]);
    assert(a =~= b.subrange(0, a.len() as int));
    if a.len() == b.len() {
        assert(a =~= b);
    }
}

/// Sequences that start each other are equal.
pub proof fn lemma_prefix_antisymmetric(a: Seq<char>, b: Seq<char>)
    requires
        a.is_prefix_of(b),
        b.is_prefix_of(a),
    ensures
        a == b,
{
    assert(a =~= b.subrange(0, a.len() as int));
    assert(a =~= b);
}

/// A common start may be cut off from both sides.
pub proof fn lemma_prefix_concat(a: Seq<char>, s: Seq<char>, p: Seq<char>)
    ensures
        (a + s).is_prefix_of(a + p) <==> s.is_prefix_of(p),
        a.is_prefix_of(a + p),
        (a + p).skip(a.len() as int) == p,
        (a + p).take(a.len() as int) == a,
{
    assert(a =~= (a + p).subrange(0, a.len() as int));
    assert((a + p).skip(a.len() as int) =~= p);
    if s.is_prefix_of(p) {
        assert forall|i: int| 0 <= i < s.len() implies s[i] == p[i] by {
            assert(p.subrange(0, s.len() as int)[i] == p[i]);
        }
        assert((a + s) =~= (a + p).subrange(0, (a + s).len() as int));
    }
    if (a + s).is_prefix_of(a + p) {
        assert forall|i: int| 0 <= i < s.len() implies s[i] == p[i] by {
            assert((a + s)[a.len() + i] == s[i]);
            assert((a + p).subrange(0, (a + s).len() as int)[a.len() + i] == (a + p)[a.len() + i]);
        }
        assert(s =~= p.subrange(0, s.len() as int));
    }
}

/// A sequence is its prefix followed by the rest.
pub proof fn lemma_prefix_split(a: Seq<char>, p: Seq<char>)
    requires
        a.is_prefix_of(p),
    ensures
        p == a + p.skip(a.len() as int),
        p.skip(a.len() as int).len() == p.len() - a.len(),
{
    assert forall|i: int| 0 <= i < a.len() implies a[i] == p[i] by {
        assert(p.subrange(0, a.len() as int)[i] == p[i]);
    }
    assert(p =~= a + p.skip(a.len() as int));
}

/// The first characters of a sequence are a start of it.
pub proof fn lemma_prefix_take(p: Seq<char>, k: int)
    requires
        0 <= k <= p.len(),
    ensures
        p.take(k).is_prefix_of(p),
        p.take(k).len() == k,
{
    assert(p.take(k) =~= p.subrange(0, k));
}

/// A start of a sequence is its first characters.
pub proof fn lemma_prefix_is_take(a: Seq<char>, p: Seq<char>)
    requires
        a.is_prefix_of(p),
    ensures
        a == p.take(a.len() as int),
        forall|i: int| 0 <= i < a.len() ==> a[i] == p[i],
{
    assert(a =~= p.take(a.len() as int));
    assert forall|i: int| 0 <= i < a.len() implies a[i] == p[i] by {
        assert(p.take(a.len() as int)[i] == p[i]);
    }
}

/// A sequence that agrees with a longer one, character by character, is a start of it.
pub proof fn lemma_prefix_pointwise(a: Seq<char>, p: Seq<char>)
    requires
        a.len() <= p.len(),
        forall|i: int| 0 <= i < a.len() ==> a[i] == p[i],
    ensures
        a.is_prefix_of(p),
{
    assert(a =~= p.subrange(0, a.len() as int));
}

} // verus!
