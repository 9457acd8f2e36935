//! Lexicographic (byte-wise) ordering on keys: the specification-level
//! order, its algebraic laws, and an executable three-way comparison.

use vstd::prelude::*;

verus! {

/// Strict lexicographic order on byte sequences: `a` comes before `b` when
/// `a` is a proper prefix of `b`, or when at the first differing position
/// `a` holds the smaller byte.
pub open spec fn lex_lt(a: Seq<u8>, b: Seq<u8>) -> bool
    decreases a.len(),
{
    if b.len() == 0 {
        false
    } else if a.len() == 0 {
        true
    } else if a[0] != b[0] {
        a[0] < b[0]
    } else {
        lex_lt(a.skip(1), b.skip(1))
    }
}

/// Reflexive closure of `lex_lt`.
pub open spec fn lex_le(a: Seq<u8>, b: Seq<u8>) -> bool {
    lex_lt(a, b) || a == b
}

/// Two sequences with equal length, equal head and equal tail are equal.
proof fn lemma_eq_from_parts(a: Seq<u8>, b: Seq<u8>)
    requires
        a.len() == b.len(),
        a.len() > 0,
        a[0] == b[0],
        a.skip(1) == b.skip(1),
    ensures
        a == b,
{
    assert forall|j: int| 0 <= j < a.len() implies a[j] == b[j] by {
        if j > 0 {
            assert(a.skip(1)[j - 1] == a[j]);
            assert(b.skip(1)[j - 1] == b[j]);
        }
    }
    assert(a =~= b);
}

/// `lex_lt` is a strict total order: any two keys compare in exactly one of
/// the three ways.
pub proof fn lemma_lex_total(a: Seq<u8>, b: Seq<u8>)
    ensures
        lex_lt(a, b) || lex_lt(b, a) || a == b,
        lex_lt(a, b) ==> !lex_lt(b, a),
        lex_lt(a, b) ==> a != b,
    decreases a.len(),
{
    if b.len() == 0 {
        if a.len() == 0 {
            assert(a =~= b);
        }
    } else if a.len() == 0 {
        assert(a.len() != b.len());
    } else if a[0] != b[0] {
    } else {
        lemma_lex_total(a.skip(1), b.skip(1));
        if a.skip(1) == b.skip(1) && a.len() == b.len() {
            lemma_eq_from_parts(a, b);
        }
        if a == b {
            assert(a.skip(1) == b.skip(1));
        }
    }
}

/// `lex_lt` is transitive.
pub proof fn lemma_lex_trans(a: Seq<u8>, b: Seq<u8>, c: Seq<u8>)
    requires
        lex_lt(a, b),
        lex_lt(b, c),
    ensures
        lex_lt(a, c),
    decreases a.len(),
{
    if a.len() == 0 {
    } else {
        if a[0] == b[0] && b[0] == c[0] {
            lemma_lex_trans(a.skip(1), b.skip(1), c.skip(1));
        }
    }
}

/// Transitivity through the reflexive closure, in both mixed forms.
pub proof fn lemma_lex_lt_le(a: Seq<u8>, b: Seq<u8>, c: Seq<u8>)
    requires
        lex_lt(a, b) && lex_le(b, c) || lex_le(a, b) && lex_lt(b, c),
    ensures
        lex_lt(a, c),
{
    if lex_lt(a, b) && lex_lt(b, c) {
        lemma_lex_trans(a, b, c);
    }
}

/// The result of an executable key comparison.
#[derive(PartialEq, Eq, Structural, Clone, Copy, Debug)]
pub enum KeyOrder {
    Less,
    Equal,
    Greater,
}

/// Three-way byte-wise comparison of two keys.
pub fn key_cmp(a: &Vec<u8>, b: &Vec<u8>) -> (r: KeyOrder)
    ensures
        (r == KeyOrder::Less) == lex_lt(a@, b@),
        (r == KeyOrder::Equal) == (a@ == b@),
        (r == KeyOrder::Greater) == lex_lt(b@, a@),
{
    let mut i: usize = 0;
    proof {
        assert(a@.skip(0) =~= a@);
        assert(b@.skip(0) =~= b@);
    }
    while i < a.len() && i < b.len()
        invariant
            i <= a@.len(),
            i <= b@.len(),
            lex_lt(a@, b@) == lex_lt(a@.skip(i as int), b@.skip(i as int)),
            lex_lt(b@, a@) == lex_lt(b@.skip(i as int), a@.skip(i as int)),
            (a@ == b@) == (a@.len() == b@.len() && a@.skip(i as int) == b@.skip(i as int)),
        decreases a@.len() - i,
    {
        let x = a[i];
        let y = b[i];
        if x < y {
            proof {
                assert(a@.skip(i as int)[0] == x);
                assert(b@.skip(i as int)[0] == y);
                assert(lex_lt(a@.skip(i as int), b@.skip(i as int)));
                assert(!lex_lt(b@.skip(i as int), a@.skip(i as int)));
                assert(a@.skip(i as int) != b@.skip(i as int));
            }
            return KeyOrder::Less;
        }
        if x > y {
            proof {
                assert(a@.skip(i as int)[0] == x);
                assert(b@.skip(i as int)[0] == y);
                assert(lex_lt(b@.skip(i as int), a@.skip(i as int)));
                assert(!lex_lt(a@.skip(i as int), b@.skip(i as int)));
                assert(a@.skip(i as int) != b@.skip(i as int));
            }
            return KeyOrder::Greater;
        }
        proof {
            let i0 = i as int;
            assert(a@.skip(i0)[0] == x);
            assert(b@.skip(i0)[0] == y);
            assert(a@.skip(i0).skip(1) =~= a@.skip(i0 + 1));
            assert(b@.skip(i0).skip(1) =~= b@.skip(i0 + 1));
            assert(lex_lt(a@.skip(i0), b@.skip(i0)) == lex_lt(a@.skip(i0 + 1), b@.skip(i0 + 1)));
            assert(lex_lt(b@.skip(i0), a@.skip(i0)) == lex_lt(b@.skip(i0 + 1), a@.skip(i0 + 1)));
            if a@.len() == b@.len() && a@.skip(i0 + 1) == b@.skip(i0 + 1) {
                lemma_eq_from_parts(a@.skip(i0), b@.skip(i0));
            }
            if a@.skip(i0) == b@.skip(i0) {
                assert(a@.skip(i0).skip(1) == b@.skip(i0).skip(1));
            }
        }
        i = i + 1;
    }
    proof {
        let i0 = i as int;
        assert(a@.skip(i0).len() == a@.len() - i0);
        assert(b@.skip(i0).len() == b@.len() - i0);
    }
    if a.len() == b.len() {
        proof {
            assert(a@.skip(i as int) =~= b@.skip(i as int));
        }
        KeyOrder::Equal
    } else if a.len() < b.len() {
        KeyOrder::Less
    } else {
        KeyOrder::Greater
    }
}

} // verus!
