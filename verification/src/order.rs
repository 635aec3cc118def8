//! Byte-wise lexicographic order on byte sequences, and the lemmas about
//! concatenation that make self-delimiting encodings compose into ordered
//! composite keys.

use vstd::prelude::*;

verus! {

/// Strict byte-wise lexicographic order, as `Ord` on `[u8]` defines it:
/// the first differing byte decides, and a strict prefix sorts below any
/// of its extensions.
pub open spec fn lex_lt(a: Seq<u8>, b: Seq<u8>) -> bool
    decreases a.len(),
{
    if b.len() == 0 {
        false
    } else if a.len() == 0 {
        true
    } else if a[0] < b[0] {
        true
    } else if a[0] > b[0] {
        false
    } else {
        lex_lt(a.drop_first(), b.drop_first())
    }
}

/// `a` is a (not necessarily strict) prefix of `b`.
pub open spec fn is_prefix(a: Seq<u8>, b: Seq<u8>) -> bool {
    a.len() <= b.len() && b.take(a.len() as int) == a
}

/// The order is irreflexive.
pub proof fn lemma_lex_irrefl(a: Seq<u8>)
    ensures
        !lex_lt(a, a),
    decreases a.len(),
{
    if a.len() > 0 {
        lemma_lex_irrefl(a.drop_first());
    }
}

/// The order is total: any two byte sequences are ordered or equal.
pub proof fn lemma_lex_total(a: Seq<u8>, b: Seq<u8>)
    ensures
        lex_lt(a, b) || lex_lt(b, a) || a == b,
    decreases a.len(),
{
    if a.len() == 0 && b.len() == 0 {
        assert(a =~= b);
    } else if a.len() > 0 && b.len() > 0 && a[0] == b[0] {
        lemma_lex_total(a.drop_first(), b.drop_first());
        if a.drop_first() == b.drop_first() {
            assert(a.drop_first().len() == b.drop_first().len());
            assert forall|i: int| 0 <= i < a.len() implies a[i] == b[i] by {
                if i >= 1 {
                    assert(a.drop_first()[i - 1] == b.drop_first()[i - 1]);
                }
            }
            assert(a =~= b);
        }
    }
}

/// The order is asymmetric.
pub proof fn lemma_lex_asym(a: Seq<u8>, b: Seq<u8>)
    ensures
        !(lex_lt(a, b) && lex_lt(b, a)),
    decreases a.len(),
{
    if a.len() > 0 && b.len() > 0 && a[0] == b[0] {
        lemma_lex_asym(a.drop_first(), b.drop_first());
    }
}

/// Appending on the right of both sides of a shared prefix compares the
/// appended parts.
pub proof fn lemma_lex_append_eq(c: Seq<u8>, x: Seq<u8>, y: Seq<u8>)
    ensures
        lex_lt(c + x, c + y) <==> lex_lt(x, y),
    decreases c.len(),
{
    if c.len() == 0 {
        assert(c + x =~= x);
        assert(c + y =~= y);
    } else {
        assert((c + x).drop_first() =~= c.drop_first() + x);
        assert((c + y).drop_first() =~= c.drop_first() + y);
        assert((c + x)[0] == c[0] && (c + y)[0] == c[0]);
        assert((c + x).len() > 0 && (c + y).len() > 0);
        lemma_lex_append_eq(c.drop_first(), x, y);
    }
}

/// When `a` sorts below `b` and is not a prefix of `b`, the first
/// differing byte decides, so anything appended on either side cannot
/// change the comparison.
pub proof fn lemma_lex_append_lt(a: Seq<u8>, b: Seq<u8>, x: Seq<u8>, y: Seq<u8>)
    requires
        lex_lt(a, b),
        !is_prefix(a, b),
    ensures
        lex_lt(a + x, b + y),
    decreases a.len(),
{
    if a.len() == 0 {
        assert(b.take(0) =~= a);
        assert(false);
    } else {
        assert(b.len() > 0);
        assert((a + x)[0] == a[0] && (b + y)[0] == b[0]);
        assert((a + x).len() > 0 && (b + y).len() > 0);
        if a[0] == b[0] {
            assert((a + x).drop_first() =~= a.drop_first() + x);
            assert((b + y).drop_first() =~= b.drop_first() + y);
            assert(!is_prefix(a.drop_first(), b.drop_first())) by {
                if is_prefix(a.drop_first(), b.drop_first()) {
                    assert forall|i: int| 0 <= i < a.len() implies b.take(a.len() as int)[i]
                        == a[i] by {
                        if i >= 1 {
                            assert(b.drop_first().take(a.len() - 1)[i - 1] == a.drop_first()[i
                                - 1]);
                        }
                    }
                    assert(b.take(a.len() as int) =~= a);
                }
            }
            lemma_lex_append_lt(a.drop_first(), b.drop_first(), x, y);
        }
    }
}

} // verus!
