//! Big-endian byte strings for bounded natural numbers: the common core of
//! every fixed-width integer and float-bit encoding. Big-endian order makes
//! numeric order on equal-width values agree with lexicographic order on
//! their bytes.

use vstd::prelude::*;

use crate::errors::KeyError;
use crate::order::{
    is_prefix, lemma_lex_append_eq, lemma_lex_append_lt, lemma_lex_asym, lemma_lex_irrefl, lex_lt,
};

verus! {

/// 256 to the power `n`: the number of distinct `n`-byte strings.
pub open spec fn pow256(n: nat) -> nat
    decreases n,
{
    if n == 0 {
        1
    } else {
        256 * pow256((n - 1) as nat)
    }
}

/// The `n` big-endian base-256 digits of `v`.
pub open spec fn be_bytes(v: nat, n: nat) -> Seq<u8>
    decreases n,
{
    if n == 0 {
        Seq::empty()
    } else {
        be_bytes(v / 256, (n - 1) as nat).push((v % 256) as u8)
    }
}

/// The natural number denoted by big-endian digits `s`.
pub open spec fn from_be(s: Seq<u8>) -> nat
    decreases s.len(),
{
    if s.len() == 0 {
        0
    } else {
        (from_be(s.drop_last()) * 256 + s.last()) as nat
    }
}

pub proof fn lemma_pow256_pos(n: nat)
    ensures
        pow256(n) >= 1,
    decreases n,
{
    if n > 0 {
        lemma_pow256_pos((n - 1) as nat);
    }
}

/// The powers of 256 for the widths in use.
pub proof fn lemma_pow256_values()
    ensures
        pow256(1) == 0x100,
        pow256(2) == 0x1_0000,
        pow256(4) == 0x1_0000_0000,
        pow256(8) == 0x1_0000_0000_0000_0000,
        pow256(16) == 0x1_0000_0000_0000_0000_0000_0000_0000_0000,
{
    reveal_with_fuel(pow256, 17);
}

pub proof fn lemma_pow256_increases(m: nat, n: nat)
    requires
        m <= n,
    ensures
        pow256(m) <= pow256(n),
    decreases n,
{
    if m < n {
        lemma_pow256_increases(m, (n - 1) as nat);
        lemma_pow256_pos((n - 1) as nat);
    }
}

pub proof fn lemma_be_bytes_len(v: nat, n: nat)
    ensures
        be_bytes(v, n).len() == n,
    decreases n,
{
    if n > 0 {
        lemma_be_bytes_len(v / 256, (n - 1) as nat);
    }
}

/// Reading back the digits of `v` gives `v`.
pub proof fn lemma_from_be_be_bytes(v: nat, n: nat)
    requires
        v < pow256(n),
    ensures
        from_be(be_bytes(v, n)) == v,
    decreases n,
{
    if n > 0 {
        let q = v / 256;
        let r = v % 256;
        assert(q < pow256((n - 1) as nat)) by {
            assert(pow256(n) == 256 * pow256((n - 1) as nat));
            assert(v < 256 * pow256((n - 1) as nat));
            assert(v / 256 < pow256((n - 1) as nat)) by (nonlinear_arith)
                requires
                    v < 256 * pow256((n - 1) as nat),
            ;
        }
        lemma_from_be_be_bytes(q, (n - 1) as nat);
        let s = be_bytes(v, n);
        assert(s.drop_last() =~= be_bytes(q, (n - 1) as nat));
        assert(s.last() == (r as u8));
        assert(q * 256 + r == v);
    }
}

/// `n` digits denote fewer than `pow256(n)`.
pub proof fn lemma_from_be_bound(s: Seq<u8>)
    ensures
        from_be(s) < pow256(s.len()),
    decreases s.len(),
{
    if s.len() > 0 {
        lemma_from_be_bound(s.drop_last());
        assert(from_be(s.drop_last()) * 256 + s.last() < 256 * pow256((s.len() - 1) as nat))
            by (nonlinear_arith)
            requires
                from_be(s.drop_last()) < pow256((s.len() - 1) as nat),
                s.last() < 256,
        ;
    }
}

/// Equal-width big-endian strings compare as the numbers they denote.
pub proof fn lemma_be_bytes_order(v1: nat, v2: nat, n: nat)
    requires
        v1 < v2,
        v2 < pow256(n),
    ensures
        lex_lt(be_bytes(v1, n), be_bytes(v2, n)),
    decreases n,
{
    lemma_pow256_pos(n);
    assert(n > 0);
    let q1 = v1 / 256;
    let r1 = v1 % 256;
    let q2 = v2 / 256;
    let r2 = v2 % 256;
    let b1 = be_bytes(q1, (n - 1) as nat);
    let b2 = be_bytes(q2, (n - 1) as nat);
    assert(be_bytes(v1, n) =~= b1 + seq![(r1 as u8)]);
    assert(be_bytes(v2, n) =~= b2 + seq![(r2 as u8)]);
    assert(q1 <= q2 && q2 < pow256((n - 1) as nat) && (q1 == q2 ==> r1 < r2))
        by (nonlinear_arith)
        requires
            v1 < v2,
            v2 < 256 * pow256((n - 1) as nat),
            q1 == v1 / 256,
            r1 == v1 % 256,
            q2 == v2 / 256,
            r2 == v2 % 256,
    ;
    if q1 == q2 {
        assert(b1 == b2);
        lemma_lex_append_eq(b1, seq![(r1 as u8)], seq![(r2 as u8)]);
        assert(lex_lt(seq![(r1 as u8)], seq![(r2 as u8)]));
    } else {
        lemma_be_bytes_order(q1, q2, (n - 1) as nat);
        assert(!is_prefix(b1, b2)) by {
            lemma_be_bytes_len(q1, (n - 1) as nat);
            lemma_be_bytes_len(q2, (n - 1) as nat);
            if is_prefix(b1, b2) {
                assert(b2.take(b1.len() as int) =~= b2);
                lemma_lex_irrefl(b1);
            }
        }
        lemma_lex_append_lt(b1, b2, seq![(r1 as u8)], seq![(r2 as u8)]);
    }
}

/// The facts a fixed-width decode needs about a value's digits standing
/// at the front of a longer stream.
pub proof fn lemma_be_round_trip(v: nat, n: nat, rest: Seq<u8>)
    requires
        v < pow256(n),
    ensures
        be_bytes(v, n).len() == n,
        (be_bytes(v, n) + rest).len() >= n,
        (be_bytes(v, n) + rest).take(n as int) == be_bytes(v, n),
        from_be((be_bytes(v, n) + rest).take(n as int)) == v,
{
    lemma_be_bytes_len(v, n);
    assert((be_bytes(v, n) + rest).take(n as int) =~= be_bytes(v, n));
    lemma_from_be_be_bytes(v, n);
}

/// Equal-width digit strings are equal exactly for equal values.
pub proof fn lemma_be_eq(v1: nat, v2: nat, n: nat)
    requires
        v1 < pow256(n),
        v2 < pow256(n),
    ensures
        (v1 == v2) <==> (be_bytes(v1, n) == be_bytes(v2, n)),
{
    lemma_from_be_be_bytes(v1, n);
    lemma_from_be_be_bytes(v2, n);
}

/// Equal-width digit strings compare both ways as the values they denote.
pub proof fn lemma_be_order(v1: nat, v2: nat, n: nat)
    requires
        v1 < pow256(n),
        v2 < pow256(n),
    ensures
        (v1 < v2) <==> lex_lt(be_bytes(v1, n), be_bytes(v2, n)),
{
    if v1 < v2 {
        lemma_be_bytes_order(v1, v2, n);
    } else if v2 < v1 {
        lemma_be_bytes_order(v2, v1, n);
        lemma_lex_asym(be_bytes(v1, n), be_bytes(v2, n));
    } else {
        lemma_lex_irrefl(be_bytes(v1, n));
    }
}

/// Appends the `width` big-endian bytes of `v`.
pub(crate) fn be_encode(v: u128, width: usize, result: &mut Vec<u8>)
    requires
        (v as nat) < pow256(width as nat),
    ensures
        final(result)@ == old(result)@ + be_bytes(v as nat, width as nat),
    decreases width,
{
    if width == 0 {
        assert(result@ =~= result@ + be_bytes(v as nat, 0));
    } else {
        assert(((v / 256) as nat) < pow256((width - 1) as nat)) by (nonlinear_arith)
            requires
                (v as nat) < 256 * pow256((width - 1) as nat),
        ;
        let ghost prefix = result@;
        be_encode(v / 256, width - 1, result);
        result.push((v % 256) as u8);
        assert(result@ =~= prefix + be_bytes(v as nat, width as nat));
    }
}

/// Reads `width` big-endian bytes starting at `*pos`, advancing `*pos`;
/// fails with `Truncated` when fewer than `width` bytes remain.
pub(crate) fn be_decode(key: &[u8], pos: &mut usize, width: usize) -> (r: Result<u128, KeyError>)
    requires
        *old(pos) <= key@.len(),
        width <= 16,
    ensures
        match r {
            Ok(v) => {
                &&& *old(pos) + width <= key@.len()
                &&& *final(pos) == *old(pos) + width
                &&& v as nat == from_be(key@.subrange(*old(pos) as int, *final(pos) as int))
            },
            Err(e) => {
                &&& key@.len() < *old(pos) + width
                &&& e == KeyError::Truncated
                &&& *final(pos) == *old(pos)
            },
        },
{
    let start = *pos;
    let klen = key.len();
    if klen - start < width {
        return Err(KeyError::Truncated);
    }
    let mut acc: u128 = 0;
    let mut i: usize = 0;
    while i < width
        invariant
            i <= width,
            width <= 16,
            klen == key@.len(),
            start + width <= klen,
            acc as nat == from_be(key@.subrange(start as int, start + i)),
            (acc as nat) < pow256(i as nat),
        decreases width - i,
    {
        let b = key[start + i];
        proof {
            lemma_pow256_values();
            lemma_pow256_increases(i as nat, 15);
            assert((acc as nat) * 256 + 256 <= pow256(16)) by (nonlinear_arith)
                requires
                    (acc as nat) < pow256(15nat),
                    256 * pow256(15nat) == pow256(16nat),
            ;
            let s0 = key@.subrange(start as int, start + i);
            let s1 = key@.subrange(start as int, start + i + 1);
            assert(s1.drop_last() =~= s0);
            assert(s1.last() == key@[start + i]);
            assert(pow256((i + 1) as nat) == 256 * pow256(i as nat));
            assert((acc as nat) * 256 + b < 256 * pow256(i as nat)) by (nonlinear_arith)
                requires
                    (acc as nat) < pow256(i as nat),
                    b < 256,
            ;
        }
        acc = acc * 256 + (b as u128);
        i = i + 1;
    }
    *pos = start + width;
    Ok(acc)
}

} // verus!
