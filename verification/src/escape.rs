//! The self-delimiting, order-preserving transform for variable-length
//! byte sequences. Each source byte `0x00` or `0x01` is preceded by the
//! escape marker `0x01`; every other byte passes through unchanged; a
//! single terminator byte `0x00` ends the field. The terminator is the
//! only unescaped `0x00`, so a decoder knows where the field ends, and
//! since every emitted unit starts with a byte at least `0x01`, a strict
//! prefix of a source still sorts below its extensions after encoding.

use vstd::prelude::*;

use crate::errors::KeyError;
use crate::order::{
    is_prefix, lemma_lex_append_eq, lemma_lex_append_lt, lemma_lex_asym, lemma_lex_irrefl,
    lemma_lex_total, lex_lt,
};

verus! {

/// What one source byte contributes to the encoding.
pub open spec fn esc_unit(b: u8) -> Seq<u8> {
    if b <= 1 {
        seq![1u8, b]
    } else {
        seq![b]
    }
}

/// The escaped source bytes, without the terminator.
pub open spec fn esc_body(s: Seq<u8>) -> Seq<u8>
    decreases s.len(),
{
    if s.len() == 0 {
        Seq::empty()
    } else {
        esc_unit(s[0]) + esc_body(s.drop_first())
    }
}

/// The complete encoding of a byte sequence: escaped bytes, then the
/// terminator `0x00`.
pub open spec fn esc(s: Seq<u8>) -> Seq<u8> {
    esc_body(s) + seq![0u8]
}

/// Decoding an escaped field from the front of `s`: the decoded bytes and
/// the number of bytes consumed through the terminator, or `None` when
/// `s` ends before an unescaped terminator.
pub open spec fn esc_decode(s: Seq<u8>) -> Option<(Seq<u8>, nat)>
    decreases s.len(),
{
    if s.len() == 0 {
        None
    } else if s[0] == 0 {
        Some((Seq::empty(), 1nat))
    } else if s[0] == 1 {
        if s.len() == 1 {
            None
        } else {
            match esc_decode(s.skip(2)) {
                Some((d, n)) => Some((seq![s[1]] + d, (n + 2) as nat)),
                None => None,
            }
        }
    } else {
        match esc_decode(s.drop_first()) {
            Some((d, n)) => Some((seq![s[0]] + d, (n + 1) as nat)),
            None => None,
        }
    }
}

/// Peeling the first source byte off an encoding.
pub proof fn lemma_esc_unfold(s: Seq<u8>)
    requires
        s.len() > 0,
    ensures
        esc(s) =~= esc_unit(s[0]) + esc(s.drop_first()),
{
}

/// Appending a source byte appends its unit to the escaped body.
pub proof fn lemma_esc_body_push(s: Seq<u8>, b: u8)
    ensures
        esc_body(s.push(b)) =~= esc_body(s) + esc_unit(b),
    decreases s.len(),
{
    if s.len() == 0 {
        assert(s.push(b)[0] == b);
        assert(s.push(b).drop_first() =~= Seq::<u8>::empty());
        assert(esc_body(Seq::<u8>::empty()) =~= Seq::<u8>::empty());
        assert(esc_unit(b) + Seq::<u8>::empty() =~= esc_unit(b));
        assert(esc_body(s.push(b)) =~= esc_unit(b));
        assert(esc_body(s) + esc_unit(b) =~= esc_unit(b));
    } else {
        assert(s.push(b).drop_first() =~= s.drop_first().push(b));
        assert(s.push(b)[0] == s[0]);
        lemma_esc_body_push(s.drop_first(), b);
        assert(esc_unit(s[0]) + (esc_body(s.drop_first()) + esc_unit(b)) =~= (esc_unit(s[0])
            + esc_body(s.drop_first())) + esc_unit(b));
    }
}

/// Decoding inverts encoding and consumes exactly the encoding, whatever
/// follows it: the encoding is self-delimiting.
pub proof fn lemma_esc_decode_esc(s: Seq<u8>, rest: Seq<u8>)
    ensures
        esc_decode(esc(s) + rest) == Some((s, esc(s).len() as nat)),
    decreases s.len(),
{
    let t = esc(s) + rest;
    if s.len() == 0 {
        assert(t[0] == 0);
        assert(Seq::<u8>::empty() =~= s);
    } else {
        let h = s[0];
        let tail = s.drop_first();
        lemma_esc_unfold(s);
        lemma_esc_decode_esc(tail, rest);
        if h <= 1 {
            assert(t[0] == 1 && t[1] == h);
            assert(t.len() >= 2);
            assert(t.skip(2) =~= esc(tail) + rest);
            assert(seq![h] + tail =~= s);
        } else {
            assert(t[0] == h);
            assert(t.drop_first() =~= esc(tail) + rest);
            assert(seq![h] + tail =~= s);
        }
    }
}

/// Encoding is strictly monotone for lexicographic order.
proof fn lemma_esc_mono(s1: Seq<u8>, s2: Seq<u8>)
    requires
        lex_lt(s1, s2),
    ensures
        lex_lt(esc(s1), esc(s2)),
    decreases s1.len() + s2.len(),
{
    assert(s2.len() > 0);
    let h2 = s2[0];
    let e2 = esc(s2);
    lemma_esc_unfold(s2);
    if s1.len() == 0 {
        assert(esc(s1) =~= seq![0u8]);
        assert(e2[0] >= 1);
    } else {
        let h1 = s1[0];
        let e1 = esc(s1);
        lemma_esc_unfold(s1);
        if h1 == h2 {
            lemma_esc_mono(s1.drop_first(), s2.drop_first());
            lemma_lex_append_eq(esc_unit(h1), esc(s1.drop_first()), esc(s2.drop_first()));
        } else {
            assert(h1 < h2);
            if h1 <= 1 && h2 <= 1 {
                assert(e1 =~= seq![1u8] + (seq![h1] + esc(s1.drop_first())));
                assert(e2 =~= seq![1u8] + (seq![h2] + esc(s2.drop_first())));
                lemma_lex_append_eq(
                    seq![1u8],
                    seq![h1] + esc(s1.drop_first()),
                    seq![h2] + esc(s2.drop_first()),
                );
                assert(lex_lt(seq![h1] + esc(s1.drop_first()), seq![h2] + esc(s2.drop_first())));
            } else if h1 <= 1 {
                assert(e1[0] == 1 && e2[0] == h2 && h2 >= 2);
            } else {
                assert(e1[0] == h1 && e2[0] == h2);
            }
        }
    }
}

/// Escape-codec order preservation: two byte sequences compare exactly as
/// their encodings do. In particular a strict prefix and its extension,
/// which lexicographic order already places in that order, keep that
/// order after encoding.
pub proof fn lemma_esc_order(s1: Seq<u8>, s2: Seq<u8>)
    ensures
        lex_lt(s1, s2) <==> lex_lt(esc(s1), esc(s2)),
{
    if lex_lt(s1, s2) {
        lemma_esc_mono(s1, s2);
    } else {
        lemma_lex_total(s1, s2);
        if lex_lt(s2, s1) {
            lemma_esc_mono(s2, s1);
            lemma_lex_asym(esc(s1), esc(s2));
        } else {
            lemma_lex_irrefl(esc(s1));
        }
    }
}

/// Equal encodings come from equal sources.
pub proof fn lemma_esc_injective(s1: Seq<u8>, s2: Seq<u8>)
    requires
        esc(s1) == esc(s2),
    ensures
        s1 == s2,
{
    lemma_lex_total(s1, s2);
    if lex_lt(s1, s2) {
        lemma_esc_mono(s1, s2);
        lemma_lex_irrefl(esc(s1));
    } else if lex_lt(s2, s1) {
        lemma_esc_mono(s2, s1);
        lemma_lex_irrefl(esc(s1));
    }
}

/// Appends the escape-coded form of `src`, terminator included, to
/// `result`.
pub fn escape_encode(src: &[u8], result: &mut Vec<u8>)
    ensures
        final(result)@ == old(result)@ + esc(src@),
{
    let mut i: usize = 0;
    while i < src.len()
        invariant
            i <= src@.len(),
            result@ == old(result)@ + esc_body(src@.take(i as int)),
        decreases src@.len() - i,
    {
        let b = src[i];
        if b <= 1 {
            result.push(1);
        }
        result.push(b);
        proof {
            lemma_esc_body_push(src@.take(i as int), b);
            assert(src@.take(i + 1) =~= src@.take(i as int).push(b));
            assert(result@ =~= old(result)@ + esc_body(src@.take(i + 1)));
        }
        i = i + 1;
    }
    result.push(0);
    proof {
        assert(src@.take(src@.len() as int) =~= src@);
        assert(result@ =~= old(result)@ + esc(src@));
    }
}

/// Decodes one escape-coded field starting at `*pos`, appending the
/// decoded bytes to `result` and leaving `*pos` just past the terminator.
/// When the input ends before an unescaped terminator, fails with
/// `Unterminated` and leaves `*pos` and `result` unchanged.
#[verifier::loop_isolation(false)]
pub fn escape_decode(src: &[u8], pos: &mut usize, result: &mut Vec<u8>) -> (r: Result<
    (),
    KeyError,
>)
    requires
        *old(pos) <= src@.len(),
    ensures
        match r {
            Ok(_) => {
                &&& esc_decode(src@.skip(*old(pos) as int)) == Some(
                    (
                        final(result)@.skip(old(result)@.len() as int),
                        (*final(pos) - *old(pos)) as nat,
                    ),
                )
                &&& final(result)@.take(old(result)@.len() as int) == old(result)@
                &&& *old(pos) <= *final(pos) <= src@.len()
            },
            Err(e) => {
                &&& esc_decode(src@.skip(*old(pos) as int)) is None
                &&& e == KeyError::Unterminated
                &&& *final(pos) == *old(pos)
                &&& final(result)@ == old(result)@
            },
        },
{
    let start = *pos;
    let orig_len = result.len();
    let klen = src.len();
    let mut i: usize = start;
    while i < klen
        invariant
            start <= i <= klen,
            klen == src@.len(),
            start <= src@.len(),
            orig_len == old(result)@.len(),
            orig_len <= result@.len(),
            result@.take(orig_len as int) == old(result)@,
            ({
                let emitted = result@.skip(orig_len as int);
                match esc_decode(src@.skip(i as int)) {
                    Some((d, n)) => esc_decode(src@.skip(start as int)) == Some(
                        (emitted + d, ((i - start) + n) as nat),
                    ),
                    None => esc_decode(src@.skip(start as int)) is None,
                }
            }),
        decreases klen - i,
    {
        let b = src[i];
        let ghost emitted = result@.skip(orig_len as int);
        let ghost si = src@.skip(i as int);
        assert(si[0] == b && si.len() == klen - i);
        if b == 0 {
            proof {
                assert(esc_decode(si) == Some((Seq::<u8>::empty(), 1nat)));
                assert(emitted + Seq::<u8>::empty() =~= emitted);
            }
            *pos = i + 1;
            return Ok(());
        } else if b == 1 {
            if i + 1 == klen {
                proof {
                    assert(src@.skip(i + 1) =~= Seq::<u8>::empty());
                    assert(esc_decode(si) is None);
                }
                *pos = start;
                result.truncate(orig_len);
                proof {
                    assert(result@ =~= old(result)@);
                }
                return Err(KeyError::Unterminated);
            }
            let c = src[i + 1];
            result.push(c);
            proof {
                assert(si.len() >= 2 && si[1] == c);
                assert(si.skip(2) =~= src@.skip(i + 2));
                assert(result@.take(orig_len as int) =~= old(result)@);
                let emitted2 = result@.skip(orig_len as int);
                assert(emitted2 =~= emitted.push(c));
                if let Some((d, n)) = esc_decode(src@.skip(i + 2)) {
                    assert(esc_decode(si) == Some((seq![c] + d, (n + 2) as nat)));
                    assert(emitted + (seq![c] + d) =~= emitted2 + d);
                }
            }
            i = i + 2;
        } else {
            result.push(b);
            proof {
                assert(si.drop_first() =~= src@.skip(i + 1));
                assert(result@.take(orig_len as int) =~= old(result)@);
                let emitted2 = result@.skip(orig_len as int);
                assert(emitted2 =~= emitted.push(b));
                if let Some((d, n)) = esc_decode(src@.skip(i + 1)) {
                    assert(esc_decode(si) == Some((seq![b] + d, (n + 1) as nat)));
                    assert(emitted + (seq![b] + d) =~= emitted2 + d);
                }
            }
            i = i + 1;
        }
    }
    proof {
        assert(src@.skip(i as int) =~= Seq::<u8>::empty());
    }
    *pos = start;
    result.truncate(orig_len);
    proof {
        assert(result@ =~= old(result)@);
    }
    Err(KeyError::Unterminated)
}

} // verus!
