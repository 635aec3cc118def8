//! The capability every supported scalar and tuple type implements: an
//! infallible, order-preserving, self-delimiting encoding, and a fallible
//! decode that consumes exactly one encoding from the front of a byte
//! stream.

use vstd::prelude::*;

use crate::errors::KeyError;
use crate::order::{is_prefix, lex_lt};

verus! {

/// A value that can serve as one field of an ordered index key.
///
/// `key_spec` is the encoding. The remaining spec functions describe the
/// decode of a byte stream `s` whose front holds one encoded field:
/// whether it succeeds, how many bytes it consumes, which error it reports
/// otherwise, and which values it can yield. The proof obligations tie
/// them together: decoding inverts encoding whatever bytes follow (so
/// fields concatenate into composite keys), equal encodings mean
/// equivalent values, and lexicographic comparison of encodings agrees
/// with the type's natural order.
pub trait IndexKey: Sized {
    /// The bytes this value encodes to.
    spec fn key_spec(self) -> Seq<u8>;

    /// Value equivalence as the codec sees it: for most types plain
    /// equality, for text and blobs equality of contents.
    spec fn key_eq(self, other: Self) -> bool;

    /// The type's natural order, the one its encoding realizes
    /// byte-wise.
    spec fn key_lt(self, other: Self) -> bool;

    /// Whether decoding one value from the front of `s` succeeds.
    spec fn key_decodable(s: Seq<u8>) -> bool;

    /// How many bytes a successful decode from the front of `s`
    /// consumes.
    spec fn key_consumed(s: Seq<u8>) -> nat;

    /// The error a failed decode of `s` reports.
    spec fn key_err(s: Seq<u8>) -> KeyError;

    /// Whether `self` is a value that decoding the front of `s` may
    /// yield; unique up to `key_eq`.
    spec fn key_decodes_to(self, s: Seq<u8>) -> bool;

    /// Appends this value's encoding to `result`.
    fn to_key(self, result: &mut Vec<u8>)
        ensures
            final(result)@ == old(result)@ + self.key_spec(),
    ;

    /// Decodes one value of this type from `key` starting at `*pos`,
    /// advancing `*pos` past the consumed encoding; on failure reports
    /// the decode error and leaves `*pos` unchanged.
    fn from_key(key: &[u8], pos: &mut usize) -> (r: Result<Self, KeyError>)
        requires
            *old(pos) <= key@.len(),
        ensures
            ({
                let s = key@.skip(*old(pos) as int);
                match r {
                    Ok(v) => {
                        &&& Self::key_decodable(s)
                        &&& *final(pos) == *old(pos) + Self::key_consumed(s)
                        &&& *final(pos) <= key@.len()
                        &&& v.key_decodes_to(s)
                    },
                    Err(e) => {
                        &&& !Self::key_decodable(s)
                        &&& e == Self::key_err(s)
                        &&& *final(pos) == *old(pos)
                    },
                }
            }),
    ;

    /// Round trip: a value's encoding decodes back to that value and
    /// consumes exactly the encoding, whatever bytes follow it. This is
    /// what makes the encoding self-delimiting.
    proof fn lemma_key_round_trip(self, rest: Seq<u8>)
        ensures
            Self::key_decodable(self.key_spec() + rest),
            Self::key_consumed(self.key_spec() + rest) == self.key_spec().len(),
            self.key_decodes_to(self.key_spec() + rest),
    ;

    /// A decode yields at most one value, up to `key_eq`.
    proof fn lemma_key_decode_unique(self, other: Self, s: Seq<u8>)
        ensures
            self.key_decodes_to(s) && other.key_decodes_to(s) ==> self.key_eq(other),
    ;

    /// Encodings are equal exactly for equivalent values.
    proof fn lemma_key_eq(self, other: Self)
        ensures
            self.key_eq(other) <==> self.key_spec() == other.key_spec(),
    ;

    /// Order preservation: the values compare exactly as their encodings
    /// compare byte-wise lexicographically.
    proof fn lemma_key_order(self, other: Self)
        ensures
            self.key_lt(other) <==> lex_lt(self.key_spec(), other.key_spec()),
    ;
}

/// No encoding of one value is a strict prefix of the encoding of
/// another value of the same type; a consequence of the round-trip law,
/// since a decode consumes exactly one encoding.
pub proof fn lemma_key_prefix_free<T: IndexKey>(x: T, y: T)
    requires
        is_prefix(x.key_spec(), y.key_spec()),
    ensures
        x.key_spec() == y.key_spec(),
{
    let a = x.key_spec();
    let b = y.key_spec();
    y.lemma_key_round_trip(Seq::empty());
    x.lemma_key_round_trip(b.skip(a.len() as int));
    assert(b + Seq::<u8>::empty() =~= b);
    assert(a + b.skip(a.len() as int) =~= b) by {
        assert(b.take(a.len() as int) == a);
    }
}

/// Round trip at the value level: every value decodes back from its own
/// encoding alone.
pub proof fn lemma_round_trip<I: IndexKey>(v: I)
    ensures
        I::key_decodable(v.key_spec()),
        I::key_consumed(v.key_spec()) == v.key_spec().len(),
        v.key_decodes_to(v.key_spec()),
{
    v.lemma_key_round_trip(Seq::empty());
    assert(v.key_spec() + Seq::<u8>::empty() =~= v.key_spec());
}

/// Encodes one value into a fresh buffer.
pub fn to_key<I: IndexKey>(i: I) -> (r: Vec<u8>)
    ensures
        r@ == i.key_spec(),
{
    let mut result: Vec<u8> = Vec::new();
    i.to_key(&mut result);
    proof {
        assert(Seq::<u8>::empty() + i.key_spec() =~= i.key_spec());
    }
    result
}

/// Decodes one value from the front of `src`. Bytes after the value's
/// own encoding are ignored, as they are when the value is one field of
/// a longer composite key.
pub fn from_key<I: IndexKey>(src: Vec<u8>) -> (r: Result<I, KeyError>)
    ensures
        match r {
            Ok(v) => I::key_decodable(src@) && v.key_decodes_to(src@),
            Err(e) => !I::key_decodable(src@) && e == I::key_err(src@),
        },
{
    let mut pos: usize = 0;
    let r = I::from_key(src.as_slice(), &mut pos);
    proof {
        assert(src@.skip(0) =~= src@);
    }
    r
}

} // verus!
