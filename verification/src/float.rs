//! `IndexKey` for IEEE-754 float values, carried as their raw bit
//! patterns.
//!
//! Verified code here never computes with floating point, so a float
//! enters the codec as the `u32`/`u64` bit pattern that `f32::to_bits` /
//! `f64::to_bits` yields and leaves it for `from_bits`. The transform is
//! the order-preserving float map: a positive pattern (sign bit clear)
//! has only its sign bit flipped, lifting it above every negative; a
//! negative pattern (sign bit set) is complemented, reversing the
//! negatives so that larger magnitudes sort lower. Numeric float order
//! for non-NaN values agrees with this order on patterns; negative zero
//! sorts strictly below positive zero, and every NaN pattern sorts above
//! positive infinity. Round trips are exact at the bit level, NaN
//! payloads included.

use vstd::prelude::*;

use crate::errors::KeyError;
use crate::key::IndexKey;
use crate::order::lex_lt;
use crate::numeric::{
    be_bytes, be_decode, be_encode, from_be, lemma_be_eq, lemma_be_order, lemma_be_round_trip,
    lemma_from_be_bound, lemma_pow256_values,
};

verus! {

/// The bit pattern of an `f32`.
#[derive(Clone, Copy, Debug, PartialEq, Eq, Structural)]
pub struct F32Bits {
    pub bits: u32,
}

/// The bit pattern of an `f64`.
#[derive(Clone, Copy, Debug, PartialEq, Eq, Structural)]
pub struct F64Bits {
    pub bits: u64,
}

/// The order-preserving map from an `f32` bit pattern to the unsigned
/// value whose big-endian bytes are the key.
pub open spec fn f32_key_nat(b: u32) -> nat {
    if b < 0x8000_0000 {
        (b + 0x8000_0000) as nat
    } else {
        (0xFFFF_FFFFu32 - b) as nat
    }
}

/// The total order on `f32` bit patterns that the key realizes: among
/// patterns with the sign bit clear, pattern order (which is numeric
/// order for non-NaN floats); reversed among patterns with the sign bit
/// set; and every negative below every positive.
pub open spec fn f32_bits_lt(a: u32, b: u32) -> bool {
    if a >= 0x8000_0000 && b >= 0x8000_0000 {
        a > b
    } else if a < 0x8000_0000 && b < 0x8000_0000 {
        a < b
    } else {
        a >= 0x8000_0000
    }
}

/// The order-preserving map for `f64` bit patterns.
pub open spec fn f64_key_nat(b: u64) -> nat {
    if b < 0x8000_0000_0000_0000 {
        (b + 0x8000_0000_0000_0000) as nat
    } else {
        (0xFFFF_FFFF_FFFF_FFFFu64 - b) as nat
    }
}

/// The total order on `f64` bit patterns that the key realizes.
pub open spec fn f64_bits_lt(a: u64, b: u64) -> bool {
    if a >= 0x8000_0000_0000_0000 && b >= 0x8000_0000_0000_0000 {
        a > b
    } else if a < 0x8000_0000_0000_0000 && b < 0x8000_0000_0000_0000 {
        a < b
    } else {
        a >= 0x8000_0000_0000_0000
    }
}

/// Whether a `u64` bit pattern denotes a NaN: exponent bits all set and
/// mantissa nonzero, which is exactly a magnitude beyond infinity's.
pub open spec fn f64_is_nan_pattern(b: u64) -> bool {
    b % 0x8000_0000_0000_0000 > 0x7FF0_0000_0000_0000
}

/// Negative zero sorts strictly below positive zero: the two patterns
/// stay distinct and ordered.
pub proof fn lemma_f64_neg_zero_below_pos_zero()
    ensures
        f64_bits_lt(0x8000_0000_0000_0000, 0),
        lex_lt((F64Bits { bits: 0x8000_0000_0000_0000 }).key_spec(), (F64Bits { bits: 0 }).key_spec()),
{
    (F64Bits { bits: 0x8000_0000_0000_0000 }).lemma_key_order(F64Bits { bits: 0 });
}

/// Negative infinity's pattern sorts below every other non-NaN pattern,
/// finite or infinite.
pub proof fn lemma_f64_neg_infinity_minimal(b: u64)
    requires
        !f64_is_nan_pattern(b),
        b != 0xFFF0_0000_0000_0000,
    ensures
        f64_bits_lt(0xFFF0_0000_0000_0000, b),
        lex_lt((F64Bits { bits: 0xFFF0_0000_0000_0000 }).key_spec(), (F64Bits { bits: b }).key_spec()),
{
    (F64Bits { bits: 0xFFF0_0000_0000_0000 }).lemma_key_order(F64Bits { bits: b });
}

/// Every NaN pattern with the sign bit clear sorts strictly above
/// positive infinity. (A NaN pattern with the sign bit set sorts below
/// every sign-clear pattern instead; such patterns do not arise from the
/// usual NaN constants.)
pub proof fn lemma_f64_nan_above_infinity(b: u64)
    requires
        f64_is_nan_pattern(b),
        b < 0x8000_0000_0000_0000,
    ensures
        f64_bits_lt(0x7FF0_0000_0000_0000, b),
        lex_lt((F64Bits { bits: 0x7FF0_0000_0000_0000 }).key_spec(), (F64Bits { bits: b }).key_spec()),
{
    (F64Bits { bits: 0x7FF0_0000_0000_0000 }).lemma_key_order(F64Bits { bits: b });
}

impl IndexKey for F32Bits {
    open spec fn key_spec(self) -> Seq<u8> {
        be_bytes(f32_key_nat(self.bits), 4)
    }

    open spec fn key_eq(self, other: F32Bits) -> bool {
        self.bits == other.bits
    }

    open spec fn key_lt(self, other: F32Bits) -> bool {
        f32_bits_lt(self.bits, other.bits)
    }

    open spec fn key_decodable(s: Seq<u8>) -> bool {
        s.len() >= 4
    }

    open spec fn key_consumed(s: Seq<u8>) -> nat {
        4
    }

    open spec fn key_err(s: Seq<u8>) -> KeyError {
        KeyError::Truncated
    }

    open spec fn key_decodes_to(self, s: Seq<u8>) -> bool {
        f32_key_nat(self.bits) == from_be(s.take(4))
    }

    fn to_key(self, result: &mut Vec<u8>) {
        proof {
            lemma_pow256_values();
        }
        let b = self.bits;
        let t: u32 = if b < 0x8000_0000 {
            b + 0x8000_0000
        } else {
            0xFFFF_FFFF - b
        };
        be_encode(t as u128, 4, result);
    }

    fn from_key(key: &[u8], pos: &mut usize) -> (r: Result<F32Bits, KeyError>) {
        proof {
            lemma_pow256_values();
        }
        match be_decode(key, pos, 4) {
            Ok(v) => {
                proof {
                    let s = key@.skip(*old(pos) as int);
                    assert(key@.subrange(*old(pos) as int, *old(pos) + 4) =~= s.take(4));
                    lemma_from_be_bound(s.take(4));
                }
                let bits: u32 = if v >= 0x8000_0000 {
                    (v - 0x8000_0000) as u32
                } else {
                    0xFFFF_FFFF - (v as u32)
                };
                Ok(F32Bits { bits })
            },
            Err(e) => Err(e),
        }
    }

    proof fn lemma_key_round_trip(self, rest: Seq<u8>) {
        lemma_pow256_values();
        lemma_be_round_trip(f32_key_nat(self.bits), 4, rest);
    }

    proof fn lemma_key_decode_unique(self, other: F32Bits, s: Seq<u8>) {
    }

    proof fn lemma_key_eq(self, other: F32Bits) {
        lemma_pow256_values();
        lemma_be_eq(f32_key_nat(self.bits), f32_key_nat(other.bits), 4);
    }

    proof fn lemma_key_order(self, other: F32Bits) {
        lemma_pow256_values();
        lemma_be_order(f32_key_nat(self.bits), f32_key_nat(other.bits), 4);
    }
}

impl IndexKey for F64Bits {
    open spec fn key_spec(self) -> Seq<u8> {
        be_bytes(f64_key_nat(self.bits), 8)
    }

    open spec fn key_eq(self, other: F64Bits) -> bool {
        self.bits == other.bits
    }

    open spec fn key_lt(self, other: F64Bits) -> bool {
        f64_bits_lt(self.bits, other.bits)
    }

    open spec fn key_decodable(s: Seq<u8>) -> bool {
        s.len() >= 8
    }

    open spec fn key_consumed(s: Seq<u8>) -> nat {
        8
    }

    open spec fn key_err(s: Seq<u8>) -> KeyError {
        KeyError::Truncated
    }

    open spec fn key_decodes_to(self, s: Seq<u8>) -> bool {
        f64_key_nat(self.bits) == from_be(s.take(8))
    }

    fn to_key(self, result: &mut Vec<u8>) {
        proof {
            lemma_pow256_values();
        }
        let b = self.bits;
        let t: u64 = if b < 0x8000_0000_0000_0000 {
            b + 0x8000_0000_0000_0000
        } else {
            0xFFFF_FFFF_FFFF_FFFF - b
        };
        be_encode(t as u128, 8, result);
    }

    fn from_key(key: &[u8], pos: &mut usize) -> (r: Result<F64Bits, KeyError>) {
        proof {
            lemma_pow256_values();
        }
        match be_decode(key, pos, 8) {
            Ok(v) => {
                proof {
                    let s = key@.skip(*old(pos) as int);
                    assert(key@.subrange(*old(pos) as int, *old(pos) + 8) =~= s.take(8));
                    lemma_from_be_bound(s.take(8));
                }
                let bits: u64 = if v >= 0x8000_0000_0000_0000 {
                    (v - 0x8000_0000_0000_0000) as u64
                } else {
                    0xFFFF_FFFF_FFFF_FFFF - (v as u64)
                };
                Ok(F64Bits { bits })
            },
            Err(e) => Err(e),
        }
    }

    proof fn lemma_key_round_trip(self, rest: Seq<u8>) {
        lemma_pow256_values();
        lemma_be_round_trip(f64_key_nat(self.bits), 8, rest);
    }

    proof fn lemma_key_decode_unique(self, other: F64Bits, s: Seq<u8>) {
    }

    proof fn lemma_key_eq(self, other: F64Bits) {
        lemma_pow256_values();
        lemma_be_eq(f64_key_nat(self.bits), f64_key_nat(other.bits), 8);
    }

    proof fn lemma_key_order(self, other: F64Bits) {
        lemma_pow256_values();
        lemma_be_order(f64_key_nat(self.bits), f64_key_nat(other.bits), 8);
    }
}

} // verus!
