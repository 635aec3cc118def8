//! `IndexKey` for booleans and the fixed-width integers.
//!
//! Unsigned integers are their own big-endian bytes. Signed integers are
//! biased by the magnitude of their minimum value — equivalently, the sign
//! bit is flipped — which maps the signed range onto `0..2^width` in order,
//! and then encoded big-endian. Booleans are one byte, `0x00` for false
//! and `0x01` for true; decoding accepts any nonzero byte as true.

use vstd::prelude::*;

use crate::errors::KeyError;
use crate::key::IndexKey;
use crate::order::lex_lt;
use crate::numeric::{
    be_bytes, be_decode, be_encode, from_be, lemma_be_eq, lemma_be_order, lemma_be_round_trip,
    lemma_from_be_bound, lemma_pow256_values,
};

verus! {

impl IndexKey for bool {
    open spec fn key_spec(self) -> Seq<u8> {
        if self {
            seq![1u8]
        } else {
            seq![0u8]
        }
    }

    open spec fn key_eq(self, other: bool) -> bool {
        self == other
    }

    open spec fn key_lt(self, other: bool) -> bool {
        !self && other
    }

    open spec fn key_decodable(s: Seq<u8>) -> bool {
        s.len() >= 1
    }

    open spec fn key_consumed(s: Seq<u8>) -> nat {
        1
    }

    open spec fn key_err(s: Seq<u8>) -> KeyError {
        KeyError::Truncated
    }

    open spec fn key_decodes_to(self, s: Seq<u8>) -> bool {
        s.len() >= 1 && self == (s[0] != 0)
    }

    fn to_key(self, result: &mut Vec<u8>) {
        if self {
            result.push(1);
        } else {
            result.push(0);
        }
        proof {
            assert(result@ =~= old(result)@ + self.key_spec());
        }
    }

    fn from_key(key: &[u8], pos: &mut usize) -> (r: Result<bool, KeyError>) {
        if *pos == key.len() {
            return Err(KeyError::Truncated);
        }
        let b = key[*pos];
        *pos = *pos + 1;
        proof {
            assert(key@.skip(*old(pos) as int)[0] == key@[*old(pos) as int]);
        }
        Ok(b != 0)
    }

    proof fn lemma_key_round_trip(self, rest: Seq<u8>) {
        assert((self.key_spec() + rest)[0] == self.key_spec()[0]);
    }

    proof fn lemma_key_decode_unique(self, other: bool, s: Seq<u8>) {
    }

    proof fn lemma_key_eq(self, other: bool) {
        if self.key_spec() == other.key_spec() {
            assert(self.key_spec()[0] == other.key_spec()[0]);
        }
    }

    proof fn lemma_key_order(self, other: bool) {
        let a = self.key_spec();
        let b = other.key_spec();
        assert(a.len() == 1 && b.len() == 1);
        if a[0] == b[0] {
            assert(b.drop_first().len() == 0);
            assert(!lex_lt(a.drop_first(), b.drop_first()));
        }
        assert(lex_lt(a, b) == (a[0] < b[0]));
    }
}

impl IndexKey for u8 {
    open spec fn key_spec(self) -> Seq<u8> {
        be_bytes(self as nat, 1)
    }

    open spec fn key_eq(self, other: u8) -> bool {
        self == other
    }

    open spec fn key_lt(self, other: u8) -> bool {
        self < other
    }

    open spec fn key_decodable(s: Seq<u8>) -> bool {
        s.len() >= 1
    }

    open spec fn key_consumed(s: Seq<u8>) -> nat {
        1
    }

    open spec fn key_err(s: Seq<u8>) -> KeyError {
        KeyError::Truncated
    }

    open spec fn key_decodes_to(self, s: Seq<u8>) -> bool {
        self as nat == from_be(s.take(1))
    }

    fn to_key(self, result: &mut Vec<u8>) {
        proof {
            lemma_pow256_values();
        }
        be_encode(self as u128, 1, result);
    }

    fn from_key(key: &[u8], pos: &mut usize) -> (r: Result<u8, KeyError>) {
        proof {
            lemma_pow256_values();
        }
        match be_decode(key, pos, 1) {
            Ok(v) => {
                proof {
                    let s = key@.skip(*old(pos) as int);
                    assert(key@.subrange(*old(pos) as int, *old(pos) + 1) =~= s.take(1));
                    lemma_from_be_bound(s.take(1));
                }
                Ok(v as u8)
            },
            Err(e) => Err(e),
        }
    }

    proof fn lemma_key_round_trip(self, rest: Seq<u8>) {
        lemma_pow256_values();
        lemma_be_round_trip(self as nat, 1, rest);
    }

    proof fn lemma_key_decode_unique(self, other: u8, s: Seq<u8>) {
    }

    proof fn lemma_key_eq(self, other: u8) {
        lemma_pow256_values();
        lemma_be_eq(self as nat, other as nat, 1);
    }

    proof fn lemma_key_order(self, other: u8) {
        lemma_pow256_values();
        lemma_be_order(self as nat, other as nat, 1);
    }
}

impl IndexKey for u16 {
    open spec fn key_spec(self) -> Seq<u8> {
        be_bytes(self as nat, 2)
    }

    open spec fn key_eq(self, other: u16) -> bool {
        self == other
    }

    open spec fn key_lt(self, other: u16) -> bool {
        self < other
    }

    open spec fn key_decodable(s: Seq<u8>) -> bool {
        s.len() >= 2
    }

    open spec fn key_consumed(s: Seq<u8>) -> nat {
        2
    }

    open spec fn key_err(s: Seq<u8>) -> KeyError {
        KeyError::Truncated
    }

    open spec fn key_decodes_to(self, s: Seq<u8>) -> bool {
        self as nat == from_be(s.take(2))
    }

    fn to_key(self, result: &mut Vec<u8>) {
        proof {
            lemma_pow256_values();
        }
        be_encode(self as u128, 2, result);
    }

    fn from_key(key: &[u8], pos: &mut usize) -> (r: Result<u16, KeyError>) {
        proof {
            lemma_pow256_values();
        }
        match be_decode(key, pos, 2) {
            Ok(v) => {
                proof {
                    let s = key@.skip(*old(pos) as int);
                    assert(key@.subrange(*old(pos) as int, *old(pos) + 2) =~= s.take(2));
                    lemma_from_be_bound(s.take(2));
                }
                Ok(v as u16)
            },
            Err(e) => Err(e),
        }
    }

    proof fn lemma_key_round_trip(self, rest: Seq<u8>) {
        lemma_pow256_values();
        lemma_be_round_trip(self as nat, 2, rest);
    }

    proof fn lemma_key_decode_unique(self, other: u16, s: Seq<u8>) {
    }

    proof fn lemma_key_eq(self, other: u16) {
        lemma_pow256_values();
        lemma_be_eq(self as nat, other as nat, 2);
    }

    proof fn lemma_key_order(self, other: u16) {
        lemma_pow256_values();
        lemma_be_order(self as nat, other as nat, 2);
    }
}

impl IndexKey for u32 {
    open spec fn key_spec(self) -> Seq<u8> {
        be_bytes(self as nat, 4)
    }

    open spec fn key_eq(self, other: u32) -> bool {
        self == other
    }

    open spec fn key_lt(self, other: u32) -> bool {
        self < other
    }

    open spec fn key_decodable(s: Seq<u8>) -> bool {
        s.len() >= 4
    }

    open spec fn key_consumed(s: Seq<u8>) -> nat {
        4
    }

    open spec fn key_err(s: Seq<u8>) -> KeyError {
        KeyError::Truncated
    }

    open spec fn key_decodes_to(self, s: Seq<u8>) -> bool {
        self as nat == from_be(s.take(4))
    }

    fn to_key(self, result: &mut Vec<u8>) {
        proof {
            lemma_pow256_values();
        }
        be_encode(self as u128, 4, result);
    }

    fn from_key(key: &[u8], pos: &mut usize) -> (r: Result<u32, KeyError>) {
        proof {
            lemma_pow256_values();
        }
        match be_decode(key, pos, 4) {
            Ok(v) => {
                proof {
                    let s = key@.skip(*old(pos) as int);
                    assert(key@.subrange(*old(pos) as int, *old(pos) + 4) =~= s.take(4));
                    lemma_from_be_bound(s.take(4));
                }
                Ok(v as u32)
            },
            Err(e) => Err(e),
        }
    }

    proof fn lemma_key_round_trip(self, rest: Seq<u8>) {
        lemma_pow256_values();
        lemma_be_round_trip(self as nat, 4, rest);
    }

    proof fn lemma_key_decode_unique(self, other: u32, s: Seq<u8>) {
    }

    proof fn lemma_key_eq(self, other: u32) {
        lemma_pow256_values();
        lemma_be_eq(self as nat, other as nat, 4);
    }

    proof fn lemma_key_order(self, other: u32) {
        lemma_pow256_values();
        lemma_be_order(self as nat, other as nat, 4);
    }
}

impl IndexKey for u64 {
    open spec fn key_spec(self) -> Seq<u8> {
        be_bytes(self as nat, 8)
    }

    open spec fn key_eq(self, other: u64) -> bool {
        self == other
    }

    open spec fn key_lt(self, other: u64) -> bool {
        self < other
    }

    open spec fn key_decodable(s: Seq<u8>) -> bool {
        s.len() >= 8
    }

    open spec fn key_consumed(s: Seq<u8>) -> nat {
        8
    }

    open spec fn key_err(s: Seq<u8>) -> KeyError {
        KeyError::Truncated
    }

    open spec fn key_decodes_to(self, s: Seq<u8>) -> bool {
        self as nat == from_be(s.take(8))
    }

    fn to_key(self, result: &mut Vec<u8>) {
        proof {
            lemma_pow256_values();
        }
        be_encode(self as u128, 8, result);
    }

    fn from_key(key: &[u8], pos: &mut usize) -> (r: Result<u64, KeyError>) {
        proof {
            lemma_pow256_values();
        }
        match be_decode(key, pos, 8) {
            Ok(v) => {
                proof {
                    let s = key@.skip(*old(pos) as int);
                    assert(key@.subrange(*old(pos) as int, *old(pos) + 8) =~= s.take(8));
                    lemma_from_be_bound(s.take(8));
                }
                Ok(v as u64)
            },
            Err(e) => Err(e),
        }
    }

    proof fn lemma_key_round_trip(self, rest: Seq<u8>) {
        lemma_pow256_values();
        lemma_be_round_trip(self as nat, 8, rest);
    }

    proof fn lemma_key_decode_unique(self, other: u64, s: Seq<u8>) {
    }

    proof fn lemma_key_eq(self, other: u64) {
        lemma_pow256_values();
        lemma_be_eq(self as nat, other as nat, 8);
    }

    proof fn lemma_key_order(self, other: u64) {
        lemma_pow256_values();
        lemma_be_order(self as nat, other as nat, 8);
    }
}

impl IndexKey for u128 {
    open spec fn key_spec(self) -> Seq<u8> {
        be_bytes(self as nat, 16)
    }

    open spec fn key_eq(self, other: u128) -> bool {
        self == other
    }

    open spec fn key_lt(self, other: u128) -> bool {
        self < other
    }

    open spec fn key_decodable(s: Seq<u8>) -> bool {
        s.len() >= 16
    }

    open spec fn key_consumed(s: Seq<u8>) -> nat {
        16
    }

    open spec fn key_err(s: Seq<u8>) -> KeyError {
        KeyError::Truncated
    }

    open spec fn key_decodes_to(self, s: Seq<u8>) -> bool {
        self as nat == from_be(s.take(16))
    }

    fn to_key(self, result: &mut Vec<u8>) {
        proof {
            lemma_pow256_values();
        }
        be_encode(self, 16, result);
    }

    fn from_key(key: &[u8], pos: &mut usize) -> (r: Result<u128, KeyError>) {
        proof {
            lemma_pow256_values();
        }
        match be_decode(key, pos, 16) {
            Ok(v) => {
                proof {
                    let s = key@.skip(*old(pos) as int);
                    assert(key@.subrange(*old(pos) as int, *old(pos) + 16) =~= s.take(16));
                    lemma_from_be_bound(s.take(16));
                }
                Ok(v)
            },
            Err(e) => Err(e),
        }
    }

    proof fn lemma_key_round_trip(self, rest: Seq<u8>) {
        lemma_pow256_values();
        lemma_be_round_trip(self as nat, 16, rest);
    }

    proof fn lemma_key_decode_unique(self, other: u128, s: Seq<u8>) {
    }

    proof fn lemma_key_eq(self, other: u128) {
        lemma_pow256_values();
        lemma_be_eq(self as nat, other as nat, 16);
    }

    proof fn lemma_key_order(self, other: u128) {
        lemma_pow256_values();
        lemma_be_order(self as nat, other as nat, 16);
    }
}

impl IndexKey for i8 {
    open spec fn key_spec(self) -> Seq<u8> {
        be_bytes((self + 0x80) as nat, 1)
    }

    open spec fn key_eq(self, other: i8) -> bool {
        self == other
    }

    open spec fn key_lt(self, other: i8) -> bool {
        self < other
    }

    open spec fn key_decodable(s: Seq<u8>) -> bool {
        s.len() >= 1
    }

    open spec fn key_consumed(s: Seq<u8>) -> nat {
        1
    }

    open spec fn key_err(s: Seq<u8>) -> KeyError {
        KeyError::Truncated
    }

    open spec fn key_decodes_to(self, s: Seq<u8>) -> bool {
        self + 0x80 == from_be(s.take(1))
    }

    fn to_key(self, result: &mut Vec<u8>) {
        proof {
            lemma_pow256_values();
        }
        let biased: u128 = ((self as i16) + 0x80) as u128;
        be_encode(biased, 1, result);
    }

    fn from_key(key: &[u8], pos: &mut usize) -> (r: Result<i8, KeyError>) {
        proof {
            lemma_pow256_values();
        }
        match be_decode(key, pos, 1) {
            Ok(v) => {
                proof {
                    let s = key@.skip(*old(pos) as int);
                    assert(key@.subrange(*old(pos) as int, *old(pos) + 1) =~= s.take(1));
                    lemma_from_be_bound(s.take(1));
                }
                if v >= 0x80 {
                    Ok((v - 0x80) as i8)
                } else {
                    Ok((v as i8) + i8::MIN)
                }
            },
            Err(e) => Err(e),
        }
    }

    proof fn lemma_key_round_trip(self, rest: Seq<u8>) {
        lemma_pow256_values();
        lemma_be_round_trip((self + 0x80) as nat, 1, rest);
    }

    proof fn lemma_key_decode_unique(self, other: i8, s: Seq<u8>) {
    }

    proof fn lemma_key_eq(self, other: i8) {
        lemma_pow256_values();
        lemma_be_eq((self + 0x80) as nat, (other + 0x80) as nat, 1);
    }

    proof fn lemma_key_order(self, other: i8) {
        lemma_pow256_values();
        lemma_be_order((self + 0x80) as nat, (other + 0x80) as nat, 1);
    }
}

impl IndexKey for i16 {
    open spec fn key_spec(self) -> Seq<u8> {
        be_bytes((self + 0x8000) as nat, 2)
    }

    open spec fn key_eq(self, other: i16) -> bool {
        self == other
    }

    open spec fn key_lt(self, other: i16) -> bool {
        self < other
    }

    open spec fn key_decodable(s: Seq<u8>) -> bool {
        s.len() >= 2
    }

    open spec fn key_consumed(s: Seq<u8>) -> nat {
        2
    }

    open spec fn key_err(s: Seq<u8>) -> KeyError {
        KeyError::Truncated
    }

    open spec fn key_decodes_to(self, s: Seq<u8>) -> bool {
        self + 0x8000 == from_be(s.take(2))
    }

    fn to_key(self, result: &mut Vec<u8>) {
        proof {
            lemma_pow256_values();
        }
        let biased: u128 = ((self as i32) + 0x8000) as u128;
        be_encode(biased, 2, result);
    }

    fn from_key(key: &[u8], pos: &mut usize) -> (r: Result<i16, KeyError>) {
        proof {
            lemma_pow256_values();
        }
        match be_decode(key, pos, 2) {
            Ok(v) => {
                proof {
                    let s = key@.skip(*old(pos) as int);
                    assert(key@.subrange(*old(pos) as int, *old(pos) + 2) =~= s.take(2));
                    lemma_from_be_bound(s.take(2));
                }
                if v >= 0x8000 {
                    Ok((v - 0x8000) as i16)
                } else {
                    Ok((v as i16) + i16::MIN)
                }
            },
            Err(e) => Err(e),
        }
    }

    proof fn lemma_key_round_trip(self, rest: Seq<u8>) {
        lemma_pow256_values();
        lemma_be_round_trip((self + 0x8000) as nat, 2, rest);
    }

    proof fn lemma_key_decode_unique(self, other: i16, s: Seq<u8>) {
    }

    proof fn lemma_key_eq(self, other: i16) {
        lemma_pow256_values();
        lemma_be_eq((self + 0x8000) as nat, (other + 0x8000) as nat, 2);
    }

    proof fn lemma_key_order(self, other: i16) {
        lemma_pow256_values();
        lemma_be_order((self + 0x8000) as nat, (other + 0x8000) as nat, 2);
    }
}

impl IndexKey for i32 {
    open spec fn key_spec(self) -> Seq<u8> {
        be_bytes((self + 0x8000_0000) as nat, 4)
    }

    open spec fn key_eq(self, other: i32) -> bool {
        self == other
    }

    open spec fn key_lt(self, other: i32) -> bool {
        self < other
    }

    open spec fn key_decodable(s: Seq<u8>) -> bool {
        s.len() >= 4
    }

    open spec fn key_consumed(s: Seq<u8>) -> nat {
        4
    }

    open spec fn key_err(s: Seq<u8>) -> KeyError {
        KeyError::Truncated
    }

    open spec fn key_decodes_to(self, s: Seq<u8>) -> bool {
        self + 0x8000_0000 == from_be(s.take(4))
    }

    fn to_key(self, result: &mut Vec<u8>) {
        proof {
            lemma_pow256_values();
        }
        let biased: u128 = ((self as i64) + 0x8000_0000) as u128;
        be_encode(biased, 4, result);
    }

    fn from_key(key: &[u8], pos: &mut usize) -> (r: Result<i32, KeyError>) {
        proof {
            lemma_pow256_values();
        }
        match be_decode(key, pos, 4) {
            Ok(v) => {
                proof {
                    let s = key@.skip(*old(pos) as int);
                    assert(key@.subrange(*old(pos) as int, *old(pos) + 4) =~= s.take(4));
                    lemma_from_be_bound(s.take(4));
                }
                if v >= 0x8000_0000 {
                    Ok((v - 0x8000_0000) as i32)
                } else {
                    Ok((v as i32) + i32::MIN)
                }
            },
            Err(e) => Err(e),
        }
    }

    proof fn lemma_key_round_trip(self, rest: Seq<u8>) {
        lemma_pow256_values();
        lemma_be_round_trip((self + 0x8000_0000) as nat, 4, rest);
    }

    proof fn lemma_key_decode_unique(self, other: i32, s: Seq<u8>) {
    }

    proof fn lemma_key_eq(self, other: i32) {
        lemma_pow256_values();
        lemma_be_eq((self + 0x8000_0000) as nat, (other + 0x8000_0000) as nat, 4);
    }

    proof fn lemma_key_order(self, other: i32) {
        lemma_pow256_values();
        lemma_be_order((self + 0x8000_0000) as nat, (other + 0x8000_0000) as nat, 4);
    }
}

impl IndexKey for i64 {
    open spec fn key_spec(self) -> Seq<u8> {
        be_bytes((self + 0x8000_0000_0000_0000) as nat, 8)
    }

    open spec fn key_eq(self, other: i64) -> bool {
        self == other
    }

    open spec fn key_lt(self, other: i64) -> bool {
        self < other
    }

    open spec fn key_decodable(s: Seq<u8>) -> bool {
        s.len() >= 8
    }

    open spec fn key_consumed(s: Seq<u8>) -> nat {
        8
    }

    open spec fn key_err(s: Seq<u8>) -> KeyError {
        KeyError::Truncated
    }

    open spec fn key_decodes_to(self, s: Seq<u8>) -> bool {
        self + 0x8000_0000_0000_0000 == from_be(s.take(8))
    }

    fn to_key(self, result: &mut Vec<u8>) {
        proof {
            lemma_pow256_values();
        }
        let biased: u128 = ((self as i128) + 0x8000_0000_0000_0000) as u128;
        be_encode(biased, 8, result);
    }

    fn from_key(key: &[u8], pos: &mut usize) -> (r: Result<i64, KeyError>) {
        proof {
            lemma_pow256_values();
        }
        match be_decode(key, pos, 8) {
            Ok(v) => {
                proof {
                    let s = key@.skip(*old(pos) as int);
                    assert(key@.subrange(*old(pos) as int, *old(pos) + 8) =~= s.take(8));
                    lemma_from_be_bound(s.take(8));
                }
                if v >= 0x8000_0000_0000_0000 {
                    Ok((v - 0x8000_0000_0000_0000) as i64)
                } else {
                    Ok((v as i64) + i64::MIN)
                }
            },
            Err(e) => Err(e),
        }
    }

    proof fn lemma_key_round_trip(self, rest: Seq<u8>) {
        lemma_pow256_values();
        lemma_be_round_trip((self + 0x8000_0000_0000_0000) as nat, 8, rest);
    }

    proof fn lemma_key_decode_unique(self, other: i64, s: Seq<u8>) {
    }

    proof fn lemma_key_eq(self, other: i64) {
        lemma_pow256_values();
        lemma_be_eq((self + 0x8000_0000_0000_0000) as nat, (other + 0x8000_0000_0000_0000) as nat, 8);
    }

    proof fn lemma_key_order(self, other: i64) {
        lemma_pow256_values();
        lemma_be_order((self + 0x8000_0000_0000_0000) as nat, (other + 0x8000_0000_0000_0000) as nat, 8);
    }
}

impl IndexKey for i128 {
    open spec fn key_spec(self) -> Seq<u8> {
        be_bytes((self + 0x8000_0000_0000_0000_0000_0000_0000_0000) as nat, 16)
    }

    open spec fn key_eq(self, other: i128) -> bool {
        self == other
    }

    open spec fn key_lt(self, other: i128) -> bool {
        self < other
    }

    open spec fn key_decodable(s: Seq<u8>) -> bool {
        s.len() >= 16
    }

    open spec fn key_consumed(s: Seq<u8>) -> nat {
        16
    }

    open spec fn key_err(s: Seq<u8>) -> KeyError {
        KeyError::Truncated
    }

    open spec fn key_decodes_to(self, s: Seq<u8>) -> bool {
        self + 0x8000_0000_0000_0000_0000_0000_0000_0000 == from_be(s.take(16))
    }

    fn to_key(self, result: &mut Vec<u8>) {
        proof {
            lemma_pow256_values();
        }
        let biased: u128 = if self >= 0 {
            (self as u128) + 0x8000_0000_0000_0000_0000_0000_0000_0000
        } else {
            (self - i128::MIN) as u128
        };
        be_encode(biased, 16, result);
    }

    fn from_key(key: &[u8], pos: &mut usize) -> (r: Result<i128, KeyError>) {
        proof {
            lemma_pow256_values();
        }
        match be_decode(key, pos, 16) {
            Ok(v) => {
                proof {
                    let s = key@.skip(*old(pos) as int);
                    assert(key@.subrange(*old(pos) as int, *old(pos) + 16) =~= s.take(16));
                    lemma_from_be_bound(s.take(16));
                }
                if v >= 0x8000_0000_0000_0000_0000_0000_0000_0000 {
                    Ok((v - 0x8000_0000_0000_0000_0000_0000_0000_0000) as i128)
                } else {
                    Ok((v as i128) + i128::MIN)
                }
            },
            Err(e) => Err(e),
        }
    }

    proof fn lemma_key_round_trip(self, rest: Seq<u8>) {
        lemma_pow256_values();
        lemma_be_round_trip((self + 0x8000_0000_0000_0000_0000_0000_0000_0000) as nat, 16, rest);
    }

    proof fn lemma_key_decode_unique(self, other: i128, s: Seq<u8>) {
    }

    proof fn lemma_key_eq(self, other: i128) {
        lemma_pow256_values();
        lemma_be_eq((self + 0x8000_0000_0000_0000_0000_0000_0000_0000) as nat, (other + 0x8000_0000_0000_0000_0000_0000_0000_0000) as nat, 16);
    }

    proof fn lemma_key_order(self, other: i128) {
        lemma_pow256_values();
        lemma_be_order((self + 0x8000_0000_0000_0000_0000_0000_0000_0000) as nat, (other + 0x8000_0000_0000_0000_0000_0000_0000_0000) as nat, 16);
    }
}

} // verus!
