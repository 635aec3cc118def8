//! `IndexKey` for fixed-arity tuples: the composite codec.
//!
//! A tuple encodes as the plain concatenation of its members' encodings,
//! in declared order, with no length or type tags; every member encoding
//! is self-delimiting, so a decoder consumes the fields one at a time.
//! Tuple order is lexicographic over the members: the first member
//! dominates, ties fall to the next. Concatenation is associative, so a
//! longer tuple encodes exactly as a pair of its leading members and its
//! last member; the implementations for arity three and up delegate to
//! the pair accordingly, leaving the wire format unchanged.

use vstd::prelude::*;

use crate::errors::KeyError;
use crate::key::{lemma_key_prefix_free, IndexKey};
use crate::order::{
    is_prefix, lemma_lex_append_eq, lemma_lex_append_lt, lemma_lex_asym, lemma_lex_irrefl,
    lemma_lex_total, lex_lt,
};

verus! {

impl<A: IndexKey, B: IndexKey> IndexKey for (A, B) {
    open spec fn key_spec(self) -> Seq<u8> {
        self.0.key_spec() + self.1.key_spec()
    }

    open spec fn key_eq(self, other: (A, B)) -> bool {
        self.0.key_eq(other.0) && self.1.key_eq(other.1)
    }

    open spec fn key_lt(self, other: (A, B)) -> bool {
        self.0.key_lt(other.0) || (self.0.key_eq(other.0) && self.1.key_lt(other.1))
    }

    open spec fn key_decodable(s: Seq<u8>) -> bool {
        A::key_decodable(s) && B::key_decodable(s.skip(A::key_consumed(s) as int))
    }

    open spec fn key_consumed(s: Seq<u8>) -> nat {
        A::key_consumed(s) + B::key_consumed(s.skip(A::key_consumed(s) as int))
    }

    open spec fn key_err(s: Seq<u8>) -> KeyError {
        if !A::key_decodable(s) {
            A::key_err(s)
        } else {
            B::key_err(s.skip(A::key_consumed(s) as int))
        }
    }

    open spec fn key_decodes_to(self, s: Seq<u8>) -> bool {
        self.0.key_decodes_to(s) && self.1.key_decodes_to(s.skip(A::key_consumed(s) as int))
    }

    fn to_key(self, result: &mut Vec<u8>) {
        let (a, b) = self;
        let ghost sa = a.key_spec();
        let ghost sb = b.key_spec();
        a.to_key(result);
        b.to_key(result);
        proof {
            assert((old(result)@ + sa) + sb =~= old(result)@ + (sa + sb));
        }
    }

    fn from_key(key: &[u8], pos: &mut usize) -> (r: Result<(A, B), KeyError>) {
        let start = *pos;
        match A::from_key(key, pos) {
            Err(e) => Err(e),
            Ok(a) => {
                proof {
                    let s = key@.skip(start as int);
                    assert(key@.skip(start + A::key_consumed(s)) =~= s.skip(
                        A::key_consumed(s) as int,
                    ));
                }
                match B::from_key(key, pos) {
                    Err(e) => {
                        *pos = start;
                        Err(e)
                    },
                    Ok(b) => Ok((a, b)),
                }
            },
        }
    }

    proof fn lemma_key_round_trip(self, rest: Seq<u8>) {
        let a = self.0;
        let b = self.1;
        let sa = a.key_spec();
        let sb = b.key_spec();
        let full = self.key_spec() + rest;
        a.lemma_key_round_trip(sb + rest);
        assert(sa + (sb + rest) =~= full);
        b.lemma_key_round_trip(rest);
        assert(full.skip(sa.len() as int) =~= sb + rest);
    }

    proof fn lemma_key_decode_unique(self, other: (A, B), s: Seq<u8>) {
        if self.key_decodes_to(s) && other.key_decodes_to(s) {
            self.0.lemma_key_decode_unique(other.0, s);
            self.1.lemma_key_decode_unique(other.1, s.skip(A::key_consumed(s) as int));
        }
    }

    proof fn lemma_key_eq(self, other: (A, B)) {
        let sa1 = self.0.key_spec();
        let sb1 = self.1.key_spec();
        let sa2 = other.0.key_spec();
        let sb2 = other.1.key_spec();
        self.0.lemma_key_eq(other.0);
        self.1.lemma_key_eq(other.1);
        if self.key_eq(other) {
            assert(self.key_spec() =~= other.key_spec());
        }
        if self.key_spec() == other.key_spec() {
            assert(sa1 == sa2) by {
                if sa1.len() <= sa2.len() {
                    assert(is_prefix(sa1, sa2)) by {
                        assert forall|i: int| 0 <= i < sa1.len() implies sa2.take(sa1.len() as int)[i]
                            == sa1[i] by {
                            assert((sa1 + sb1)[i] == sa1[i]);
                            assert((sa2 + sb2)[i] == sa2[i]);
                        }
                        assert(sa2.take(sa1.len() as int) =~= sa1);
                    }
                    lemma_key_prefix_free(self.0, other.0);
                } else {
                    assert(is_prefix(sa2, sa1)) by {
                        assert forall|i: int| 0 <= i < sa2.len() implies sa1.take(sa2.len() as int)[i]
                            == sa2[i] by {
                            assert((sa1 + sb1)[i] == sa1[i]);
                            assert((sa2 + sb2)[i] == sa2[i]);
                        }
                        assert(sa1.take(sa2.len() as int) =~= sa2);
                    }
                    lemma_key_prefix_free(other.0, self.0);
                }
            }
            assert(sb1 =~= sb2) by {
                assert((sa1 + sb1).len() == (sa2 + sb2).len());
                assert(sb1.len() == sb2.len());
                assert forall|i: int| 0 <= i < sb1.len() implies sb1[i] == sb2[i] by {
                    assert((sa1 + sb1)[sa1.len() + i] == sb1[i]);
                    assert((sa2 + sb2)[sa2.len() + i] == sb2[i]);
                }
            }
        }
    }

    proof fn lemma_key_order(self, other: (A, B)) {
        let a1 = self.0;
        let b1 = self.1;
        let a2 = other.0;
        let b2 = other.1;
        let sa1 = a1.key_spec();
        let sb1 = b1.key_spec();
        let sa2 = a2.key_spec();
        let sb2 = b2.key_spec();
        a1.lemma_key_eq(a2);
        a1.lemma_key_order(a2);
        b1.lemma_key_order(b2);
        if a1.key_eq(a2) {
            lemma_lex_append_eq(sa1, sb1, sb2);
            lemma_lex_irrefl(sa1);
        } else {
            if is_prefix(sa1, sa2) {
                lemma_key_prefix_free(a1, a2);
            }
            if is_prefix(sa2, sa1) {
                lemma_key_prefix_free(a2, a1);
            }
            lemma_lex_total(sa1, sa2);
            if lex_lt(sa1, sa2) {
                lemma_lex_append_lt(sa1, sa2, sb1, sb2);
            } else {
                lemma_lex_append_lt(sa2, sa1, sb2, sb1);
                lemma_lex_asym(sa1 + sb1, sa2 + sb2);
                lemma_lex_asym(sa1, sa2);
            }
        }
    }
}

impl<T1: IndexKey, T2: IndexKey, T3: IndexKey> IndexKey for (T1, T2, T3) {
    open spec fn key_spec(self) -> Seq<u8> {
        ((self.0, self.1), self.2).key_spec()
    }

    open spec fn key_eq(self, other: (T1, T2, T3)) -> bool {
        ((self.0, self.1), self.2).key_eq(((other.0, other.1), other.2))
    }

    open spec fn key_lt(self, other: (T1, T2, T3)) -> bool {
        ((self.0, self.1), self.2).key_lt(((other.0, other.1), other.2))
    }

    open spec fn key_decodable(s: Seq<u8>) -> bool {
        <((T1, T2), T3) as IndexKey>::key_decodable(s)
    }

    open spec fn key_consumed(s: Seq<u8>) -> nat {
        <((T1, T2), T3) as IndexKey>::key_consumed(s)
    }

    open spec fn key_err(s: Seq<u8>) -> KeyError {
        <((T1, T2), T3) as IndexKey>::key_err(s)
    }

    open spec fn key_decodes_to(self, s: Seq<u8>) -> bool {
        ((self.0, self.1), self.2).key_decodes_to(s)
    }

    fn to_key(self, result: &mut Vec<u8>) {
        let (x0, x1, x2) = self;
        ((x0, x1), x2).to_key(result);
    }

    fn from_key(key: &[u8], pos: &mut usize) -> (r: Result<(T1, T2, T3), KeyError>) {
        match <((T1, T2), T3) as IndexKey>::from_key(key, pos) {
            Ok(((x0, x1), x2)) => Ok((x0, x1, x2)),
            Err(e) => Err(e),
        }
    }

    proof fn lemma_key_round_trip(self, rest: Seq<u8>) {
        ((self.0, self.1), self.2).lemma_key_round_trip(rest);
    }

    proof fn lemma_key_decode_unique(self, other: (T1, T2, T3), s: Seq<u8>) {
        ((self.0, self.1), self.2).lemma_key_decode_unique(((other.0, other.1), other.2), s);
    }

    proof fn lemma_key_eq(self, other: (T1, T2, T3)) {
        ((self.0, self.1), self.2).lemma_key_eq(((other.0, other.1), other.2));
    }

    proof fn lemma_key_order(self, other: (T1, T2, T3)) {
        ((self.0, self.1), self.2).lemma_key_order(((other.0, other.1), other.2));
    }
}

impl<T1: IndexKey, T2: IndexKey, T3: IndexKey, T4: IndexKey> IndexKey for (T1, T2, T3, T4) {
    open spec fn key_spec(self) -> Seq<u8> {
        ((self.0, self.1, self.2), self.3).key_spec()
    }

    open spec fn key_eq(self, other: (T1, T2, T3, T4)) -> bool {
        ((self.0, self.1, self.2), self.3).key_eq(((other.0, other.1, other.2), other.3))
    }

    open spec fn key_lt(self, other: (T1, T2, T3, T4)) -> bool {
        ((self.0, self.1, self.2), self.3).key_lt(((other.0, other.1, other.2), other.3))
    }

    open spec fn key_decodable(s: Seq<u8>) -> bool {
        <((T1, T2, T3), T4) as IndexKey>::key_decodable(s)
    }

    open spec fn key_consumed(s: Seq<u8>) -> nat {
        <((T1, T2, T3), T4) as IndexKey>::key_consumed(s)
    }

    open spec fn key_err(s: Seq<u8>) -> KeyError {
        <((T1, T2, T3), T4) as IndexKey>::key_err(s)
    }

    open spec fn key_decodes_to(self, s: Seq<u8>) -> bool {
        ((self.0, self.1, self.2), self.3).key_decodes_to(s)
    }

    fn to_key(self, result: &mut Vec<u8>) {
        let (x0, x1, x2, x3) = self;
        ((x0, x1, x2), x3).to_key(result);
    }

    fn from_key(key: &[u8], pos: &mut usize) -> (r: Result<(T1, T2, T3, T4), KeyError>) {
        match <((T1, T2, T3), T4) as IndexKey>::from_key(key, pos) {
            Ok(((x0, x1, x2), x3)) => Ok((x0, x1, x2, x3)),
            Err(e) => Err(e),
        }
    }

    proof fn lemma_key_round_trip(self, rest: Seq<u8>) {
        ((self.0, self.1, self.2), self.3).lemma_key_round_trip(rest);
    }

    proof fn lemma_key_decode_unique(self, other: (T1, T2, T3, T4), s: Seq<u8>) {
        ((self.0, self.1, self.2), self.3).lemma_key_decode_unique(((other.0, other.1, other.2), other.3), s);
    }

    proof fn lemma_key_eq(self, other: (T1, T2, T3, T4)) {
        ((self.0, self.1, self.2), self.3).lemma_key_eq(((other.0, other.1, other.2), other.3));
    }

    proof fn lemma_key_order(self, other: (T1, T2, T3, T4)) {
        ((self.0, self.1, self.2), self.3).lemma_key_order(((other.0, other.1, other.2), other.3));
    }
}

impl<T1: IndexKey, T2: IndexKey, T3: IndexKey, T4: IndexKey, T5: IndexKey> IndexKey for (T1, T2, T3, T4, T5) {
    open spec fn key_spec(self) -> Seq<u8> {
        ((self.0, self.1, self.2, self.3), self.4).key_spec()
    }

    open spec fn key_eq(self, other: (T1, T2, T3, T4, T5)) -> bool {
        ((self.0, self.1, self.2, self.3), self.4).key_eq(((other.0, other.1, other.2, other.3), other.4))
    }

    open spec fn key_lt(self, other: (T1, T2, T3, T4, T5)) -> bool {
        ((self.0, self.1, self.2, self.3), self.4).key_lt(((other.0, other.1, other.2, other.3), other.4))
    }

    open spec fn key_decodable(s: Seq<u8>) -> bool {
        <((T1, T2, T3, T4), T5) as IndexKey>::key_decodable(s)
    }

    open spec fn key_consumed(s: Seq<u8>) -> nat {
        <((T1, T2, T3, T4), T5) as IndexKey>::key_consumed(s)
    }

    open spec fn key_err(s: Seq<u8>) -> KeyError {
        <((T1, T2, T3, T4), T5) as IndexKey>::key_err(s)
    }

    open spec fn key_decodes_to(self, s: Seq<u8>) -> bool {
        ((self.0, self.1, self.2, self.3), self.4).key_decodes_to(s)
    }

    fn to_key(self, result: &mut Vec<u8>) {
        let (x0, x1, x2, x3, x4) = self;
        ((x0, x1, x2, x3), x4).to_key(result);
    }

    fn from_key(key: &[u8], pos: &mut usize) -> (r: Result<(T1, T2, T3, T4, T5), KeyError>) {
        match <((T1, T2, T3, T4), T5) as IndexKey>::from_key(key, pos) {
            Ok(((x0, x1, x2, x3), x4)) => Ok((x0, x1, x2, x3, x4)),
            Err(e) => Err(e),
        }
    }

    proof fn lemma_key_round_trip(self, rest: Seq<u8>) {
        ((self.0, self.1, self.2, self.3), self.4).lemma_key_round_trip(rest);
    }

    proof fn lemma_key_decode_unique(self, other: (T1, T2, T3, T4, T5), s: Seq<u8>) {
        ((self.0, self.1, self.2, self.3), self.4).lemma_key_decode_unique(((other.0, other.1, other.2, other.3), other.4), s);
    }

    proof fn lemma_key_eq(self, other: (T1, T2, T3, T4, T5)) {
        ((self.0, self.1, self.2, self.3), self.4).lemma_key_eq(((other.0, other.1, other.2, other.3), other.4));
    }

    proof fn lemma_key_order(self, other: (T1, T2, T3, T4, T5)) {
        ((self.0, self.1, self.2, self.3), self.4).lemma_key_order(((other.0, other.1, other.2, other.3), other.4));
    }
}

impl<T1: IndexKey, T2: IndexKey, T3: IndexKey, T4: IndexKey, T5: IndexKey, T6: IndexKey> IndexKey for (T1, T2, T3, T4, T5, T6) {
    open spec fn key_spec(self) -> Seq<u8> {
        ((self.0, self.1, self.2, self.3, self.4), self.5).key_spec()
    }

    open spec fn key_eq(self, other: (T1, T2, T3, T4, T5, T6)) -> bool {
        ((self.0, self.1, self.2, self.3, self.4), self.5).key_eq(((other.0, other.1, other.2, other.3, other.4), other.5))
    }

    open spec fn key_lt(self, other: (T1, T2, T3, T4, T5, T6)) -> bool {
        ((self.0, self.1, self.2, self.3, self.4), self.5).key_lt(((other.0, other.1, other.2, other.3, other.4), other.5))
    }

    open spec fn key_decodable(s: Seq<u8>) -> bool {
        <((T1, T2, T3, T4, T5), T6) as IndexKey>::key_decodable(s)
    }

    open spec fn key_consumed(s: Seq<u8>) -> nat {
        <((T1, T2, T3, T4, T5), T6) as IndexKey>::key_consumed(s)
    }

    open spec fn key_err(s: Seq<u8>) -> KeyError {
        <((T1, T2, T3, T4, T5), T6) as IndexKey>::key_err(s)
    }

    open spec fn key_decodes_to(self, s: Seq<u8>) -> bool {
        ((self.0, self.1, self.2, self.3, self.4), self.5).key_decodes_to(s)
    }

    fn to_key(self, result: &mut Vec<u8>) {
        let (x0, x1, x2, x3, x4, x5) = self;
        ((x0, x1, x2, x3, x4), x5).to_key(result);
    }

    fn from_key(key: &[u8], pos: &mut usize) -> (r: Result<(T1, T2, T3, T4, T5, T6), KeyError>) {
        match <((T1, T2, T3, T4, T5), T6) as IndexKey>::from_key(key, pos) {
            Ok(((x0, x1, x2, x3, x4), x5)) => Ok((x0, x1, x2, x3, x4, x5)),
            Err(e) => Err(e),
        }
    }

    proof fn lemma_key_round_trip(self, rest: Seq<u8>) {
        ((self.0, self.1, self.2, self.3, self.4), self.5).lemma_key_round_trip(rest);
    }

    proof fn lemma_key_decode_unique(self, other: (T1, T2, T3, T4, T5, T6), s: Seq<u8>) {
        ((self.0, self.1, self.2, self.3, self.4), self.5).lemma_key_decode_unique(((other.0, other.1, other.2, other.3, other.4), other.5), s);
    }

    proof fn lemma_key_eq(self, other: (T1, T2, T3, T4, T5, T6)) {
        ((self.0, self.1, self.2, self.3, self.4), self.5).lemma_key_eq(((other.0, other.1, other.2, other.3, other.4), other.5));
    }

    proof fn lemma_key_order(self, other: (T1, T2, T3, T4, T5, T6)) {
        ((self.0, self.1, self.2, self.3, self.4), self.5).lemma_key_order(((other.0, other.1, other.2, other.3, other.4), other.5));
    }
}

impl<T1: IndexKey, T2: IndexKey, T3: IndexKey, T4: IndexKey, T5: IndexKey, T6: IndexKey, T7: IndexKey> IndexKey for (T1, T2, T3, T4, T5, T6, T7) {
    open spec fn key_spec(self) -> Seq<u8> {
        ((self.0, self.1, self.2, self.3, self.4, self.5), self.6).key_spec()
    }

    open spec fn key_eq(self, other: (T1, T2, T3, T4, T5, T6, T7)) -> bool {
        ((self.0, self.1, self.2, self.3, self.4, self.5), self.6).key_eq(((other.0, other.1, other.2, other.3, other.4, other.5), other.6))
    }

    open spec fn key_lt(self, other: (T1, T2, T3, T4, T5, T6, T7)) -> bool {
        ((self.0, self.1, self.2, self.3, self.4, self.5), self.6).key_lt(((other.0, other.1, other.2, other.3, other.4, other.5), other.6))
    }

    open spec fn key_decodable(s: Seq<u8>) -> bool {
        <((T1, T2, T3, T4, T5, T6), T7) as IndexKey>::key_decodable(s)
    }

    open spec fn key_consumed(s: Seq<u8>) -> nat {
        <((T1, T2, T3, T4, T5, T6), T7) as IndexKey>::key_consumed(s)
    }

    open spec fn key_err(s: Seq<u8>) -> KeyError {
        <((T1, T2, T3, T4, T5, T6), T7) as IndexKey>::key_err(s)
    }

    open spec fn key_decodes_to(self, s: Seq<u8>) -> bool {
        ((self.0, self.1, self.2, self.3, self.4, self.5), self.6).key_decodes_to(s)
    }

    fn to_key(self, result: &mut Vec<u8>) {
        let (x0, x1, x2, x3, x4, x5, x6) = self;
        ((x0, x1, x2, x3, x4, x5), x6).to_key(result);
    }

    fn from_key(key: &[u8], pos: &mut usize) -> (r: Result<(T1, T2, T3, T4, T5, T6, T7), KeyError>) {
        match <((T1, T2, T3, T4, T5, T6), T7) as IndexKey>::from_key(key, pos) {
            Ok(((x0, x1, x2, x3, x4, x5), x6)) => Ok((x0, x1, x2, x3, x4, x5, x6)),
            Err(e) => Err(e),
        }
    }

    proof fn lemma_key_round_trip(self, rest: Seq<u8>) {
        ((self.0, self.1, self.2, self.3, self.4, self.5), self.6).lemma_key_round_trip(rest);
    }

    proof fn lemma_key_decode_unique(self, other: (T1, T2, T3, T4, T5, T6, T7), s: Seq<u8>) {
        ((self.0, self.1, self.2, self.3, self.4, self.5), self.6).lemma_key_decode_unique(((other.0, other.1, other.2, other.3, other.4, other.5), other.6), s);
    }

    proof fn lemma_key_eq(self, other: (T1, T2, T3, T4, T5, T6, T7)) {
        ((self.0, self.1, self.2, self.3, self.4, self.5), self.6).lemma_key_eq(((other.0, other.1, other.2, other.3, other.4, other.5), other.6));
    }

    proof fn lemma_key_order(self, other: (T1, T2, T3, T4, T5, T6, T7)) {
        ((self.0, self.1, self.2, self.3, self.4, self.5), self.6).lemma_key_order(((other.0, other.1, other.2, other.3, other.4, other.5), other.6));
    }
}

impl<T1: IndexKey, T2: IndexKey, T3: IndexKey, T4: IndexKey, T5: IndexKey, T6: IndexKey, T7: IndexKey, T8: IndexKey> IndexKey for (T1, T2, T3, T4, T5, T6, T7, T8) {
    open spec fn key_spec(self) -> Seq<u8> {
        ((self.0, self.1, self.2, self.3, self.4, self.5, self.6), self.7).key_spec()
    }

    open spec fn key_eq(self, other: (T1, T2, T3, T4, T5, T6, T7, T8)) -> bool {
        ((self.0, self.1, self.2, self.3, self.4, self.5, self.6), self.7).key_eq(((other.0, other.1, other.2, other.3, other.4, other.5, other.6), other.7))
    }

    open spec fn key_lt(self, other: (T1, T2, T3, T4, T5, T6, T7, T8)) -> bool {
        ((self.0, self.1, self.2, self.3, self.4, self.5, self.6), self.7).key_lt(((other.0, other.1, other.2, other.3, other.4, other.5, other.6), other.7))
    }

    open spec fn key_decodable(s: Seq<u8>) -> bool {
        <((T1, T2, T3, T4, T5, T6, T7), T8) as IndexKey>::key_decodable(s)
    }

    open spec fn key_consumed(s: Seq<u8>) -> nat {
        <((T1, T2, T3, T4, T5, T6, T7), T8) as IndexKey>::key_consumed(s)
    }

    open spec fn key_err(s: Seq<u8>) -> KeyError {
        <((T1, T2, T3, T4, T5, T6, T7), T8) as IndexKey>::key_err(s)
    }

    open spec fn key_decodes_to(self, s: Seq<u8>) -> bool {
        ((self.0, self.1, self.2, self.3, self.4, self.5, self.6), self.7).key_decodes_to(s)
    }

    fn to_key(self, result: &mut Vec<u8>) {
        let (x0, x1, x2, x3, x4, x5, x6, x7) = self;
        ((x0, x1, x2, x3, x4, x5, x6), x7).to_key(result);
    }

    fn from_key(key: &[u8], pos: &mut usize) -> (r: Result<(T1, T2, T3, T4, T5, T6, T7, T8), KeyError>) {
        match <((T1, T2, T3, T4, T5, T6, T7), T8) as IndexKey>::from_key(key, pos) {
            Ok(((x0, x1, x2, x3, x4, x5, x6), x7)) => Ok((x0, x1, x2, x3, x4, x5, x6, x7)),
            Err(e) => Err(e),
        }
    }

    proof fn lemma_key_round_trip(self, rest: Seq<u8>) {
        ((self.0, self.1, self.2, self.3, self.4, self.5, self.6), self.7).lemma_key_round_trip(rest);
    }

    proof fn lemma_key_decode_unique(self, other: (T1, T2, T3, T4, T5, T6, T7, T8), s: Seq<u8>) {
        ((self.0, self.1, self.2, self.3, self.4, self.5, self.6), self.7).lemma_key_decode_unique(((other.0, other.1, other.2, other.3, other.4, other.5, other.6), other.7), s);
    }

    proof fn lemma_key_eq(self, other: (T1, T2, T3, T4, T5, T6, T7, T8)) {
        ((self.0, self.1, self.2, self.3, self.4, self.5, self.6), self.7).lemma_key_eq(((other.0, other.1, other.2, other.3, other.4, other.5, other.6), other.7));
    }

    proof fn lemma_key_order(self, other: (T1, T2, T3, T4, T5, T6, T7, T8)) {
        ((self.0, self.1, self.2, self.3, self.4, self.5, self.6), self.7).lemma_key_order(((other.0, other.1, other.2, other.3, other.4, other.5, other.6), other.7));
    }
}

impl<T1: IndexKey, T2: IndexKey, T3: IndexKey, T4: IndexKey, T5: IndexKey, T6: IndexKey, T7: IndexKey, T8: IndexKey, T9: IndexKey> IndexKey for (T1, T2, T3, T4, T5, T6, T7, T8, T9) {
    open spec fn key_spec(self) -> Seq<u8> {
        ((self.0, self.1, self.2, self.3, self.4, self.5, self.6, self.7), self.8).key_spec()
    }

    open spec fn key_eq(self, other: (T1, T2, T3, T4, T5, T6, T7, T8, T9)) -> bool {
        ((self.0, self.1, self.2, self.3, self.4, self.5, self.6, self.7), self.8).key_eq(((other.0, other.1, other.2, other.3, other.4, other.5, other.6, other.7), other.8))
    }

    open spec fn key_lt(self, other: (T1, T2, T3, T4, T5, T6, T7, T8, T9)) -> bool {
        ((self.0, self.1, self.2, self.3, self.4, self.5, self.6, self.7), self.8).key_lt(((other.0, other.1, other.2, other.3, other.4, other.5, other.6, other.7), other.8))
    }

    open spec fn key_decodable(s: Seq<u8>) -> bool {
        <((T1, T2, T3, T4, T5, T6, T7, T8), T9) as IndexKey>::key_decodable(s)
    }

    open spec fn key_consumed(s: Seq<u8>) -> nat {
        <((T1, T2, T3, T4, T5, T6, T7, T8), T9) as IndexKey>::key_consumed(s)
    }

    open spec fn key_err(s: Seq<u8>) -> KeyError {
        <((T1, T2, T3, T4, T5, T6, T7, T8), T9) as IndexKey>::key_err(s)
    }

    open spec fn key_decodes_to(self, s: Seq<u8>) -> bool {
        ((self.0, self.1, self.2, self.3, self.4, self.5, self.6, self.7), self.8).key_decodes_to(s)
    }

    fn to_key(self, result: &mut Vec<u8>) {
        let (x0, x1, x2, x3, x4, x5, x6, x7, x8) = self;
        ((x0, x1, x2, x3, x4, x5, x6, x7), x8).to_key(result);
    }

    fn from_key(key: &[u8], pos: &mut usize) -> (r: Result<(T1, T2, T3, T4, T5, T6, T7, T8, T9), KeyError>) {
        match <((T1, T2, T3, T4, T5, T6, T7, T8), T9) as IndexKey>::from_key(key, pos) {
            Ok(((x0, x1, x2, x3, x4, x5, x6, x7), x8)) => Ok((x0, x1, x2, x3, x4, x5, x6, x7, x8)),
            Err(e) => Err(e),
        }
    }

    proof fn lemma_key_round_trip(self, rest: Seq<u8>) {
        ((self.0, self.1, self.2, self.3, self.4, self.5, self.6, self.7), self.8).lemma_key_round_trip(rest);
    }

    proof fn lemma_key_decode_unique(self, other: (T1, T2, T3, T4, T5, T6, T7, T8, T9), s: Seq<u8>) {
        ((self.0, self.1, self.2, self.3, self.4, self.5, self.6, self.7), self.8).lemma_key_decode_unique(((other.0, other.1, other.2, other.3, other.4, other.5, other.6, other.7), other.8), s);
    }

    proof fn lemma_key_eq(self, other: (T1, T2, T3, T4, T5, T6, T7, T8, T9)) {
        ((self.0, self.1, self.2, self.3, self.4, self.5, self.6, self.7), self.8).lemma_key_eq(((other.0, other.1, other.2, other.3, other.4, other.5, other.6, other.7), other.8));
    }

    proof fn lemma_key_order(self, other: (T1, T2, T3, T4, T5, T6, T7, T8, T9)) {
        ((self.0, self.1, self.2, self.3, self.4, self.5, self.6, self.7), self.8).lemma_key_order(((other.0, other.1, other.2, other.3, other.4, other.5, other.6, other.7), other.8));
    }
}

impl<T1: IndexKey, T2: IndexKey, T3: IndexKey, T4: IndexKey, T5: IndexKey, T6: IndexKey, T7: IndexKey, T8: IndexKey, T9: IndexKey, T10: IndexKey> IndexKey for (T1, T2, T3, T4, T5, T6, T7, T8, T9, T10) {
    open spec fn key_spec(self) -> Seq<u8> {
        ((self.0, self.1, self.2, self.3, self.4, self.5, self.6, self.7, self.8), self.9).key_spec()
    }

    open spec fn key_eq(self, other: (T1, T2, T3, T4, T5, T6, T7, T8, T9, T10)) -> bool {
        ((self.0, self.1, self.2, self.3, self.4, self.5, self.6, self.7, self.8), self.9).key_eq(((other.0, other.1, other.2, other.3, other.4, other.5, other.6, other.7, other.8), other.9))
    }

    open spec fn key_lt(self, other: (T1, T2, T3, T4, T5, T6, T7, T8, T9, T10)) -> bool {
        ((self.0, self.1, self.2, self.3, self.4, self.5, self.6, self.7, self.8), self.9).key_lt(((other.0, other.1, other.2, other.3, other.4, other.5, other.6, other.7, other.8), other.9))
    }

    open spec fn key_decodable(s: Seq<u8>) -> bool {
        <((T1, T2, T3, T4, T5, T6, T7, T8, T9), T10) as IndexKey>::key_decodable(s)
    }

    open spec fn key_consumed(s: Seq<u8>) -> nat {
        <((T1, T2, T3, T4, T5, T6, T7, T8, T9), T10) as IndexKey>::key_consumed(s)
    }

    open spec fn key_err(s: Seq<u8>) -> KeyError {
        <((T1, T2, T3, T4, T5, T6, T7, T8, T9), T10) as IndexKey>::key_err(s)
    }

    open spec fn key_decodes_to(self, s: Seq<u8>) -> bool {
        ((self.0, self.1, self.2, self.3, self.4, self.5, self.6, self.7, self.8), self.9).key_decodes_to(s)
    }

    fn to_key(self, result: &mut Vec<u8>) {
        let (x0, x1, x2, x3, x4, x5, x6, x7, x8, x9) = self;
        ((x0, x1, x2, x3, x4, x5, x6, x7, x8), x9).to_key(result);
    }

    fn from_key(key: &[u8], pos: &mut usize) -> (r: Result<(T1, T2, T3, T4, T5, T6, T7, T8, T9, T10), KeyError>) {
        match <((T1, T2, T3, T4, T5, T6, T7, T8, T9), T10) as IndexKey>::from_key(key, pos) {
            Ok(((x0, x1, x2, x3, x4, x5, x6, x7, x8), x9)) => Ok((x0, x1, x2, x3, x4, x5, x6, x7, x8, x9)),
            Err(e) => Err(e),
        }
    }

    proof fn lemma_key_round_trip(self, rest: Seq<u8>) {
        ((self.0, self.1, self.2, self.3, self.4, self.5, self.6, self.7, self.8), self.9).lemma_key_round_trip(rest);
    }

    proof fn lemma_key_decode_unique(self, other: (T1, T2, T3, T4, T5, T6, T7, T8, T9, T10), s: Seq<u8>) {
        ((self.0, self.1, self.2, self.3, self.4, self.5, self.6, self.7, self.8), self.9).lemma_key_decode_unique(((other.0, other.1, other.2, other.3, other.4, other.5, other.6, other.7, other.8), other.9), s);
    }

    proof fn lemma_key_eq(self, other: (T1, T2, T3, T4, T5, T6, T7, T8, T9, T10)) {
        ((self.0, self.1, self.2, self.3, self.4, self.5, self.6, self.7, self.8), self.9).lemma_key_eq(((other.0, other.1, other.2, other.3, other.4, other.5, other.6, other.7, other.8), other.9));
    }

    proof fn lemma_key_order(self, other: (T1, T2, T3, T4, T5, T6, T7, T8, T9, T10)) {
        ((self.0, self.1, self.2, self.3, self.4, self.5, self.6, self.7, self.8), self.9).lemma_key_order(((other.0, other.1, other.2, other.3, other.4, other.5, other.6, other.7, other.8), other.9));
    }
}

impl<T1: IndexKey, T2: IndexKey, T3: IndexKey, T4: IndexKey, T5: IndexKey, T6: IndexKey, T7: IndexKey, T8: IndexKey, T9: IndexKey, T10: IndexKey, T11: IndexKey> IndexKey for (T1, T2, T3, T4, T5, T6, T7, T8, T9, T10, T11) {
    open spec fn key_spec(self) -> Seq<u8> {
        ((self.0, self.1, self.2, self.3, self.4, self.5, self.6, self.7, self.8, self.9), self.10).key_spec()
    }

    open spec fn key_eq(self, other: (T1, T2, T3, T4, T5, T6, T7, T8, T9, T10, T11)) -> bool {
        ((self.0, self.1, self.2, self.3, self.4, self.5, self.6, self.7, self.8, self.9), self.10).key_eq(((other.0, other.1, other.2, other.3, other.4, other.5, other.6, other.7, other.8, other.9), other.10))
    }

    open spec fn key_lt(self, other: (T1, T2, T3, T4, T5, T6, T7, T8, T9, T10, T11)) -> bool {
        ((self.0, self.1, self.2, self.3, self.4, self.5, self.6, self.7, self.8, self.9), self.10).key_lt(((other.0, other.1, other.2, other.3, other.4, other.5, other.6, other.7, other.8, other.9), other.10))
    }

    open spec fn key_decodable(s: Seq<u8>) -> bool {
        <((T1, T2, T3, T4, T5, T6, T7, T8, T9, T10), T11) as IndexKey>::key_decodable(s)
    }

    open spec fn key_consumed(s: Seq<u8>) -> nat {
        <((T1, T2, T3, T4, T5, T6, T7, T8, T9, T10), T11) as IndexKey>::key_consumed(s)
    }

    open spec fn key_err(s: Seq<u8>) -> KeyError {
        <((T1, T2, T3, T4, T5, T6, T7, T8, T9, T10), T11) as IndexKey>::key_err(s)
    }

    open spec fn key_decodes_to(self, s: Seq<u8>) -> bool {
        ((self.0, self.1, self.2, self.3, self.4, self.5, self.6, self.7, self.8, self.9), self.10).key_decodes_to(s)
    }

    fn to_key(self, result: &mut Vec<u8>) {
        let (x0, x1, x2, x3, x4, x5, x6, x7, x8, x9, x10) = self;
        ((x0, x1, x2, x3, x4, x5, x6, x7, x8, x9), x10).to_key(result);
    }

    fn from_key(key: &[u8], pos: &mut usize) -> (r: Result<(T1, T2, T3, T4, T5, T6, T7, T8, T9, T10, T11), KeyError>) {
        match <((T1, T2, T3, T4, T5, T6, T7, T8, T9, T10), T11) as IndexKey>::from_key(key, pos) {
            Ok(((x0, x1, x2, x3, x4, x5, x6, x7, x8, x9), x10)) => Ok((x0, x1, x2, x3, x4, x5, x6, x7, x8, x9, x10)),
            Err(e) => Err(e),
        }
    }

    proof fn lemma_key_round_trip(self, rest: Seq<u8>) {
        ((self.0, self.1, self.2, self.3, self.4, self.5, self.6, self.7, self.8, self.9), self.10).lemma_key_round_trip(rest);
    }

    proof fn lemma_key_decode_unique(self, other: (T1, T2, T3, T4, T5, T6, T7, T8, T9, T10, T11), s: Seq<u8>) {
        ((self.0, self.1, self.2, self.3, self.4, self.5, self.6, self.7, self.8, self.9), self.10).lemma_key_decode_unique(((other.0, other.1, other.2, other.3, other.4, other.5, other.6, other.7, other.8, other.9), other.10), s);
    }

    proof fn lemma_key_eq(self, other: (T1, T2, T3, T4, T5, T6, T7, T8, T9, T10, T11)) {
        ((self.0, self.1, self.2, self.3, self.4, self.5, self.6, self.7, self.8, self.9), self.10).lemma_key_eq(((other.0, other.1, other.2, other.3, other.4, other.5, other.6, other.7, other.8, other.9), other.10));
    }

    proof fn lemma_key_order(self, other: (T1, T2, T3, T4, T5, T6, T7, T8, T9, T10, T11)) {
        ((self.0, self.1, self.2, self.3, self.4, self.5, self.6, self.7, self.8, self.9), self.10).lemma_key_order(((other.0, other.1, other.2, other.3, other.4, other.5, other.6, other.7, other.8, other.9), other.10));
    }
}

} // verus!
