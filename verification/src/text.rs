//! `IndexKey` for raw byte blobs and UTF-8 text.
//!
//! Both run through the escape codec, so their encodings are
//! self-delimiting. Text is encoded as its UTF-8 bytes; byte-wise order of
//! valid UTF-8 agrees with code-point order, a property of UTF-8 this
//! codec relies on rather than re-derives. Text decoding is strict: bytes
//! that are not valid UTF-8 fail with `InvalidText`, never substituting
//! replacement characters.

use vstd::prelude::*;
use vstd::string::StringSliceAdditionalSpecFns;
use vstd::utf8::{encode_utf8, encode_utf8_decode_utf8, encode_utf8_valid_utf8, valid_utf8};

use crate::errors::KeyError;
use crate::escape::{esc, esc_decode, escape_decode, escape_encode, lemma_esc_decode_esc,
    lemma_esc_injective, lemma_esc_order};
use crate::key::IndexKey;
use crate::order::lex_lt;

verus! {

impl IndexKey for Vec<u8> {
    open spec fn key_spec(self) -> Seq<u8> {
        esc(self@)
    }

    open spec fn key_eq(self, other: Vec<u8>) -> bool {
        self@ == other@
    }

    open spec fn key_lt(self, other: Vec<u8>) -> bool {
        lex_lt(self@, other@)
    }

    open spec fn key_decodable(s: Seq<u8>) -> bool {
        esc_decode(s) is Some
    }

    open spec fn key_consumed(s: Seq<u8>) -> nat {
        match esc_decode(s) {
            Some((d, n)) => n,
            None => 0,
        }
    }

    open spec fn key_err(s: Seq<u8>) -> KeyError {
        KeyError::Unterminated
    }

    open spec fn key_decodes_to(self, s: Seq<u8>) -> bool {
        match esc_decode(s) {
            Some((d, n)) => self@ == d,
            None => false,
        }
    }

    fn to_key(self, result: &mut Vec<u8>) {
        escape_encode(self.as_slice(), result);
    }

    fn from_key(key: &[u8], pos: &mut usize) -> (r: Result<Vec<u8>, KeyError>) {
        let mut result: Vec<u8> = Vec::new();
        match escape_decode(key, pos, &mut result) {
            Ok(_) => {
                proof {
                    assert(result@.skip(0) =~= result@);
                }
                Ok(result)
            },
            Err(e) => Err(e),
        }
    }

    proof fn lemma_key_round_trip(self, rest: Seq<u8>) {
        lemma_esc_decode_esc(self@, rest);
    }

    proof fn lemma_key_decode_unique(self, other: Vec<u8>, s: Seq<u8>) {
    }

    proof fn lemma_key_eq(self, other: Vec<u8>) {
        if self.key_spec() == other.key_spec() {
            lemma_esc_injective(self@, other@);
        }
    }

    proof fn lemma_key_order(self, other: Vec<u8>) {
        lemma_esc_order(self@, other@);
    }
}

/// Relies on `String::from_utf8`: it succeeds exactly when the bytes are
/// valid UTF-8, and then returns the string those bytes spell, so its
/// UTF-8 encoding is the input.
#[verifier::external_body]
fn string_from_utf8(bytes: Vec<u8>) -> (r: Option<String>)
    ensures
        match r {
            Some(text) => valid_utf8(bytes@) && encode_utf8(text@) == bytes@,
            None => !valid_utf8(bytes@),
        },
{
    String::from_utf8(bytes).ok()
}

impl IndexKey for String {
    open spec fn key_spec(self) -> Seq<u8> {
        esc(encode_utf8(self@))
    }

    open spec fn key_eq(self, other: String) -> bool {
        self@ == other@
    }

    open spec fn key_lt(self, other: String) -> bool {
        lex_lt(encode_utf8(self@), encode_utf8(other@))
    }

    open spec fn key_decodable(s: Seq<u8>) -> bool {
        match esc_decode(s) {
            Some((d, n)) => valid_utf8(d),
            None => false,
        }
    }

    open spec fn key_consumed(s: Seq<u8>) -> nat {
        match esc_decode(s) {
            Some((d, n)) => n,
            None => 0,
        }
    }

    open spec fn key_err(s: Seq<u8>) -> KeyError {
        match esc_decode(s) {
            Some((d, n)) => KeyError::InvalidText,
            None => KeyError::Unterminated,
        }
    }

    open spec fn key_decodes_to(self, s: Seq<u8>) -> bool {
        match esc_decode(s) {
            Some((d, n)) => encode_utf8(self@) == d,
            None => false,
        }
    }

    fn to_key(self, result: &mut Vec<u8>) {
        escape_encode(self.as_str().as_bytes(), result);
    }

    fn from_key(key: &[u8], pos: &mut usize) -> (r: Result<String, KeyError>) {
        let start = *pos;
        let mut bytes: Vec<u8> = Vec::new();
        match escape_decode(key, pos, &mut bytes) {
            Ok(_) => {
                proof {
                    assert(bytes@.skip(0) =~= bytes@);
                }
                match string_from_utf8(bytes) {
                    Some(text) => Ok(text),
                    None => {
                        *pos = start;
                        Err(KeyError::InvalidText)
                    },
                }
            },
            Err(e) => Err(e),
        }
    }

    proof fn lemma_key_round_trip(self, rest: Seq<u8>) {
        lemma_esc_decode_esc(encode_utf8(self@), rest);
        encode_utf8_valid_utf8(self@);
    }

    proof fn lemma_key_decode_unique(self, other: String, s: Seq<u8>) {
        if self.key_decodes_to(s) && other.key_decodes_to(s) {
            encode_utf8_decode_utf8(self@);
            encode_utf8_decode_utf8(other@);
        }
    }

    proof fn lemma_key_eq(self, other: String) {
        if self.key_spec() == other.key_spec() {
            lemma_esc_injective(encode_utf8(self@), encode_utf8(other@));
            encode_utf8_decode_utf8(self@);
            encode_utf8_decode_utf8(other@);
        }
    }

    proof fn lemma_key_order(self, other: String) {
        lemma_esc_order(encode_utf8(self@), encode_utf8(other@));
    }
}

} // verus!
