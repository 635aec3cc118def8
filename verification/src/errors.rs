//! Decoding failures. Encoding is infallible for every supported type.

use vstd::prelude::*;

verus! {

/// Why a decode failed.
///
/// `Truncated`: fewer bytes remained than a fixed-width field requires.
/// `Unterminated`: a variable-length field reached the end of the input
/// before its unescaped terminator byte.
/// `InvalidText`: the bytes of a text field are not valid UTF-8; text
/// decoding here is strict and never substitutes replacement characters.
#[derive(Clone, Copy, Debug, PartialEq, Eq, Structural)]
pub enum KeyError {
    Truncated,
    Unterminated,
    InvalidText,
}

} // verus!
