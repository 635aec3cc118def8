//! Order-preserving binary encodings for use as sort keys.
//!
//! Every supported value (booleans, fixed-width integers, float bit
//! patterns, text, byte blobs, and tuples of these) is encoded as a byte
//! sequence such that byte-wise lexicographic comparison of two encodings
//! agrees with the natural order of the values, and such that every
//! encoding is self-delimiting: encodings can be concatenated into
//! composite keys without length prefixes.

mod errors;
pub mod escape;
pub mod float;
pub mod key;
pub mod numeric;
pub mod order;
mod scalar;
mod text;
mod tuple;

pub use errors::KeyError;
pub use escape::{escape_decode, escape_encode};
pub use float::{F32Bits, F64Bits};
pub use key::{from_key, lemma_key_prefix_free, lemma_round_trip, to_key, IndexKey};
