//! "B64" codec: the unpadded, whitespace-free Base64 variant used inside
//! password-hash string encodings (RFC 4648 section 4 alphabet, no `=`).
//!
//! Encoding and decoding are written without branches or table lookups whose
//! condition or index depends on the data being processed, so that the running
//! time does not leak the value of secret bytes. Decoding never exits early on
//! invalid input: errors accumulate in a one-way OR accumulator that is tested
//! only once, at the very end.
//!
//! Output buffers are supplied by the caller; `encoded_len` and `decoded_len`
//! give the exact sizes. `encode_string` and `decode_vec` are thin allocating
//! wrappers over the same core.

pub mod errors;
pub mod laws;
pub mod model;

pub mod codec;

pub use codec::{decode, decode_vec, decoded_len, encode, encode_string, encoded_len};
pub use errors::{Error, InvalidEncodingError, InvalidLengthError};
pub use laws::{
    lemma_decoded_len_is_floor, lemma_encode_in_alphabet, lemma_encoded_len_is_ceil,
    lemma_round_trip,
};
