//! Error types of the codec. They carry no data: each variant stands for one
//! failure condition, and the contracts of the codec functions say exactly when
//! each one is returned.

use vstd::prelude::*;

verus! {

/// Union of the two failure cases of decoding.
#[derive(Clone, Copy, Debug, PartialEq, Eq, Structural)]
pub enum Error {
    /// The input text holds a byte outside the 64-symbol alphabet, or its
    /// length leaves a remainder of one modulo four.
    InvalidEncoding,
    /// The caller-supplied output buffer is smaller than the exact size the
    /// result needs.
    InvalidLength,
}

/// The one failure case of encoding: the caller-supplied output buffer is
/// smaller than the exact size the result needs.
#[derive(Clone, Copy, Debug, PartialEq, Eq, Structural)]
pub struct InvalidLengthError;

/// The one failure case of decoding into an exactly sized buffer: the input
/// text is not a valid encoding.
#[derive(Clone, Copy, Debug, PartialEq, Eq, Structural)]
pub struct InvalidEncodingError;

} // verus!
