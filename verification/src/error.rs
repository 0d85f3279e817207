//! The ways in which decoding can fail.

use vstd::prelude::*;

verus! {

/// A failure of one decode call. Every kind is final for that call: nothing
/// is retried and no partial value is handed out.
#[derive(Debug, Clone, Copy, PartialEq, Eq, Structural)]
pub enum Error {
    /// A tag byte outside `0..=12`.
    UnknownTag,
    /// A scalar was reported at another width or kind than the one asked
    /// for; `expected_bits` is the width that was asked for.
    TypeMismatch { expected_bits: u8 },
    /// The element tag in an array header is not the one of the array kind
    /// being decoded.
    ArrayTypeMismatch,
    /// A list or array header declares a negative count.
    NegativeLength,
    /// The input ended before the construct being read was complete.
    Truncated,
    /// An `End` tag stands where a value is required.
    UnexpectedEnd,
    /// A byte run is not modified UTF-8 text.
    InvalidText,
}

} // verus!
