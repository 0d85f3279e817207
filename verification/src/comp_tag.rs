//! The check on the element tag in an array header.

use vstd::prelude::*;
use crate::error::Error;

verus! {

/// A marker that stands for "the next tag byte equals `N`". It holds
/// nothing: a value of it exists only as the outcome of one check.
#[derive(Debug, Clone, Copy)]
pub struct CompTag<const N: u8>;

impl<const N: u8> CompTag<N> {
    /// Checks the byte that was read where the element tag of an array is
    /// expected. Any byte but `N` is refused.
    pub fn decode(tag_byte: u8) -> (r: Result<Self, Error>)
        ensures
            r is Ok <==> tag_byte == N,
            r matches Err(e) ==> e == Error::ArrayTypeMismatch,
    {
        if tag_byte != N {
            Err(Error::ArrayTypeMismatch)
        } else {
            Ok(CompTag)
        }
    }
}

} // verus!
