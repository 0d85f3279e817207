//! The strict scalar discriminators.
//!
//! A value does not say on its own which tag it came from: the integer 5
//! may have been a `Byte`, a `Short` or an `Int`. The reader underneath
//! reports each primitive at the width it was written at, and each
//! discriminator here takes that report at one width only.

use vstd::prelude::*;
use crate::error::Error;

verus! {

/// What the reader reports for the next primitive: its kind, its width and
/// the value. A float is held by its bits.
#[derive(Debug, Clone, Copy, PartialEq, Eq, Structural)]
pub enum Primitive {
    Bool(bool),
    I8(i8),
    I16(i16),
    I32(i32),
    I64(i64),
    U8(u8),
    U16(u16),
    U32(u32),
    U64(u64),
    F32(u32),
    F64(u64),
    /// Anything that is no scalar: text, a sequence, a map.
    Other,
}

/// The signed integer that a report holds, whatever its width; nothing for a
/// report of another kind.
pub open spec fn signed_value(reported: Primitive) -> Option<int> {
    match reported {
        Primitive::I8(v) => Some(v as int),
        Primitive::I16(v) => Some(v as int),
        Primitive::I32(v) => Some(v as int),
        Primitive::I64(v) => Some(v as int),
        _ => None,
    }
}

/// Takes a signed integer reported at exactly eight bits, unchanged.
pub fn strict_i8(reported: Primitive) -> (r: Result<i8, Error>)
    ensures
        r == match reported {
            Primitive::I8(v) => Ok::<i8, Error>(v),
            _ => Err::<i8, Error>(Error::TypeMismatch { expected_bits: 8 }),
        },
{
    match reported {
        Primitive::I8(v) => Ok(v),
        _ => Err(Error::TypeMismatch { expected_bits: 8 }),
    }
}

/// Takes a signed integer reported at exactly sixteen bits, unchanged.
pub fn strict_i16(reported: Primitive) -> (r: Result<i16, Error>)
    ensures
        r == match reported {
            Primitive::I16(v) => Ok::<i16, Error>(v),
            _ => Err::<i16, Error>(Error::TypeMismatch { expected_bits: 16 }),
        },
{
    match reported {
        Primitive::I16(v) => Ok(v),
        _ => Err(Error::TypeMismatch { expected_bits: 16 }),
    }
}

/// Takes a signed integer reported at exactly thirty-two bits, unchanged.
pub fn strict_i32(reported: Primitive) -> (r: Result<i32, Error>)
    ensures
        r == match reported {
            Primitive::I32(v) => Ok::<i32, Error>(v),
            _ => Err::<i32, Error>(Error::TypeMismatch { expected_bits: 32 }),
        },
{
    match reported {
        Primitive::I32(v) => Ok(v),
        _ => Err(Error::TypeMismatch { expected_bits: 32 }),
    }
}

/// Takes a signed integer reported at any width and widens it: at
/// sixty-four bits no narrower reading competes, so nothing is refused for
/// its width.
pub fn accept_i64(reported: Primitive) -> (r: Result<i64, Error>)
    ensures
        r == match signed_value(reported) {
            Some(v) => Ok::<i64, Error>(v as i64),
            None => Err::<i64, Error>(Error::TypeMismatch { expected_bits: 64 }),
        },
{
    match reported {
        Primitive::I8(v) => Ok(v as i64),
        Primitive::I16(v) => Ok(v as i64),
        Primitive::I32(v) => Ok(v as i64),
        Primitive::I64(v) => Ok(v),
        _ => Err(Error::TypeMismatch { expected_bits: 64 }),
    }
}

/// The spec form of [`strict_i8`]: whether it takes the report.
pub open spec fn takes_i8(reported: Primitive) -> bool {
    reported is I8
}

/// The spec form of [`strict_i16`]: whether it takes the report.
pub open spec fn takes_i16(reported: Primitive) -> bool {
    reported is I16
}

/// The spec form of [`strict_i32`]: whether it takes the report.
pub open spec fn takes_i32(reported: Primitive) -> bool {
    reported is I32
}

/// No report is taken by two strict discriminators: a number that would fit
/// a wider or a narrower width is still taken at the reported width alone.
pub proof fn lemma_strict_widths_exclusive(reported: Primitive)
    ensures
        !(takes_i8(reported) && takes_i16(reported)),
        !(takes_i8(reported) && takes_i32(reported)),
        !(takes_i16(reported) && takes_i32(reported)),
        signed_value(reported) is Some && !(reported is I64) ==> (takes_i8(reported) || takes_i16(
            reported,
        ) || takes_i32(reported)),
{
}

} // verus!
