//! The tag catalogue: the thirteen kinds of node and their wire bytes.

use vstd::prelude::*;
use vstd::std_specs::convert::FromSpecImpl;
use vstd::std_specs::convert::TryFromSpecImpl;
use crate::error::Error;

verus! {

/// An NBT tag. This does not carry the value or the name of the data.
#[derive(Debug, PartialEq, Eq, Clone, Copy, Structural)]
pub enum Tag {
    /// Represents the end of a Compound object.
    End,
    /// Equivalent to i8.
    Byte,
    /// Equivalent to i16.
    Short,
    /// Equivalent to i32.
    Int,
    /// Equivalent to i64.
    Long,
    /// Equivalent to f32.
    Float,
    /// Equivalent to f64.
    Double,
    /// Represents an array of Byte (i8).
    ByteArray,
    /// Represents a Unicode string.
    String,
    /// Represents a list of other objects, all of one kind.
    List,
    /// Represents a struct-like structure.
    Compound,
    /// Represents an array of Int (i32).
    IntArray,
    /// Represents an array of Long (i64).
    LongArray,
}

/// The tag that a wire byte stands for, if it stands for one.
pub open spec fn tag_of_byte(b: u8) -> Option<Tag> {
    if b == 0 {
        Some(Tag::End)
    } else if b == 1 {
        Some(Tag::Byte)
    } else if b == 2 {
        Some(Tag::Short)
    } else if b == 3 {
        Some(Tag::Int)
    } else if b == 4 {
        Some(Tag::Long)
    } else if b == 5 {
        Some(Tag::Float)
    } else if b == 6 {
        Some(Tag::Double)
    } else if b == 7 {
        Some(Tag::ByteArray)
    } else if b == 8 {
        Some(Tag::String)
    } else if b == 9 {
        Some(Tag::List)
    } else if b == 10 {
        Some(Tag::Compound)
    } else if b == 11 {
        Some(Tag::IntArray)
    } else if b == 12 {
        Some(Tag::LongArray)
    } else {
        None
    }
}

/// The wire byte of a tag.
pub open spec fn byte_of_tag(tag: Tag) -> u8 {
    match tag {
        Tag::End => 0,
        Tag::Byte => 1,
        Tag::Short => 2,
        Tag::Int => 3,
        Tag::Long => 4,
        Tag::Float => 5,
        Tag::Double => 6,
        Tag::ByteArray => 7,
        Tag::String => 8,
        Tag::List => 9,
        Tag::Compound => 10,
        Tag::IntArray => 11,
        Tag::LongArray => 12,
    }
}

impl Tag {
    /// The tag that the wire byte `b` stands for. Bytes above 12 stand for
    /// none.
    pub fn from_byte(b: u8) -> (r: Result<Tag, Error>)
        ensures
            r == match tag_of_byte(b) {
                Some(tag) => Ok::<Tag, Error>(tag),
                None => Err::<Tag, Error>(Error::UnknownTag),
            },
            r is Ok <==> b <= 12,
    {
        match b {
            0 => Ok(Tag::End),
            1 => Ok(Tag::Byte),
            2 => Ok(Tag::Short),
            3 => Ok(Tag::Int),
            4 => Ok(Tag::Long),
            5 => Ok(Tag::Float),
            6 => Ok(Tag::Double),
            7 => Ok(Tag::ByteArray),
            8 => Ok(Tag::String),
            9 => Ok(Tag::List),
            10 => Ok(Tag::Compound),
            11 => Ok(Tag::IntArray),
            12 => Ok(Tag::LongArray),
            _ => Err(Error::UnknownTag),
        }
    }

    /// The wire byte of this tag.
    pub fn to_byte(self) -> (b: u8)
        ensures
            b == byte_of_tag(self),
            b <= 12,
            tag_of_byte(b) == Some(self),
    {
        match self {
            Tag::End => 0,
            Tag::Byte => 1,
            Tag::Short => 2,
            Tag::Int => 3,
            Tag::Long => 4,
            Tag::Float => 5,
            Tag::Double => 6,
            Tag::ByteArray => 7,
            Tag::String => 8,
            Tag::List => 9,
            Tag::Compound => 10,
            Tag::IntArray => 11,
            Tag::LongArray => 12,
        }
    }
}

impl TryFrom<u8> for Tag {
    type Error = ();

    fn try_from(value: u8) -> (r: Result<Self, ()>) {
        match Tag::from_byte(value) {
            Ok(tag) => Ok(tag),
            Err(_) => Err(()),
        }
    }
}

impl TryFromSpecImpl<u8> for Tag {
    open spec fn obeys_try_from_spec() -> bool {
        true
    }

    open spec fn try_from_spec(v: u8) -> Result<Self, ()> {
        match tag_of_byte(v) {
            Some(tag) => Ok(tag),
            None => Err(()),
        }
    }
}

impl From<Tag> for u8 {
    fn from(tag: Tag) -> (b: u8) {
        tag.to_byte()
    }
}

impl FromSpecImpl<Tag> for u8 {
    open spec fn obeys_from_spec() -> bool {
        true
    }

    open spec fn from_spec(tag: Tag) -> u8 {
        byte_of_tag(tag)
    }
}

/// Every tag is read back from its own byte: `tag_of_byte` is a left
/// inverse of `byte_of_tag`.
pub proof fn lemma_tag_byte_round_trip(tag: Tag)
    ensures
        byte_of_tag(tag) <= 12,
        tag_of_byte(byte_of_tag(tag)) == Some(tag),
{
}

/// A byte stands for a tag exactly when it is at most 12, and then it is
/// that tag's own byte: no two bytes stand for one tag.
pub proof fn lemma_tag_of_byte_total_injective(a: u8, b: u8)
    ensures
        tag_of_byte(a) is Some <==> a <= 12,
        tag_of_byte(a) matches Some(tag) ==> byte_of_tag(tag) == a,
        tag_of_byte(a) is Some && tag_of_byte(a) == tag_of_byte(b) ==> a == b,
{
}

} // verus!
