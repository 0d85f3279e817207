//! Decoding and representation of NBT, the tag-prefixed binary format that
//! *Minecraft: Java Edition* stores its world and player data in.
//!
//! * [`Tag`] is the catalogue of the thirteen wire discriminants.
//! * [`Value`] is a complete decoded node; [`de::from_bytes`] reads one.
//! * [`ByteArray`], [`IntArray`] and [`LongArray`] own their elements; the
//!   types of the same names in [`borrow`] read them lazily from the input.

pub mod arrays;
pub mod borrow;
pub mod comp_tag;
pub mod de;
pub mod error;
pub mod laws;
pub mod ser;
pub mod strict;
pub mod tag;
pub mod text;
pub mod value;
pub mod wire;

pub use comp_tag::CompTag;
pub use error::Error;
pub use strict::{strict_i16, strict_i32, strict_i8};
pub use tag::Tag;
pub use value::{Compound, Value, ValueView};
pub use arrays::{ByteArray, IntArray, LongArray};
