//! Decoding a value from its bytes.
//!
//! The wire says what comes by a tag byte in front, so the decoder reads the
//! tag first and goes by it: a `Byte` is never taken for a `Short`, an int
//! array never for a long array. What the bytes mean is said once, by the
//! `parse_` functions below; the decoders are proved to return just that.

use vstd::prelude::*;
use crate::arrays::{parse_byte_array, parse_int_array, parse_long_array, ByteArray, IntArray,
    LongArray};
use crate::error::Error;
use crate::tag::{tag_of_byte, Tag};
use crate::text::{parse_text, read_text};
use crate::value::{list_view, Compound, Value, ValueView};
use crate::wire::{available, be_i16, be_i32, be_i64, be_i8, be_u32, be_u64, read_i16, read_i32,
    read_i64, read_i8, read_u32, read_u64, read_u8};

verus! {

/// How many bytes are left from `pos` on.
pub open spec fn remaining(s: Seq<u8>, pos: int) -> nat {
    if pos < s.len() {
        (s.len() - pos) as nat
    } else {
        0
    }
}

/// The value of the kind `tag` whose payload stands in `s` at `pos`, with
/// the number of bytes that the payload takes.
pub open spec fn parse_payload(tag: Tag, s: Seq<u8>, pos: int) -> Result<(ValueView, nat), Error>
    decreases remaining(s, pos), 2nat,
{
    match tag {
        Tag::End => Err(Error::UnexpectedEnd),
        Tag::Byte => if available(s, pos, 1) {
            Ok((ValueView::Byte(be_i8(s, pos)), 1))
        } else {
            Err(Error::Truncated)
        },
        Tag::Short => if available(s, pos, 2) {
            Ok((ValueView::Short(be_i16(s, pos)), 2))
        } else {
            Err(Error::Truncated)
        },
        Tag::Int => if available(s, pos, 4) {
            Ok((ValueView::Int(be_i32(s, pos)), 4))
        } else {
            Err(Error::Truncated)
        },
        Tag::Long => if available(s, pos, 8) {
            Ok((ValueView::Long(be_i64(s, pos)), 8))
        } else {
            Err(Error::Truncated)
        },
        Tag::Float => if available(s, pos, 4) {
            Ok((ValueView::Float(be_u32(s, pos) as u32), 4))
        } else {
            Err(Error::Truncated)
        },
        Tag::Double => if available(s, pos, 8) {
            Ok((ValueView::Double(be_u64(s, pos) as u64), 8))
        } else {
            Err(Error::Truncated)
        },
        Tag::ByteArray => match parse_byte_array(s, pos) {
            Ok((a, n)) => Ok((ValueView::ByteArray(a), n)),
            Err(e) => Err(e),
        },
        Tag::String => match parse_text(s, pos) {
            Ok((t, n)) => Ok((ValueView::String(t), n)),
            Err(e) => Err(e),
        },
        Tag::List => match parse_list(s, pos) {
            Ok((items, n)) => Ok((ValueView::List(items), n)),
            Err(e) => Err(e),
        },
        Tag::Compound => match parse_entries(s, pos, Map::empty()) {
            Ok((entries, n)) => Ok((ValueView::Compound(entries), n)),
            Err(e) => Err(e),
        },
        Tag::IntArray => match parse_int_array(s, pos) {
            Ok((a, n)) => Ok((ValueView::IntArray(a), n)),
            Err(e) => Err(e),
        },
        Tag::LongArray => match parse_long_array(s, pos) {
            Ok((a, n)) => Ok((ValueView::LongArray(a), n)),
            Err(e) => Err(e),
        },
    }
}

/// The list that stands in `s` at `pos`: the tag of its elements, their
/// count, the elements. Under the element tag `End` the list is empty,
/// whatever the count says.
pub open spec fn parse_list(s: Seq<u8>, pos: int) -> Result<(Seq<ValueView>, nat), Error>
    decreases remaining(s, pos), 1nat,
{
    if !available(s, pos, 1) {
        Err(Error::Truncated)
    } else {
        match tag_of_byte(s[pos]) {
            None => Err(Error::UnknownTag),
            Some(element) => {
                if !available(s, pos + 1, 4) {
                    Err(Error::Truncated)
                } else if element == Tag::End {
                    Ok((Seq::empty(), 5))
                } else if be_i32(s, pos + 1) < 0 {
                    Err(Error::NegativeLength)
                } else {
                    match parse_items(element, s, pos + 5, be_i32(s, pos + 1) as nat) {
                        Ok((items, n)) => Ok((items, 5 + n)),
                        Err(e) => Err(e),
                    }
                }
            },
        }
    }
}

/// The `n` values of the kind `tag` that stand in `s` from `pos` on, one
/// after the other, with the number of bytes that they take together.
pub open spec fn parse_items(tag: Tag, s: Seq<u8>, pos: int, n: nat) -> Result<
    (Seq<ValueView>, nat),
    Error,
>
    decreases remaining(s, pos), 3 + n,
{
    if n == 0 {
        Ok((Seq::empty(), 0))
    } else {
        match parse_payload(tag, s, pos) {
            Err(e) => Err(e),
            Ok((v, k)) => match parse_items(tag, s, pos + k, (n - 1) as nat) {
                Err(e) => Err(e),
                Ok((rest, m)) => Ok((seq![v] + rest, k + m)),
            },
        }
    }
}

/// The entries of a compound that stand in `s` from `pos` on, put into
/// `acc` one by one up to the `End` tag that closes the compound. An entry
/// is its tag, its name and its payload; one that comes later replaces an
/// earlier one of its name.
pub open spec fn parse_entries(s: Seq<u8>, pos: int, acc: Map<Seq<char>, ValueView>) -> Result<
    (Map<Seq<char>, ValueView>, nat),
    Error,
>
    decreases remaining(s, pos), 1nat,
{
    if !available(s, pos, 1) {
        Err(Error::Truncated)
    } else {
        match tag_of_byte(s[pos]) {
            None => Err(Error::UnknownTag),
            Some(Tag::End) => Ok((acc, 1)),
            Some(tag) => match parse_text(s, pos + 1) {
                Err(e) => Err(e),
                Ok((name, k)) => match parse_payload(tag, s, pos + 1 + k) {
                    Err(e) => Err(e),
                    Ok((v, m)) => match parse_entries(s, pos + 1 + k + m, acc.insert(name, v)) {
                        Err(e) => Err(e),
                        Ok((all, r)) => Ok((all, 1 + k + m + r)),
                    },
                },
            },
        }
    }
}

/// The value that the bytes `s` hold from their start: a tag, a name, and
/// the payload that the tag announces. The name is read and let go.
pub open spec fn parse_root(s: Seq<u8>) -> Result<ValueView, Error> {
    if !available(s, 0, 1) {
        Err(Error::Truncated)
    } else {
        match tag_of_byte(s[0]) {
            None => Err(Error::UnknownTag),
            Some(Tag::End) => Err(Error::UnexpectedEnd),
            Some(tag) => match parse_text(s, 1) {
                Err(e) => Err(e),
                Ok((name, k)) => match parse_payload(tag, s, 1 + k as int) {
                    Ok((v, n)) => Ok(v),
                    Err(e) => Err(e),
                },
            },
        }
    }
}

/// Reads the payload of a value of the kind `tag` that stands in `bytes` at
/// `pos`. Returns the value and the position behind it.
pub fn decode_payload(tag: Tag, bytes: &[u8], pos: usize) -> (r: Result<(Value, usize), Error>)
    ensures
        match parse_payload(tag, bytes@, pos as int) {
            Ok((view, n)) => (r matches Ok((v, next)) && v@ == view && next == pos + n && next
                <= bytes.len()),
            Err(e) => (r matches Err(re) && re == e),
        },
    decreases remaining(bytes@, pos as int), 2nat,
{
    let len: usize = bytes.len();
    match tag {
        Tag::End => Err(Error::UnexpectedEnd),
        Tag::Byte => match read_i8(bytes, pos) {
            Ok(x) => Ok((Value::Byte(x), pos + 1)),
            Err(e) => Err(e),
        },
        Tag::Short => match read_i16(bytes, pos) {
            Ok(x) => Ok((Value::Short(x), pos + 2)),
            Err(e) => Err(e),
        },
        Tag::Int => match read_i32(bytes, pos) {
            Ok(x) => Ok((Value::Int(x), pos + 4)),
            Err(e) => Err(e),
        },
        Tag::Long => match read_i64(bytes, pos) {
            Ok(x) => Ok((Value::Long(x), pos + 8)),
            Err(e) => Err(e),
        },
        Tag::Float => match read_u32(bytes, pos) {
            Ok(x) => Ok((Value::Float(x), pos + 4)),
            Err(e) => Err(e),
        },
        Tag::Double => match read_u64(bytes, pos) {
            Ok(x) => Ok((Value::Double(x), pos + 8)),
            Err(e) => Err(e),
        },
        Tag::ByteArray => match ByteArray::decode(bytes, pos) {
            Ok((a, next)) => Ok((Value::ByteArray(a), next)),
            Err(e) => Err(e),
        },
        Tag::String => match read_text(bytes, pos) {
            Ok((text, next)) => Ok((Value::String(text), next)),
            Err(e) => Err(e),
        },
        Tag::List => match decode_list(bytes, pos) {
            Ok((items, next)) => Ok((Value::List(items), next)),
            Err(e) => Err(e),
        },
        Tag::Compound => match decode_compound(bytes, pos) {
            Ok((c, next)) => {
                proof {
                    c.lemma_view();
                }
                Ok((Value::Compound(c), next))
            },
            Err(e) => Err(e),
        },
        Tag::IntArray => match IntArray::decode(bytes, pos) {
            Ok((a, next)) => Ok((Value::IntArray(a), next)),
            Err(e) => Err(e),
        },
        Tag::LongArray => match LongArray::decode(bytes, pos) {
            Ok((a, next)) => Ok((Value::LongArray(a), next)),
            Err(e) => Err(e),
        },
    }
}

/// Reads the list that stands in `bytes` at `pos`.
fn decode_list(bytes: &[u8], pos: usize) -> (r: Result<(Vec<Value>, usize), Error>)
    ensures
        match parse_list(bytes@, pos as int) {
            Ok((views, n)) => (r matches Ok((items, next)) && list_view(items@) == views && next
                == pos + n && next <= bytes.len()),
            Err(e) => (r matches Err(re) && re == e),
        },
    decreases remaining(bytes@, pos as int), 1nat,
{
    let len: usize = bytes.len();
    let b: u8 = match read_u8(bytes, pos) {
        Err(e) => {
            return Err(e);
        },
        Ok(b) => b,
    };
    let element: Tag = match Tag::from_byte(b) {
        Err(e) => {
            return Err(e);
        },
        Ok(t) => t,
    };
    let count: i32 = match read_i32(bytes, pos + 1) {
        Err(e) => {
            return Err(e);
        },
        Ok(c) => c,
    };
    match element {
        Tag::End => {
            let items: Vec<Value> = Vec::new();
            assert(list_view(items@) =~= Seq::<ValueView>::empty());
            return Ok((items, pos + 5));
        },
        _ => {},
    }
    if count < 0 {
        return Err(Error::NegativeLength);
    }
    decode_items(element, bytes, pos + 5, count as usize)
}

/// Reads `count` values of the kind `tag` that stand in `bytes` from `pos`
/// on.
fn decode_items(tag: Tag, bytes: &[u8], pos: usize, count: usize) -> (r: Result<
    (Vec<Value>, usize),
    Error,
>)
    requires
        pos <= bytes.len(),
    ensures
        match parse_items(tag, bytes@, pos as int, count as nat) {
            Ok((views, n)) => (r matches Ok((items, next)) && list_view(items@) == views && next
                == pos + n && next <= bytes.len()),
            Err(e) => (r matches Err(re) && re == e),
        },
    decreases remaining(bytes@, pos as int), 3 + count,
{
    let mut items: Vec<Value> = Vec::new();
    let mut cur: usize = pos;
    let mut i: usize = 0;
    proof {
        match parse_items(tag, bytes@, pos as int, count as nat) {
            Ok((rest, m)) => {
                assert(list_view(items@) + rest =~= rest);
            },
            Err(e) => {},
        }
    }
    while i < count
        invariant
            i <= count,
            pos <= cur <= bytes.len(),
            parse_items(tag, bytes@, pos as int, count as nat) == (match parse_items(
                tag,
                bytes@,
                cur as int,
                (count - i) as nat,
            ) {
                Ok((rest, m)) => Ok::<(Seq<ValueView>, nat), Error>(
                    (list_view(items@) + rest, ((cur - pos) + m) as nat),
                ),
                Err(e) => Err(e),
            }),
        decreases count - i,
    {
        match decode_payload(tag, bytes, cur) {
            Err(e) => {
                return Err(e);
            },
            Ok((v, next)) => {
                proof {
                    assert(list_view(items@.push(v)) =~= list_view(items@).push(v@));
                    match parse_items(tag, bytes@, next as int, (count - i - 1) as nat) {
                        Ok((rest, m)) => {
                            assert(list_view(items@) + (seq![v@] + rest) =~= list_view(
                                items@,
                            ).push(v@) + rest);
                        },
                        Err(e) => {},
                    }
                }
                items.push(v);
                cur = next;
            },
        }
        i = i + 1;
    }
    proof {
        assert(list_view(items@) + Seq::<ValueView>::empty() =~= list_view(items@));
    }
    Ok((items, cur))
}

/// Reads the entries of the compound that stands in `bytes` at `pos`, up to
/// the `End` tag that closes it.
fn decode_compound(bytes: &[u8], pos: usize) -> (r: Result<(Compound, usize), Error>)
    ensures
        match parse_entries(bytes@, pos as int, Map::empty()) {
            Ok((map, n)) => (r matches Ok((c, next)) && c@ == map && next == pos + n && next
                <= bytes.len()),
            Err(e) => (r matches Err(re) && re == e),
        },
    decreases remaining(bytes@, pos as int), 1nat,
{
    let len: usize = bytes.len();
    let mut out = Compound::new();
    let mut cur: usize = pos;
    loop
        invariant
            pos <= cur,
            len == bytes@.len(),
            parse_entries(bytes@, pos as int, Map::empty()) == (match parse_entries(
                bytes@,
                cur as int,
                out@,
            ) {
                Ok((map, r)) => Ok::<(Map<Seq<char>, ValueView>, nat), Error>(
                    (map, ((cur - pos) + r) as nat),
                ),
                Err(e) => Err(e),
            }),
        decreases remaining(bytes@, cur as int),
    {
        let b: u8 = match read_u8(bytes, cur) {
            Err(e) => {
                return Err(e);
            },
            Ok(b) => b,
        };
        let tag: Tag = match Tag::from_byte(b) {
            Err(e) => {
                return Err(e);
            },
            Ok(t) => t,
        };
        match tag {
            Tag::End => {
                return Ok((out, cur + 1));
            },
            _ => {},
        }
        let (name, after_name) = match read_text(bytes, cur + 1) {
            Err(e) => {
                return Err(e);
            },
            Ok(found) => found,
        };
        let (value, next) = match decode_payload(tag, bytes, after_name) {
            Err(e) => {
                return Err(e);
            },
            Ok(found) => found,
        };
        out.insert(name, value);
        cur = next;
    }
}

/// Reads the value that `bytes` hold from their start: its tag, its name,
/// its payload. The name is not kept, and what follows the value is not
/// looked at.
pub fn from_bytes(bytes: &[u8]) -> (r: Result<Value, Error>)
    ensures
        match parse_root(bytes@) {
            Ok(view) => (r matches Ok(v) && v@ == view),
            Err(e) => (r matches Err(re) && re == e),
        },
{
    let b: u8 = match read_u8(bytes, 0) {
        Err(e) => {
            return Err(e);
        },
        Ok(b) => b,
    };
    let tag: Tag = match Tag::from_byte(b) {
        Err(e) => {
            return Err(e);
        },
        Ok(t) => t,
    };
    match tag {
        Tag::End => {
            return Err(Error::UnexpectedEnd);
        },
        _ => {},
    }
    let (name, after_name) = match read_text(bytes, 1) {
        Err(e) => {
            return Err(e);
        },
        Ok(found) => found,
    };
    match decode_payload(tag, bytes, after_name) {
        Ok((v, next)) => Ok(v),
        Err(e) => Err(e),
    }
}

} // verus!
