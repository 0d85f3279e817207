//! What holds of every input: the checks of the decoder, stated once and
//! proved from what the `parse_` functions say.

use vstd::prelude::*;
use crate::arrays::{parse_byte_array, parse_count, parse_int_array, parse_long_array,
    BYTE_ELEMENT_TAG, INT_ELEMENT_TAG, LONG_ELEMENT_TAG};
use crate::borrow::{byte_array_items, byte_array_readable, int_array_items, int_array_readable,
    long_array_items, long_array_readable};
use crate::de::{parse_entries, parse_items, parse_list, parse_payload};
use crate::error::Error;
use crate::ser::{encodable, payload_bytes};
use crate::tag::Tag;
use crate::value::{Compound, Value, ValueView};
use crate::wire::{available, be_i32, be_i64, be_i8};

verus! {

/// An array is read only under its own element tag: where the byte in the
/// place of the element tag is another one, each kind of array is refused
/// with `ArrayTypeMismatch`, whatever follows.
pub proof fn lemma_array_tag_check(s: Seq<u8>, pos: int)
    requires
        available(s, pos, 1),
    ensures
        s[pos] != BYTE_ELEMENT_TAG ==> parse_byte_array(s, pos) == Err::<(Seq<i8>, nat), Error>(
            Error::ArrayTypeMismatch,
        ),
        s[pos] != INT_ELEMENT_TAG ==> parse_int_array(s, pos) == Err::<(Seq<i32>, nat), Error>(
            Error::ArrayTypeMismatch,
        ),
        s[pos] != LONG_ELEMENT_TAG ==> parse_long_array(s, pos) == Err::<(Seq<i64>, nat), Error>(
            Error::ArrayTypeMismatch,
        ),
        s[pos] != INT_ELEMENT_TAG ==> parse_payload(Tag::IntArray, s, pos) == Err::<
            (ValueView, nat),
            Error,
        >(Error::ArrayTypeMismatch),
{
}

/// A negative count is refused: it is not read as zero, nor as a large
/// count. This holds of the count of each kind of array under its own
/// element tag, and of the count of a list under any element tag but `End`.
pub proof fn lemma_negative_count(s: Seq<u8>, pos: int)
    requires
        available(s, pos, 5),
        be_i32(s, pos + 1) < 0,
    ensures
        parse_count(s, pos + 1) == Err::<nat, Error>(Error::NegativeLength),
        s[pos] == BYTE_ELEMENT_TAG ==> parse_byte_array(s, pos) == Err::<(Seq<i8>, nat), Error>(
            Error::NegativeLength,
        ),
        s[pos] == INT_ELEMENT_TAG ==> parse_int_array(s, pos) == Err::<(Seq<i32>, nat), Error>(
            Error::NegativeLength,
        ),
        s[pos] == LONG_ELEMENT_TAG ==> parse_long_array(s, pos) == Err::<(Seq<i64>, nat), Error>(
            Error::NegativeLength,
        ),
        1 <= s[pos] <= 12 ==> parse_list(s, pos) == Err::<(Seq<ValueView>, nat), Error>(
            Error::NegativeLength,
        ),
{
}

/// Every decoded value is of the kind that its tag announced: under the tag
/// `Byte` nothing is read as a `Short` or an `Int`, whatever the bytes are.
pub proof fn lemma_decoded_kind(tag: Tag, s: Seq<u8>, pos: int)
    ensures
        parse_payload(tag, s, pos) matches Ok((view, n)) ==> view.tag() == tag,
        parse_payload(Tag::End, s, pos) == Err::<(ValueView, nat), Error>(Error::UnexpectedEnd),
{
}

/// The elements of every decoded list are of the one kind that the list
/// announced, and there are as many as it announced.
pub proof fn lemma_items_of_one_kind(tag: Tag, s: Seq<u8>, pos: int, n: nat)
    ensures
        parse_items(tag, s, pos, n) matches Ok((items, k)) ==> items.len() == n && forall|i: int|
            0 <= i < items.len() ==> (#[trigger] items[i]).tag() == tag,
    decreases n,
{
    if n > 0 {
        match parse_payload(tag, s, pos) {
            Ok((v, k)) => {
                lemma_items_of_one_kind(tag, s, pos + k, (n - 1) as nat);
                match parse_items(tag, s, pos + k, (n - 1) as nat) {
                    Ok((rest, m)) => {
                        let items = seq![v] + rest;
                        assert forall|i: int| 0 <= i < items.len() implies (#[trigger] items[i]).tag()
                            == tag by {
                            if i > 0 {
                                assert(items[i] == rest[i - 1]);
                            }
                        }
                    },
                    Err(e) => {},
                }
            },
            Err(e) => {},
        }
    }
}

/// A compound is closed by an `End` tag and by nothing else: where the
/// input has ended in the place of the next tag, reading the entries fails
/// with `Truncated`; and an `End` tag there closes the compound with what
/// was read so far.
pub proof fn lemma_compound_end(s: Seq<u8>, pos: int, acc: Map<Seq<char>, ValueView>)
    ensures
        !available(s, pos, 1) ==> parse_entries(s, pos, acc) == Err::<
            (Map<Seq<char>, ValueView>, nat),
            Error,
        >(Error::Truncated),
        available(s, pos, 1) && s[pos] == 0 ==> parse_entries(s, pos, acc) == Ok::<
            (Map<Seq<char>, ValueView>, nat),
            Error,
        >((acc, 1)),
{
}

/// A compound without entries is written as the one byte of the `End` tag,
/// and that byte is read back as the compound without entries.
pub proof fn lemma_empty_compound(c: Compound)
    requires
        c.entries().len() == 0,
    ensures
        encodable(Value::Compound(c)),
        payload_bytes(Value::Compound(c)) == seq![0u8],
        parse_payload(Tag::Compound, seq![0u8], 0) == Ok::<(ValueView, nat), Error>(
            (ValueView::Compound(Map::empty()), 1),
        ),
{
    assert(payload_bytes(Value::Compound(c)) =~= seq![0u8]);
}

/// A pass over a borrowed array never reads behind its bytes: it hands out
/// the elements that the bytes hold in full and, where the count asks for
/// more, `Truncated` in the place of the first element that is not all
/// there, and nothing after that.
pub proof fn lemma_borrowed_items(source: Seq<u8>, declared: nat)
    ensures
        forall|i: int|
            0 <= i < byte_array_readable(source, declared) ==> i + 1 <= source.len()
                && #[trigger] byte_array_items(source, declared)[i] == Ok::<i8, Error>(
                be_i8(source, i),
            ),
        forall|i: int|
            0 <= i < int_array_readable(source, declared) ==> 4 * i + 4 <= source.len()
                && #[trigger] int_array_items(source, declared)[i] == Ok::<i32, Error>(
                be_i32(source, 4 * i),
            ),
        forall|i: int|
            0 <= i < long_array_readable(source, declared) ==> 8 * i + 8 <= source.len()
                && #[trigger] long_array_items(source, declared)[i] == Ok::<i64, Error>(
                be_i64(source, 8 * i),
            ),
        source.len() < declared ==> byte_array_items(source, declared).len()
            == byte_array_readable(source, declared) + 1 && byte_array_items(
            source,
            declared,
        ).last() == Err::<i8, Error>(Error::Truncated),
        source.len() < 4 * declared ==> int_array_items(source, declared).len()
            == int_array_readable(source, declared) + 1 && int_array_items(
            source,
            declared,
        ).last() == Err::<i32, Error>(Error::Truncated),
        source.len() < 8 * declared ==> long_array_items(source, declared).len()
            == long_array_readable(source, declared) + 1 && long_array_items(
            source,
            declared,
        ).last() == Err::<i64, Error>(Error::Truncated),
        source.len() >= declared ==> byte_array_items(source, declared).len() == declared,
        source.len() >= 4 * declared ==> int_array_items(source, declared).len() == declared,
        source.len() >= 8 * declared ==> long_array_items(source, declared).len() == declared,
{
}

} // verus!
