//! Writing a value as bytes, and the proof that what is written is read
//! back as the value that was written.

use vstd::prelude::*;
use crate::arrays::{byte_array_bytes, int_array_bytes, lemma_byte_array_round_trip,
    lemma_int_array_round_trip, lemma_long_array_round_trip, long_array_bytes};
use crate::de::{parse_entries, parse_items, parse_list, parse_payload, parse_root};
use crate::error::Error;
use crate::tag::{byte_of_tag, lemma_tag_byte_round_trip, Tag};
use crate::text::{lemma_prefixed_text_round_trip, prefixed_text_bytes, text_bytes, text_fits,
    write_text};
use crate::value::{entries_onto, list_view, value_view, Compound, Value, ValueView};
use crate::wire::{holds_at, i16_bytes, i32_bytes, i64_bytes, i8_bytes, lemma_holds_at_self,
    lemma_holds_at_split, lemma_i16_round_trip, lemma_i32_round_trip, lemma_i64_round_trip,
    lemma_i8_round_trip, lemma_u32_round_trip, lemma_u64_round_trip, u32_bytes, u64_bytes,
    write_i16, write_i32, write_i64, write_i8, write_u32, write_u64};

verus! {

/// The element tag that a list of the values `l` is written with: that of
/// its first element, and `End` where it has none.
pub open spec fn list_tag(l: Seq<Value>) -> Tag {
    if l.len() == 0 {
        Tag::End
    } else {
        value_view(l[0]).tag()
    }
}

/// The bytes of one entry of a compound: the tag of its value, its name,
/// the payload of its value.
pub open spec fn entry_bytes(e: (String, Value)) -> Seq<u8>
    decreases e, 0nat,
{
    seq![byte_of_tag(value_view(e.1).tag())] + prefixed_text_bytes(e.0@) + payload_bytes(e.1)
}

/// The payload of the value `v`: the bytes that follow its tag and name.
pub open spec fn payload_bytes(v: Value) -> Seq<u8>
    decreases v, 0nat,
{
    match v {
        Value::Byte(x) => i8_bytes(x),
        Value::Short(x) => i16_bytes(x),
        Value::Int(x) => i32_bytes(x),
        Value::Long(x) => i64_bytes(x),
        Value::Float(x) => u32_bytes(x as int),
        Value::Double(x) => u64_bytes(x as int),
        Value::String(t) => prefixed_text_bytes(t@),
        Value::ByteArray(a) => byte_array_bytes(a@),
        Value::IntArray(a) => int_array_bytes(a@),
        Value::LongArray(a) => long_array_bytes(a@),
        Value::List(l) => list_bytes(l@),
        Value::Compound(c) => {
            proof {
                c.lemma_entries_decrease();
            }
            entries_bytes(c.entries()) + seq![0u8]
        },
    }
}

/// The payload of a list of the values `l`: the tag of the elements, their
/// count, their payloads.
pub open spec fn list_bytes(l: Seq<Value>) -> Seq<u8>
    decreases l, 2nat,
{
    seq![byte_of_tag(list_tag(l))] + i32_bytes(l.len() as i32) + items_bytes(l)
}

/// The payloads of the values `l`, one after the other.
pub open spec fn items_bytes(l: Seq<Value>) -> Seq<u8>
    decreases l, 1nat,
{
    if l.len() == 0 {
        Seq::empty()
    } else {
        payload_bytes(l[0]) + items_bytes(l.drop_first())
    }
}

/// The bytes of the entries `es`, one after the other.
pub open spec fn entries_bytes(es: Seq<(String, Value)>) -> Seq<u8>
    decreases es, 1nat,
{
    if es.len() == 0 {
        Seq::empty()
    } else {
        entry_bytes(es[0]) + entries_bytes(es.drop_first())
    }
}

/// Whether the value `v` can be written: every text in it fits its length
/// prefix, every list and array its count, and the elements of every list
/// are of one kind.
pub open spec fn encodable(v: Value) -> bool
    decreases v, 0nat,
{
    match v {
        Value::String(t) => text_fits(t@),
        Value::ByteArray(a) => a@.len() <= i32::MAX,
        Value::IntArray(a) => a@.len() <= i32::MAX,
        Value::LongArray(a) => a@.len() <= i32::MAX,
        Value::List(l) => l@.len() <= i32::MAX && items_encodable(l@, list_tag(l@)),
        Value::Compound(c) => {
            proof {
                c.lemma_entries_decrease();
            }
            entries_encodable(c.entries())
        },
        _ => true,
    }
}

/// Whether each of the values `l` is of the kind `tag` and can be written.
pub open spec fn items_encodable(l: Seq<Value>, tag: Tag) -> bool
    decreases l, 1nat,
{
    l.len() == 0 || (value_view(l[0]).tag() == tag && encodable(l[0]) && items_encodable(
        l.drop_first(),
        tag,
    ))
}

/// Whether each of the entries `es` can be written: its name fits, and its
/// value can be written.
pub open spec fn entries_encodable(es: Seq<(String, Value)>) -> bool
    decreases es, 1nat,
{
    es.len() == 0 || (text_fits(es[0].0@) && encodable(es[0].1) && entries_encodable(
        es.drop_first(),
    ))
}

/// The bytes of a whole value: its tag, the name `name`, its payload.
pub open spec fn root_bytes(name: Seq<char>, v: Value) -> Seq<u8> {
    seq![byte_of_tag(value_view(v).tag())] + prefixed_text_bytes(name) + payload_bytes(v)
}

/// A value that can be written is read back from its payload, wherever the
/// payload stands in a buffer, as the value it is; and the reading takes
/// exactly the bytes of the payload.
pub proof fn lemma_payload_round_trip(v: Value, s: Seq<u8>, pos: int)
    requires
        encodable(v),
        holds_at(s, pos, payload_bytes(v)),
    ensures
        parse_payload(value_view(v).tag(), s, pos) == Ok::<(ValueView, nat), Error>(
            (value_view(v), payload_bytes(v).len()),
        ),
    decreases v, 0nat,
{
    match v {
        Value::Byte(x) => {
            lemma_i8_round_trip(x, s, pos);
        },
        Value::Short(x) => {
            lemma_i16_round_trip(x, s, pos);
        },
        Value::Int(x) => {
            lemma_i32_round_trip(x, s, pos);
        },
        Value::Long(x) => {
            lemma_i64_round_trip(x, s, pos);
        },
        Value::Float(x) => {
            lemma_u32_round_trip(x as int, s, pos);
        },
        Value::Double(x) => {
            lemma_u64_round_trip(x as int, s, pos);
        },
        Value::String(t) => {
            lemma_prefixed_text_round_trip(t@, s, pos);
        },
        Value::ByteArray(a) => {
            lemma_byte_array_round_trip(a@, s, pos);
        },
        Value::IntArray(a) => {
            lemma_int_array_round_trip(a@, s, pos);
        },
        Value::LongArray(a) => {
            lemma_long_array_round_trip(a@, s, pos);
        },
        Value::List(l) => {
            assert(decreases_to!(v => v->List_0));
            assert(decreases_to!(l => l@));
            lemma_list_round_trip(l@, s, pos);
        },
        Value::Compound(c) => {
            assert(decreases_to!(v => v->Compound_0));
            c.lemma_entries_decrease();
            lemma_entries_round_trip(c.entries(), Map::empty(), s, pos);
        },
    }
}

/// A list that can be written is read back from its payload.
pub proof fn lemma_list_round_trip(l: Seq<Value>, s: Seq<u8>, pos: int)
    requires
        l.len() <= i32::MAX,
        items_encodable(l, list_tag(l)),
        holds_at(s, pos, list_bytes(l)),
    ensures
        parse_list(s, pos) == Ok::<(Seq<ValueView>, nat), Error>(
            (list_view(l), list_bytes(l).len()),
        ),
    decreases l, 2nat,
{
    let tag = list_tag(l);
    let head = seq![byte_of_tag(tag)] + i32_bytes(l.len() as i32);
    lemma_holds_at_split(s, pos, head, items_bytes(l));
    lemma_holds_at_split(s, pos, seq![byte_of_tag(tag)], i32_bytes(l.len() as i32));
    assert(s[pos + 0] == seq![byte_of_tag(tag)][0]);
    lemma_tag_byte_round_trip(tag);
    lemma_i32_round_trip(l.len() as i32, s, pos + 1);
    lemma_items_round_trip(l, tag, s, pos + 5);
    if l.len() == 0 {
        assert(list_view(l) =~= Seq::<ValueView>::empty());
    }
}

/// Values of one kind that can be written are read back from their
/// payloads, one after the other.
pub proof fn lemma_items_round_trip(l: Seq<Value>, tag: Tag, s: Seq<u8>, pos: int)
    requires
        items_encodable(l, tag),
        holds_at(s, pos, items_bytes(l)),
    ensures
        parse_items(tag, s, pos, l.len()) == Ok::<(Seq<ValueView>, nat), Error>(
            (list_view(l), items_bytes(l).len()),
        ),
    decreases l, 1nat,
{
    if l.len() == 0 {
        assert(list_view(l) =~= Seq::<ValueView>::empty());
    } else {
        let rest = l.drop_first();
        let first = payload_bytes(l[0]);
        lemma_holds_at_split(s, pos, first, items_bytes(rest));
        lemma_payload_round_trip(l[0], s, pos);
        lemma_items_round_trip(rest, tag, s, pos + first.len());
        assert(seq![value_view(l[0])] + list_view(rest) =~= list_view(l)) by {
            assert forall|i: int| 0 <= i < l.len() implies (seq![value_view(l[0])] + list_view(
                rest,
            ))[i] == list_view(l)[i] by {
                if i > 0 {
                    assert(rest[i - 1] == l[i]);
                }
            }
        }
    }
}

/// Entries that can be written are read back from their bytes and the
/// `End` tag behind them, and put into the map one by one.
pub proof fn lemma_entries_round_trip(
    es: Seq<(String, Value)>,
    acc: Map<Seq<char>, ValueView>,
    s: Seq<u8>,
    pos: int,
)
    requires
        entries_encodable(es),
        holds_at(s, pos, entries_bytes(es) + seq![0u8]),
    ensures
        parse_entries(s, pos, acc) == Ok::<(Map<Seq<char>, ValueView>, nat), Error>(
            (entries_onto(acc, es), (entries_bytes(es).len() + 1) as nat),
        ),
    decreases es, 1nat,
{
    if es.len() == 0 {
        let all = entries_bytes(es) + seq![0u8];
        assert(s[pos + 0] == all[0]);
    } else {
        let e = es[0];
        let rest = es.drop_first();
        let tag = value_view(e.1).tag();
        let tail = entries_bytes(rest) + seq![0u8];
        assert(entries_bytes(es) + seq![0u8] =~= entry_bytes(e) + tail);
        lemma_holds_at_split(s, pos, entry_bytes(e), tail);
        let head = seq![byte_of_tag(tag)] + prefixed_text_bytes(e.0@);
        lemma_holds_at_split(s, pos, head, payload_bytes(e.1));
        lemma_holds_at_split(s, pos, seq![byte_of_tag(tag)], prefixed_text_bytes(e.0@));
        assert(s[pos + 0] == seq![byte_of_tag(tag)][0]);
        lemma_tag_byte_round_trip(tag);
        lemma_prefixed_text_round_trip(e.0@, s, pos + 1);
        let k = prefixed_text_bytes(e.0@).len();
        assert(decreases_to!(es => es[0]));
        assert(decreases_to!(e => e.1));
        lemma_payload_round_trip(e.1, s, pos + 1 + k);
        let m = payload_bytes(e.1).len();
        lemma_entries_round_trip(rest, acc.insert(e.0@, value_view(e.1)), s, pos + 1 + k + m);
    }
}

/// What is written for a value is read back as that value: the payload of
/// every value that can be written parses, under the value's own tag, to
/// the value, and to the last byte.
pub proof fn lemma_round_trip(v: Value)
    requires
        encodable(v),
    ensures
        parse_payload(v@.tag(), payload_bytes(v), 0) == Ok::<(ValueView, nat), Error>(
            (v@, payload_bytes(v).len()),
        ),
{
    lemma_holds_at_self(payload_bytes(v));
    lemma_payload_round_trip(v, payload_bytes(v), 0);
}

/// What is written for a whole value, under a name that fits, is read back
/// as that value.
pub proof fn lemma_root_round_trip(name: Seq<char>, v: Value)
    requires
        text_fits(name),
        encodable(v),
    ensures
        parse_root(root_bytes(name, v)) == Ok::<ValueView, Error>(v@),
{
    let s = root_bytes(name, v);
    let tag = value_view(v).tag();
    lemma_holds_at_self(s);
    let head = seq![byte_of_tag(tag)] + prefixed_text_bytes(name);
    lemma_holds_at_split(s, 0, head, payload_bytes(v));
    lemma_holds_at_split(s, 0, seq![byte_of_tag(tag)], prefixed_text_bytes(name));
    assert(s[0int + 0] == seq![byte_of_tag(tag)][0]);
    lemma_tag_byte_round_trip(tag);
    lemma_prefixed_text_round_trip(name, s, 1);
    lemma_payload_round_trip(v, s, 1 + prefixed_text_bytes(name).len() as int);
}

/// Appends the payload of `v`. Returns whether `v` can be written; where it
/// cannot, what was appended is of no use.
fn write_payload(v: &Value, out: &mut Vec<u8>) -> (ok: bool)
    ensures
        ok == encodable(*v),
        ok ==> final(out)@ == old(out)@ + payload_bytes(*v),
    decreases v,
{
    let ghost start = out@;
    match v {
        Value::Byte(x) => {
            write_i8(out, *x);
            true
        },
        Value::Short(x) => {
            write_i16(out, *x);
            true
        },
        Value::Int(x) => {
            write_i32(out, *x);
            true
        },
        Value::Long(x) => {
            write_i64(out, *x);
            true
        },
        Value::Float(x) => {
            write_u32(out, *x);
            true
        },
        Value::Double(x) => {
            write_u64(out, *x);
            true
        },
        Value::String(t) => write_text(out, t.as_str()),
        Value::ByteArray(a) => a.encode(out),
        Value::IntArray(a) => a.encode(out),
        Value::LongArray(a) => a.encode(out),
        Value::List(l) => {
            let n: usize = l.len();
            if n > 0x7FFF_FFFF {
                return false;
            }
            let tag: Tag = if n == 0 {
                Tag::End
            } else {
                l[0].tag()
            };
            out.push(tag.to_byte());
            write_i32(out, n as i32);
            let ghost head = out@;
            assert(head =~= start + (seq![byte_of_tag(tag)] + i32_bytes(n as i32)));
            let mut i: usize = 0;
            proof {
                assert(l@.skip(0) =~= l@);
            }
            while i < n
                invariant
                    i <= n,
                    n == l@.len(),
                    *v == Value::List(*l),
                    tag == list_tag(l@),
                    head + items_bytes(l@) == out@ + items_bytes(l@.skip(i as int)),
                    items_encodable(l@, tag) == items_encodable(l@.skip(i as int), tag),
                decreases n - i,
            {
                proof {
                    assert(l@.skip(i as int).drop_first() =~= l@.skip(i + 1));
                    assert(l@.skip(i as int)[0] == l@[i as int]);
                    assert(v->List_0 == *l);
                    assert(decreases_to!(*v => v->List_0));
                    assert(decreases_to!(*l => l@));
                    assert(decreases_to!(l@ => l@[i as int]));
                }
                if l[i].tag() != tag {
                    return false;
                }
                let ghost before = out@;
                if !write_payload(&l[i], out) {
                    return false;
                }
                proof {
                    assert(before + (payload_bytes(l@[i as int]) + items_bytes(l@.skip(i + 1)))
                        =~= out@ + items_bytes(l@.skip(i + 1)));
                }
                i = i + 1;
            }
            proof {
                assert(l@.skip(n as int) =~= Seq::<Value>::empty());
                assert(out@ =~= head + items_bytes(l@));
                assert(out@ =~= start + list_bytes(l@));
            }
            true
        },
        Value::Compound(c) => {
            let n: usize = c.len();
            let mut i: usize = 0;
            proof {
                assert(c.entries().skip(0) =~= c.entries());
            }
            while i < n
                invariant
                    i <= n,
                    n == c.entries().len(),
                    *v == Value::Compound(*c),
                    start + entries_bytes(c.entries()) == out@ + entries_bytes(
                        c.entries().skip(i as int),
                    ),
                    entries_encodable(c.entries()) == entries_encodable(
                        c.entries().skip(i as int),
                    ),
                decreases n - i,
            {
                proof {
                    assert(c.entries().skip(i as int).drop_first() =~= c.entries().skip(i + 1));
                    assert(c.entries().skip(i as int)[0] == c.entries()[i as int]);
                }
                match c.entry(i) {
                    None => {
                        return false;
                    },
                    Some((name, value)) => {
                        proof {
                            assert(v->Compound_0 == *c);
                            assert(decreases_to!(*v => v->Compound_0));
                            c.lemma_decreases(i as int);
                        }
                        let ghost before = out@;
                        out.push(value.tag().to_byte());
                        if !write_text(out, name.as_str()) {
                            return false;
                        }
                        if !write_payload(value, out) {
                            return false;
                        }
                        proof {
                            let e = c.entries()[i as int];
                            assert(out@ =~= before + entry_bytes(e));
                            assert(before + (entry_bytes(e) + entries_bytes(
                                c.entries().skip(i + 1),
                            )) =~= out@ + entries_bytes(c.entries().skip(i + 1)));
                        }
                    },
                }
                i = i + 1;
            }
            out.push(0u8);
            proof {
                assert(c.entries().skip(n as int) =~= Seq::<(String, Value)>::empty());
                assert(out@ =~= start + payload_bytes(*v));
            }
            true
        },
    }
}

/// The payload of `v`, or nothing where `v` cannot be written.
pub fn to_payload(v: &Value) -> (r: Option<Vec<u8>>)
    ensures
        match r {
            Some(bytes) => encodable(*v) && bytes@ == payload_bytes(*v),
            None => !encodable(*v),
        },
{
    let mut out: Vec<u8> = Vec::new();
    if write_payload(v, &mut out) {
        assert(out@ =~= payload_bytes(*v));
        Some(out)
    } else {
        None
    }
}

/// The bytes of the whole value `v` under the name `name`, or nothing where
/// the name does not fit or `v` cannot be written.
pub fn to_bytes_named(name: &str, v: &Value) -> (r: Option<Vec<u8>>)
    ensures
        match r {
            Some(bytes) => text_fits(name@) && encodable(*v) && bytes@ == root_bytes(name@, *v),
            None => !(text_fits(name@) && encodable(*v)),
        },
{
    let mut out: Vec<u8> = Vec::new();
    out.push(v.tag().to_byte());
    if !write_text(&mut out, name) {
        return None;
    }
    if !write_payload(v, &mut out) {
        return None;
    }
    assert(out@ =~= root_bytes(name@, *v));
    Some(out)
}

/// The bytes of the whole value `v` under the empty name, or nothing where
/// `v` cannot be written.
pub fn to_bytes(v: &Value) -> (r: Option<Vec<u8>>)
    ensures
        match r {
            Some(bytes) => encodable(*v) && bytes@ == root_bytes(Seq::empty(), *v),
            None => !encodable(*v),
        },
{
    proof {
        reveal_strlit("");
        assert(""@ =~= Seq::<char>::empty());
        assert(text_bytes(Seq::<char>::empty()).len() == 0);
    }
    to_bytes_named("", v)
}

} // verus!
