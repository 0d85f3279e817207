//! Modified UTF-8, the text encoding of names and string payloads.
//!
//! The encoding spells a text as UTF-16 code units and each unit with one,
//! two or three bytes. It differs from UTF-8 in two places: the unit zero
//! takes two bytes (`C0 80`), and a character above `U+FFFF` is spelled as
//! its surrogate pair, three bytes for each half.

use vstd::prelude::*;
use crate::error::Error;
use crate::wire::{available, be_u16, holds_at, lemma_holds_at_split, lemma_u16_round_trip, read_u16,
    u16_bytes, write_u16};

verus! {

/// Whether `b` is a continuation byte, `10xxxxxx`.
pub open spec fn is_continuation(b: u8) -> bool {
    0x80 <= b <= 0xBF
}

/// The code unit that starts at `pos` in the window that stops before `end`,
/// with the number of bytes that spell it. Only the shortest spelling of a
/// unit is taken, and a zero byte spells nothing.
pub open spec fn unit_at(s: Seq<u8>, pos: int, end: int) -> Option<(int, int)> {
    if pos < 0 || pos >= end || end > s.len() {
        None
    } else {
        let b0 = s[pos] as int;
        if 1 <= b0 <= 0x7F {
            Some((b0, 1))
        } else if 0xC0 <= b0 <= 0xDF {
            if pos + 1 < end && is_continuation(s[pos + 1]) {
                let u = (b0 - 0xC0) * 64 + (s[pos + 1] - 0x80);
                if u == 0 || u >= 0x80 {
                    Some((u, 2))
                } else {
                    None
                }
            } else {
                None
            }
        } else if 0xE0 <= b0 <= 0xEF {
            if pos + 2 < end && is_continuation(s[pos + 1]) && is_continuation(s[pos + 2]) {
                let u = (b0 - 0xE0) * 4096 + (s[pos + 1] - 0x80) * 64 + (s[pos + 2] - 0x80);
                if u >= 0x800 {
                    Some((u, 3))
                } else {
                    None
                }
            } else {
                None
            }
        } else {
            None
        }
    }
}

/// The character that starts at `pos`, with the number of bytes that spell
/// it: a unit that is no surrogate, or a high surrogate with the low one
/// that follows it. A surrogate on its own spells nothing.
pub open spec fn char_at(s: Seq<u8>, pos: int, end: int) -> Option<(char, int)> {
    match unit_at(s, pos, end) {
        None => None,
        Some((u, n)) => {
            if u < 0xD800 || u > 0xDFFF {
                Some((u as char, n))
            } else if u <= 0xDBFF {
                match unit_at(s, pos + 3, end) {
                    Some((v, m)) => {
                        if 0xDC00 <= v <= 0xDFFF {
                            Some(((0x10000 + (u - 0xD800) * 1024 + (v - 0xDC00)) as char, 6))
                        } else {
                            None
                        }
                    },
                    None => None,
                }
            } else {
                None
            }
        },
    }
}

/// The text that the bytes from `pos` up to `end` spell, if they spell one.
pub open spec fn text_at(s: Seq<u8>, pos: int, end: int) -> Option<Seq<char>>
    decreases end - pos,
{
    if pos >= end {
        Some(Seq::empty())
    } else {
        match char_at(s, pos, end) {
            None => None,
            Some((c, n)) => match text_at(s, pos + n, end) {
                None => None,
                Some(rest) => Some(seq![c] + rest),
            },
        }
    }
}

/// The text that a whole run of bytes spells, if it spells one.
pub open spec fn text_of(s: Seq<u8>) -> Option<Seq<char>> {
    text_at(s, 0, s.len() as int)
}

/// The bytes that spell the code unit `u`.
pub open spec fn unit_bytes(u: int) -> Seq<u8> {
    if 1 <= u <= 0x7F {
        seq![u as u8]
    } else if u <= 0x7FF {
        seq![(0xC0 + u / 64) as u8, (0x80 + u % 64) as u8]
    } else {
        seq![(0xE0 + u / 4096) as u8, (0x80 + (u / 64) % 64) as u8, (0x80 + u % 64) as u8]
    }
}

/// The bytes that spell the character `c`.
pub open spec fn char_bytes(c: char) -> Seq<u8> {
    let v = c as int;
    if v < 0x10000 {
        unit_bytes(v)
    } else {
        unit_bytes(0xD800 + (v - 0x10000) / 1024) + unit_bytes(0xDC00 + (v - 0x10000) % 1024)
    }
}

/// The bytes that spell the text `t`.
pub open spec fn text_bytes(t: Seq<char>) -> Seq<u8>
    decreases t.len(),
{
    if t.len() == 0 {
        Seq::empty()
    } else {
        char_bytes(t[0]) + text_bytes(t.drop_first())
    }
}

/// The text with its length in front, as it stands on the wire from `pos`
/// on, with the number of bytes that it takes there.
pub open spec fn parse_text(s: Seq<u8>, pos: int) -> Result<(Seq<char>, nat), Error> {
    if !available(s, pos, 2) {
        Err(Error::Truncated)
    } else {
        let n = be_u16(s, pos);
        if !available(s, pos + 2, n) {
            Err(Error::Truncated)
        } else {
            match text_at(s, pos + 2, pos + 2 + n) {
                Some(t) => Ok((t, (2 + n) as nat)),
                None => Err(Error::InvalidText),
            }
        }
    }
}

/// The bytes that stand on the wire for the text `t`: its length in bytes,
/// then the bytes that spell it.
pub open spec fn prefixed_text_bytes(t: Seq<char>) -> Seq<u8> {
    u16_bytes(text_bytes(t).len() as int) + text_bytes(t)
}

/// Whether the text `t` fits the sixteen bits of the length in front of it.
pub open spec fn text_fits(t: Seq<char>) -> bool {
    text_bytes(t).len() <= 0xFFFF
}

/// A code unit is read back from its bytes.
pub proof fn lemma_unit_round_trip(u: int, s: Seq<u8>, pos: int, end: int)
    requires
        0 <= u <= 0xFFFF,
        holds_at(s, pos, unit_bytes(u)),
        pos + unit_bytes(u).len() <= end <= s.len(),
    ensures
        unit_at(s, pos, end) == Some((u, unit_bytes(u).len() as int)),
{
    let b = unit_bytes(u);
    assert(s[pos + 0] == b[0]);
    if 1 <= u <= 0x7F {
    } else if u <= 0x7FF {
        assert(s[pos + 1] == b[1]);
    } else {
        assert(s[pos + 1] == b[1]);
        assert(s[pos + 2] == b[2]);
    }
}

/// A character is read back from its bytes.
pub proof fn lemma_char_round_trip(c: char, s: Seq<u8>, pos: int, end: int)
    requires
        holds_at(s, pos, char_bytes(c)),
        pos + char_bytes(c).len() <= end <= s.len(),
    ensures
        char_at(s, pos, end) == Some((c, char_bytes(c).len() as int)),
        char_bytes(c).len() >= 1,
{
    let v = c as int;
    if v < 0x10000 {
        lemma_unit_round_trip(v, s, pos, end);
        assert(v as char == c);
    } else {
        let w = v - 0x10000;
        let hi = 0xD800 + w / 1024;
        let lo = 0xDC00 + w % 1024;
        lemma_holds_at_split(s, pos, unit_bytes(hi), unit_bytes(lo));
        lemma_unit_round_trip(hi, s, pos, end);
        lemma_unit_round_trip(lo, s, pos + 3, end);
        assert(0x10000 + (hi - 0xD800) * 1024 + (lo - 0xDC00) == v);
        assert(v as char == c);
    }
}

/// A text is read back from its bytes.
pub proof fn lemma_text_round_trip(t: Seq<char>, s: Seq<u8>, pos: int)
    requires
        holds_at(s, pos, text_bytes(t)),
    ensures
        text_at(s, pos, pos + text_bytes(t).len()) == Some(t),
    decreases t.len(),
{
    let end = pos + text_bytes(t).len();
    if t.len() == 0 {
        assert(t =~= Seq::empty());
    } else {
        let c = t[0];
        let rest = t.drop_first();
        let cb = char_bytes(c);
        lemma_holds_at_split(s, pos, cb, text_bytes(rest));
        lemma_char_round_trip(c, s, pos, end);
        lemma_text_round_trip(rest, s, pos + cb.len());
        assert(seq![c] + rest =~= t);
    }
}

/// A text that fits its length prefix is read back from the wire.
pub proof fn lemma_prefixed_text_round_trip(t: Seq<char>, s: Seq<u8>, pos: int)
    requires
        text_fits(t),
        holds_at(s, pos, prefixed_text_bytes(t)),
    ensures
        parse_text(s, pos) == Ok::<(Seq<char>, nat), Error>(
            (t, prefixed_text_bytes(t).len()),
        ),
        prefixed_text_bytes(t).len() == 2 + text_bytes(t).len(),
{
    let n = text_bytes(t).len() as int;
    lemma_holds_at_split(s, pos, u16_bytes(n), text_bytes(t));
    lemma_u16_round_trip(n, s, pos);
    lemma_text_round_trip(t, s, pos + 2);
}

/// The bytes of a text made of two parts are the bytes of the parts.
pub proof fn lemma_text_bytes_concat(a: Seq<char>, b: Seq<char>)
    ensures
        text_bytes(a + b) == text_bytes(a) + text_bytes(b),
    decreases a.len(),
{
    if a.len() == 0 {
        assert(a + b =~= b);
        assert(text_bytes(a) + text_bytes(b) =~= text_bytes(b));
    } else {
        lemma_text_bytes_concat(a.drop_first(), b);
        assert((a + b).drop_first() =~= a.drop_first() + b);
        assert((a + b)[0] == a[0]);
        assert(char_bytes(a[0]) + (text_bytes(a.drop_first()) + text_bytes(b)) =~= (char_bytes(
            a[0],
        ) + text_bytes(a.drop_first())) + text_bytes(b));
    }
}

/// `char::from_u32` of std: the character with the scalar value `i`, and
/// nothing where `i` is a surrogate or lies above `U+10FFFF`.
pub assume_specification[ char::from_u32 ](i: u32) -> (r: Option<char>)
    ensures
        (i < 0xD800 || 0xE000 <= i <= 0x10FFFF) ==> r == Some(i as char),
        !(i < 0xD800 || 0xE000 <= i <= 0x10FFFF) ==> r is None,
;

/// `String::push` of std: the string with the character `ch` added at its
/// end.
pub assume_specification[ std::string::String::push ](s: &mut std::string::String, ch: char)
    ensures
        final(s)@ == old(s)@.push(ch),
;

/// Reads the code unit at `pos` in the window that stops before `end`.
fn read_unit(bytes: &[u8], pos: usize, end: usize) -> (r: Option<(u32, usize)>)
    requires
        end <= bytes.len(),
    ensures
        match unit_at(bytes@, pos as int, end as int) {
            Some((u, n)) => (r matches Some((ru, rn)) && ru == u && rn == n && ru <= 0xFFFF && pos
                + rn <= end),
            None => r is None,
        },
{
    if pos >= end {
        return None;
    }
    let b0: u32 = bytes[pos] as u32;
    if 1 <= b0 && b0 <= 0x7F {
        Some((b0, 1))
    } else if 0xC0 <= b0 && b0 <= 0xDF {
        if end - pos < 2 {
            return None;
        }
        let b1: u32 = bytes[pos + 1] as u32;
        if b1 < 0x80 || b1 > 0xBF {
            return None;
        }
        let u: u32 = (b0 - 0xC0) * 64 + (b1 - 0x80);
        if u == 0 || u >= 0x80 {
            Some((u, 2))
        } else {
            None
        }
    } else if 0xE0 <= b0 && b0 <= 0xEF {
        if end - pos < 3 {
            return None;
        }
        let b1: u32 = bytes[pos + 1] as u32;
        let b2: u32 = bytes[pos + 2] as u32;
        if b1 < 0x80 || b1 > 0xBF || b2 < 0x80 || b2 > 0xBF {
            return None;
        }
        let u: u32 = (b0 - 0xE0) * 4096 + (b1 - 0x80) * 64 + (b2 - 0x80);
        if u >= 0x800 {
            Some((u, 3))
        } else {
            None
        }
    } else {
        None
    }
}

/// Reads the character at `pos` in the window that stops before `end`.
fn read_char(bytes: &[u8], pos: usize, end: usize) -> (r: Option<(char, usize)>)
    requires
        end <= bytes.len(),
    ensures
        match char_at(bytes@, pos as int, end as int) {
            Some((c, n)) => (r matches Some((rc, rn)) && rc == c && rn == n && 1 <= rn && pos + rn
                <= end),
            None => r is None,
        },
{
    match read_unit(bytes, pos, end) {
        None => None,
        Some((u, n)) => {
            if u < 0xD800 || u > 0xDFFF {
                match char::from_u32(u) {
                    Some(c) => Some((c, n)),
                    None => None,
                }
            } else if u <= 0xDBFF {
                match read_unit(bytes, pos + 3, end) {
                    Some((v, m)) => {
                        if 0xDC00 <= v && v <= 0xDFFF {
                            let scalar: u32 = 0x10000 + (u - 0xD800) * 1024 + (v - 0xDC00);
                            match char::from_u32(scalar) {
                                Some(c) => Some((c, 6)),
                                None => None,
                            }
                        } else {
                            None
                        }
                    },
                    None => None,
                }
            } else {
                None
            }
        },
    }
}

/// Reads the text that the bytes from `start` up to `end` spell.
fn decode_text_in(bytes: &[u8], start: usize, end: usize) -> (r: Result<String, Error>)
    requires
        start <= end <= bytes.len(),
    ensures
        match text_at(bytes@, start as int, end as int) {
            Some(t) => (r matches Ok(text) && text@ == t),
            None => r == Err::<String, Error>(Error::InvalidText),
        },
{
    let mut out = String::new();
    let mut pos: usize = start;
    while pos < end
        invariant
            start <= pos <= end <= bytes.len(),
            text_at(bytes@, start as int, end as int) == match text_at(
                bytes@,
                pos as int,
                end as int,
            ) {
                Some(rest) => Some(out@ + rest),
                None => None::<Seq<char>>,
            },
        decreases end - pos,
    {
        match read_char(bytes, pos, end) {
            None => {
                return Err(Error::InvalidText);
            },
            Some((c, n)) => {
                proof {
                    match text_at(bytes@, pos + n, end as int) {
                        Some(rest) => {
                            assert(out@ + (seq![c] + rest) =~= out@.push(c) + rest);
                        },
                        None => {},
                    }
                }
                out.push(c);
                pos = pos + n;
            },
        }
    }
    proof {
        assert(out@ + Seq::<char>::empty() =~= out@);
    }
    Ok(out)
}

/// Reads a whole run of bytes as text.
pub fn decode_text(bytes: &[u8]) -> (r: Result<String, Error>)
    ensures
        match text_of(bytes@) {
            Some(t) => (r matches Ok(text) && text@ == t),
            None => r == Err::<String, Error>(Error::InvalidText),
        },
{
    decode_text_in(bytes, 0, bytes.len())
}

/// Reads the text that stands at `pos` with its length in front. Returns the
/// text and the position behind it.
pub fn read_text(bytes: &[u8], pos: usize) -> (r: Result<(String, usize), Error>)
    ensures
        match parse_text(bytes@, pos as int) {
            Ok((t, n)) => (r matches Ok((text, next)) && text@ == t && next == pos + n && next
                <= bytes.len()),
            Err(e) => r == Err::<(String, usize), Error>(e),
        },
{
    match read_u16(bytes, pos) {
        Err(e) => Err(e),
        Ok(n) => {
            let len: usize = bytes.len();
            let start: usize = pos + 2;
            let n: usize = n as usize;
            if len - start < n {
                return Err(Error::Truncated);
            }
            match decode_text_in(bytes, start, start + n) {
                Ok(text) => Ok((text, start + n)),
                Err(e) => Err(e),
            }
        },
    }
}

/// Appends the bytes that spell the code unit `u`.
fn write_unit(out: &mut Vec<u8>, u: u32)
    requires
        u <= 0xFFFF,
    ensures
        final(out)@ == old(out)@ + unit_bytes(u as int),
{
    if 1 <= u && u <= 0x7F {
        out.push(u as u8);
    } else if u <= 0x7FF {
        out.push((0xC0 + u / 64) as u8);
        out.push((0x80 + u % 64) as u8);
    } else {
        out.push((0xE0 + u / 4096) as u8);
        out.push((0x80 + (u / 64) % 64) as u8);
        out.push((0x80 + u % 64) as u8);
    }
    assert(out@ =~= old(out)@ + unit_bytes(u as int));
}

/// Appends the bytes that spell the character `c`.
fn write_char(out: &mut Vec<u8>, c: char)
    ensures
        final(out)@ == old(out)@ + char_bytes(c),
{
    let v: u32 = c as u32;
    if v < 0x10000 {
        write_unit(out, v);
    } else {
        let w: u32 = v - 0x10000;
        write_unit(out, 0xD800 + w / 1024);
        write_unit(out, 0xDC00 + w % 1024);
        assert(out@ =~= old(out)@ + char_bytes(c));
    }
}

/// The bytes that spell `text`.
pub fn encode_text(text: &str) -> (out: Vec<u8>)
    ensures
        out@ == text_bytes(text@),
{
    let mut out: Vec<u8> = Vec::new();
    for c in it: text.chars()
        invariant
            it.seq() == text@,
            out@ == text_bytes(text@.take(it.index() as int)),
    {
        proof {
            let i = it.index() as int;
            reveal_with_fuel(text_bytes, 2);
            lemma_text_bytes_concat(text@.take(i), seq![c]);
            assert(text@.take(i) + seq![c] =~= text@.take(i + 1));
            assert(seq![c].drop_first() =~= Seq::<char>::empty());
            assert(text_bytes(seq![c]) =~= char_bytes(c));
        }
        write_char(&mut out, c);
    }
    proof {
        assert(text@.take(text@.len() as int) =~= text@);
    }
    out
}

/// Appends `text` as it stands on the wire, its length in front. Returns
/// whether it did: a text whose bytes outrun the sixteen bits of the length
/// is not written, and `out` is left as it was.
pub fn write_text(out: &mut Vec<u8>, text: &str) -> (ok: bool)
    ensures
        ok == text_fits(text@),
        ok ==> final(out)@ == old(out)@ + prefixed_text_bytes(text@),
        !ok ==> final(out)@ == old(out)@,
{
    let mut body = encode_text(text);
    if body.len() > 0xFFFF {
        return false;
    }
    write_u16(out, body.len() as u16);
    out.append(&mut body);
    assert(out@ =~= old(out)@ + prefixed_text_bytes(text@));
    true
}

} // verus!
