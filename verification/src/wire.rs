//! Big-endian scalars on the wire: what a run of bytes means as a number,
//! readers that take one scalar from a buffer, and writers that append one.

use vstd::prelude::*;
use crate::error::Error;

verus! {

/// The unsigned 16-bit number that the two bytes from `pos` on spell.
pub open spec fn be_u16(s: Seq<u8>, pos: int) -> int {
    s[pos] as int * 256 + s[pos + 1] as int
}

/// The unsigned 32-bit number that the four bytes from `pos` on spell.
pub open spec fn be_u32(s: Seq<u8>, pos: int) -> int {
    s[pos] as int * 16777216 + s[pos + 1] as int * 65536 + s[pos + 2] as int * 256 + s[pos
        + 3] as int
}

/// The unsigned 64-bit number that the eight bytes from `pos` on spell.
pub open spec fn be_u64(s: Seq<u8>, pos: int) -> int {
    be_u32(s, pos) * 4294967296 + be_u32(s, pos + 4)
}

/// The two's complement reading of `u`, a number below `modulus`.
pub open spec fn to_signed(u: int, modulus: int) -> int {
    if 2 * u >= modulus {
        u - modulus
    } else {
        u
    }
}

/// The number below `modulus` whose two's complement reading is `x`.
pub open spec fn to_unsigned(x: int, modulus: int) -> int {
    if x < 0 {
        x + modulus
    } else {
        x
    }
}

/// The signed byte at `pos`.
pub open spec fn be_i8(s: Seq<u8>, pos: int) -> i8 {
    to_signed(s[pos] as int, 256) as i8
}

/// The signed 16-bit number that the two bytes from `pos` on spell.
pub open spec fn be_i16(s: Seq<u8>, pos: int) -> i16 {
    to_signed(be_u16(s, pos), 65536) as i16
}

/// The signed 32-bit number that the four bytes from `pos` on spell.
pub open spec fn be_i32(s: Seq<u8>, pos: int) -> i32 {
    to_signed(be_u32(s, pos), 4294967296) as i32
}

/// The signed 64-bit number that the eight bytes from `pos` on spell.
pub open spec fn be_i64(s: Seq<u8>, pos: int) -> i64 {
    to_signed(be_u64(s, pos), 18446744073709551616) as i64
}

/// Whether `n` bytes can be read from `pos` on.
pub open spec fn available(s: Seq<u8>, pos: int, n: int) -> bool {
    0 <= pos && pos + n <= s.len()
}

/// The two bytes that spell `u`, a number below 65536.
pub open spec fn u16_bytes(u: int) -> Seq<u8> {
    seq![(u / 256) as u8, (u % 256) as u8]
}

/// The four bytes that spell `u`, a number below 2^32.
pub open spec fn u32_bytes(u: int) -> Seq<u8> {
    seq![
        (u / 16777216) as u8,
        ((u / 65536) % 256) as u8,
        ((u / 256) % 256) as u8,
        (u % 256) as u8,
    ]
}

/// The eight bytes that spell `u`, a number below 2^64.
pub open spec fn u64_bytes(u: int) -> Seq<u8> {
    u32_bytes(u / 4294967296) + u32_bytes(u % 4294967296)
}

/// The byte that spells `x`.
pub open spec fn i8_bytes(x: i8) -> Seq<u8> {
    seq![to_unsigned(x as int, 256) as u8]
}

/// The two bytes that spell `x`.
pub open spec fn i16_bytes(x: i16) -> Seq<u8> {
    u16_bytes(to_unsigned(x as int, 65536))
}

/// The four bytes that spell `x`.
pub open spec fn i32_bytes(x: i32) -> Seq<u8> {
    u32_bytes(to_unsigned(x as int, 4294967296))
}

/// The eight bytes that spell `x`.
pub open spec fn i64_bytes(x: i64) -> Seq<u8> {
    u64_bytes(to_unsigned(x as int, 18446744073709551616))
}

/// Whether the buffer `s` holds the run `b` from `pos` on.
pub open spec fn holds_at(s: Seq<u8>, pos: int, b: Seq<u8>) -> bool {
    &&& 0 <= pos
    &&& pos + b.len() <= s.len()
    &&& forall|i: int| 0 <= i < b.len() ==> s[pos + i] == #[trigger] b[i]
}

/// A buffer that holds a run made of two parts holds each part in its place.
pub proof fn lemma_holds_at_split(s: Seq<u8>, pos: int, a: Seq<u8>, b: Seq<u8>)
    requires
        holds_at(s, pos, a + b),
    ensures
        holds_at(s, pos, a),
        holds_at(s, pos + a.len(), b),
{
    let ab = a + b;
    assert forall|i: int| 0 <= i < a.len() implies s[pos + i] == #[trigger] a[i] by {
        assert(ab[i] == a[i]);
    }
    assert forall|i: int| 0 <= i < b.len() implies s[pos + a.len() + i] == #[trigger] b[i] by {
        assert(ab[a.len() + i] == b[i]);
    }
}

/// A run holds itself from its start.
pub proof fn lemma_holds_at_self(b: Seq<u8>)
    ensures
        holds_at(b, 0, b),
{
}

/// The byte written for a signed byte reads back as that byte.
pub proof fn lemma_i8_round_trip(x: i8, s: Seq<u8>, pos: int)
    requires
        holds_at(s, pos, i8_bytes(x)),
    ensures
        be_i8(s, pos) == x,
{
    let b = i8_bytes(x);
    assert(s[pos + 0] == b[0]);
}

/// The two bytes written for a number below 65536 read back as that number.
pub proof fn lemma_u16_round_trip(u: int, s: Seq<u8>, pos: int)
    requires
        0 <= u < 65536,
        holds_at(s, pos, u16_bytes(u)),
    ensures
        be_u16(s, pos) == u,
{
    let b = u16_bytes(u);
    assert(s[pos + 0] == b[0]);
    assert(s[pos + 1] == b[1]);
}

/// The four bytes written for a number below 2^32 read back as that number.
pub proof fn lemma_u32_round_trip(u: int, s: Seq<u8>, pos: int)
    requires
        0 <= u < 4294967296,
        holds_at(s, pos, u32_bytes(u)),
    ensures
        be_u32(s, pos) == u,
{
    let b = u32_bytes(u);
    assert(s[pos + 0] == b[0]);
    assert(s[pos + 1] == b[1]);
    assert(s[pos + 2] == b[2]);
    assert(s[pos + 3] == b[3]);
}

/// The eight bytes written for a number below 2^64 read back as that number.
pub proof fn lemma_u64_round_trip(u: int, s: Seq<u8>, pos: int)
    requires
        0 <= u < 18446744073709551616,
        holds_at(s, pos, u64_bytes(u)),
    ensures
        be_u64(s, pos) == u,
{
    let hi = u / 4294967296;
    let lo = u % 4294967296;
    lemma_holds_at_split(s, pos, u32_bytes(hi), u32_bytes(lo));
    lemma_u32_round_trip(hi, s, pos);
    lemma_u32_round_trip(lo, s, pos + 4);
}

/// The two bytes written for a signed 16-bit number read back as it.
pub proof fn lemma_i16_round_trip(x: i16, s: Seq<u8>, pos: int)
    requires
        holds_at(s, pos, i16_bytes(x)),
    ensures
        be_i16(s, pos) == x,
{
    lemma_u16_round_trip(to_unsigned(x as int, 65536), s, pos);
}

/// The four bytes written for a signed 32-bit number read back as it.
pub proof fn lemma_i32_round_trip(x: i32, s: Seq<u8>, pos: int)
    requires
        holds_at(s, pos, i32_bytes(x)),
    ensures
        be_i32(s, pos) == x,
{
    lemma_u32_round_trip(to_unsigned(x as int, 4294967296), s, pos);
}

/// The eight bytes written for a signed 64-bit number read back as it.
pub proof fn lemma_i64_round_trip(x: i64, s: Seq<u8>, pos: int)
    requires
        holds_at(s, pos, i64_bytes(x)),
    ensures
        be_i64(s, pos) == x,
{
    lemma_u64_round_trip(to_unsigned(x as int, 18446744073709551616), s, pos);
}

/// Reads the byte at `pos`.
pub fn read_u8(bytes: &[u8], pos: usize) -> (r: Result<u8, Error>)
    ensures
        available(bytes@, pos as int, 1) ==> r == Ok::<u8, Error>(bytes@[pos as int]),
        !available(bytes@, pos as int, 1) ==> r == Err::<u8, Error>(Error::Truncated),
{
    if pos < bytes.len() {
        Ok(bytes[pos])
    } else {
        Err(Error::Truncated)
    }
}

/// Reads the signed byte at `pos`.
pub fn read_i8(bytes: &[u8], pos: usize) -> (r: Result<i8, Error>)
    ensures
        available(bytes@, pos as int, 1) ==> r == Ok::<i8, Error>(be_i8(bytes@, pos as int)),
        !available(bytes@, pos as int, 1) ==> r == Err::<i8, Error>(Error::Truncated),
{
    if pos < bytes.len() {
        let b: u8 = bytes[pos];
        if b >= 128 {
            Ok(((b - 128) as i8) - 127 - 1)
        } else {
            Ok(b as i8)
        }
    } else {
        Err(Error::Truncated)
    }
}

/// Reads the unsigned 16-bit number at `pos`.
pub fn read_u16(bytes: &[u8], pos: usize) -> (r: Result<u16, Error>)
    ensures
        available(bytes@, pos as int, 2) ==> (r matches Ok(u) && u == be_u16(bytes@, pos as int)),
        !available(bytes@, pos as int, 2) ==> r == Err::<u16, Error>(Error::Truncated),
{
    if pos <= bytes.len() && bytes.len() - pos >= 2 {
        let b0: u16 = bytes[pos] as u16;
        let b1: u16 = bytes[pos + 1] as u16;
        Ok(b0 * 256 + b1)
    } else {
        Err(Error::Truncated)
    }
}

/// Reads the signed 16-bit number at `pos`.
pub fn read_i16(bytes: &[u8], pos: usize) -> (r: Result<i16, Error>)
    ensures
        available(bytes@, pos as int, 2) ==> r == Ok::<i16, Error>(be_i16(bytes@, pos as int)),
        !available(bytes@, pos as int, 2) ==> r == Err::<i16, Error>(Error::Truncated),
{
    match read_u16(bytes, pos) {
        Ok(u) => {
            if u >= 0x8000 {
                Ok(((u - 0x8000) as i16) - 0x7FFF - 1)
            } else {
                Ok(u as i16)
            }
        },
        Err(e) => Err(e),
    }
}

/// Reads the unsigned 32-bit number at `pos`.
pub fn read_u32(bytes: &[u8], pos: usize) -> (r: Result<u32, Error>)
    ensures
        available(bytes@, pos as int, 4) ==> (r matches Ok(u) && u == be_u32(bytes@, pos as int)),
        !available(bytes@, pos as int, 4) ==> r == Err::<u32, Error>(Error::Truncated),
{
    if pos <= bytes.len() && bytes.len() - pos >= 4 {
        let b0: u32 = bytes[pos] as u32;
        let b1: u32 = bytes[pos + 1] as u32;
        let b2: u32 = bytes[pos + 2] as u32;
        let b3: u32 = bytes[pos + 3] as u32;
        Ok(b0 * 16777216 + b1 * 65536 + b2 * 256 + b3)
    } else {
        Err(Error::Truncated)
    }
}

/// Reads the signed 32-bit number at `pos`.
pub fn read_i32(bytes: &[u8], pos: usize) -> (r: Result<i32, Error>)
    ensures
        available(bytes@, pos as int, 4) ==> r == Ok::<i32, Error>(be_i32(bytes@, pos as int)),
        !available(bytes@, pos as int, 4) ==> r == Err::<i32, Error>(Error::Truncated),
{
    match read_u32(bytes, pos) {
        Ok(u) => {
            if u >= 0x8000_0000 {
                Ok(((u - 0x8000_0000) as i32) - 0x7FFF_FFFF - 1)
            } else {
                Ok(u as i32)
            }
        },
        Err(e) => Err(e),
    }
}

/// Reads the unsigned 64-bit number at `pos`.
pub fn read_u64(bytes: &[u8], pos: usize) -> (r: Result<u64, Error>)
    ensures
        available(bytes@, pos as int, 8) ==> (r matches Ok(u) && u == be_u64(bytes@, pos as int)),
        !available(bytes@, pos as int, 8) ==> r == Err::<u64, Error>(Error::Truncated),
{
    if pos <= bytes.len() && bytes.len() - pos >= 8 {
        let hi = read_u32(bytes, pos);
        let lo = read_u32(bytes, pos + 4);
        match (hi, lo) {
            (Ok(h), Ok(l)) => {
                let h64: u64 = h as u64;
                let l64: u64 = l as u64;
                Ok(h64 * 4294967296 + l64)
            },
            _ => Err(Error::Truncated),
        }
    } else {
        Err(Error::Truncated)
    }
}

/// Reads the signed 64-bit number at `pos`.
pub fn read_i64(bytes: &[u8], pos: usize) -> (r: Result<i64, Error>)
    ensures
        available(bytes@, pos as int, 8) ==> r == Ok::<i64, Error>(be_i64(bytes@, pos as int)),
        !available(bytes@, pos as int, 8) ==> r == Err::<i64, Error>(Error::Truncated),
{
    match read_u64(bytes, pos) {
        Ok(u) => {
            if u >= 0x8000_0000_0000_0000 {
                Ok(((u - 0x8000_0000_0000_0000) as i64) - 0x7FFF_FFFF_FFFF_FFFF - 1)
            } else {
                Ok(u as i64)
            }
        },
        Err(e) => Err(e),
    }
}

/// Appends the byte that spells `x`.
pub fn write_i8(out: &mut Vec<u8>, x: i8)
    ensures
        final(out)@ == old(out)@ + i8_bytes(x),
{
    let b: u8 = if x < 0 {
        ((x + 127 + 1) as u8) + 128
    } else {
        x as u8
    };
    out.push(b);
    assert(out@ =~= old(out)@ + i8_bytes(x));
}

/// Appends the two bytes that spell `u`.
pub fn write_u16(out: &mut Vec<u8>, u: u16)
    ensures
        final(out)@ == old(out)@ + u16_bytes(u as int),
{
    out.push((u / 256) as u8);
    out.push((u % 256) as u8);
    assert(out@ =~= old(out)@ + u16_bytes(u as int));
}

/// Appends the two bytes that spell `x`.
pub fn write_i16(out: &mut Vec<u8>, x: i16)
    ensures
        final(out)@ == old(out)@ + i16_bytes(x),
{
    let u: u16 = if x < 0 {
        ((x + 0x7FFF + 1) as u16) + 0x8000
    } else {
        x as u16
    };
    write_u16(out, u);
}

/// Appends the four bytes that spell `u`.
pub fn write_u32(out: &mut Vec<u8>, u: u32)
    ensures
        final(out)@ == old(out)@ + u32_bytes(u as int),
{
    out.push((u / 16777216) as u8);
    out.push(((u / 65536) % 256) as u8);
    out.push(((u / 256) % 256) as u8);
    out.push((u % 256) as u8);
    assert(out@ =~= old(out)@ + u32_bytes(u as int));
}

/// Appends the four bytes that spell `x`.
pub fn write_i32(out: &mut Vec<u8>, x: i32)
    ensures
        final(out)@ == old(out)@ + i32_bytes(x),
{
    let u: u32 = if x < 0 {
        ((x + 0x7FFF_FFFF + 1) as u32) + 0x8000_0000
    } else {
        x as u32
    };
    write_u32(out, u);
}

/// Appends the eight bytes that spell `u`.
pub fn write_u64(out: &mut Vec<u8>, u: u64)
    ensures
        final(out)@ == old(out)@ + u64_bytes(u as int),
{
    write_u32(out, (u / 4294967296) as u32);
    write_u32(out, (u % 4294967296) as u32);
    assert(out@ =~= old(out)@ + u64_bytes(u as int));
}

/// Appends the eight bytes that spell `x`.
pub fn write_i64(out: &mut Vec<u8>, x: i64)
    ensures
        final(out)@ == old(out)@ + i64_bytes(x),
{
    let u: u64 = if x < 0 {
        ((x + 0x7FFF_FFFF_FFFF_FFFF + 1) as u64) + 0x8000_0000_0000_0000
    } else {
        x as u64
    };
    write_u64(out, u);
}

} // verus!
