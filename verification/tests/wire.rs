use fastnbt::wire::{
    read_i16, read_i32, read_i64, read_i8, read_u16, read_u32, read_u64, read_u8, write_i16,
    write_i32, write_i64, write_i8, write_u16, write_u32, write_u64,
};
use fastnbt::Error;

#[test]
fn reads_are_big_endian() {
    let b = [0x01u8, 0x02, 0x03, 0x04, 0x05, 0x06, 0x07, 0x08];
    assert_eq!(read_u8(&b, 0), Ok(1));
    assert_eq!(read_u16(&b, 0), Ok(0x0102));
    assert_eq!(read_u32(&b, 0), Ok(0x01020304));
    assert_eq!(read_u64(&b, 0), Ok(0x0102030405060708));
    assert_eq!(read_i16(&b, 2), Ok(0x0304));
    assert_eq!(read_i32(&b, 4), Ok(0x05060708));
    assert_eq!(read_i64(&b, 0), Ok(0x0102030405060708));
}

#[test]
fn reads_are_twos_complement() {
    assert_eq!(read_i8(&[0xFF], 0), Ok(-1));
    assert_eq!(read_i8(&[0x80], 0), Ok(-128));
    assert_eq!(read_i8(&[0x7F], 0), Ok(127));
    assert_eq!(read_i16(&[0x80, 0x00], 0), Ok(i16::MIN));
    assert_eq!(read_i16(&[0xFF, 0xFE], 0), Ok(-2));
    assert_eq!(read_i32(&[0xFF, 0xFF, 0xFF, 0xFF], 0), Ok(-1));
    assert_eq!(read_i32(&[0x80, 0, 0, 0], 0), Ok(i32::MIN));
    assert_eq!(read_i32(&[0x7F, 0xFF, 0xFF, 0xFF], 0), Ok(i32::MAX));
    assert_eq!(read_i64(&[0xFF; 8], 0), Ok(-1));
    assert_eq!(read_i64(&[0x80, 0, 0, 0, 0, 0, 0, 0], 0), Ok(i64::MIN));
}

#[test]
fn reads_behind_the_end_are_truncated() {
    let b = [1u8, 2, 3];
    assert_eq!(read_u8(&b, 3), Err(Error::Truncated));
    assert_eq!(read_i8(&b, 7), Err(Error::Truncated));
    assert_eq!(read_u16(&b, 2), Err(Error::Truncated));
    assert_eq!(read_i16(&b, usize::MAX), Err(Error::Truncated));
    assert_eq!(read_i32(&b, 0), Err(Error::Truncated));
    assert_eq!(read_u32(&b, 0), Err(Error::Truncated));
    assert_eq!(read_i64(&b, 0), Err(Error::Truncated));
    assert_eq!(read_u64(&[0u8; 8], 1), Err(Error::Truncated));
}

#[test]
fn writes_are_read_back() {
    let mut out = vec![9u8];
    write_i8(&mut out, -2);
    write_i16(&mut out, -300);
    write_u16(&mut out, 0xABCD);
    write_i32(&mut out, i32::MIN);
    write_u32(&mut out, 0xDEADBEEF);
    write_i64(&mut out, -1234567890123);
    write_u64(&mut out, u64::MAX);
    assert_eq!(out.len(), 1 + 1 + 2 + 2 + 4 + 4 + 8 + 8);
    assert_eq!(out[0], 9);
    assert_eq!(read_i8(&out, 1), Ok(-2));
    assert_eq!(read_i16(&out, 2), Ok(-300));
    assert_eq!(read_u16(&out, 4), Ok(0xABCD));
    assert_eq!(read_i32(&out, 6), Ok(i32::MIN));
    assert_eq!(read_u32(&out, 10), Ok(0xDEADBEEF));
    assert_eq!(read_i64(&out, 14), Ok(-1234567890123));
    assert_eq!(read_u64(&out, 22), Ok(u64::MAX));
}

#[test]
fn writes_are_exact_bytes() {
    let mut out = Vec::new();
    write_i32(&mut out, 1);
    write_i32(&mut out, -1);
    write_i16(&mut out, 258);
    write_i64(&mut out, 1);
    assert_eq!(
        out,
        vec![0, 0, 0, 1, 255, 255, 255, 255, 1, 2, 0, 0, 0, 0, 0, 0, 0, 1]
    );
}
