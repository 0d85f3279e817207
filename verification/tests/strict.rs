use fastnbt::comp_tag::CompTag;
use fastnbt::strict::{accept_i64, strict_i16, strict_i32, strict_i8, Primitive};
use fastnbt::Error;

#[test]
fn strict_i8_takes_only_eight_bits() {
    assert_eq!(strict_i8(Primitive::I8(5)), Ok(5));
    assert_eq!(strict_i8(Primitive::I8(-128)), Ok(-128));
    let refused = Err(Error::TypeMismatch { expected_bits: 8 });
    assert_eq!(strict_i8(Primitive::I16(5)), refused);
    assert_eq!(strict_i8(Primitive::I32(5)), refused);
    assert_eq!(strict_i8(Primitive::I64(5)), refused);
    assert_eq!(strict_i8(Primitive::U8(5)), refused);
    assert_eq!(strict_i8(Primitive::Bool(true)), refused);
    assert_eq!(strict_i8(Primitive::Other), refused);
}

#[test]
fn strict_i16_takes_only_sixteen_bits() {
    assert_eq!(strict_i16(Primitive::I16(5)), Ok(5));
    assert_eq!(strict_i16(Primitive::I16(i16::MIN)), Ok(i16::MIN));
    let refused = Err(Error::TypeMismatch { expected_bits: 16 });
    assert_eq!(strict_i16(Primitive::I8(5)), refused);
    assert_eq!(strict_i16(Primitive::I32(5)), refused);
    assert_eq!(strict_i16(Primitive::F32(0)), refused);
}

#[test]
fn strict_i32_takes_only_thirty_two_bits() {
    assert_eq!(strict_i32(Primitive::I32(5)), Ok(5));
    assert_eq!(strict_i32(Primitive::I32(i32::MAX)), Ok(i32::MAX));
    let refused = Err(Error::TypeMismatch { expected_bits: 32 });
    assert_eq!(strict_i32(Primitive::I8(5)), refused);
    assert_eq!(strict_i32(Primitive::I16(5)), refused);
    assert_eq!(strict_i32(Primitive::I64(5)), refused);
    assert_eq!(strict_i32(Primitive::U32(5)), refused);
}

#[test]
fn a_report_is_taken_at_one_width_only() {
    let reports = [Primitive::I8(5), Primitive::I16(5), Primitive::I32(5), Primitive::I64(5)];
    for r in reports.iter() {
        let taken = [strict_i8(*r).is_ok(), strict_i16(*r).is_ok(), strict_i32(*r).is_ok()];
        assert!(taken.iter().filter(|t| **t).count() <= 1);
    }
}

#[test]
fn accept_i64_widens_signed_integers() {
    assert_eq!(accept_i64(Primitive::I8(-5)), Ok(-5));
    assert_eq!(accept_i64(Primitive::I16(300)), Ok(300));
    assert_eq!(accept_i64(Primitive::I32(i32::MIN)), Ok(i32::MIN as i64));
    assert_eq!(accept_i64(Primitive::I64(i64::MAX)), Ok(i64::MAX));
    assert_eq!(
        accept_i64(Primitive::F64(0)),
        Err(Error::TypeMismatch { expected_bits: 64 })
    );
    assert_eq!(
        accept_i64(Primitive::Other),
        Err(Error::TypeMismatch { expected_bits: 64 })
    );
}

#[test]
fn comp_tag_takes_its_own_byte_only() {
    assert!(CompTag::<3>::decode(3).is_ok());
    assert_eq!(CompTag::<3>::decode(12).err(), Some(Error::ArrayTypeMismatch));
    assert_eq!(CompTag::<3>::decode(11).err(), Some(Error::ArrayTypeMismatch));
    assert!(CompTag::<12>::decode(12).is_ok());
    assert_eq!(CompTag::<0>::decode(255).err(), Some(Error::ArrayTypeMismatch));
}
