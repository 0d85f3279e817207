use fastnbt::{Error, Tag};

const ALL: [Tag; 13] = [
    Tag::End,
    Tag::Byte,
    Tag::Short,
    Tag::Int,
    Tag::Long,
    Tag::Float,
    Tag::Double,
    Tag::ByteArray,
    Tag::String,
    Tag::List,
    Tag::Compound,
    Tag::IntArray,
    Tag::LongArray,
];

#[test]
fn every_tag_has_its_byte() {
    for (i, tag) in ALL.iter().enumerate() {
        assert_eq!(tag.to_byte(), i as u8);
        assert_eq!(Tag::from_byte(i as u8), Ok(*tag));
    }
}

#[test]
fn from_byte_is_inverse_of_to_byte() {
    for tag in ALL.iter() {
        assert_eq!(Tag::from_byte(tag.to_byte()), Ok(*tag));
    }
}

#[test]
fn bytes_above_twelve_are_unknown() {
    for b in 13u8..=255 {
        assert_eq!(Tag::from_byte(b), Err(Error::UnknownTag));
    }
}

#[test]
fn no_two_bytes_give_one_tag() {
    for a in 0u8..=12 {
        for b in 0u8..=12 {
            if a != b {
                assert_ne!(Tag::from_byte(a), Tag::from_byte(b));
            }
        }
    }
}

#[test]
fn try_from_and_from_agree_with_the_catalogue() {
    assert_eq!(Tag::try_from(0u8), Ok(Tag::End));
    assert_eq!(Tag::try_from(8u8), Ok(Tag::String));
    assert_eq!(Tag::try_from(12u8), Ok(Tag::LongArray));
    assert_eq!(Tag::try_from(13u8), Err(()));
    assert_eq!(Tag::try_from(255u8), Err(()));
    assert_eq!(u8::from(Tag::Compound), 10);
    assert_eq!(u8::from(Tag::IntArray), 11);
    let b: u8 = Tag::Double.into();
    assert_eq!(b, 6);
}
