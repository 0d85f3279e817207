use fastnbt::text::{decode_text, encode_text, read_text, write_text};
use fastnbt::Error;

#[test]
fn ascii_is_one_byte_each() {
    assert_eq!(encode_text("Abc"), vec![0x41, 0x62, 0x63]);
    assert_eq!(decode_text(&[0x41, 0x62, 0x63]), Ok("Abc".to_string()));
    assert_eq!(decode_text(&[]), Ok(String::new()));
    assert_eq!(encode_text(""), Vec::<u8>::new());
}

#[test]
fn zero_takes_two_bytes() {
    assert_eq!(encode_text("\0"), vec![0xC0, 0x80]);
    assert_eq!(decode_text(&[0xC0, 0x80]), Ok("\0".to_string()));
    assert_eq!(decode_text(&[0x41, 0xC0, 0x80, 0x42]), Ok("A\0B".to_string()));
}

#[test]
fn a_zero_byte_is_no_text() {
    assert_eq!(decode_text(&[0x00]), Err(Error::InvalidText));
    assert_eq!(decode_text(&[0x41, 0x00]), Err(Error::InvalidText));
}

#[test]
fn two_and_three_byte_units() {
    assert_eq!(encode_text("\u{e9}"), vec![0xC3, 0xA9]);
    assert_eq!(decode_text(&[0xC3, 0xA9]), Ok("\u{e9}".to_string()));
    assert_eq!(encode_text("\u{7ff}"), vec![0xDF, 0xBF]);
    assert_eq!(encode_text("\u{800}"), vec![0xE0, 0xA0, 0x80]);
    assert_eq!(encode_text("\u{20ac}"), vec![0xE2, 0x82, 0xAC]);
    assert_eq!(decode_text(&[0xE2, 0x82, 0xAC]), Ok("\u{20ac}".to_string()));
    assert_eq!(encode_text("\u{ffff}"), vec![0xEF, 0xBF, 0xBF]);
    assert_eq!(decode_text(&[0xEF, 0xBF, 0xBF]), Ok("\u{ffff}".to_string()));
}

#[test]
fn characters_above_ffff_are_surrogate_pairs() {
    let bytes = vec![0xED, 0xA0, 0xBD, 0xED, 0xB8, 0x80];
    assert_eq!(encode_text("\u{1F600}"), bytes);
    assert_eq!(decode_text(&bytes), Ok("\u{1F600}".to_string()));
    assert_eq!(
        encode_text("\u{10000}"),
        vec![0xED, 0xA0, 0x80, 0xED, 0xB0, 0x80]
    );
    assert_eq!(
        encode_text("\u{10FFFF}"),
        vec![0xED, 0xAF, 0xBF, 0xED, 0xBF, 0xBF]
    );
    assert_eq!(
        decode_text(&[0xED, 0xAF, 0xBF, 0xED, 0xBF, 0xBF]),
        Ok("\u{10FFFF}".to_string())
    );
}

#[test]
fn a_surrogate_on_its_own_is_no_text() {
    assert_eq!(decode_text(&[0xED, 0xA0, 0xBD]), Err(Error::InvalidText));
    assert_eq!(decode_text(&[0xED, 0xB8, 0x80]), Err(Error::InvalidText));
    assert_eq!(
        decode_text(&[0xED, 0xA0, 0xBD, 0x41]),
        Err(Error::InvalidText)
    );
    assert_eq!(
        decode_text(&[0xED, 0xA0, 0xBD, 0xED, 0xA0, 0xBD]),
        Err(Error::InvalidText)
    );
}

#[test]
fn malformed_bytes_are_no_text() {
    // a continuation byte in front
    assert_eq!(decode_text(&[0x80]), Err(Error::InvalidText));
    // a lead byte without its continuation
    assert_eq!(decode_text(&[0xC3]), Err(Error::InvalidText));
    assert_eq!(decode_text(&[0xE2, 0x82]), Err(Error::InvalidText));
    assert_eq!(decode_text(&[0xC3, 0x41]), Err(Error::InvalidText));
    // longer spellings than needed
    assert_eq!(decode_text(&[0xC1, 0x81]), Err(Error::InvalidText));
    assert_eq!(decode_text(&[0xE0, 0x81, 0x81]), Err(Error::InvalidText));
    // the four-byte form of plain UTF-8
    assert_eq!(
        decode_text(&[0xF0, 0x9F, 0x98, 0x80]),
        Err(Error::InvalidText)
    );
    assert_eq!(decode_text(&[0xFF]), Err(Error::InvalidText));
}

#[test]
fn every_text_is_read_back() {
    let samples = [
        "",
        "hello",
        "A\0B",
        "gr\u{fc}\u{df}e",
        "\u{20ac}uro",
        "\u{1F600}\u{10000}\u{10FFFF}",
        "\u{7f}\u{80}\u{7ff}\u{800}\u{d7ff}\u{e000}\u{ffff}",
    ];
    for s in samples.iter() {
        assert_eq!(decode_text(&encode_text(s)), Ok(s.to_string()));
    }
}

#[test]
fn text_on_the_wire_has_its_length_in_front() {
    let mut out = vec![7u8];
    assert!(write_text(&mut out, "A\0"));
    assert_eq!(out, vec![7, 0, 3, 0x41, 0xC0, 0x80]);
    assert_eq!(read_text(&out, 1), Ok(("A\0".to_string(), 6)));
    assert_eq!(read_text(&[0, 0], 0), Ok((String::new(), 2)));
}

#[test]
fn text_on_the_wire_can_be_cut_short() {
    assert_eq!(read_text(&[], 0), Err(Error::Truncated));
    assert_eq!(read_text(&[0], 0), Err(Error::Truncated));
    assert_eq!(read_text(&[0, 2, 0x41], 0), Err(Error::Truncated));
    assert_eq!(read_text(&[0, 1, 0x41], 5), Err(Error::Truncated));
    assert_eq!(read_text(&[0, 1, 0x80], 0), Err(Error::InvalidText));
}

#[test]
fn text_that_outruns_its_length_is_not_written() {
    let long = "a".repeat(65536);
    let mut out = vec![1u8, 2];
    assert!(!write_text(&mut out, &long));
    assert_eq!(out, vec![1, 2]);
    let fits = "a".repeat(65535);
    assert!(write_text(&mut out, &fits));
    assert_eq!(out.len(), 2 + 2 + 65535);
    assert_eq!(&out[2..4], &[0xFF, 0xFF]);
}
