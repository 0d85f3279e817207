use fastnbt::de::{decode_payload, from_bytes};
use fastnbt::ser::{to_bytes, to_bytes_named, to_payload};
use fastnbt::{ByteArray, Compound, Error, IntArray, LongArray, Tag, Value};

fn compound(entries: Vec<(&str, Value)>) -> Value {
    let mut c = Compound::new();
    for (name, value) in entries {
        c.insert(name.to_string(), value);
    }
    Value::Compound(c)
}

fn sample() -> Value {
    compound(vec![
        ("byte", Value::Byte(-5)),
        ("short", Value::Short(300)),
        ("int", Value::Int(-70000)),
        ("long", Value::Long(1 << 40)),
        ("float", Value::Float(1.5f32.to_bits())),
        ("double", Value::Double((-2.25f64).to_bits())),
        ("text", Value::String("gr\u{fc}n \u{1F600}\0".to_string())),
        ("bytes", Value::ByteArray(ByteArray::from_owned(vec![1, -1]))),
        ("ints", Value::IntArray(IntArray::from_owned(vec![1, -1, i32::MIN]))),
        ("longs", Value::LongArray(LongArray::from_owned(vec![i64::MAX]))),
        (
            "list",
            Value::List(vec![Value::Short(1), Value::Short(2), Value::Short(3)]),
        ),
        ("empty list", Value::List(vec![])),
        (
            "nested",
            compound(vec![
                ("inner", Value::List(vec![compound(vec![]), compound(vec![("x", Value::Byte(1))])])),
                ("", Value::String(String::new())),
            ]),
        ),
    ])
}

#[test]
fn compound_with_one_byte_entry() {
    let bytes = [10u8, 0, 0, 1, 0, 1, b'A', 5, 0];
    let expected = compound(vec![("A", Value::Byte(5))]);
    assert_eq!(from_bytes(&bytes), Ok(expected));
}

#[test]
fn compound_payload_where_it_stands() {
    let bytes = [0xEEu8, 1, 0, 1, b'A', 5, 0, 0xEE];
    let (v, next) = decode_payload(Tag::Compound, &bytes, 1).unwrap();
    assert_eq!(v, compound(vec![("A", Value::Byte(5))]));
    assert_eq!(next, 7);
}

#[test]
fn byte_is_never_read_as_short_or_int() {
    let bytes = to_bytes(&Value::Byte(5)).unwrap();
    assert_eq!(bytes, vec![1, 0, 0, 5]);
    let back = from_bytes(&bytes).unwrap();
    assert_eq!(back, Value::Byte(5));
    assert_ne!(back, Value::Short(5));
    assert_ne!(back, Value::Int(5));
    assert_ne!(back, Value::Long(5));
    assert!(matches!(back, Value::Byte(5)));
    assert_eq!(from_bytes(&to_bytes(&Value::Short(5)).unwrap()), Ok(Value::Short(5)));
    assert_eq!(from_bytes(&to_bytes(&Value::Int(5)).unwrap()), Ok(Value::Int(5)));
    assert_eq!(from_bytes(&to_bytes(&Value::Long(5)).unwrap()), Ok(Value::Long(5)));
}

#[test]
fn scalars_decode_at_their_width() {
    let bytes = [0xFFu8, 0xFE, 0, 0, 0, 0, 0, 1];
    assert_eq!(decode_payload(Tag::Byte, &bytes, 0), Ok((Value::Byte(-1), 1)));
    assert_eq!(decode_payload(Tag::Short, &bytes, 0), Ok((Value::Short(-2), 2)));
    assert_eq!(
        decode_payload(Tag::Int, &bytes, 0),
        Ok((Value::Int(-131072), 4))
    );
    assert_eq!(
        decode_payload(Tag::Long, &bytes, 0),
        Ok((Value::Long(-562949953421311), 8))
    );
    assert_eq!(
        decode_payload(Tag::Float, &[0x3F, 0xC0, 0, 0], 0),
        Ok((Value::Float(1.5f32.to_bits()), 4))
    );
    assert_eq!(
        decode_payload(Tag::Double, &[0xC0, 0x02, 0, 0, 0, 0, 0, 0], 0),
        Ok((Value::Double((-2.25f64).to_bits()), 8))
    );
    assert_eq!(decode_payload(Tag::Int, &bytes, 5).err(), Some(Error::Truncated));
    assert_eq!(decode_payload(Tag::Byte, &bytes, 8).err(), Some(Error::Truncated));
    assert_eq!(decode_payload(Tag::Long, &bytes, 1).err(), Some(Error::Truncated));
}

#[test]
fn end_is_no_value() {
    assert_eq!(from_bytes(&[0]), Err(Error::UnexpectedEnd));
    assert_eq!(from_bytes(&[0, 0, 0, 1]), Err(Error::UnexpectedEnd));
    assert_eq!(
        decode_payload(Tag::End, &[1, 2, 3], 0).err(),
        Some(Error::UnexpectedEnd)
    );
}

#[test]
fn unknown_tags_are_refused() {
    assert_eq!(from_bytes(&[13, 0, 0]), Err(Error::UnknownTag));
    assert_eq!(from_bytes(&[255]), Err(Error::UnknownTag));
    assert_eq!(from_bytes(&[10, 0, 0, 13, 0, 0, 0]), Err(Error::UnknownTag));
    assert_eq!(
        from_bytes(&[9, 0, 0, 200, 0, 0, 0, 0]),
        Err(Error::UnknownTag)
    );
}

#[test]
fn empty_input_is_truncated() {
    assert_eq!(from_bytes(&[]), Err(Error::Truncated));
    assert_eq!(from_bytes(&[1]), Err(Error::Truncated));
    assert_eq!(from_bytes(&[1, 0, 0]), Err(Error::Truncated));
    assert_eq!(from_bytes(&[1, 0, 1]), Err(Error::Truncated));
}

#[test]
fn empty_compound_is_one_end_byte() {
    let empty = compound(vec![]);
    assert_eq!(to_payload(&empty), Some(vec![0]));
    assert_eq!(decode_payload(Tag::Compound, &[0], 0), Ok((compound(vec![]), 1)));
    assert_eq!(to_bytes(&empty), Some(vec![10, 0, 0, 0]));
    assert_eq!(from_bytes(&[10, 0, 0, 0]), Ok(compound(vec![])));
}

#[test]
fn compound_without_end_is_truncated() {
    assert_eq!(from_bytes(&[10, 0, 0]), Err(Error::Truncated));
    assert_eq!(from_bytes(&[10, 0, 0, 1, 0, 1, b'A', 5]), Err(Error::Truncated));
    assert_eq!(
        decode_payload(Tag::Compound, &[], 0).err(),
        Some(Error::Truncated)
    );
    assert_eq!(
        from_bytes(&[10, 0, 0, 10, 0, 1, b'A', 0]),
        Err(Error::Truncated)
    );
}

#[test]
fn later_entry_of_a_name_wins() {
    let bytes = [
        10u8, 0, 0, 1, 0, 1, b'A', 5, 2, 0, 1, b'B', 0, 7, 3, 0, 1, b'A', 0, 0, 0, 9, 0,
    ];
    let v = from_bytes(&bytes).unwrap();
    assert_eq!(v, compound(vec![("A", Value::Int(9)), ("B", Value::Short(7))]));
    match v {
        Value::Compound(c) => {
            assert_eq!(c.len(), 2);
            assert_eq!(c.get("A"), Some(&Value::Int(9)));
            assert_eq!(c.get("B"), Some(&Value::Short(7)));
            assert_eq!(c.get("C"), None);
            assert!(c.contains_key("A"));
            assert!(!c.contains_key(""));
            let (name, value) = c.entry(0).unwrap();
            assert_eq!(name, "A");
            assert_eq!(value, &Value::Int(9));
            assert!(c.entry(2).is_none());
        }
        _ => panic!("not a compound"),
    }
}

#[test]
fn compounds_are_equal_whatever_the_order() {
    let a = compound(vec![("x", Value::Byte(1)), ("y", Value::Byte(2))]);
    let b = compound(vec![("y", Value::Byte(2)), ("x", Value::Byte(1))]);
    assert_eq!(a, b);
    assert!(a.same(&b));
    assert_ne!(a, compound(vec![("x", Value::Byte(1))]));
    assert_ne!(a, compound(vec![("x", Value::Byte(1)), ("y", Value::Byte(3))]));
    assert_ne!(a, compound(vec![("x", Value::Byte(1)), ("z", Value::Byte(2))]));
    assert_ne!(a, compound(vec![("x", Value::Short(1)), ("y", Value::Byte(2))]));
    let la = Value::List(vec![a.deep_clone(), b.deep_clone()]);
    let lb = Value::List(vec![b, a]);
    assert_eq!(la, lb);
}

#[test]
fn insert_replaces_and_reports_it() {
    let mut c = Compound::new();
    assert_eq!(c.len(), 0);
    assert!(!c.insert("a".to_string(), Value::Byte(1)));
    assert!(!c.insert("b".to_string(), Value::Byte(2)));
    assert!(c.insert("a".to_string(), Value::Byte(3)));
    assert_eq!(c.len(), 2);
    assert_eq!(c.get("a"), Some(&Value::Byte(3)));
    assert_eq!(c.entry(0).unwrap().0, "a");
    assert_eq!(c.entry(1).unwrap().0, "b");
    let d = c.clone();
    assert_eq!(Value::Compound(c), Value::Compound(d));
}

#[test]
fn lists_decode_in_order() {
    let bytes = [2u8, 0, 0, 0, 3, 0, 1, 0, 2, 0xFF, 0xFF];
    assert_eq!(
        decode_payload(Tag::List, &bytes, 0),
        Ok((
            Value::List(vec![Value::Short(1), Value::Short(2), Value::Short(-1)]),
            11
        ))
    );
    assert_ne!(
        decode_payload(Tag::List, &bytes, 0).unwrap().0,
        Value::List(vec![Value::Short(2), Value::Short(1), Value::Short(-1)])
    );
    let nested = [9u8, 0, 0, 0, 2, 1, 0, 0, 0, 1, 7, 0, 0, 0, 0, 0];
    assert_eq!(
        decode_payload(Tag::List, &nested, 0),
        Ok((
            Value::List(vec![Value::List(vec![Value::Byte(7)]), Value::List(vec![])]),
            16
        ))
    );
}

#[test]
fn list_of_end_is_empty_whatever_the_count() {
    assert_eq!(
        decode_payload(Tag::List, &[0, 0, 0, 0, 0], 0),
        Ok((Value::List(vec![]), 5))
    );
    assert_eq!(
        decode_payload(Tag::List, &[0, 0, 0, 0, 7, 1, 2], 0),
        Ok((Value::List(vec![]), 5))
    );
    assert_eq!(
        decode_payload(Tag::List, &[0, 255, 255, 255, 255], 0),
        Ok((Value::List(vec![]), 5))
    );
    assert_eq!(
        decode_payload(Tag::List, &[0, 0, 0], 0).err(),
        Some(Error::Truncated)
    );
}

#[test]
fn list_with_count_zero_is_empty_under_any_tag() {
    for tag in 1u8..=12 {
        assert_eq!(
            decode_payload(Tag::List, &[tag, 0, 0, 0, 0], 0),
            Ok((Value::List(vec![]), 5))
        );
    }
}

#[test]
fn negative_list_count_is_refused() {
    assert_eq!(
        decode_payload(Tag::List, &[1, 255, 255, 255, 255], 0).err(),
        Some(Error::NegativeLength)
    );
    assert_eq!(
        from_bytes(&[9, 0, 0, 3, 0x80, 0, 0, 0]),
        Err(Error::NegativeLength)
    );
}

#[test]
fn list_cut_short_is_truncated() {
    assert_eq!(
        decode_payload(Tag::List, &[1, 0, 0, 0, 3, 1, 2], 0).err(),
        Some(Error::Truncated)
    );
    assert_eq!(
        decode_payload(Tag::List, &[1, 0x7F, 0xFF, 0xFF, 0xFF], 0).err(),
        Some(Error::Truncated)
    );
    assert_eq!(decode_payload(Tag::List, &[], 0).err(), Some(Error::Truncated));
}

#[test]
fn arrays_in_values_pass_the_tag_check() {
    let good = [11u8, 0, 0, 3, 0, 0, 0, 2, 0, 0, 0, 1, 255, 255, 255, 255];
    assert_eq!(
        from_bytes(&good),
        Ok(Value::IntArray(IntArray::from_owned(vec![1, -1])))
    );
    let mut bad = good;
    bad[3] = 12;
    assert_eq!(from_bytes(&bad), Err(Error::ArrayTypeMismatch));
    bad[3] = 4;
    assert_eq!(from_bytes(&bad), Err(Error::ArrayTypeMismatch));
    let negative = [11u8, 0, 0, 3, 255, 255, 255, 255];
    assert_eq!(from_bytes(&negative), Err(Error::NegativeLength));
    let bytes = [7u8, 0, 0, 1, 0, 0, 0, 1, 0x80];
    assert_eq!(
        from_bytes(&bytes),
        Ok(Value::ByteArray(ByteArray::from_owned(vec![-128])))
    );
    let longs = [12u8, 0, 0, 4, 0, 0, 0, 0];
    assert_eq!(
        from_bytes(&longs),
        Ok(Value::LongArray(LongArray::from_owned(vec![])))
    );
}

#[test]
fn strings_decode_as_modified_utf8() {
    let bytes = [8u8, 0, 0, 0, 3, b'A', 0xC0, 0x80];
    assert_eq!(from_bytes(&bytes), Ok(Value::String("A\0".to_string())));
    assert_eq!(
        from_bytes(&[8, 0, 0, 0, 1, 0x80]),
        Err(Error::InvalidText)
    );
    assert_eq!(
        from_bytes(&[8, 0, 1, 0xFF, 0, 0]),
        Err(Error::InvalidText)
    );
    assert_eq!(from_bytes(&[8, 0, 0, 0, 2, b'A']), Err(Error::Truncated));
}

#[test]
fn root_name_is_read_and_let_go() {
    let bytes = [1u8, 0, 4, b'r', b'o', b'o', b't', 9, 0xFF];
    assert_eq!(from_bytes(&bytes), Ok(Value::Byte(9)));
    assert_eq!(
        to_bytes_named("root", &Value::Byte(9)),
        Some(vec![1, 0, 4, b'r', b'o', b'o', b't', 9])
    );
}

#[test]
fn every_value_is_read_back() {
    let v = sample();
    let bytes = to_bytes(&v).unwrap();
    assert_eq!(from_bytes(&bytes), Ok(v.deep_clone()));
    let payload = to_payload(&v).unwrap();
    assert_eq!(
        decode_payload(v.tag(), &payload, 0),
        Ok((v.clone(), payload.len()))
    );
    let mut longer = bytes.clone();
    longer.extend_from_slice(&[1, 2, 3]);
    assert_eq!(from_bytes(&longer), Ok(v));
}

#[test]
fn every_cut_of_a_value_is_refused() {
    let bytes = to_bytes(&sample()).unwrap();
    for cut in 0..bytes.len() {
        assert!(from_bytes(&bytes[..cut]).is_err());
    }
}

#[test]
fn lists_are_written_under_the_tag_of_their_elements() {
    assert_eq!(
        to_payload(&Value::List(vec![Value::Byte(1), Value::Byte(2)])),
        Some(vec![1, 0, 0, 0, 2, 1, 2])
    );
    assert_eq!(to_payload(&Value::List(vec![])), Some(vec![0, 0, 0, 0, 0]));
}

#[test]
fn mixed_lists_and_long_texts_are_not_written() {
    assert_eq!(
        to_payload(&Value::List(vec![Value::Byte(1), Value::Short(2)])),
        None
    );
    assert_eq!(to_bytes(&Value::String("a".repeat(65536))), None);
    assert_eq!(
        to_bytes(&compound(vec![("k", Value::String("a".repeat(65536)))])),
        None
    );
    let long_name = "n".repeat(65536);
    assert_eq!(to_bytes(&compound(vec![(&long_name, Value::Byte(1))])), None);
    assert_eq!(to_bytes_named(&long_name, &Value::Byte(1)), None);
    assert!(to_bytes(&Value::String("a".repeat(65535))).is_some());
}

#[test]
fn tags_of_values() {
    assert_eq!(Value::Byte(0).tag(), Tag::Byte);
    assert_eq!(Value::Float(0).tag(), Tag::Float);
    assert_eq!(Value::Double(0).tag(), Tag::Double);
    assert_eq!(Value::String(String::new()).tag(), Tag::String);
    assert_eq!(Value::List(vec![]).tag(), Tag::List);
    assert_eq!(compound(vec![]).tag(), Tag::Compound);
    assert_eq!(Value::IntArray(IntArray::from_owned(vec![])).tag(), Tag::IntArray);
}

#[test]
fn values_of_different_kinds_differ() {
    assert_ne!(Value::Float(0), Value::Int(0));
    assert_ne!(Value::Double(0), Value::Long(0));
    assert_ne!(
        Value::ByteArray(ByteArray::from_owned(vec![])),
        Value::List(vec![])
    );
    assert_ne!(
        Value::IntArray(IntArray::from_owned(vec![1])),
        Value::LongArray(LongArray::from_owned(vec![1]))
    );
    assert_ne!(Value::List(vec![]), compound(vec![]));
    assert_eq!(Value::Float(1.5f32.to_bits()), Value::Float(1.5f32.to_bits()));
}
