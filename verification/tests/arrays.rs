use fastnbt::arrays::{ByteArray, IntArray, LongArray};
use fastnbt::borrow;
use fastnbt::Error;

fn int_array_bytes() -> Vec<u8> {
    vec![3, 0, 0, 0, 2, 0, 0, 0, 1, 255, 255, 255, 255]
}

#[test]
fn int_array_decodes_in_both_modes_and_they_are_equal() {
    let bytes = int_array_bytes();
    let (owned, next) = IntArray::decode(&bytes, 0).unwrap();
    assert_eq!(next, 13);
    assert_eq!(owned.count(), 2);
    assert_eq!(owned.get(0), Some(1));
    assert_eq!(owned.get(1), Some(-1));
    assert_eq!(owned.get(2), None);
    assert_eq!(owned, IntArray::from_owned(vec![1, -1]));

    let (borrowed, next) = borrow::IntArray::decode(&bytes, 0).unwrap();
    assert_eq!(next, 13);
    assert_eq!(borrowed.count(), 2);
    assert_eq!(borrowed.get(0), Some(Ok(1)));
    assert_eq!(borrowed.get(1), Some(Ok(-1)));
    assert_eq!(borrowed.get(2), None);
    assert!(borrowed == owned);
    assert!(owned == borrowed);
    assert!(borrowed.same_elements(&owned));
    assert_eq!(borrowed.to_owned_array(), Ok(IntArray::from_owned(vec![1, -1])));
    assert!(!(borrowed == IntArray::from_owned(vec![1, 1])));
    assert!(!(borrowed == IntArray::from_owned(vec![1])));
}

#[test]
fn int_array_under_the_long_array_tag_is_refused() {
    let mut bytes = int_array_bytes();
    bytes[0] = 12;
    assert_eq!(IntArray::decode(&bytes, 0).err(), Some(Error::ArrayTypeMismatch));
    assert_eq!(
        borrow::IntArray::decode(&bytes, 0).err(),
        Some(Error::ArrayTypeMismatch)
    );
    bytes[0] = 4;
    assert_eq!(IntArray::decode(&bytes, 0).err(), Some(Error::ArrayTypeMismatch));
    bytes[0] = 11;
    assert_eq!(IntArray::decode(&bytes, 0).err(), Some(Error::ArrayTypeMismatch));
}

#[test]
fn each_array_kind_has_its_own_element_tag() {
    let byte_arr = vec![1u8, 0, 0, 0, 2, 0x7F, 0x80];
    let long_arr = vec![4u8, 0, 0, 0, 1, 0xFF, 0xFF, 0xFF, 0xFF, 0xFF, 0xFF, 0xFF, 0xFE];
    assert_eq!(
        ByteArray::decode(&byte_arr, 0),
        Ok((ByteArray::from_owned(vec![127, -128]), 7))
    );
    assert_eq!(
        LongArray::decode(&long_arr, 0),
        Ok((LongArray::from_owned(vec![-2]), 13))
    );
    assert_eq!(ByteArray::decode(&long_arr, 0).err(), Some(Error::ArrayTypeMismatch));
    assert_eq!(LongArray::decode(&byte_arr, 0).err(), Some(Error::ArrayTypeMismatch));
    assert_eq!(IntArray::decode(&byte_arr, 0).err(), Some(Error::ArrayTypeMismatch));
    let (b, next) = borrow::ByteArray::decode(&byte_arr, 0).unwrap();
    assert_eq!(next, 7);
    assert!(b == ByteArray::from_owned(vec![127, -128]));
    let (l, next) = borrow::LongArray::decode(&long_arr, 0).unwrap();
    assert_eq!(next, 13);
    assert!(l == LongArray::from_owned(vec![-2]));
}

#[test]
fn negative_count_is_refused() {
    let bytes = vec![3u8, 255, 255, 255, 255, 0, 0, 0, 1];
    assert_eq!(IntArray::decode(&bytes, 0).err(), Some(Error::NegativeLength));
    assert_eq!(
        borrow::IntArray::decode(&bytes, 0).err(),
        Some(Error::NegativeLength)
    );
    let bytes = vec![1u8, 0x80, 0, 0, 0];
    assert_eq!(ByteArray::decode(&bytes, 0).err(), Some(Error::NegativeLength));
    let bytes = vec![4u8, 0xFF, 0xFF, 0xFF, 0xFE];
    assert_eq!(LongArray::decode(&bytes, 0).err(), Some(Error::NegativeLength));
}

#[test]
fn arrays_cut_short_are_truncated() {
    assert_eq!(IntArray::decode(&[], 0).err(), Some(Error::Truncated));
    assert_eq!(IntArray::decode(&[3], 0).err(), Some(Error::Truncated));
    assert_eq!(IntArray::decode(&[3, 0, 0, 0], 0).err(), Some(Error::Truncated));
    assert_eq!(
        IntArray::decode(&[3, 0, 0, 0, 1, 0, 0, 0], 0).err(),
        Some(Error::Truncated)
    );
    assert_eq!(
        borrow::IntArray::decode(&[3, 0, 0, 0, 1, 0, 0, 0], 0).err(),
        Some(Error::Truncated)
    );
    assert_eq!(
        IntArray::decode(&[3, 0x7F, 0xFF, 0xFF, 0xFF, 0, 0, 0, 0], 0).err(),
        Some(Error::Truncated)
    );
    assert_eq!(IntArray::decode(&int_array_bytes(), 14).err(), Some(Error::Truncated));
    assert_eq!(IntArray::decode(&[3, 0, 0, 0, 0], 0), Ok((IntArray::from_owned(vec![]), 5)));
}

#[test]
fn array_decodes_where_it_stands() {
    let mut bytes = vec![9u8, 9];
    bytes.extend(int_array_bytes());
    bytes.push(7);
    assert_eq!(
        IntArray::decode(&bytes, 2),
        Ok((IntArray::from_owned(vec![1, -1]), 15))
    );
}

#[test]
fn owned_iteration_is_restartable() {
    let a = LongArray::from_owned(vec![10, -20, 30]);
    let mut it = a.iter();
    assert_eq!(it.next(), Some(10));
    assert_eq!(it.next(), Some(-20));
    assert_eq!(it.next(), Some(30));
    assert_eq!(it.next(), None);
    assert_eq!(it.next(), None);
    let mut again = a.iter();
    assert_eq!(again.next(), Some(10));
    assert_eq!(a.count(), 3);
    assert_eq!(a.into_inner(), vec![10, -20, 30]);
}

#[test]
fn borrowed_iteration_decodes_lazily() {
    let bytes = [0u8, 0, 0, 1, 0xFF, 0xFF, 0xFF, 0xFE];
    let a = borrow::IntArray::from_borrowed(&bytes, 2);
    assert!(!a.is_truncated());
    let mut it = a.iter();
    assert_eq!(it.next(), Some(Ok(1)));
    assert_eq!(it.next(), Some(Ok(-2)));
    assert_eq!(it.next(), None);
    assert_eq!(it.next(), None);
    let mut again = a.iter();
    assert_eq!(again.next(), Some(Ok(1)));
}

#[test]
fn borrowed_iteration_reports_truncation() {
    let bytes = [0u8, 0, 0, 1, 0xFF, 0xFF];
    let a = borrow::IntArray::from_borrowed(&bytes, 3);
    assert_eq!(a.count(), 3);
    assert!(a.is_truncated());
    let mut it = a.iter();
    assert_eq!(it.next(), Some(Ok(1)));
    assert_eq!(it.next(), Some(Err(Error::Truncated)));
    assert_eq!(it.next(), None);
    assert_eq!(a.get(0), Some(Ok(1)));
    assert_eq!(a.get(1), Some(Err(Error::Truncated)));
    assert_eq!(a.get(2), None);
    assert_eq!(a.to_owned_array(), Err(Error::Truncated));
    assert!(!a.same_elements(&IntArray::from_owned(vec![1])));

    let b = borrow::ByteArray::from_borrowed(&bytes[..2], 5);
    let mut it = b.iter();
    assert_eq!(it.next(), Some(Ok(0)));
    assert_eq!(it.next(), Some(Ok(0)));
    assert_eq!(it.next(), Some(Err(Error::Truncated)));
    assert_eq!(it.next(), None);

    let l = borrow::LongArray::from_borrowed(&bytes, usize::MAX);
    let mut it = l.iter();
    assert_eq!(it.next(), Some(Err(Error::Truncated)));
    assert_eq!(it.next(), None);

    let empty = borrow::LongArray::from_borrowed(&[], 0);
    assert!(!empty.is_truncated());
    assert_eq!(empty.iter().next(), None);
    assert!(empty == LongArray::from_owned(vec![]));
}

#[test]
fn arrays_are_written_as_they_are_read() {
    let a = IntArray::from_owned(vec![1, -1]);
    let mut out = vec![];
    assert!(a.encode(&mut out));
    assert_eq!(out, int_array_bytes());
    assert_eq!(IntArray::decode(&out, 0), Ok((a.clone(), 13)));

    let b = ByteArray::from_owned(vec![-1, 0, 1]);
    let mut out = vec![0xAA];
    assert!(b.encode(&mut out));
    assert_eq!(out, vec![0xAA, 1, 0, 0, 0, 3, 0xFF, 0, 1]);

    let l = LongArray::from_owned(vec![i64::MIN]);
    let mut out = vec![];
    assert!(l.encode(&mut out));
    assert_eq!(out, vec![4, 0, 0, 0, 1, 0x80, 0, 0, 0, 0, 0, 0, 0]);
    assert_eq!(LongArray::decode(&out, 0), Ok((l, 13)));
}

#[test]
fn owned_arrays_compare_by_their_elements() {
    assert_eq!(IntArray::from_owned(vec![1, 2]), IntArray::from_owned(vec![1, 2]));
    assert_ne!(IntArray::from_owned(vec![1, 2]), IntArray::from_owned(vec![2, 1]));
    assert_ne!(IntArray::from_owned(vec![1, 2]), IntArray::from_owned(vec![1]));
    assert_eq!(ByteArray::from_owned(vec![]), ByteArray::from_owned(vec![]));
}
