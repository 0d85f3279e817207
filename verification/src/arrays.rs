//! The owning forms of the three array kinds.
//!
//! On the wire an array is its element tag, a signed 32-bit count and the
//! elements, big-endian. The element tag says once more what the elements
//! are; an array is read only if it is the one of its kind.

use vstd::prelude::*;
use vstd::std_specs::cmp::PartialEqSpecImpl;
use crate::comp_tag::CompTag;
use crate::error::Error;
use crate::wire::{available, be_i32, be_i64, be_i8, holds_at, i32_bytes, i64_bytes, i8_bytes,
    lemma_holds_at_split, lemma_i32_round_trip, lemma_i64_round_trip, lemma_i8_round_trip,
    read_i32, read_i64, read_i8, read_u8, write_i32, write_i64, write_i8};

verus! {

/// The element tag in the header of a byte array: that of `Byte`.
pub const BYTE_ELEMENT_TAG: u8 = 1;

/// The element tag in the header of an int array: that of `Int`.
pub const INT_ELEMENT_TAG: u8 = 3;

/// The element tag in the header of a long array: that of `Long`.
pub const LONG_ELEMENT_TAG: u8 = 4;

/// The count that stands in `s` at `pos`: a signed 32-bit number that is not
/// negative.
pub open spec fn parse_count(s: Seq<u8>, pos: int) -> Result<nat, Error> {
    if !available(s, pos, 4) {
        Err(Error::Truncated)
    } else if be_i32(s, pos) < 0 {
        Err(Error::NegativeLength)
    } else {
        Ok(be_i32(s, pos) as nat)
    }
}

/// The count in the array header that stands in `s` at `pos`, for the array
/// kind whose elements have the tag `element_tag`.
pub open spec fn parse_array_header(s: Seq<u8>, pos: int, element_tag: u8) -> Result<nat, Error> {
    if !available(s, pos, 1) {
        Err(Error::Truncated)
    } else if s[pos] != element_tag {
        Err(Error::ArrayTypeMismatch)
    } else {
        parse_count(s, pos + 1)
    }
}

/// Reads the count at `pos`.
pub fn read_count(bytes: &[u8], pos: usize) -> (r: Result<usize, Error>)
    ensures
        match parse_count(bytes@, pos as int) {
            Ok(count) => (r matches Ok(c) && c == count && c <= i32::MAX && pos + 4
                <= bytes.len()),
            Err(e) => (r matches Err(re) && re == e),
        },
{
    match read_i32(bytes, pos) {
        Err(e) => Err(e),
        Ok(n) => {
            if n < 0 {
                Err(Error::NegativeLength)
            } else {
                Ok(n as usize)
            }
        },
    }
}

/// An array of `i8`, owned: the elements were decoded when the array was
/// made, and stay as they are.
#[derive(Debug)]
pub struct ByteArray {
    data: Vec<i8>,
}

impl View for ByteArray {
    type V = Seq<i8>;

    closed spec fn view(&self) -> Seq<i8> {
        self.data@
    }
}

/// One pass over the elements of a [`ByteArray`], front to back. Its view is
/// what is still to come.
#[derive(Debug)]
pub struct ByteArrayIter<'a> {
    data: &'a Vec<i8>,
    index: usize,
}

impl<'a> View for ByteArrayIter<'a> {
    type V = Seq<i8>;

    closed spec fn view(&self) -> Seq<i8> {
        if self.index <= self.data@.len() {
            self.data@.skip(self.index as int)
        } else {
            Seq::empty()
        }
    }
}

impl<'a> ByteArrayIter<'a> {
    /// Hands out the next element, or nothing when none is left.
    pub fn next(&mut self) -> (r: Option<i8>)
        ensures
            old(self)@.len() > 0 ==> r == Some(old(self)@[0]) && final(self)@ == old(
                self,
            )@.drop_first(),
            old(self)@.len() == 0 ==> r is None && final(self)@ == old(self)@,
    {
        if self.index < self.data.len() {
            let x: i8 = self.data[self.index];
            proof {
                assert(self.data@.skip(self.index as int).drop_first() =~= self.data@.skip(
                    self.index + 1,
                ));
            }
            self.index = self.index + 1;
            Some(x)
        } else {
            None
        }
    }
}

/// The `count` elements that stand in `s` from `start` on.
pub open spec fn byte_array_elements(s: Seq<u8>, start: int, count: nat) -> Seq<i8> {
    Seq::new(count, |i: int| be_i8(s, start + 1 * i))
}

/// The array that stands in `s` at `pos`, header and elements, with the
/// number of bytes that it takes there.
pub open spec fn parse_byte_array(s: Seq<u8>, pos: int) -> Result<(Seq<i8>, nat), Error> {
    match parse_array_header(s, pos, BYTE_ELEMENT_TAG) {
        Err(e) => Err(e),
        Ok(count) => {
            if !available(s, pos + 5, 1 * (count as int)) {
                Err(Error::Truncated)
            } else {
                Ok((byte_array_elements(s, pos + 5, count), (5 + 1 * count) as nat))
            }
        },
    }
}

/// The bytes of the elements `a`, one after the other.
pub open spec fn byte_array_elements_bytes(a: Seq<i8>) -> Seq<u8>
    decreases a.len(),
{
    if a.len() == 0 {
        Seq::empty()
    } else {
        byte_array_elements_bytes(a.drop_last()) + i8_bytes(a.last())
    }
}

/// The bytes that stand on the wire for an array of the elements `a`: the
/// element tag, the count, the elements.
pub open spec fn byte_array_bytes(a: Seq<i8>) -> Seq<u8> {
    seq![BYTE_ELEMENT_TAG] + i32_bytes(a.len() as i32) + byte_array_elements_bytes(a)
}

/// Elements are read back from their bytes, and each takes 1 of them.
pub proof fn lemma_byte_array_elements_round_trip(a: Seq<i8>, s: Seq<u8>, start: int)
    requires
        holds_at(s, start, byte_array_elements_bytes(a)),
    ensures
        byte_array_elements_bytes(a).len() == 1 * a.len(),
        byte_array_elements(s, start, a.len()) == a,
    decreases a.len(),
{
    if a.len() == 0 {
        assert(byte_array_elements(s, start, 0) =~= a);
    } else {
        let front = a.drop_last();
        lemma_holds_at_split(s, start, byte_array_elements_bytes(front), i8_bytes(a.last()));
        lemma_byte_array_elements_round_trip(front, s, start);
        lemma_i8_round_trip(a.last(), s, start + 1 * front.len());
        assert forall|i: int| 0 <= i < a.len() implies byte_array_elements(s, start, a.len())[i]
            == a[i] by {
            if i < front.len() {
                assert(byte_array_elements(s, start, front.len())[i] == front[i]);
            }
        }
        assert(byte_array_elements(s, start, a.len()) =~= a);
    }
}

/// An array of at most `i32::MAX` elements is read back from its bytes.
pub proof fn lemma_byte_array_round_trip(a: Seq<i8>, s: Seq<u8>, pos: int)
    requires
        a.len() <= i32::MAX,
        holds_at(s, pos, byte_array_bytes(a)),
    ensures
        parse_byte_array(s, pos) == Ok::<(Seq<i8>, nat), Error>((a, byte_array_bytes(a).len())),
        byte_array_bytes(a).len() == 5 + 1 * a.len(),
{
    let head = seq![BYTE_ELEMENT_TAG] + i32_bytes(a.len() as i32);
    lemma_holds_at_split(s, pos, head, byte_array_elements_bytes(a));
    lemma_holds_at_split(s, pos, seq![BYTE_ELEMENT_TAG], i32_bytes(a.len() as i32));
    assert(s[pos + 0] == seq![BYTE_ELEMENT_TAG][0]);
    lemma_i32_round_trip(a.len() as i32, s, pos + 1);
    lemma_byte_array_elements_round_trip(a, s, pos + 5);
}

impl ByteArray {
    /// Wraps elements that are already decoded.
    pub fn from_owned(elements: Vec<i8>) -> (a: Self)
        ensures
            a@ == elements@,
    {
        ByteArray { data: elements }
    }

    /// The number of elements.
    pub fn count(&self) -> (n: usize)
        ensures
            n == self@.len(),
    {
        self.data.len()
    }

    /// The element at `index`, if there is one.
    pub fn get(&self, index: usize) -> (r: Option<i8>)
        ensures
            r == (if index < self@.len() {
                Some(self@[index as int])
            } else {
                None
            }),
    {
        if index < self.data.len() {
            Some(self.data[index])
        } else {
            None
        }
    }

    /// A pass over the elements from the first on. Each call starts anew.
    pub fn iter(&self) -> (it: ByteArrayIter<'_>)
        ensures
            it@ == self@,
    {
        proof {
            assert(self.data@.skip(0) =~= self.data@);
        }
        ByteArrayIter { data: &self.data, index: 0 }
    }

    /// Hands the elements out.
    pub fn into_inner(self) -> (elements: Vec<i8>)
        ensures
            elements@ == self@,
    {
        self.data
    }

    /// Reads the array that stands in `bytes` at `pos`, and decodes its
    /// elements there and then. Returns the array and the position behind
    /// it.
    pub fn decode(bytes: &[u8], pos: usize) -> (r: Result<(ByteArray, usize), Error>)
        ensures
            match parse_byte_array(bytes@, pos as int) {
                Ok((elements, n)) => (r matches Ok((a, next)) && a@ == elements && next == pos + n
                    && next <= bytes.len()),
                Err(e) => (r matches Err(re) && re == e),
            },
    {
        let len: usize = bytes.len();
        let checked = match read_u8(bytes, pos) {
            Err(e) => {
                return Err(e);
            },
            Ok(b) => CompTag::<BYTE_ELEMENT_TAG>::decode(b),
        };
        if let Err(e) = checked {
            return Err(e);
        }
        let count: usize = match read_count(bytes, pos + 1) {
            Err(e) => {
                return Err(e);
            },
            Ok(c) => c,
        };
        let start: usize = pos + 5;
        let room: u64 = (len - start) as u64;
        let need: u64 = (count as u64) * 1;
        if room < need {
            return Err(Error::Truncated);
        }
        let mut data: Vec<i8> = Vec::new();
        let mut i: usize = 0;
        while i < count
            invariant
                i <= count,
                start + 1 * count <= bytes.len(),
                data@ == byte_array_elements(bytes@, start as int, i as nat),
            decreases count - i,
        {
            let at: usize = start + 1 * i;
            match read_i8(bytes, at) {
                Ok(x) => {
                    data.push(x);
                },
                Err(e) => {
                    return Err(e);
                },
            }
            i = i + 1;
            assert(data@ =~= byte_array_elements(bytes@, start as int, i as nat));
        }
        Ok((ByteArray { data }, start + 1 * count))
    }

    /// Appends the array as it stands on the wire. Returns whether it did:
    /// an array of more than `i32::MAX` elements has no header, is not
    /// written, and `out` is left as it was.
    pub fn encode(&self, out: &mut Vec<u8>) -> (ok: bool)
        ensures
            ok == (self@.len() <= i32::MAX),
            ok ==> final(out)@ == old(out)@ + byte_array_bytes(self@),
            !ok ==> final(out)@ == old(out)@,
    {
        let n: usize = self.data.len();
        if n > 0x7FFF_FFFF {
            return false;
        }
        out.push(BYTE_ELEMENT_TAG);
        write_i32(out, n as i32);
        let ghost head = out@;
        assert(head =~= old(out)@ + (seq![BYTE_ELEMENT_TAG] + i32_bytes(n as i32)));
        let mut i: usize = 0;
        while i < n
            invariant
                i <= n,
                n == self.data@.len(),
                out@ == head + byte_array_elements_bytes(self.data@.take(i as int)),
            decreases n - i,
        {
            proof {
                assert(self.data@.take(i + 1).drop_last() =~= self.data@.take(i as int));
            }
            let ghost before = out@;
            write_i8(out, self.data[i]);
            i = i + 1;
            assert(out@ =~= head + byte_array_elements_bytes(self.data@.take(i as int)));
        }
        proof {
            assert(self.data@.take(n as int) =~= self.data@);
            assert(out@ =~= old(out)@ + byte_array_bytes(self@));
        }
        true
    }
}

impl Clone for ByteArray {
    fn clone(&self) -> (r: Self)
        ensures
            r@ == self@,
    {
        let data = self.data.clone();
        assert(data@ =~= self.data@);
        ByteArray { data }
    }
}

impl PartialEq for ByteArray {
    fn eq(&self, other: &Self) -> (r: bool) {
        let n: usize = self.data.len();
        if n != other.data.len() {
            return false;
        }
        let mut i: usize = 0;
        while i < n
            invariant
                i <= n,
                n == self.data@.len(),
                n == other.data@.len(),
                forall|j: int| 0 <= j < i ==> self.data@[j] == other.data@[j],
            decreases n - i,
        {
            if self.data[i] != other.data[i] {
                return false;
            }
            i = i + 1;
        }
        assert(self.data@ =~= other.data@);
        true
    }
}

impl PartialEqSpecImpl for ByteArray {
    open spec fn obeys_eq_spec() -> bool {
        true
    }

    open spec fn eq_spec(&self, other: &Self) -> bool {
        self@ == other@
    }
}

/// An array of `i32`, owned: the elements were decoded when the array was
/// made, and stay as they are.
#[derive(Debug)]
pub struct IntArray {
    data: Vec<i32>,
}

impl View for IntArray {
    type V = Seq<i32>;

    closed spec fn view(&self) -> Seq<i32> {
        self.data@
    }
}

/// One pass over the elements of a [`IntArray`], front to back. Its view is
/// what is still to come.
#[derive(Debug)]
pub struct IntArrayIter<'a> {
    data: &'a Vec<i32>,
    index: usize,
}

impl<'a> View for IntArrayIter<'a> {
    type V = Seq<i32>;

    closed spec fn view(&self) -> Seq<i32> {
        if self.index <= self.data@.len() {
            self.data@.skip(self.index as int)
        } else {
            Seq::empty()
        }
    }
}

impl<'a> IntArrayIter<'a> {
    /// Hands out the next element, or nothing when none is left.
    pub fn next(&mut self) -> (r: Option<i32>)
        ensures
            old(self)@.len() > 0 ==> r == Some(old(self)@[0]) && final(self)@ == old(
                self,
            )@.drop_first(),
            old(self)@.len() == 0 ==> r is None && final(self)@ == old(self)@,
    {
        if self.index < self.data.len() {
            let x: i32 = self.data[self.index];
            proof {
                assert(self.data@.skip(self.index as int).drop_first() =~= self.data@.skip(
                    self.index + 1,
                ));
            }
            self.index = self.index + 1;
            Some(x)
        } else {
            None
        }
    }
}

/// The `count` elements that stand in `s` from `start` on.
pub open spec fn int_array_elements(s: Seq<u8>, start: int, count: nat) -> Seq<i32> {
    Seq::new(count, |i: int| be_i32(s, start + 4 * i))
}

/// The array that stands in `s` at `pos`, header and elements, with the
/// number of bytes that it takes there.
pub open spec fn parse_int_array(s: Seq<u8>, pos: int) -> Result<(Seq<i32>, nat), Error> {
    match parse_array_header(s, pos, INT_ELEMENT_TAG) {
        Err(e) => Err(e),
        Ok(count) => {
            if !available(s, pos + 5, 4 * (count as int)) {
                Err(Error::Truncated)
            } else {
                Ok((int_array_elements(s, pos + 5, count), (5 + 4 * count) as nat))
            }
        },
    }
}

/// The bytes of the elements `a`, one after the other.
pub open spec fn int_array_elements_bytes(a: Seq<i32>) -> Seq<u8>
    decreases a.len(),
{
    if a.len() == 0 {
        Seq::empty()
    } else {
        int_array_elements_bytes(a.drop_last()) + i32_bytes(a.last())
    }
}

/// The bytes that stand on the wire for an array of the elements `a`: the
/// element tag, the count, the elements.
pub open spec fn int_array_bytes(a: Seq<i32>) -> Seq<u8> {
    seq![INT_ELEMENT_TAG] + i32_bytes(a.len() as i32) + int_array_elements_bytes(a)
}

/// Elements are read back from their bytes, and each takes 4 of them.
pub proof fn lemma_int_array_elements_round_trip(a: Seq<i32>, s: Seq<u8>, start: int)
    requires
        holds_at(s, start, int_array_elements_bytes(a)),
    ensures
        int_array_elements_bytes(a).len() == 4 * a.len(),
        int_array_elements(s, start, a.len()) == a,
    decreases a.len(),
{
    if a.len() == 0 {
        assert(int_array_elements(s, start, 0) =~= a);
    } else {
        let front = a.drop_last();
        lemma_holds_at_split(s, start, int_array_elements_bytes(front), i32_bytes(a.last()));
        lemma_int_array_elements_round_trip(front, s, start);
        lemma_i32_round_trip(a.last(), s, start + 4 * front.len());
        assert forall|i: int| 0 <= i < a.len() implies int_array_elements(s, start, a.len())[i]
            == a[i] by {
            if i < front.len() {
                assert(int_array_elements(s, start, front.len())[i] == front[i]);
            }
        }
        assert(int_array_elements(s, start, a.len()) =~= a);
    }
}

/// An array of at most `i32::MAX` elements is read back from its bytes.
pub proof fn lemma_int_array_round_trip(a: Seq<i32>, s: Seq<u8>, pos: int)
    requires
        a.len() <= i32::MAX,
        holds_at(s, pos, int_array_bytes(a)),
    ensures
        parse_int_array(s, pos) == Ok::<(Seq<i32>, nat), Error>((a, int_array_bytes(a).len())),
        int_array_bytes(a).len() == 5 + 4 * a.len(),
{
    let head = seq![INT_ELEMENT_TAG] + i32_bytes(a.len() as i32);
    lemma_holds_at_split(s, pos, head, int_array_elements_bytes(a));
    lemma_holds_at_split(s, pos, seq![INT_ELEMENT_TAG], i32_bytes(a.len() as i32));
    assert(s[pos + 0] == seq![INT_ELEMENT_TAG][0]);
    lemma_i32_round_trip(a.len() as i32, s, pos + 1);
    lemma_int_array_elements_round_trip(a, s, pos + 5);
}

impl IntArray {
    /// Wraps elements that are already decoded.
    pub fn from_owned(elements: Vec<i32>) -> (a: Self)
        ensures
            a@ == elements@,
    {
        IntArray { data: elements }
    }

    /// The number of elements.
    pub fn count(&self) -> (n: usize)
        ensures
            n == self@.len(),
    {
        self.data.len()
    }

    /// The element at `index`, if there is one.
    pub fn get(&self, index: usize) -> (r: Option<i32>)
        ensures
            r == (if index < self@.len() {
                Some(self@[index as int])
            } else {
                None
            }),
    {
        if index < self.data.len() {
            Some(self.data[index])
        } else {
            None
        }
    }

    /// A pass over the elements from the first on. Each call starts anew.
    pub fn iter(&self) -> (it: IntArrayIter<'_>)
        ensures
            it@ == self@,
    {
        proof {
            assert(self.data@.skip(0) =~= self.data@);
        }
        IntArrayIter { data: &self.data, index: 0 }
    }

    /// Hands the elements out.
    pub fn into_inner(self) -> (elements: Vec<i32>)
        ensures
            elements@ == self@,
    {
        self.data
    }

    /// Reads the array that stands in `bytes` at `pos`, and decodes its
    /// elements there and then. Returns the array and the position behind
    /// it.
    pub fn decode(bytes: &[u8], pos: usize) -> (r: Result<(IntArray, usize), Error>)
        ensures
            match parse_int_array(bytes@, pos as int) {
                Ok((elements, n)) => (r matches Ok((a, next)) && a@ == elements && next == pos + n
                    && next <= bytes.len()),
                Err(e) => (r matches Err(re) && re == e),
            },
    {
        let len: usize = bytes.len();
        let checked = match read_u8(bytes, pos) {
            Err(e) => {
                return Err(e);
            },
            Ok(b) => CompTag::<INT_ELEMENT_TAG>::decode(b),
        };
        if let Err(e) = checked {
            return Err(e);
        }
        let count: usize = match read_count(bytes, pos + 1) {
            Err(e) => {
                return Err(e);
            },
            Ok(c) => c,
        };
        let start: usize = pos + 5;
        let room: u64 = (len - start) as u64;
        let need: u64 = (count as u64) * 4;
        if room < need {
            return Err(Error::Truncated);
        }
        let mut data: Vec<i32> = Vec::new();
        let mut i: usize = 0;
        while i < count
            invariant
                i <= count,
                start + 4 * count <= bytes.len(),
                data@ == int_array_elements(bytes@, start as int, i as nat),
            decreases count - i,
        {
            let at: usize = start + 4 * i;
            match read_i32(bytes, at) {
                Ok(x) => {
                    data.push(x);
                },
                Err(e) => {
                    return Err(e);
                },
            }
            i = i + 1;
            assert(data@ =~= int_array_elements(bytes@, start as int, i as nat));
        }
        Ok((IntArray { data }, start + 4 * count))
    }

    /// Appends the array as it stands on the wire. Returns whether it did:
    /// an array of more than `i32::MAX` elements has no header, is not
    /// written, and `out` is left as it was.
    pub fn encode(&self, out: &mut Vec<u8>) -> (ok: bool)
        ensures
            ok == (self@.len() <= i32::MAX),
            ok ==> final(out)@ == old(out)@ + int_array_bytes(self@),
            !ok ==> final(out)@ == old(out)@,
    {
        let n: usize = self.data.len();
        if n > 0x7FFF_FFFF {
            return false;
        }
        out.push(INT_ELEMENT_TAG);
        write_i32(out, n as i32);
        let ghost head = out@;
        assert(head =~= old(out)@ + (seq![INT_ELEMENT_TAG] + i32_bytes(n as i32)));
        let mut i: usize = 0;
        while i < n
            invariant
                i <= n,
                n == self.data@.len(),
                out@ == head + int_array_elements_bytes(self.data@.take(i as int)),
            decreases n - i,
        {
            proof {
                assert(self.data@.take(i + 1).drop_last() =~= self.data@.take(i as int));
            }
            let ghost before = out@;
            write_i32(out, self.data[i]);
            i = i + 1;
            assert(out@ =~= head + int_array_elements_bytes(self.data@.take(i as int)));
        }
        proof {
            assert(self.data@.take(n as int) =~= self.data@);
            assert(out@ =~= old(out)@ + int_array_bytes(self@));
        }
        true
    }
}

impl Clone for IntArray {
    fn clone(&self) -> (r: Self)
        ensures
            r@ == self@,
    {
        let data = self.data.clone();
        assert(data@ =~= self.data@);
        IntArray { data }
    }
}

impl PartialEq for IntArray {
    fn eq(&self, other: &Self) -> (r: bool) {
        let n: usize = self.data.len();
        if n != other.data.len() {
            return false;
        }
        let mut i: usize = 0;
        while i < n
            invariant
                i <= n,
                n == self.data@.len(),
                n == other.data@.len(),
                forall|j: int| 0 <= j < i ==> self.data@[j] == other.data@[j],
            decreases n - i,
        {
            if self.data[i] != other.data[i] {
                return false;
            }
            i = i + 1;
        }
        assert(self.data@ =~= other.data@);
        true
    }
}

impl PartialEqSpecImpl for IntArray {
    open spec fn obeys_eq_spec() -> bool {
        true
    }

    open spec fn eq_spec(&self, other: &Self) -> bool {
        self@ == other@
    }
}

/// An array of `i64`, owned: the elements were decoded when the array was
/// made, and stay as they are.
#[derive(Debug)]
pub struct LongArray {
    data: Vec<i64>,
}

impl View for LongArray {
    type V = Seq<i64>;

    closed spec fn view(&self) -> Seq<i64> {
        self.data@
    }
}

/// One pass over the elements of a [`LongArray`], front to back. Its view is
/// what is still to come.
#[derive(Debug)]
pub struct LongArrayIter<'a> {
    data: &'a Vec<i64>,
    index: usize,
}

impl<'a> View for LongArrayIter<'a> {
    type V = Seq<i64>;

    closed spec fn view(&self) -> Seq<i64> {
        if self.index <= self.data@.len() {
            self.data@.skip(self.index as int)
        } else {
            Seq::empty()
        }
    }
}

impl<'a> LongArrayIter<'a> {
    /// Hands out the next element, or nothing when none is left.
    pub fn next(&mut self) -> (r: Option<i64>)
        ensures
            old(self)@.len() > 0 ==> r == Some(old(self)@[0]) && final(self)@ == old(
                self,
            )@.drop_first(),
            old(self)@.len() == 0 ==> r is None && final(self)@ == old(self)@,
    {
        if self.index < self.data.len() {
            let x: i64 = self.data[self.index];
            proof {
                assert(self.data@.skip(self.index as int).drop_first() =~= self.data@.skip(
                    self.index + 1,
                ));
            }
            self.index = self.index + 1;
            Some(x)
        } else {
            None
        }
    }
}

/// The `count` elements that stand in `s` from `start` on.
pub open spec fn long_array_elements(s: Seq<u8>, start: int, count: nat) -> Seq<i64> {
    Seq::new(count, |i: int| be_i64(s, start + 8 * i))
}

/// The array that stands in `s` at `pos`, header and elements, with the
/// number of bytes that it takes there.
pub open spec fn parse_long_array(s: Seq<u8>, pos: int) -> Result<(Seq<i64>, nat), Error> {
    match parse_array_header(s, pos, LONG_ELEMENT_TAG) {
        Err(e) => Err(e),
        Ok(count) => {
            if !available(s, pos + 5, 8 * (count as int)) {
                Err(Error::Truncated)
            } else {
                Ok((long_array_elements(s, pos + 5, count), (5 + 8 * count) as nat))
            }
        },
    }
}

/// The bytes of the elements `a`, one after the other.
pub open spec fn long_array_elements_bytes(a: Seq<i64>) -> Seq<u8>
    decreases a.len(),
{
    if a.len() == 0 {
        Seq::empty()
    } else {
        long_array_elements_bytes(a.drop_last()) + i64_bytes(a.last())
    }
}

/// The bytes that stand on the wire for an array of the elements `a`: the
/// element tag, the count, the elements.
pub open spec fn long_array_bytes(a: Seq<i64>) -> Seq<u8> {
    seq![LONG_ELEMENT_TAG] + i32_bytes(a.len() as i32) + long_array_elements_bytes(a)
}

/// Elements are read back from their bytes, and each takes 8 of them.
pub proof fn lemma_long_array_elements_round_trip(a: Seq<i64>, s: Seq<u8>, start: int)
    requires
        holds_at(s, start, long_array_elements_bytes(a)),
    ensures
        long_array_elements_bytes(a).len() == 8 * a.len(),
        long_array_elements(s, start, a.len()) == a,
    decreases a.len(),
{
    if a.len() == 0 {
        assert(long_array_elements(s, start, 0) =~= a);
    } else {
        let front = a.drop_last();
        lemma_holds_at_split(s, start, long_array_elements_bytes(front), i64_bytes(a.last()));
        lemma_long_array_elements_round_trip(front, s, start);
        lemma_i64_round_trip(a.last(), s, start + 8 * front.len());
        assert forall|i: int| 0 <= i < a.len() implies long_array_elements(s, start, a.len())[i]
            == a[i] by {
            if i < front.len() {
                assert(long_array_elements(s, start, front.len())[i] == front[i]);
            }
        }
        assert(long_array_elements(s, start, a.len()) =~= a);
    }
}

/// An array of at most `i32::MAX` elements is read back from its bytes.
pub proof fn lemma_long_array_round_trip(a: Seq<i64>, s: Seq<u8>, pos: int)
    requires
        a.len() <= i32::MAX,
        holds_at(s, pos, long_array_bytes(a)),
    ensures
        parse_long_array(s, pos) == Ok::<(Seq<i64>, nat), Error>((a, long_array_bytes(a).len())),
        long_array_bytes(a).len() == 5 + 8 * a.len(),
{
    let head = seq![LONG_ELEMENT_TAG] + i32_bytes(a.len() as i32);
    lemma_holds_at_split(s, pos, head, long_array_elements_bytes(a));
    lemma_holds_at_split(s, pos, seq![LONG_ELEMENT_TAG], i32_bytes(a.len() as i32));
    assert(s[pos + 0] == seq![LONG_ELEMENT_TAG][0]);
    lemma_i32_round_trip(a.len() as i32, s, pos + 1);
    lemma_long_array_elements_round_trip(a, s, pos + 5);
}

impl LongArray {
    /// Wraps elements that are already decoded.
    pub fn from_owned(elements: Vec<i64>) -> (a: Self)
        ensures
            a@ == elements@,
    {
        LongArray { data: elements }
    }

    /// The number of elements.
    pub fn count(&self) -> (n: usize)
        ensures
            n == self@.len(),
    {
        self.data.len()
    }

    /// The element at `index`, if there is one.
    pub fn get(&self, index: usize) -> (r: Option<i64>)
        ensures
            r == (if index < self@.len() {
                Some(self@[index as int])
            } else {
                None
            }),
    {
        if index < self.data.len() {
            Some(self.data[index])
        } else {
            None
        }
    }

    /// A pass over the elements from the first on. Each call starts anew.
    pub fn iter(&self) -> (it: LongArrayIter<'_>)
        ensures
            it@ == self@,
    {
        proof {
            assert(self.data@.skip(0) =~= self.data@);
        }
        LongArrayIter { data: &self.data, index: 0 }
    }

    /// Hands the elements out.
    pub fn into_inner(self) -> (elements: Vec<i64>)
        ensures
            elements@ == self@,
    {
        self.data
    }

    /// Reads the array that stands in `bytes` at `pos`, and decodes its
    /// elements there and then. Returns the array and the position behind
    /// it.
    pub fn decode(bytes: &[u8], pos: usize) -> (r: Result<(LongArray, usize), Error>)
        ensures
            match parse_long_array(bytes@, pos as int) {
                Ok((elements, n)) => (r matches Ok((a, next)) && a@ == elements && next == pos + n
                    && next <= bytes.len()),
                Err(e) => (r matches Err(re) && re == e),
            },
    {
        let len: usize = bytes.len();
        let checked = match read_u8(bytes, pos) {
            Err(e) => {
                return Err(e);
            },
            Ok(b) => CompTag::<LONG_ELEMENT_TAG>::decode(b),
        };
        if let Err(e) = checked {
            return Err(e);
        }
        let count: usize = match read_count(bytes, pos + 1) {
            Err(e) => {
                return Err(e);
            },
            Ok(c) => c,
        };
        let start: usize = pos + 5;
        let room: u64 = (len - start) as u64;
        let need: u64 = (count as u64) * 8;
        if room < need {
            return Err(Error::Truncated);
        }
        let mut data: Vec<i64> = Vec::new();
        let mut i: usize = 0;
        while i < count
            invariant
                i <= count,
                start + 8 * count <= bytes.len(),
                data@ == long_array_elements(bytes@, start as int, i as nat),
            decreases count - i,
        {
            let at: usize = start + 8 * i;
            match read_i64(bytes, at) {
                Ok(x) => {
                    data.push(x);
                },
                Err(e) => {
                    return Err(e);
                },
            }
            i = i + 1;
            assert(data@ =~= long_array_elements(bytes@, start as int, i as nat));
        }
        Ok((LongArray { data }, start + 8 * count))
    }

    /// Appends the array as it stands on the wire. Returns whether it did:
    /// an array of more than `i32::MAX` elements has no header, is not
    /// written, and `out` is left as it was.
    pub fn encode(&self, out: &mut Vec<u8>) -> (ok: bool)
        ensures
            ok == (self@.len() <= i32::MAX),
            ok ==> final(out)@ == old(out)@ + long_array_bytes(self@),
            !ok ==> final(out)@ == old(out)@,
    {
        let n: usize = self.data.len();
        if n > 0x7FFF_FFFF {
            return false;
        }
        out.push(LONG_ELEMENT_TAG);
        write_i32(out, n as i32);
        let ghost head = out@;
        assert(head =~= old(out)@ + (seq![LONG_ELEMENT_TAG] + i32_bytes(n as i32)));
        let mut i: usize = 0;
        while i < n
            invariant
                i <= n,
                n == self.data@.len(),
                out@ == head + long_array_elements_bytes(self.data@.take(i as int)),
            decreases n - i,
        {
            proof {
                assert(self.data@.take(i + 1).drop_last() =~= self.data@.take(i as int));
            }
            let ghost before = out@;
            write_i64(out, self.data[i]);
            i = i + 1;
            assert(out@ =~= head + long_array_elements_bytes(self.data@.take(i as int)));
        }
        proof {
            assert(self.data@.take(n as int) =~= self.data@);
            assert(out@ =~= old(out)@ + long_array_bytes(self@));
        }
        true
    }
}

impl Clone for LongArray {
    fn clone(&self) -> (r: Self)
        ensures
            r@ == self@,
    {
        let data = self.data.clone();
        assert(data@ =~= self.data@);
        LongArray { data }
    }
}

impl PartialEq for LongArray {
    fn eq(&self, other: &Self) -> (r: bool) {
        let n: usize = self.data.len();
        if n != other.data.len() {
            return false;
        }
        let mut i: usize = 0;
        while i < n
            invariant
                i <= n,
                n == self.data@.len(),
                n == other.data@.len(),
                forall|j: int| 0 <= j < i ==> self.data@[j] == other.data@[j],
            decreases n - i,
        {
            if self.data[i] != other.data[i] {
                return false;
            }
            i = i + 1;
        }
        assert(self.data@ =~= other.data@);
        true
    }
}

impl PartialEqSpecImpl for LongArray {
    open spec fn obeys_eq_spec() -> bool {
        true
    }

    open spec fn eq_spec(&self, other: &Self) -> bool {
        self@ == other@
    }
}

} // verus!
