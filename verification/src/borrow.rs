//! The borrowing forms of the three array kinds.
//!
//! A borrowed array keeps a reference into the input and the count from the
//! header, and decodes an element only when it is asked for. It is made
//! without a look at the bytes: if they are fewer than the count needs, the
//! pass over the elements says so when it gets there.

use vstd::prelude::*;
use vstd::slice::slice_subrange;
use vstd::std_specs::cmp::PartialEqSpecImpl;
use crate::arrays::{byte_array_elements, int_array_elements, long_array_elements, parse_byte_array,
    parse_int_array, parse_long_array, read_count, BYTE_ELEMENT_TAG, INT_ELEMENT_TAG,
    LONG_ELEMENT_TAG};
use crate::comp_tag::CompTag;
use crate::error::Error;
use crate::wire::{be_i32, be_i64, be_i8, read_i32, read_i64, read_i8, read_u8};

verus! {

/// How many elements of `declared` the bytes `source` hold in full.
pub open spec fn byte_array_readable(source: Seq<u8>, declared: nat) -> nat {
    if 1 * declared <= source.len() {
        declared
    } else {
        (source.len() / 1) as nat
    }
}

/// What a pass over a borrowed array hands out: the elements that the bytes
/// hold in full and, where these are fewer than declared, one `Truncated`
/// after them.
pub open spec fn byte_array_items(source: Seq<u8>, declared: nat) -> Seq<Result<i8, Error>> {
    let n = byte_array_readable(source, declared);
    Seq::new(
        if n < declared {
            n + 1
        } else {
            n
        },
        |i: int|
            if i < n {
                Ok(be_i8(source, 1 * i))
            } else {
                Err(Error::Truncated)
            },
    )
}

/// An array of `i8` that stays in the input: a reference to the bytes of
/// its elements, and their count.
#[derive(Debug, Clone, Copy)]
pub struct ByteArray<'a> {
    bytes: &'a [u8],
    count: usize,
}

/// One pass over the elements of a borrowed [`ByteArray`], front to back. Its
/// view is what is still to come.
#[derive(Debug)]
pub struct ByteArrayIter<'a> {
    bytes: &'a [u8],
    count: usize,
    taken: usize,
}

impl<'a> View for ByteArrayIter<'a> {
    type V = Seq<Result<i8, Error>>;

    closed spec fn view(&self) -> Seq<Result<i8, Error>> {
        let items = byte_array_items(self.bytes@, self.count as nat);
        if self.taken <= items.len() {
            items.skip(self.taken as int)
        } else {
            Seq::empty()
        }
    }
}

/// The item at `index` of a pass over `count` elements in `bytes`.
fn byte_array_item(bytes: &[u8], count: usize, index: usize) -> (r: Option<Result<i8, Error>>)
    ensures
        r == (if index < byte_array_items(bytes@, count as nat).len() {
            Some(byte_array_items(bytes@, count as nat)[index as int])
        } else {
            None
        }),
{
    if index >= count {
        return None;
    }
    let whole: usize = bytes.len() / 1;
    if index > whole {
        None
    } else if index == whole {
        Some(Err(Error::Truncated))
    } else {
        match read_i8(bytes, 1 * index) {
            Ok(x) => Some(Ok(x)),
            Err(e) => Some(Err(e)),
        }
    }
}

impl<'a> ByteArrayIter<'a> {
    /// Hands out the next element, decoded now; `Truncated` once where the
    /// bytes give out; and nothing when the pass is over.
    pub fn next(&mut self) -> (r: Option<Result<i8, Error>>)
        ensures
            old(self)@.len() > 0 ==> r == Some(old(self)@[0]) && final(self)@ == old(
                self,
            )@.drop_first(),
            old(self)@.len() == 0 ==> r is None && final(self)@ == old(self)@,
    {
        let ghost items = byte_array_items(self.bytes@, self.count as nat);
        let r = byte_array_item(self.bytes, self.count, self.taken);
        if r.is_some() {
            proof {
                assert(items.skip(self.taken as int).drop_first() =~= items.skip(self.taken + 1));
            }
            self.taken = self.taken + 1;
        }
        r
    }
}

impl<'a> ByteArray<'a> {
    /// The bytes that the array refers to.
    pub closed spec fn source(&self) -> Seq<u8> {
        self.bytes@
    }

    /// The count that the array was made with.
    pub closed spec fn declared(&self) -> nat {
        self.count as nat
    }

    /// Whether the bytes are fewer than the count needs.
    pub open spec fn truncated(&self) -> bool {
        self.source().len() < 1 * self.declared()
    }

    /// The elements, where the bytes hold them all.
    pub open spec fn elements(&self) -> Seq<i8> {
        byte_array_elements(self.source(), 0, self.declared())
    }

    /// What a pass over the array hands out.
    pub open spec fn items(&self) -> Seq<Result<i8, Error>> {
        byte_array_items(self.source(), self.declared())
    }

    /// Records the reference and the count. The bytes are not looked at.
    pub fn from_borrowed(bytes: &'a [u8], count: usize) -> (a: Self)
        ensures
            a.source() == bytes@,
            a.declared() == count,
    {
        ByteArray { bytes, count }
    }

    /// The number of elements that the array was made with.
    pub fn count(&self) -> (n: usize)
        ensures
            n == self.declared(),
    {
        self.count
    }

    /// The item at `index` of a pass, decoded now.
    pub fn get(&self, index: usize) -> (r: Option<Result<i8, Error>>)
        ensures
            r == (if index < self.items().len() {
                Some(self.items()[index as int])
            } else {
                None
            }),
    {
        byte_array_item(self.bytes, self.count, index)
    }

    /// A pass over the elements from the first on. Each call starts anew.
    pub fn iter(&self) -> (it: ByteArrayIter<'a>)
        ensures
            it@ == self.items(),
    {
        proof {
            assert(self.items().skip(0) =~= self.items());
        }
        ByteArrayIter { bytes: self.bytes, count: self.count, taken: 0 }
    }

    /// Whether the bytes are fewer than the count needs.
    pub fn is_truncated(&self) -> (r: bool)
        ensures
            r == self.truncated(),
    {
        self.count > self.bytes.len() / 1
    }

    /// Decodes all elements into an owned array; `Truncated` where the bytes
    /// are fewer than the count needs.
    pub fn to_owned_array(&self) -> (r: Result<crate::arrays::ByteArray, Error>)
        ensures
            match r {
                Ok(a) => !self.truncated() && a@ == self.elements(),
                Err(e) => self.truncated() && e == Error::Truncated,
            },
    {
        if self.is_truncated() {
            return Err(Error::Truncated);
        }
        let len: usize = self.bytes.len();
        let mut data: Vec<i8> = Vec::new();
        let mut i: usize = 0;
        while i < self.count
            invariant
                i <= self.count,
                len == self.bytes@.len(),
                !self.truncated(),
                data@ == byte_array_elements(self.bytes@, 0, i as nat),
            decreases self.count - i,
        {
            match read_i8(self.bytes, 1 * i) {
                Ok(x) => {
                    data.push(x);
                },
                Err(e) => {
                    return Err(e);
                },
            }
            i = i + 1;
            assert(data@ =~= byte_array_elements(self.bytes@, 0, i as nat));
        }
        Ok(crate::arrays::ByteArray::from_owned(data))
    }

    /// Whether the array holds all its elements and they are those of
    /// `other`, in order.
    pub fn same_elements(&self, other: &crate::arrays::ByteArray) -> (r: bool)
        ensures
            r == (!self.truncated() && self.elements() == other@),
    {
        if self.is_truncated() {
            return false;
        }
        if self.count != other.count() {
            return false;
        }
        let len: usize = self.bytes.len();
        let mut i: usize = 0;
        while i < self.count
            invariant
                i <= self.count,
                len == self.bytes@.len(),
                !self.truncated(),
                self.count == other@.len(),
                forall|j: int| 0 <= j < i ==> self.elements()[j] == other@[j],
            decreases self.count - i,
        {
            let mine = read_i8(self.bytes, 1 * i);
            let theirs = other.get(i);
            match (mine, theirs) {
                (Ok(x), Some(y)) => {
                    if x != y {
                        assert(self.elements()[i as int] != other@[i as int]);
                        return false;
                    }
                },
                _ => {
                    return false;
                },
            }
            i = i + 1;
        }
        assert(self.elements() =~= other@);
        true
    }

    /// Reads the array that stands in `bytes` at `pos`, and keeps a
    /// reference to the bytes of its elements. Returns the array and the
    /// position behind it. The elements are not decoded; that their bytes
    /// are all there is checked.
    pub fn decode(bytes: &'a [u8], pos: usize) -> (r: Result<(ByteArray<'a>, usize), Error>)
        ensures
            match parse_byte_array(bytes@, pos as int) {
                Ok((elements, n)) => (r matches Ok((a, next)) && !a.truncated() && a.elements()
                    == elements && a.declared() == elements.len() && next == pos + n && next
                    <= bytes.len() && a.source() == bytes@.subrange(pos + 5, next as int)),
                Err(e) => (r matches Err(re) && re == e),
            },
    {
        let len: usize = bytes.len();
        let checked = match read_u8(bytes, pos) {
            Err(e) => {
                return Err(e);
            },
            Ok(b) => CompTag::<BYTE_ELEMENT_TAG>::decode(b),
        };
        if let Err(e) = checked {
            return Err(e);
        }
        let count: usize = match read_count(bytes, pos + 1) {
            Err(e) => {
                return Err(e);
            },
            Ok(c) => c,
        };
        let start: usize = pos + 5;
        let room: u64 = (len - start) as u64;
        let need: u64 = (count as u64) * 1;
        if room < need {
            return Err(Error::Truncated);
        }
        let end: usize = start + 1 * count;
        let window = slice_subrange(bytes, start, end);
        let a = ByteArray { bytes: window, count };
        proof {
            assert(a.elements() =~= byte_array_elements(bytes@, start as int, count as nat));
        }
        Ok((a, end))
    }
}

impl<'a> PartialEq<crate::arrays::ByteArray> for ByteArray<'a> {
    fn eq(&self, other: &crate::arrays::ByteArray) -> (r: bool) {
        self.same_elements(other)
    }
}

impl<'a> PartialEqSpecImpl<crate::arrays::ByteArray> for ByteArray<'a> {
    open spec fn obeys_eq_spec() -> bool {
        true
    }

    open spec fn eq_spec(&self, other: &crate::arrays::ByteArray) -> bool {
        !self.truncated() && self.elements() == other@
    }
}

impl<'a> PartialEq<ByteArray<'a>> for crate::arrays::ByteArray {
    fn eq(&self, other: &ByteArray<'a>) -> (r: bool) {
        other.same_elements(self)
    }
}

impl<'a> PartialEqSpecImpl<ByteArray<'a>> for crate::arrays::ByteArray {
    open spec fn obeys_eq_spec() -> bool {
        true
    }

    open spec fn eq_spec(&self, other: &ByteArray<'a>) -> bool {
        !other.truncated() && other.elements() == self@
    }
}

/// How many elements of `declared` the bytes `source` hold in full.
pub open spec fn int_array_readable(source: Seq<u8>, declared: nat) -> nat {
    if 4 * declared <= source.len() {
        declared
    } else {
        (source.len() / 4) as nat
    }
}

/// What a pass over a borrowed array hands out: the elements that the bytes
/// hold in full and, where these are fewer than declared, one `Truncated`
/// after them.
pub open spec fn int_array_items(source: Seq<u8>, declared: nat) -> Seq<Result<i32, Error>> {
    let n = int_array_readable(source, declared);
    Seq::new(
        if n < declared {
            n + 1
        } else {
            n
        },
        |i: int|
            if i < n {
                Ok(be_i32(source, 4 * i))
            } else {
                Err(Error::Truncated)
            },
    )
}

/// An array of `i32` that stays in the input: a reference to the bytes of
/// its elements, and their count.
#[derive(Debug, Clone, Copy)]
pub struct IntArray<'a> {
    bytes: &'a [u8],
    count: usize,
}

/// One pass over the elements of a borrowed [`IntArray`], front to back. Its
/// view is what is still to come.
#[derive(Debug)]
pub struct IntArrayIter<'a> {
    bytes: &'a [u8],
    count: usize,
    taken: usize,
}

impl<'a> View for IntArrayIter<'a> {
    type V = Seq<Result<i32, Error>>;

    closed spec fn view(&self) -> Seq<Result<i32, Error>> {
        let items = int_array_items(self.bytes@, self.count as nat);
        if self.taken <= items.len() {
            items.skip(self.taken as int)
        } else {
            Seq::empty()
        }
    }
}

/// The item at `index` of a pass over `count` elements in `bytes`.
fn int_array_item(bytes: &[u8], count: usize, index: usize) -> (r: Option<Result<i32, Error>>)
    ensures
        r == (if index < int_array_items(bytes@, count as nat).len() {
            Some(int_array_items(bytes@, count as nat)[index as int])
        } else {
            None
        }),
{
    if index >= count {
        return None;
    }
    let whole: usize = bytes.len() / 4;
    if index > whole {
        None
    } else if index == whole {
        Some(Err(Error::Truncated))
    } else {
        match read_i32(bytes, 4 * index) {
            Ok(x) => Some(Ok(x)),
            Err(e) => Some(Err(e)),
        }
    }
}

impl<'a> IntArrayIter<'a> {
    /// Hands out the next element, decoded now; `Truncated` once where the
    /// bytes give out; and nothing when the pass is over.
    pub fn next(&mut self) -> (r: Option<Result<i32, Error>>)
        ensures
            old(self)@.len() > 0 ==> r == Some(old(self)@[0]) && final(self)@ == old(
                self,
            )@.drop_first(),
            old(self)@.len() == 0 ==> r is None && final(self)@ == old(self)@,
    {
        let ghost items = int_array_items(self.bytes@, self.count as nat);
        let r = int_array_item(self.bytes, self.count, self.taken);
        if r.is_some() {
            proof {
                assert(items.skip(self.taken as int).drop_first() =~= items.skip(self.taken + 1));
            }
            self.taken = self.taken + 1;
        }
        r
    }
}

impl<'a> IntArray<'a> {
    /// The bytes that the array refers to.
    pub closed spec fn source(&self) -> Seq<u8> {
        self.bytes@
    }

    /// The count that the array was made with.
    pub closed spec fn declared(&self) -> nat {
        self.count as nat
    }

    /// Whether the bytes are fewer than the count needs.
    pub open spec fn truncated(&self) -> bool {
        self.source().len() < 4 * self.declared()
    }

    /// The elements, where the bytes hold them all.
    pub open spec fn elements(&self) -> Seq<i32> {
        int_array_elements(self.source(), 0, self.declared())
    }

    /// What a pass over the array hands out.
    pub open spec fn items(&self) -> Seq<Result<i32, Error>> {
        int_array_items(self.source(), self.declared())
    }

    /// Records the reference and the count. The bytes are not looked at.
    pub fn from_borrowed(bytes: &'a [u8], count: usize) -> (a: Self)
        ensures
            a.source() == bytes@,
            a.declared() == count,
    {
        IntArray { bytes, count }
    }

    /// The number of elements that the array was made with.
    pub fn count(&self) -> (n: usize)
        ensures
            n == self.declared(),
    {
        self.count
    }

    /// The item at `index` of a pass, decoded now.
    pub fn get(&self, index: usize) -> (r: Option<Result<i32, Error>>)
        ensures
            r == (if index < self.items().len() {
                Some(self.items()[index as int])
            } else {
                None
            }),
    {
        int_array_item(self.bytes, self.count, index)
    }

    /// A pass over the elements from the first on. Each call starts anew.
    pub fn iter(&self) -> (it: IntArrayIter<'a>)
        ensures
            it@ == self.items(),
    {
        proof {
            assert(self.items().skip(0) =~= self.items());
        }
        IntArrayIter { bytes: self.bytes, count: self.count, taken: 0 }
    }

    /// Whether the bytes are fewer than the count needs.
    pub fn is_truncated(&self) -> (r: bool)
        ensures
            r == self.truncated(),
    {
        self.count > self.bytes.len() / 4
    }

    /// Decodes all elements into an owned array; `Truncated` where the bytes
    /// are fewer than the count needs.
    pub fn to_owned_array(&self) -> (r: Result<crate::arrays::IntArray, Error>)
        ensures
            match r {
                Ok(a) => !self.truncated() && a@ == self.elements(),
                Err(e) => self.truncated() && e == Error::Truncated,
            },
    {
        if self.is_truncated() {
            return Err(Error::Truncated);
        }
        let len: usize = self.bytes.len();
        let mut data: Vec<i32> = Vec::new();
        let mut i: usize = 0;
        while i < self.count
            invariant
                i <= self.count,
                len == self.bytes@.len(),
                !self.truncated(),
                data@ == int_array_elements(self.bytes@, 0, i as nat),
            decreases self.count - i,
        {
            match read_i32(self.bytes, 4 * i) {
                Ok(x) => {
                    data.push(x);
                },
                Err(e) => {
                    return Err(e);
                },
            }
            i = i + 1;
            assert(data@ =~= int_array_elements(self.bytes@, 0, i as nat));
        }
        Ok(crate::arrays::IntArray::from_owned(data))
    }

    /// Whether the array holds all its elements and they are those of
    /// `other`, in order.
    pub fn same_elements(&self, other: &crate::arrays::IntArray) -> (r: bool)
        ensures
            r == (!self.truncated() && self.elements() == other@),
    {
        if self.is_truncated() {
            return false;
        }
        if self.count != other.count() {
            return false;
        }
        let len: usize = self.bytes.len();
        let mut i: usize = 0;
        while i < self.count
            invariant
                i <= self.count,
                len == self.bytes@.len(),
                !self.truncated(),
                self.count == other@.len(),
                forall|j: int| 0 <= j < i ==> self.elements()[j] == other@[j],
            decreases self.count - i,
        {
            let mine = read_i32(self.bytes, 4 * i);
            let theirs = other.get(i);
            match (mine, theirs) {
                (Ok(x), Some(y)) => {
                    if x != y {
                        assert(self.elements()[i as int] != other@[i as int]);
                        return false;
                    }
                },
                _ => {
                    return false;
                },
            }
            i = i + 1;
        }
        assert(self.elements() =~= other@);
        true
    }

    /// Reads the array that stands in `bytes` at `pos`, and keeps a
    /// reference to the bytes of its elements. Returns the array and the
    /// position behind it. The elements are not decoded; that their bytes
    /// are all there is checked.
    pub fn decode(bytes: &'a [u8], pos: usize) -> (r: Result<(IntArray<'a>, usize), Error>)
        ensures
            match parse_int_array(bytes@, pos as int) {
                Ok((elements, n)) => (r matches Ok((a, next)) && !a.truncated() && a.elements()
                    == elements && a.declared() == elements.len() && next == pos + n && next
                    <= bytes.len() && a.source() == bytes@.subrange(pos + 5, next as int)),
                Err(e) => (r matches Err(re) && re == e),
            },
    {
        let len: usize = bytes.len();
        let checked = match read_u8(bytes, pos) {
            Err(e) => {
                return Err(e);
            },
            Ok(b) => CompTag::<INT_ELEMENT_TAG>::decode(b),
        };
        if let Err(e) = checked {
            return Err(e);
        }
        let count: usize = match read_count(bytes, pos + 1) {
            Err(e) => {
                return Err(e);
            },
            Ok(c) => c,
        };
        let start: usize = pos + 5;
        let room: u64 = (len - start) as u64;
        let need: u64 = (count as u64) * 4;
        if room < need {
            return Err(Error::Truncated);
        }
        let end: usize = start + 4 * count;
        let window = slice_subrange(bytes, start, end);
        let a = IntArray { bytes: window, count };
        proof {
            assert(a.elements() =~= int_array_elements(bytes@, start as int, count as nat));
        }
        Ok((a, end))
    }
}

impl<'a> PartialEq<crate::arrays::IntArray> for IntArray<'a> {
    fn eq(&self, other: &crate::arrays::IntArray) -> (r: bool) {
        self.same_elements(other)
    }
}

impl<'a> PartialEqSpecImpl<crate::arrays::IntArray> for IntArray<'a> {
    open spec fn obeys_eq_spec() -> bool {
        true
    }

    open spec fn eq_spec(&self, other: &crate::arrays::IntArray) -> bool {
        !self.truncated() && self.elements() == other@
    }
}

impl<'a> PartialEq<IntArray<'a>> for crate::arrays::IntArray {
    fn eq(&self, other: &IntArray<'a>) -> (r: bool) {
        other.same_elements(self)
    }
}

impl<'a> PartialEqSpecImpl<IntArray<'a>> for crate::arrays::IntArray {
    open spec fn obeys_eq_spec() -> bool {
        true
    }

    open spec fn eq_spec(&self, other: &IntArray<'a>) -> bool {
        !other.truncated() && other.elements() == self@
    }
}

/// How many elements of `declared` the bytes `source` hold in full.
pub open spec fn long_array_readable(source: Seq<u8>, declared: nat) -> nat {
    if 8 * declared <= source.len() {
        declared
    } else {
        (source.len() / 8) as nat
    }
}

/// What a pass over a borrowed array hands out: the elements that the bytes
/// hold in full and, where these are fewer than declared, one `Truncated`
/// after them.
pub open spec fn long_array_items(source: Seq<u8>, declared: nat) -> Seq<Result<i64, Error>> {
    let n = long_array_readable(source, declared);
    Seq::new(
        if n < declared {
            n + 1
        } else {
            n
        },
        |i: int|
            if i < n {
                Ok(be_i64(source, 8 * i))
            } else {
                Err(Error::Truncated)
            },
    )
}

/// An array of `i64` that stays in the input: a reference to the bytes of
/// its elements, and their count.
#[derive(Debug, Clone, Copy)]
pub struct LongArray<'a> {
    bytes: &'a [u8],
    count: usize,
}

/// One pass over the elements of a borrowed [`LongArray`], front to back. Its
/// view is what is still to come.
#[derive(Debug)]
pub struct LongArrayIter<'a> {
    bytes: &'a [u8],
    count: usize,
    taken: usize,
}

impl<'a> View for LongArrayIter<'a> {
    type V = Seq<Result<i64, Error>>;

    closed spec fn view(&self) -> Seq<Result<i64, Error>> {
        let items = long_array_items(self.bytes@, self.count as nat);
        if self.taken <= items.len() {
            items.skip(self.taken as int)
        } else {
            Seq::empty()
        }
    }
}

/// The item at `index` of a pass over `count` elements in `bytes`.
fn long_array_item(bytes: &[u8], count: usize, index: usize) -> (r: Option<Result<i64, Error>>)
    ensures
        r == (if index < long_array_items(bytes@, count as nat).len() {
            Some(long_array_items(bytes@, count as nat)[index as int])
        } else {
            None
        }),
{
    if index >= count {
        return None;
    }
    let whole: usize = bytes.len() / 8;
    if index > whole {
        None
    } else if index == whole {
        Some(Err(Error::Truncated))
    } else {
        match read_i64(bytes, 8 * index) {
            Ok(x) => Some(Ok(x)),
            Err(e) => Some(Err(e)),
        }
    }
}

impl<'a> LongArrayIter<'a> {
    /// Hands out the next element, decoded now; `Truncated` once where the
    /// bytes give out; and nothing when the pass is over.
    pub fn next(&mut self) -> (r: Option<Result<i64, Error>>)
        ensures
            old(self)@.len() > 0 ==> r == Some(old(self)@[0]) && final(self)@ == old(
                self,
            )@.drop_first(),
            old(self)@.len() == 0 ==> r is None && final(self)@ == old(self)@,
    {
        let ghost items = long_array_items(self.bytes@, self.count as nat);
        let r = long_array_item(self.bytes, self.count, self.taken);
        if r.is_some() {
            proof {
                assert(items.skip(self.taken as int).drop_first() =~= items.skip(self.taken + 1));
            }
            self.taken = self.taken + 1;
        }
        r
    }
}

impl<'a> LongArray<'a> {
    /// The bytes that the array refers to.
    pub closed spec fn source(&self) -> Seq<u8> {
        self.bytes@
    }

    /// The count that the array was made with.
    pub closed spec fn declared(&self) -> nat {
        self.count as nat
    }

    /// Whether the bytes are fewer than the count needs.
    pub open spec fn truncated(&self) -> bool {
        self.source().len() < 8 * self.declared()
    }

    /// The elements, where the bytes hold them all.
    pub open spec fn elements(&self) -> Seq<i64> {
        long_array_elements(self.source(), 0, self.declared())
    }

    /// What a pass over the array hands out.
    pub open spec fn items(&self) -> Seq<Result<i64, Error>> {
        long_array_items(self.source(), self.declared())
    }

    /// Records the reference and the count. The bytes are not looked at.
    pub fn from_borrowed(bytes: &'a [u8], count: usize) -> (a: Self)
        ensures
            a.source() == bytes@,
            a.declared() == count,
    {
        LongArray { bytes, count }
    }

    /// The number of elements that the array was made with.
    pub fn count(&self) -> (n: usize)
        ensures
            n == self.declared(),
    {
        self.count
    }

    /// The item at `index` of a pass, decoded now.
    pub fn get(&self, index: usize) -> (r: Option<Result<i64, Error>>)
        ensures
            r == (if index < self.items().len() {
                Some(self.items()[index as int])
            } else {
                None
            }),
    {
        long_array_item(self.bytes, self.count, index)
    }

    /// A pass over the elements from the first on. Each call starts anew.
    pub fn iter(&self) -> (it: LongArrayIter<'a>)
        ensures
            it@ == self.items(),
    {
        proof {
            assert(self.items().skip(0) =~= self.items());
        }
        LongArrayIter { bytes: self.bytes, count: self.count, taken: 0 }
    }

    /// Whether the bytes are fewer than the count needs.
    pub fn is_truncated(&self) -> (r: bool)
        ensures
            r == self.truncated(),
    {
        self.count > self.bytes.len() / 8
    }

    /// Decodes all elements into an owned array; `Truncated` where the bytes
    /// are fewer than the count needs.
    pub fn to_owned_array(&self) -> (r: Result<crate::arrays::LongArray, Error>)
        ensures
            match r {
                Ok(a) => !self.truncated() && a@ == self.elements(),
                Err(e) => self.truncated() && e == Error::Truncated,
            },
    {
        if self.is_truncated() {
            return Err(Error::Truncated);
        }
        let len: usize = self.bytes.len();
        let mut data: Vec<i64> = Vec::new();
        let mut i: usize = 0;
        while i < self.count
            invariant
                i <= self.count,
                len == self.bytes@.len(),
                !self.truncated(),
                data@ == long_array_elements(self.bytes@, 0, i as nat),
            decreases self.count - i,
        {
            match read_i64(self.bytes, 8 * i) {
                Ok(x) => {
                    data.push(x);
                },
                Err(e) => {
                    return Err(e);
                },
            }
            i = i + 1;
            assert(data@ =~= long_array_elements(self.bytes@, 0, i as nat));
        }
        Ok(crate::arrays::LongArray::from_owned(data))
    }

    /// Whether the array holds all its elements and they are those of
    /// `other`, in order.
    pub fn same_elements(&self, other: &crate::arrays::LongArray) -> (r: bool)
        ensures
            r == (!self.truncated() && self.elements() == other@),
    {
        if self.is_truncated() {
            return false;
        }
        if self.count != other.count() {
            return false;
        }
        let len: usize = self.bytes.len();
        let mut i: usize = 0;
        while i < self.count
            invariant
                i <= self.count,
                len == self.bytes@.len(),
                !self.truncated(),
                self.count == other@.len(),
                forall|j: int| 0 <= j < i ==> self.elements()[j] == other@[j],
            decreases self.count - i,
        {
            let mine = read_i64(self.bytes, 8 * i);
            let theirs = other.get(i);
            match (mine, theirs) {
                (Ok(x), Some(y)) => {
                    if x != y {
                        assert(self.elements()[i as int] != other@[i as int]);
                        return false;
                    }
                },
                _ => {
                    return false;
                },
            }
            i = i + 1;
        }
        assert(self.elements() =~= other@);
        true
    }

    /// Reads the array that stands in `bytes` at `pos`, and keeps a
    /// reference to the bytes of its elements. Returns the array and the
    /// position behind it. The elements are not decoded; that their bytes
    /// are all there is checked.
    pub fn decode(bytes: &'a [u8], pos: usize) -> (r: Result<(LongArray<'a>, usize), Error>)
        ensures
            match parse_long_array(bytes@, pos as int) {
                Ok((elements, n)) => (r matches Ok((a, next)) && !a.truncated() && a.elements()
                    == elements && a.declared() == elements.len() && next == pos + n && next
                    <= bytes.len() && a.source() == bytes@.subrange(pos + 5, next as int)),
                Err(e) => (r matches Err(re) && re == e),
            },
    {
        let len: usize = bytes.len();
        let checked = match read_u8(bytes, pos) {
            Err(e) => {
                return Err(e);
            },
            Ok(b) => CompTag::<LONG_ELEMENT_TAG>::decode(b),
        };
        if let Err(e) = checked {
            return Err(e);
        }
        let count: usize = match read_count(bytes, pos + 1) {
            Err(e) => {
                return Err(e);
            },
            Ok(c) => c,
        };
        let start: usize = pos + 5;
        let room: u64 = (len - start) as u64;
        let need: u64 = (count as u64) * 8;
        if room < need {
            return Err(Error::Truncated);
        }
        let end: usize = start + 8 * count;
        let window = slice_subrange(bytes, start, end);
        let a = LongArray { bytes: window, count };
        proof {
            assert(a.elements() =~= long_array_elements(bytes@, start as int, count as nat));
        }
        Ok((a, end))
    }
}

impl<'a> PartialEq<crate::arrays::LongArray> for LongArray<'a> {
    fn eq(&self, other: &crate::arrays::LongArray) -> (r: bool) {
        self.same_elements(other)
    }
}

impl<'a> PartialEqSpecImpl<crate::arrays::LongArray> for LongArray<'a> {
    open spec fn obeys_eq_spec() -> bool {
        true
    }

    open spec fn eq_spec(&self, other: &crate::arrays::LongArray) -> bool {
        !self.truncated() && self.elements() == other@
    }
}

impl<'a> PartialEq<LongArray<'a>> for crate::arrays::LongArray {
    fn eq(&self, other: &LongArray<'a>) -> (r: bool) {
        other.same_elements(self)
    }
}

impl<'a> PartialEqSpecImpl<LongArray<'a>> for crate::arrays::LongArray {
    open spec fn obeys_eq_spec() -> bool {
        true
    }

    open spec fn eq_spec(&self, other: &LongArray<'a>) -> bool {
        !other.truncated() && other.elements() == self@
    }
}

} // verus!
