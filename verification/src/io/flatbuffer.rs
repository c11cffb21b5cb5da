//! FlatBuffers: a bounds-checked reader of tables, and a writer for the few shapes needed here.
//!
//! A table is a place in a buffer whose first four bytes lead back to a vtable; the vtable says at
//! which distance from the table each field lies. Every read is checked against the buffer, so a
//! truncated or corrupt one reads as an absent field.

use vstd::prelude::*;
use vstd::slice::slice_subrange;
use vstd::string::*;
use vstd::utf8::{decode_utf8, encode_utf8_decode_utf8, valid_utf8};

use crate::bytes::{
    le16, le32, le64, read_u16, read_u32, read_u64, signed, signed16, signed32, signed64,
};

verus! {

/// The text of a run of bytes, if they are well-formed UTF-8: `std::str::from_utf8`, which
/// documents to succeed on exactly those and to give the same bytes.
#[verifier::external_body]
pub(crate) fn utf8(bytes: &[u8]) -> (text: Option<&str>)
    ensures
        match text {
            Some(t) => valid_utf8(bytes@) && t.spec_bytes() == bytes@,
            None => !valid_utf8(bytes@),
        },
{
    std::str::from_utf8(bytes).ok()
}

/// Where the root table of a buffer lies: its offset is the 32-bit value at `at`.
pub open spec fn root_of(b: Seq<u8>, at: int) -> Option<int> {
    if at + 4 > b.len() {
        None
    } else if at + le32(b, at) < b.len() {
        Some(at + le32(b, at))
    } else {
        None
    }
}

/// Where field `slot` of the table at `at` is stored; `None` if the table omits it.
#[verifier::opaque]
pub open spec fn field_of(b: Seq<u8>, at: int, slot: int) -> Option<int> {
    let vtable = at - signed(le32(b, at), 0x8000_0000);
    if at + 4 > b.len() || vtable < 0 || vtable + 2 > b.len() {
        None
    } else if slot + 2 > le16(b, vtable) || vtable + slot + 2 > b.len() {
        None
    } else {
        let offset = le16(b, vtable + slot);
        if offset == 0 || at + offset > usize::MAX {
            None
        } else {
            Some(at + offset)
        }
    }
}

/// The `n` bytes of a scalar field, if it is there.
pub open spec fn scalar_of(b: Seq<u8>, at: int, slot: int, n: int) -> Option<int> {
    match field_of(b, at, slot) {
        Some(f) => if f + n <= b.len() {
            Some(f)
        } else {
            None
        },
        None => None,
    }
}

pub open spec fn i8_of(b: Seq<u8>, at: int, slot: int, default: int) -> int {
    match scalar_of(b, at, slot, 1) {
        Some(f) => signed(b[f] as int, 0x80),
        None => default,
    }
}

pub open spec fn i16_of(b: Seq<u8>, at: int, slot: int) -> int {
    match scalar_of(b, at, slot, 2) {
        Some(f) => signed(le16(b, f), 0x8000),
        None => 0,
    }
}

pub open spec fn i32_of(b: Seq<u8>, at: int, slot: int) -> int {
    match scalar_of(b, at, slot, 4) {
        Some(f) => signed(le32(b, f), 0x8000_0000),
        None => 0,
    }
}

pub open spec fn i64_of(b: Seq<u8>, at: int, slot: int, default: int) -> int {
    match scalar_of(b, at, slot, 8) {
        Some(f) => signed(le64(b, f), 0x8000_0000_0000_0000),
        None => default,
    }
}

/// The bit pattern of a single precision field.
pub open spec fn f32_bits_of(b: Seq<u8>, at: int, slot: int) -> int {
    match scalar_of(b, at, slot, 4) {
        Some(f) => le32(b, f),
        None => 0,
    }
}

/// Where an offset field points.
pub open spec fn indirect_of(b: Seq<u8>, at: int, slot: int) -> Option<int> {
    match scalar_of(b, at, slot, 4) {
        Some(f) => if f + le32(b, f) <= usize::MAX {
            Some(f + le32(b, f))
        } else {
            None
        },
        None => None,
    }
}

/// The first byte and the number of elements of a vector field, if all of it is there.
pub open spec fn vector_of(b: Seq<u8>, at: int, slot: int, stride: int) -> Option<(int, int)> {
    match indirect_of(b, at, slot) {
        Some(p) => if p + 4 <= b.len() && p + 4 + le32(b, p) * stride <= b.len() {
            Some((p + 4, le32(b, p)))
        } else {
            None
        },
        None => None,
    }
}

/// The tables that `n` offsets from `start` on point at.
pub open spec fn pointed(b: Seq<u8>, start: int, n: int) -> Seq<int>
    decreases n,
{
    if n <= 0 {
        Seq::empty()
    } else {
        let at = start + 4 * (n - 1);
        if at + le32(b, at) <= usize::MAX {
            pointed(b, start, n - 1).push(at + le32(b, at))
        } else {
            pointed(b, start, n - 1)
        }
    }
}

/// The tables of a vector field.
pub open spec fn tables_of(b: Seq<u8>, at: int, slot: int) -> Seq<int> {
    match vector_of(b, at, slot, 4) {
        Some((start, n)) => pointed(b, start, n),
        None => Seq::empty(),
    }
}

/// Whether a table and its vtable lie in the buffer.
pub open spec fn is_table(b: Seq<u8>, at: int) -> bool {
    let vtable = at - signed(le32(b, at), 0x8000_0000);
    &&& 0 <= at
    &&& at + 4 <= b.len()
    &&& 0 <= vtable
    &&& vtable + 4 <= b.len()
    &&& 4 <= le16(b, vtable)
    &&& vtable + le16(b, vtable) <= b.len()
    &&& 4 <= le16(b, vtable + 2)
    &&& at + le16(b, vtable + 2) <= b.len()
}

/// The text of a string field, if it is there and well formed.
pub open spec fn string_of_field(b: Seq<u8>, at: int, slot: int) -> Option<Seq<char>> {
    match vector_of(b, at, slot, 1) {
        Some((start, n)) => if valid_utf8(b.subrange(start, start + n)) {
            Some(decode_utf8(b.subrange(start, start + n)))
        } else {
            None
        },
        None => None,
    }
}

/// A table of a buffer.
#[derive(Clone, Copy)]
pub struct Table<'a> {
    pub buffer: &'a [u8],
    pub at: usize,
}

impl<'a> Table<'a> {
    /// The root of a buffer that starts with its own length.
    pub fn size_prefixed_root(buffer: &'a [u8]) -> (table: Option<Self>)
        ensures
            match table {
                Some(t) => t.buffer == buffer && root_of(buffer@, 4) == Some(t.at as int),
                None => root_of(buffer@, 4) is None,
            },
    {
        Self::root_at(buffer, 4)
    }

    /// The root of a bare buffer.
    pub fn root(buffer: &'a [u8]) -> (table: Option<Self>)
        ensures
            match table {
                Some(t) => t.buffer == buffer && root_of(buffer@, 0) == Some(t.at as int),
                None => root_of(buffer@, 0) is None,
            },
    {
        Self::root_at(buffer, 0)
    }

    fn root_at(buffer: &'a [u8], at: usize) -> (table: Option<Self>)
        requires
            at <= 4,
        ensures
            match table {
                Some(t) => t.buffer == buffer && root_of(buffer@, at as int) == Some(t.at as int),
                None => root_of(buffer@, at as int) is None,
            },
    {
        if buffer.len() < 4 || at > buffer.len() - 4 {
            return None;
        }
        let offset: usize = read_u32(buffer, at) as usize;
        if offset < buffer.len() - at {
            Some(Table { buffer, at: at + offset })
        } else {
            None
        }
    }

    /// Where field `slot` is stored; `None` if the table omits it.
    pub fn field(&self, slot: usize) -> (at: Option<usize>)
        requires
            slot < 0x1_0000,
        ensures
            match at {
                Some(f) => field_of(self.buffer@, self.at as int, slot as int) == Some(f as int),
                None => field_of(self.buffer@, self.at as int, slot as int) is None,
            },
    {
        reveal(field_of);
        let n: usize = self.buffer.len();
        if n < 4 || self.at > n - 4 {
            return None;
        }
        let back: i32 = signed32(read_u32(self.buffer, self.at));
        let place: i128 = self.at as i128 - back as i128;
        if place < 0 || place + 2 > n as i128 {
            return None;
        }
        let vtable: usize = place as usize;
        let length: usize = read_u16(self.buffer, vtable) as usize;
        if slot + 2 > length || slot > n - 2 - vtable {
            return None;
        }
        let offset: usize = read_u16(self.buffer, vtable + slot) as usize;
        if offset == 0 || offset > usize::MAX - self.at {
            None
        } else {
            Some(self.at + offset)
        }
    }

    /// Whether the table and its vtable lie in the buffer.
    pub fn is_whole(&self) -> (yes: bool)
        ensures
            yes == is_table(self.buffer@, self.at as int),
    {
        let n: usize = self.buffer.len();
        if n < 4 || self.at > n - 4 {
            return false;
        }
        let back: i32 = signed32(read_u32(self.buffer, self.at));
        let place: i128 = self.at as i128 - back as i128;
        if place < 0 || place + 4 > n as i128 {
            return false;
        }
        let vtable: usize = place as usize;
        let length: usize = read_u16(self.buffer, vtable) as usize;
        let size: usize = read_u16(self.buffer, vtable + 2) as usize;
        4 <= length && length <= n - vtable && 4 <= size && size <= n - self.at
    }

    /// Where a field of `n` bytes is stored, if all of it is in the buffer.
    fn scalar(&self, slot: usize, n: usize) -> (at: Option<usize>)
        requires
            slot < 0x1_0000,
        ensures
            match at {
                Some(f) => scalar_of(self.buffer@, self.at as int, slot as int, n as int) == Some(
                    f as int,
                ) && f + n <= self.buffer@.len(),
                None => scalar_of(self.buffer@, self.at as int, slot as int, n as int) is None,
            },
    {
        match self.field(slot) {
            Some(f) => if n <= self.buffer.len() && f <= self.buffer.len() - n {
                Some(f)
            } else {
                None
            },
            None => None,
        }
    }

    pub fn i8(&self, slot: usize, default: i8) -> (value: i8)
        requires
            slot < 0x1_0000,
        ensures
            value == i8_of(self.buffer@, self.at as int, slot as int, default as int),
    {
        match self.scalar(slot, 1) {
            Some(f) => {
                let byte = self.buffer[f];
                if byte < 0x80 {
                    byte as i8
                } else {
                    (byte as i16 - 0x100) as i8
                }
            },
            None => default,
        }
    }

    pub fn i16(&self, slot: usize) -> (value: i16)
        requires
            slot < 0x1_0000,
        ensures
            value == i16_of(self.buffer@, self.at as int, slot as int),
    {
        match self.scalar(slot, 2) {
            Some(f) => signed16(read_u16(self.buffer, f)),
            None => 0,
        }
    }

    pub fn i32(&self, slot: usize) -> (value: i32)
        requires
            slot < 0x1_0000,
        ensures
            value == i32_of(self.buffer@, self.at as int, slot as int),
    {
        match self.scalar(slot, 4) {
            Some(f) => signed32(read_u32(self.buffer, f)),
            None => 0,
        }
    }

    pub fn i64(&self, slot: usize, default: i64) -> (value: i64)
        requires
            slot < 0x1_0000,
        ensures
            value == i64_of(self.buffer@, self.at as int, slot as int, default as int),
    {
        match self.scalar(slot, 8) {
            Some(f) => signed64(read_u64(self.buffer, f)),
            None => default,
        }
    }

    /// The bit pattern of a single precision field; zero if it is absent.
    pub fn f32_bits(&self, slot: usize) -> (value: u32)
        requires
            slot < 0x1_0000,
        ensures
            value == f32_bits_of(self.buffer@, self.at as int, slot as int),
    {
        match self.scalar(slot, 4) {
            Some(f) => read_u32(self.buffer, f),
            None => 0,
        }
    }

    /// Where an offset field points.
    pub fn indirect(&self, slot: usize) -> (at: Option<usize>)
        requires
            slot < 0x1_0000,
        ensures
            match at {
                Some(p) => indirect_of(self.buffer@, self.at as int, slot as int) == Some(p as int),
                None => indirect_of(self.buffer@, self.at as int, slot as int) is None,
            },
    {
        match self.scalar(slot, 4) {
            Some(f) => {
                let offset: usize = read_u32(self.buffer, f) as usize;
                if offset > usize::MAX - f {
                    None
                } else {
                    Some(f + offset)
                }
            },
            None => None,
        }
    }

    /// The first byte and the number of elements of a vector of `stride`-byte elements.
    pub fn vector_at(&self, slot: usize, stride: usize) -> (place: Option<(usize, usize)>)
        requires
            slot < 0x1_0000,
        ensures
            match place {
                Some((start, n)) => vector_of(
                    self.buffer@,
                    self.at as int,
                    slot as int,
                    stride as int,
                ) == Some((start as int, n as int)) && start + n * stride <= self.buffer@.len(),
                None => vector_of(
                    self.buffer@,
                    self.at as int,
                    slot as int,
                    stride as int,
                ) is None,
            },
    {
        let p = match self.indirect(slot) {
            Some(p) => p,
            None => {
                return None;
            },
        };
        let len: usize = self.buffer.len();
        if len < 4 || p > len - 4 {
            return None;
        }
        let n: usize = read_u32(self.buffer, p) as usize;
        let room: usize = len - 4 - p;
        match n.checked_mul(stride) {
            Some(size) => if size <= room {
                Some((p + 4, n))
            } else {
                None
            },
            None => None,
        }
    }

    /// A vector of `stride`-byte elements: its bytes and its number of elements.
    pub fn vector(&self, slot: usize, stride: usize) -> (found: Option<(&'a [u8], usize)>)
        requires
            slot < 0x1_0000,
        ensures
            match found {
                Some((bytes, n)) => {
                    let place = vector_of(
                        self.buffer@,
                        self.at as int,
                        slot as int,
                        stride as int,
                    );
                    place matches Some((start, count)) && n == count && bytes@
                        == self.buffer@.subrange(start, start + count * stride) && bytes@.len()
                        == count * stride
                },
                None => vector_of(
                    self.buffer@,
                    self.at as int,
                    slot as int,
                    stride as int,
                ) is None,
            },
    {
        match self.vector_at(slot, stride) {
            Some((start, n)) => {
                assert(0 <= n * stride) by (nonlinear_arith)
                    requires
                        0 <= n,
                        0 <= stride,
                ;
                assert(start + n * stride <= self.buffer.len());
                Some((slice_subrange(self.buffer, start, start + n * stride), n))
            },
            None => None,
        }
    }

    /// The text of a string field.
    pub fn string(&self, slot: usize) -> (text: Option<&'a str>)
        requires
            slot < 0x1_0000,
        ensures
            match text {
                Some(t) => string_of_field(self.buffer@, self.at as int, slot as int) == Some(t@),
                None => string_of_field(self.buffer@, self.at as int, slot as int) is None,
            },
    {
        match self.vector(slot, 1) {
            Some((bytes, _)) => {
                let text = utf8(bytes);
                proof {
                    if let Some(t) = text {
                        encode_utf8_decode_utf8(t@);
                    }
                }
                text
            },
            None => None,
        }
    }

    /// The tables of a vector field.
    pub fn tables(&self, slot: usize) -> (tables: Vec<Table<'a>>)
        requires
            slot < 0x1_0000,
        ensures
            tables@.len() == tables_of(self.buffer@, self.at as int, slot as int).len(),
            forall|i: int|
                0 <= i < tables@.len() ==> (#[trigger] tables@[i]).buffer == self.buffer
                    && tables@[i].at == tables_of(self.buffer@, self.at as int, slot as int)[i],
    {
        let mut tables: Vec<Table<'a>> = Vec::new();
        let (start, n) = match self.vector_at(slot, 4) {
            Some(place) => place,
            None => {
                return tables;
            },
        };
        let ghost b = self.buffer@;
        assert(self.buffer.len() <= usize::MAX);
        let mut i: usize = 0;
        while i < n
            invariant
                b == self.buffer@,
                start + n * 4 <= b.len(),
                b.len() <= usize::MAX,
                i <= n,
                tables@.len() == pointed(b, start as int, i as int).len(),
                forall|j: int|
                    0 <= j < tables@.len() ==> (#[trigger] tables@[j]).buffer == self.buffer
                        && tables@[j].at == pointed(b, start as int, i as int)[j],
            decreases n - i,
        {
            let at: usize = start + i * 4;
            let offset: usize = read_u32(self.buffer, at) as usize;
            if offset <= usize::MAX - at {
                tables.push(Table { buffer: self.buffer, at: at + offset });
            }
            i += 1;
        }
        tables
    }
}

} // verus!
