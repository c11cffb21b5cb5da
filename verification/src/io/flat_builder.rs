//! A writer of FlatBuffers.
//!
//! A buffer is built back to front, as its self-relative offsets require: what is written later
//! stands before what was written earlier. A place is counted from the end of the buffer, so it
//! stays the same however much is put in front of it.

use vstd::prelude::*;

use crate::bytes::{
    le16, le16_all, le16_all_at, le16_all_len, le16_all_push, le32, le32_bytes, le64, le64_bytes,
    le64_round_trip, signed, word_round_trip,
};
use crate::io::flatbuffer::{field_of, root_of};

verus! {

pub open spec fn zeros(n: int) -> Seq<u8> {
    Seq::new(n as nat, |i: int| 0u8)
}

/// How many bytes bring `size` more bytes to a multiple of `align`.
pub open spec fn padding(len: int, size: int, align: int) -> int {
    (align - (len + size) % align) % align
}

/// A tail padded so that `size` more bytes end on a multiple of `align`.
pub open spec fn aligned(tail: Seq<u8>, size: int, align: int) -> Seq<u8> {
    zeros(padding(tail.len() as int, size, align)) + tail
}

/// A tail with an aligned scalar before it.
pub open spec fn with_scalar(tail: Seq<u8>, bytes: Seq<u8>) -> Seq<u8> {
    bytes + aligned(tail, bytes.len() as int, bytes.len() as int)
}

/// A tail with an offset before it that points at `target`.
pub open spec fn with_offset(tail: Seq<u8>, target: int) -> Seq<u8> {
    let before = aligned(tail, 4, 4);
    le32_bytes(before.len() + 4 - target) + before
}

/// A tail with a string before it.
pub open spec fn with_string(tail: Seq<u8>, text: Seq<u8>) -> Seq<u8> {
    with_scalar(
        text + (seq![0u8] + aligned(tail, (text.len() + 1) as int, 4)),
        le32_bytes(text.len() as int),
    )
}

/// A tail with a vector of inline elements before it.
pub open spec fn with_elements(tail: Seq<u8>, data: Seq<u8>, count: int, align: int) -> Seq<u8> {
    with_scalar(data + aligned(tail, data.len() as int, align), le32_bytes(count))
}

/// The largest slot of some fields, two if there are none.
pub open spec fn largest_slot(fields: Seq<(usize, usize)>) -> int
    decreases fields.len(),
{
    if fields.len() == 0 {
        2
    } else if fields.last().0 > largest_slot(fields.drop_last()) || fields.len() == 1 {
        fields.last().0 as int
    } else {
        largest_slot(fields.drop_last())
    }
}

/// The number of words of the vtable of some fields.
pub open spec fn vtable_len(fields: Seq<(usize, usize)>) -> int {
    let slots = largest_slot(fields);
    2 + (if slots < 4 {
        0
    } else {
        (slots - 4) / 2
    }) + 1
}

/// Where the field of a slot is stored, relative to the table; zero if there is none.
pub open spec fn entry(fields: Seq<(usize, usize)>, table: int, slot: int) -> int
    decreases fields.len(),
{
    if fields.len() == 0 {
        0
    } else if fields.last().0 == slot {
        table - fields.last().1
    } else {
        entry(fields.drop_last(), table, slot)
    }
}

/// The vtable of a table at `table` whose fields were written from `start` on.
pub open spec fn vtable(fields: Seq<(usize, usize)>, table: int, start: int) -> Seq<int> {
    Seq::new(
        vtable_len(fields) as nat,
        |i: int|
            if i == 0 {
                2 * vtable_len(fields)
            } else if i == 1 {
                table - start
            } else {
                entry(fields, table, 2 * i)
            },
    )
}

/// A tail with a table and its vtable before it.
pub open spec fn with_table(tail: Seq<u8>, start: int, fields: Seq<(usize, usize)>) -> Seq<u8> {
    let before = aligned(tail, 4, 4);
    let words = vtable(fields, (before.len() + 4) as int, start);
    le16_all(words) + (le32_bytes((2 * words.len()) as int) + before)
}

/// Where the table lies.
pub open spec fn table_place(tail: Seq<u8>) -> int {
    (aligned(tail, 4, 4).len() + 4) as int
}

/// A finished buffer: the root offset, an identifier, and perhaps a leading length.
pub open spec fn finished(
    tail: Seq<u8>,
    align: int,
    root: int,
    identifier: Seq<u8>,
    size_prefixed: bool,
) -> Seq<u8> {
    let prefix: int = if size_prefixed {
        12
    } else {
        8
    };
    let rooted = with_offset(identifier + aligned(tail, prefix, align), root);
    if size_prefixed {
        le32_bytes(rooted.len() as int) + rooted
    } else {
        rooted
    }
}

/// Every field lies between the start of a table and the table, in a slot that a vtable can list.
pub open spec fn fields_fit(fields: Seq<(usize, usize)>, table: int, start: int) -> bool {
    &&& 0 <= start
    &&& table - start < 0x1_0000
    &&& forall|i: int|
        0 <= i < fields.len() ==> {
            &&& 4 <= (#[trigger] fields[i]).0 < 0x100
            &&& fields[i].0 as int % 2 == 0
            &&& start <= fields[i].1 <= table
        }
}

proof fn largest_slot_bounds(fields: Seq<(usize, usize)>)
    requires
        forall|i: int| 0 <= i < fields.len() ==> 4 <= (#[trigger] fields[i]).0 < 0x100 && fields[i].0
            as int % 2 == 0,
    ensures
        2 <= largest_slot(fields) < 0x100,
        largest_slot(fields) % 2 == 0,
        fields.len() > 0 ==> largest_slot(fields) >= 4,
        forall|i: int| 0 <= i < fields.len() ==> (#[trigger] fields[i]).0 <= largest_slot(fields),
    decreases fields.len(),
{
    if fields.len() > 0 {
        let rest = fields.drop_last();
        assert forall|i: int| 0 <= i < rest.len() implies 4 <= (#[trigger] rest[i]).0 < 0x100
            && rest[i].0 as int % 2 == 0 by {
            assert(rest[i] == fields[i]);
        }
        largest_slot_bounds(rest);
        assert forall|i: int| 0 <= i < fields.len() implies (#[trigger] fields[i]).0
            <= largest_slot(fields) by {
            if i < rest.len() {
                assert(fields[i] == rest[i]);
            }
        }
        assert(fields.last() == fields[fields.len() - 1]);
    }
}

proof fn entry_bounds(fields: Seq<(usize, usize)>, table: int, start: int, slot: int)
    requires
        fields_fit(fields, table, start),
        table >= start,
    ensures
        0 <= entry(fields, table, slot) < 0x1_0000,
    decreases fields.len(),
{
    if fields.len() > 0 {
        let rest = fields.drop_last();
        assert forall|i: int| 0 <= i < rest.len() implies {
            &&& 4 <= (#[trigger] rest[i]).0 < 0x100
            &&& rest[i].0 as int % 2 == 0
            &&& start <= rest[i].1 <= table
        } by {
            assert(rest[i] == fields[i]);
        }
        entry_bounds(rest, table, start, slot);
        assert(fields.last() == fields[fields.len() - 1]);
    }
}

/// What an offset puts in front of a tail of `n` bytes.
pub open spec fn offset_front(n: int, target: int) -> Seq<u8> {
    le32_bytes(n + padding(n, 4, 4) + 4 - target) + zeros(padding(n, 4, 4))
}

/// What a table puts in front of a tail of `n` bytes.
pub open spec fn table_front(n: int, start: int, fields: Seq<(usize, usize)>) -> Seq<u8> {
    let words = vtable(fields, n + padding(n, 4, 4) + 4, start);
    le16_all(words) + (le32_bytes((2 * words.len()) as int) + zeros(padding(n, 4, 4)))
}

/// What finishing puts in front of a tail of `n` bytes.
pub open spec fn finish_front(
    n: int,
    align: int,
    root: int,
    identifier: Seq<u8>,
    size_prefixed: bool,
) -> Seq<u8> {
    let prefix: int = if size_prefixed {
        12
    } else {
        8
    };
    let pad = zeros(padding(n, prefix, align));
    let named = identifier + pad;
    let rooted = offset_front(named.len() + n, root) + named;
    if size_prefixed {
        le32_bytes(rooted.len() + n) + rooted
    } else {
        rooted
    }
}

/// What is put in front of a tail depends on its length alone.
pub proof fn fronts(
    tail: Seq<u8>,
    target: int,
    start: int,
    fields: Seq<(usize, usize)>,
    align: int,
    identifier: Seq<u8>,
    size_prefixed: bool,
)
    requires
        align >= 1,
    ensures
        with_offset(tail, target) == offset_front(tail.len() as int, target) + tail,
        with_table(tail, start, fields) == table_front(tail.len() as int, start, fields) + tail,
        finished(tail, align, target, identifier, size_prefixed) == finish_front(
            tail.len() as int,
            align,
            target,
            identifier,
            size_prefixed,
        ) + tail,
{
    let n = tail.len() as int;
    let prefix: int = if size_prefixed {
        12
    } else {
        8
    };
    pad_bounds(n, 4, 4);
    pad_bounds(n, prefix, align);
    assert(with_offset(tail, target) =~= offset_front(n, target) + tail);
    assert(with_table(tail, start, fields) =~= table_front(n, start, fields) + tail);
    let named = identifier + zeros(padding(n, prefix, align));
    let whole = identifier + aligned(tail, prefix, align);
    assert(whole =~= named + tail);
    pad_bounds(whole.len() as int, 4, 4);
    assert(with_offset(whole, target) =~= (offset_front(named.len() + n, target) + named) + tail);
    assert(finished(tail, align, target, identifier, size_prefixed) =~= finish_front(
        n,
        align,
        target,
        identifier,
        size_prefixed,
    ) + tail);
}

/// Builds a buffer back to front.
#[derive(Debug)]
pub struct FlatBuilder {
    rev: Vec<u8>,
    min_align: usize,
}

pub proof fn pad_bounds(len: int, size: int, align: int)
    requires
        align >= 1,
    ensures
        0 <= padding(len, size, align) < align,
        (padding(len, size, align) + len + size) % align == 0,
{
    let r = (len + size) % align;
    assert(0 <= r < align && 0 <= (align - r) % align < align) by (nonlinear_arith)
        requires
            align >= 1,
            r == (len + size) % align,
    ;
    if r == 0 {
        assert(align % align == 0) by (nonlinear_arith)
            requires
                align >= 1,
        ;
    } else {
        assert((align - r) % align == align - r) by (nonlinear_arith)
            requires
                0 < r < align,
        ;
        assert((align - r + (len + size)) % align == 0) by (nonlinear_arith)
            requires
                align >= 1,
                r == (len + size) % align,
        ;
    }
}

impl FlatBuilder {
    /// What has been written, in reading order.
    pub closed spec fn tail(&self) -> Seq<u8> {
        self.rev@.reverse()
    }

    /// The strictest alignment asked for so far.
    pub closed spec fn align(&self) -> int {
        self.min_align as int
    }

    pub fn new() -> (builder: Self)
        ensures
            builder.tail() == Seq::<u8>::empty(),
            builder.align() == 4,
    {
        let builder = FlatBuilder { rev: Vec::new(), min_align: 4 };
        assert(builder.tail() =~= Seq::<u8>::empty());
        builder
    }

    pub fn len(&self) -> (n: usize)
        ensures
            n == self.tail().len(),
    {
        self.rev.len()
    }

    /// Pads so that `size` more bytes land on an `align` boundary.
    pub fn pre_align(&mut self, size: usize, align: usize)
        requires
            1 <= align,
            old(self).tail().len() + size <= usize::MAX,
        ensures
            final(self).tail() == aligned(old(self).tail(), size as int, align as int),
            final(self).align() == if align > old(self).align() {
                align as int
            } else {
                old(self).align()
            },
    {
        if align > self.min_align {
            self.min_align = align;
        }
        let over: usize = (self.rev.len() + size) % align;
        let pad: usize = (align - over) % align;
        proof {
            pad_bounds(old(self).tail().len() as int, size as int, align as int);
        }
        let ghost before = old(self).tail();
        assert(zeros(0) + before =~= before);
        for i in 0..pad
            invariant
                self.tail() == zeros(i as int) + before,
                self.min_align == (if align > old(self).min_align {
                    align
                } else {
                    old(self).min_align
                }),
        {
            let ghost rev = self.rev@;
            self.rev.push(0);
            assert(self.rev@.reverse() =~= seq![0u8] + rev.reverse());
            assert(self.tail() =~= zeros(i + 1) + before);
        }
    }

    /// Writes `bytes` at the front.
    pub fn push(&mut self, bytes: &[u8])
        ensures
            final(self).tail() == bytes@ + old(self).tail(),
            final(self).align() == old(self).align(),
    {
        let n: usize = bytes.len();
        let ghost before = old(self).tail();
        assert(bytes@.subrange(n as int, n as int) + before =~= before);
        for i in 0..n
            invariant
                n == bytes@.len(),
                self.tail() == bytes@.subrange(n - i, n as int) + before,
                self.min_align == old(self).min_align,
        {
            let ghost rev = self.rev@;
            self.rev.push(bytes[n - 1 - i]);
            assert(self.rev@.reverse() =~= seq![bytes@[n - 1 - i]] + rev.reverse());
            assert(self.tail() =~= bytes@.subrange(n - i - 1, n as int) + before);
        }
        assert(bytes@.subrange(0, n as int) =~= bytes@);
    }

    /// Writes one aligned 32-bit value and gives its place.
    pub fn push_u32(&mut self, value: u32) -> (place: usize)
        requires
            old(self).tail().len() + 4 <= usize::MAX,
        ensures
            final(self).tail() == with_scalar(old(self).tail(), le32_bytes(value as int)),
            place == final(self).tail().len(),
            final(self).align() == if 4 > old(self).align() {
                4
            } else {
                old(self).align()
            },
    {
        self.pre_align(4, 4);
        let mut bytes: Vec<u8> = Vec::new();
        crate::bytes::push_u32(&mut bytes, value);
        assert(bytes@ =~= le32_bytes(value as int));
        self.push(&bytes);
        self.len()
    }

    /// Writes one aligned 64-bit value and gives its place.
    pub fn push_u64(&mut self, value: u64) -> (place: usize)
        requires
            old(self).tail().len() + 8 <= usize::MAX,
        ensures
            final(self).tail() == with_scalar(old(self).tail(), le64_bytes(value as int)),
            place == final(self).tail().len(),
            final(self).align() == if 8 > old(self).align() {
                8
            } else {
                old(self).align()
            },
    {
        self.pre_align(8, 8);
        let mut bytes: Vec<u8> = Vec::new();
        crate::bytes::push_u64(&mut bytes, value);
        assert(bytes@ =~= le64_bytes(value as int));
        self.push(&bytes);
        self.len()
    }

    /// Writes an offset to `target`, which has been written already.
    pub fn push_offset(&mut self, target: usize) -> (place: usize)
        requires
            with_offset(old(self).tail(), target as int).len() <= 0xFFFF_FFFF,
            target <= old(self).tail().len(),
        ensures
            final(self).tail() == with_offset(old(self).tail(), target as int),
            place == final(self).tail().len(),
            final(self).align() == if 4 > old(self).align() {
                4
            } else {
                old(self).align()
            },
    {
        proof {
            pad_bounds(self.tail().len() as int, 4, 4);
        }
        self.pre_align(4, 4);
        let value: u32 = (self.len() + 4 - target) as u32;
        let mut bytes: Vec<u8> = Vec::new();
        crate::bytes::push_u32(&mut bytes, value);
        assert(bytes@ =~= le32_bytes(value as int));
        self.push(&bytes);
        self.len()
    }

    /// Writes a string, with the zero byte that ends it, and gives its place.
    pub fn push_string(&mut self, text: &[u8]) -> (place: usize)
        requires
            with_string(old(self).tail(), text@).len() <= 0xFFFF_FFFF,
        ensures
            final(self).tail() == with_string(old(self).tail(), text@),
            place == final(self).tail().len(),
            final(self).align() == if 4 > old(self).align() {
                4
            } else {
                old(self).align()
            },
    {
        proof {
            pad_bounds(self.tail().len() as int, (text@.len() + 1) as int, 4);
        }
        self.pre_align(text.len() + 1, 4);
        let end: [u8; 1] = [0];
        assert(end@ =~= seq![0u8]);
        self.push(&end);
        self.push(text);
        self.push_u32(text.len() as u32)
    }

    /// Writes a vector of inline elements and gives its place.
    pub fn push_elements(&mut self, data: &[u8], count: u32, align: usize) -> (place: usize)
        requires
            1 <= align,
            with_elements(old(self).tail(), data@, count as int, align as int).len() <= usize::MAX,
        ensures
            final(self).tail() == with_elements(
                old(self).tail(),
                data@,
                count as int,
                align as int,
            ),
            place == final(self).tail().len(),
            final(self).align() == if align > old(self).align() && align > 4 {
                align as int
            } else if 4 > old(self).align() {
                4
            } else {
                old(self).align()
            },
    {
        proof {
            pad_bounds(self.tail().len() as int, data@.len() as int, align as int);
        }
        self.pre_align(data.len(), align);
        self.push(data);
        self.push_u32(count)
    }

    /// Closes a table whose fields have been written since `start`, and gives its place.
    pub fn end_table(&mut self, start: usize, fields: &[(usize, usize)]) -> (place: usize)
        requires
            with_table(old(self).tail(), start as int, fields@).len() <= usize::MAX,
            old(self).align() >= 4,
            start <= old(self).tail().len(),
            fields_fit(fields@, table_place(old(self).tail()), start as int),
        ensures
            final(self).tail() == with_table(old(self).tail(), start as int, fields@),
            place == table_place(old(self).tail()),
            final(self).align() == old(self).align(),
    {
        proof {
            pad_bounds(self.tail().len() as int, 4, 4);
            largest_slot_bounds(fields@);
        }
        self.pre_align(4, 4);
        let ghost before = self.tail();
        let table: usize = self.len() + 4;
        let count: usize = vtable_words(fields);
        let mut bytes: Vec<u8> = Vec::new();
        crate::bytes::push_u32(&mut bytes, (2 * count) as u32);
        assert(bytes@ =~= le32_bytes(2 * count as int));
        self.push(&bytes);
        let ghost words = vtable(fields@, table as int, start as int);
        let mut listed: Vec<u8> = Vec::new();
        let mut i: usize = 0;
        assert(words.take(0) =~= Seq::<int>::empty());
        assert(le16_all(Seq::<int>::empty()) =~= Seq::<u8>::empty());
        while i < count
            invariant
                i <= count,
                count == vtable_len(fields@),
                count < 0x100,
                words == vtable(fields@, table as int, start as int),
                words.len() == count,
                start <= table,
                fields_fit(fields@, table as int, start as int),
                listed@ == le16_all(words.take(i as int)),
            decreases count - i,
        {
            let value: u16 = if i == 0 {
                (2 * count) as u16
            } else if i == 1 {
                (table - start) as u16
            } else {
                field_entry(fields, table, start, 2 * i)
            };
            assert(value == words[i as int]);
            crate::bytes::push_u16(&mut listed, value);
            proof {
                assert(words.take(i + 1) =~= words.take(i as int).push(words[i as int]));
                le16_all_push(words.take(i as int), words[i as int]);
            }
            i += 1;
        }
        assert(words.take(count as int) =~= words);
        self.push(&listed);
        table
    }

    /// The finished buffer: the root offset, the identifier, and perhaps a leading length.
    pub fn finish(self, root: usize, identifier: &[u8], size_prefixed: bool) -> (buffer: Vec<u8>)
        requires
            4 <= self.align(),
            root <= self.tail().len(),
            identifier@.len() == 4,
            finished(self.tail(), self.align(), root as int, identifier@, size_prefixed).len()
                <= 0xFFFF_FFFF,
        ensures
            buffer@ == finished(self.tail(), self.align(), root as int, identifier@, size_prefixed),
    {
        let ghost tail = self.tail();
        let mut builder = self;
        let prefix: usize = if size_prefixed {
            12
        } else {
            8
        };
        let align = builder.min_align;
        proof {
            pad_bounds(tail.len() as int, prefix as int, align as int);
        }
        builder.pre_align(prefix, align);
        builder.push(identifier);
        builder.push_offset(root);
        if size_prefixed {
            proof {
                pad_bounds((identifier@ + aligned(tail, prefix as int, align as int)).len() as int, 4, 4);
            }
            let size: u32 = builder.len() as u32;
            let mut bytes: Vec<u8> = Vec::new();
            crate::bytes::push_u32(&mut bytes, size);
            assert(bytes@ =~= le32_bytes(size as int));
            builder.push(&bytes);
        }
        builder.into_bytes()
    }

    /// What has been written, in reading order.
    fn into_bytes(self) -> (buffer: Vec<u8>)
        ensures
            buffer@ == self.tail(),
    {
        let n: usize = self.rev.len();
        let mut buffer: Vec<u8> = Vec::with_capacity(n);
        for i in 0..n
            invariant
                n == self.rev@.len(),
                buffer@ == self.tail().take(i as int),
        {
            buffer.push(self.rev[n - 1 - i]);
            assert(buffer@ =~= self.tail().take(i + 1));
        }
        assert(self.tail().take(n as int) =~= self.tail());
        buffer
    }
}

fn vtable_words(fields: &[(usize, usize)]) -> (count: usize)
    requires
        forall|i: int|
            0 <= i < fields@.len() ==> 4 <= (#[trigger] fields@[i]).0 < 0x100 && fields@[i].0
                as int % 2 == 0,
    ensures
        count == vtable_len(fields@),
        3 <= count < 0x100,
{
    let mut slots: usize = 2;
    let n: usize = fields.len();
    assert(fields@.take(0) =~= Seq::<(usize, usize)>::empty());
    for i in 0..n
        invariant
            n == fields@.len(),
            slots == largest_slot(fields@.take(i as int)),
            i == 0 ==> slots == 2,
            forall|i: int|
                0 <= i < fields@.len() ==> 4 <= (#[trigger] fields@[i]).0 < 0x100 && fields@[i].0
                    as int % 2 == 0,
    {
        assert(fields@.take(i + 1).drop_last() =~= fields@.take(i as int));
        assert(fields@.take(i + 1).last() == fields@[i as int]);
        if fields[i].0 > slots {
            slots = fields[i].0;
        }
    }
    assert(fields@.take(n as int) =~= fields@);
    proof {
        largest_slot_bounds(fields@);
    }
    if slots < 4 {
        3
    } else {
        2 + (slots - 4) / 2 + 1
    }
}

fn field_entry(fields: &[(usize, usize)], table: usize, start: usize, slot: usize) -> (value: u16)
    requires
        start <= table,
        fields_fit(fields@, table as int, start as int),
    ensures
        value == entry(fields@, table as int, slot as int),
{
    let mut value: u16 = 0;
    let n: usize = fields.len();
    assert(fields@.take(0) =~= Seq::<(usize, usize)>::empty());
    for i in 0..n
        invariant
            n == fields@.len(),
            start <= table,
            fields_fit(fields@, table as int, start as int),
            value == entry(fields@.take(i as int), table as int, slot as int),
    {
        assert(fields@.take(i + 1).drop_last() =~= fields@.take(i as int));
        assert(fields@.take(i + 1).last() == fields@[i as int]);
        if fields[i].0 == slot {
            value = (table - fields[i].1) as u16;
        }
    }
    assert(fields@.take(n as int) =~= fields@);
    value
}

/// Whether a buffer ends with a tail.
pub open spec fn ends_with(b: Seq<u8>, tail: Seq<u8>) -> bool {
    tail.len() <= b.len() && b.subrange(b.len() - tail.len(), b.len() as int) == tail
}

pub proof fn ends_with_front(front: Seq<u8>, tail: Seq<u8>)
    ensures
        ends_with(front + tail, tail),
{
    assert((front + tail).subrange(front.len() as int, (front + tail).len() as int) =~= tail);
}

pub proof fn ends_with_trans(c: Seq<u8>, b: Seq<u8>, a: Seq<u8>)
    requires
        ends_with(c, b),
        ends_with(b, a),
    ensures
        ends_with(c, a),
{
    let bb = c.subrange(c.len() - b.len(), c.len() as int);
    assert(c.subrange(c.len() - a.len(), c.len() as int) =~= bb.subrange(
        b.len() - a.len(),
        b.len() as int,
    ));
}

/// A byte counted from the end stays when something is put in front.
pub proof fn byte_back(b: Seq<u8>, tail: Seq<u8>, d: int)
    requires
        ends_with(b, tail),
        0 < d <= tail.len(),
    ensures
        b[b.len() - d] == tail[tail.len() - d],
{
    assert(b.subrange(b.len() - tail.len(), b.len() as int)[tail.len() - d] == b[b.len() - d]);
}

pub proof fn word16_back(b: Seq<u8>, tail: Seq<u8>, d: int)
    requires
        ends_with(b, tail),
        2 <= d <= tail.len(),
    ensures
        le16(b, b.len() - d) == le16(tail, tail.len() - d),
{
    byte_back(b, tail, d);
    byte_back(b, tail, d - 1);
}

pub proof fn word32_back(b: Seq<u8>, tail: Seq<u8>, d: int)
    requires
        ends_with(b, tail),
        4 <= d <= tail.len(),
    ensures
        le32(b, b.len() - d) == le32(tail, tail.len() - d),
{
    byte_back(b, tail, d);
    byte_back(b, tail, d - 1);
    byte_back(b, tail, d - 2);
    byte_back(b, tail, d - 3);
}

#[verifier::spinoff_prover]
#[verifier::rlimit(40)]
pub proof fn word64_back(b: Seq<u8>, tail: Seq<u8>, d: int)
    requires
        ends_with(b, tail),
        8 <= d <= tail.len(),
    ensures
        le64(b, b.len() - d) == le64(tail, tail.len() - d),
{
    word32_back(b, tail, d);
    word32_back(b, tail, d - 4);
}

/// A 32-bit value at the front of a tail reads as it was written.
pub proof fn front32(value: int, rest: Seq<u8>)
    requires
        0 <= value < 0x1_0000_0000,
    ensures
        le32(le32_bytes(value) + rest, 0) == value,
{
    word_round_trip(value);
    let b = le32_bytes(value) + rest;
    assert(b[0] == le32_bytes(value)[0]);
    assert(b[1] == le32_bytes(value)[1]);
    assert(b[2] == le32_bytes(value)[2]);
    assert(b[3] == le32_bytes(value)[3]);
}

/// A 64-bit value at the front of a tail reads as it was written.
#[verifier::spinoff_prover]
#[verifier::rlimit(40)]
pub proof fn front64(value: int, rest: Seq<u8>)
    requires
        0 <= value < 0x1_0000_0000_0000_0000,
    ensures
        le64(le64_bytes(value) + rest, 0) == value,
{
    le64_round_trip(value);
    let b = le64_bytes(value) + rest;
    assert forall|i: int| 0 <= i < 8 implies #[trigger] b[i] == le64_bytes(value)[i] by {}
}

/// Everything written stays at the end.
pub proof fn grows(tail: Seq<u8>, bytes: Seq<u8>, size: int, align: int)
    ensures
        ends_with(aligned(tail, size, align), tail),
        ends_with(bytes + aligned(tail, size, align), tail),
{
    ends_with_front(zeros(padding(tail.len() as int, size, align)), tail);
    ends_with_front(bytes, aligned(tail, size, align));
    ends_with_trans(bytes + aligned(tail, size, align), aligned(tail, size, align), tail);
}

/// The length of a tail with a 64-bit scalar before it.
pub proof fn scalar64_len(tail: Seq<u8>, value: int)
    ensures
        tail.len() + 8 <= with_scalar(tail, le64_bytes(value)).len() <= tail.len() + 15,
{
    pad_bounds(tail.len() as int, 8, 8);
}

/// The length of a finished buffer.
pub proof fn finished_len(
    tail: Seq<u8>,
    align: int,
    root: int,
    identifier: Seq<u8>,
    size_prefixed: bool,
)
    requires
        4 <= align,
        identifier.len() == 4,
    ensures
        ({
            let b = finished(tail, align, root, identifier, size_prefixed);
            let prefix: int = if size_prefixed {
                12
            } else {
                8
            };
            &&& tail.len() + prefix <= b.len() <= tail.len() + prefix + align + 2
            &&& align % 4 == 0 ==> b.len() == aligned(tail, prefix, align).len() + prefix
                < tail.len() + prefix + align
        }),
{
    let prefix: int = if size_prefixed {
        12
    } else {
        8
    };
    let named = identifier + aligned(tail, prefix, align);
    pad_bounds(tail.len() as int, prefix, align);
    pad_bounds(named.len() as int, 4, 4);
    if align % 4 == 0 {
        finish_parts(tail, align, root, identifier, size_prefixed);
    }
}

/// The length of a tail with a table before it.
pub proof fn table_len(tail: Seq<u8>, start: int, fields: Seq<(usize, usize)>)
    ensures
        tail.len() + 4 <= table_place(tail) <= tail.len() + 7,
        vtable_len(fields) >= 0 ==> with_table(tail, start, fields).len() == table_place(tail) + 2
            * vtable_len(fields),
{
    pad_bounds(tail.len() as int, 4, 4);
    le16_all_len(vtable(fields, table_place(tail), start));
}

/// An offset leads to its target.
#[verifier::spinoff_prover]
#[verifier::rlimit(40)]
pub proof fn offset_reads(b: Seq<u8>, tail: Seq<u8>, target: int)
    requires
        ends_with(b, with_offset(tail, target)),
        0 <= target <= tail.len(),
        with_offset(tail, target).len() <= 0xFFFF_FFFF,
    ensures
        le32(b, b.len() - with_offset(tail, target).len()) == with_offset(tail, target).len()
            - target,
        ends_with(b, tail),
{
    let before = aligned(tail, 4, 4);
    pad_bounds(tail.len() as int, 4, 4);
    let whole = with_offset(tail, target);
    word32_back(b, whole, whole.len() as int);
    front32(before.len() + 4 - target, before);
    grows(tail, le32_bytes(before.len() + 4 - target), 4, 4);
    ends_with_trans(b, whole, tail);
}

/// A 32-bit scalar reads as it was written.
pub proof fn scalar32_reads(b: Seq<u8>, tail: Seq<u8>, value: int)
    requires
        ends_with(b, with_scalar(tail, le32_bytes(value))),
        0 <= value < 0x1_0000_0000,
    ensures
        le32(b, b.len() - with_scalar(tail, le32_bytes(value)).len()) == value,
        ends_with(b, tail),
{
    let whole = with_scalar(tail, le32_bytes(value));
    word32_back(b, whole, whole.len() as int);
    front32(value, aligned(tail, 4, 4));
    grows(tail, le32_bytes(value), 4, 4);
    ends_with_trans(b, whole, tail);
}

/// A 64-bit scalar reads as it was written.
#[verifier::spinoff_prover]
#[verifier::rlimit(40)]
pub proof fn scalar64_reads(b: Seq<u8>, tail: Seq<u8>, value: int)
    requires
        ends_with(b, with_scalar(tail, le64_bytes(value))),
        0 <= value < 0x1_0000_0000_0000_0000,
    ensures
        le64(b, b.len() - with_scalar(tail, le64_bytes(value)).len()) == value,
        ends_with(b, tail),
{
    let whole = with_scalar(tail, le64_bytes(value));
    assert(whole == le64_bytes(value) + aligned(tail, 8, 8));
    word64_back(b, whole, whole.len() as int);
    front64(value, aligned(tail, 8, 8));
    grows(tail, le64_bytes(value), 8, 8);
    ends_with_trans(b, whole, tail);
}

/// A buffer that ends with a table ends with what was written before the table.
pub proof fn table_keeps(b: Seq<u8>, tail: Seq<u8>, start: int, fields: Seq<(usize, usize)>)
    requires
        ends_with(b, with_table(tail, start, fields)),
    ensures
        ends_with(b, tail),
{
    let before = aligned(tail, 4, 4);
    let words = vtable(fields, (before.len() + 4) as int, start);
    let tabled = le32_bytes((2 * words.len()) as int) + before;
    grows(tail, le32_bytes((2 * words.len()) as int), 4, 4);
    ends_with_front(le16_all(words), tabled);
    ends_with_trans(b, with_table(tail, start, fields), tabled);
    ends_with_trans(b, tabled, tail);
}

/// A field listed last of its slot is found.
proof fn entry_found(fields: Seq<(usize, usize)>, table: int, k: int)
    requires
        0 <= k < fields.len(),
        forall|i: int| k < i < fields.len() ==> (#[trigger] fields[i]).0 != fields[k].0,
    ensures
        entry(fields, table, fields[k].0 as int) == table - fields[k].1,
    decreases fields.len(),
{
    if k < fields.len() - 1 {
        assert(fields[fields.len() - 1].0 != fields[k].0);
        let rest = fields.drop_last();
        assert(rest[k] == fields[k]);
        assert forall|i: int| k < i < rest.len() implies (#[trigger] rest[i]).0 != rest[k].0 by {
            assert(rest[i] == fields[i]);
        }
        entry_found(rest, table, k);
    }
}

/// A field of a finished table is found where it was written.
pub proof fn field_found(
    b: Seq<u8>,
    tail: Seq<u8>,
    start: int,
    fields: Seq<(usize, usize)>,
    k: int,
)
    requires
        ends_with(b, with_table(tail, start, fields)),
        b.len() <= usize::MAX,
        0 <= start <= tail.len(),
        fields_fit(fields, table_place(tail), start),
        0 <= k < fields.len(),
        fields[k].1 < table_place(tail),
        forall|i: int| k < i < fields.len() ==> (#[trigger] fields[i]).0 != fields[k].0,
    ensures
        field_of(b, b.len() - table_place(tail), fields[k].0 as int) == Some(
            b.len() - fields[k].1,
        ),
{
    reveal(field_of);
    let before = aligned(tail, 4, 4);
    let table = (before.len() + 4) as int;
    let words = vtable(fields, table, start);
    let m = words.len() as int;
    let whole = with_table(tail, start, fields);
    let slot = fields[k].0 as int;
    largest_slot_bounds(fields);
    entry_found(fields, table, k);
    le16_all_len(words);
    let tabled = le32_bytes(2 * m) + before;
    assert(tabled.len() == table);
    ends_with_front(le16_all(words), tabled);
    ends_with_trans(b, whole, tabled);
    // The table leads back to its vtable.
    word32_back(b, tabled, table);
    front32(2 * m, before);
    let at = b.len() - table;
    assert(le32(b, at) == 2 * m);
    assert(signed(2 * m, 0x8000_0000) == 2 * m);
    let place = at - 2 * m;
    assert(whole.len() == 2 * m + table);
    // The first word is the length of the vtable.
    assert forall|i: int| 0 <= i < m implies 0 <= #[trigger] words[i] < 0x1_0000 by {
        if i > 1 {
            entry_bounds(fields, table, start, 2 * i);
        }
    }
    vtable_word(b, words, tabled, 0);
    vtable_word(b, words, tabled, slot / 2);
    assert(words[slot / 2] == entry(fields, table, slot));
    assert(slot / 2 < m);
}

/// A word of a vtable reads as it was written.
proof fn vtable_word(b: Seq<u8>, words: Seq<int>, tabled: Seq<u8>, i: int)
    requires
        ends_with(b, le16_all(words) + tabled),
        0 <= i < words.len(),
        forall|j: int| 0 <= j < words.len() ==> 0 <= #[trigger] words[j] < 0x1_0000,
    ensures
        le16(b, b.len() - tabled.len() - 2 * words.len() + 2 * i) == words[i],
{
    le16_all_len(words);
    le16_all_at(words, i);
    let whole = le16_all(words) + tabled;
    let d = tabled.len() + 2 * words.len() - 2 * i;
    word16_back(b, whole, d);
    assert(whole.len() - d == 2 * i);
    assert(whole[2 * i] == le16_all(words)[2 * i]);
    assert(whole[2 * i + 1] == le16_all(words)[2 * i + 1]);
}

/// The root of a finished buffer is the table it was finished with.
pub proof fn root_found(
    tail: Seq<u8>,
    align: int,
    root: int,
    identifier: Seq<u8>,
    size_prefixed: bool,
)
    requires
        4 <= align,
        0 < root <= tail.len(),
        identifier.len() == 4,
        finished(tail, align, root, identifier, size_prefixed).len() <= 0xFFFF_FFFF,
    ensures
        ({
            let b = finished(tail, align, root, identifier, size_prefixed);
            &&& ends_with(b, tail)
            &&& root_of(
                b,
                if size_prefixed {
                    4
                } else {
                    0
                },
            ) == Some(b.len() - root)
        }),
{
    let prefix: int = if size_prefixed {
        12
    } else {
        8
    };
    let padded = aligned(tail, prefix, align);
    let named = identifier + padded;
    let before = aligned(named, 4, 4);
    let rooted = with_offset(named, root);
    let b = finished(tail, align, root, identifier, size_prefixed);
    pad_bounds(tail.len() as int, prefix, align);
    pad_bounds(named.len() as int, 4, 4);
    grows(tail, identifier, prefix, align);
    grows(named, le32_bytes(before.len() + 4 - root), 4, 4);
    ends_with_trans(rooted, named, tail);
    front32(before.len() + 4 - root, before);
    if size_prefixed {
        ends_with_front(le32_bytes(rooted.len() as int), rooted);
        ends_with_trans(b, rooted, tail);
        word32_back(b, rooted, rooted.len() as int);
        assert(b.len() == rooted.len() + 4);
    }
}

/// The parts of a finished buffer; no padding is needed before the root offset.
#[verifier::spinoff_prover]
#[verifier::rlimit(40)]
proof fn finish_parts(
    tail: Seq<u8>,
    align: int,
    root: int,
    identifier: Seq<u8>,
    size_prefixed: bool,
)
    requires
        4 <= align,
        align % 4 == 0,
        identifier.len() == 4,
    ensures
        ({
            let skip: int = if size_prefixed {
                4
            } else {
                0
            };
            let padded = aligned(tail, skip + 8, align);
            let rooted = le32_bytes(padded.len() + 8 - root) + (identifier + padded);
            &&& (padded.len() + skip + 8) % align == 0
            &&& finished(tail, align, root, identifier, size_prefixed) == if size_prefixed {
                le32_bytes(rooted.len() as int) + rooted
            } else {
                rooted
            }
        }),
{
    let prefix: int = if size_prefixed {
        12
    } else {
        8
    };
    let padded = aligned(tail, prefix, align);
    let named = identifier + padded;
    pad_bounds(tail.len() as int, prefix, align);
    let total = padded.len() + prefix;
    multiple_of_four(total, align);
    assert(padding(named.len() as int, 4, 4) == 0);
    assert(aligned(named, 4, 4) =~= named);
}

proof fn multiple_of_four(total: int, align: int)
    requires
        total % align == 0,
        align % 4 == 0,
        align >= 4,
    ensures
        total % 4 == 0,
{
    let q = total / align;
    let k = align / 4;
    assert(total == align * q) by (nonlinear_arith)
        requires
            total % align == 0,
            q == total / align,
            align >= 4,
    ;
    assert(align * q == 4 * (k * q)) by (nonlinear_arith)
        requires
            align == 4 * k,
    ;
}

/// Where the identifier and the length of a buffer stand, given its parts.
proof fn finish_layout(padded: Seq<u8>, value: int, identifier: Seq<u8>, size_prefixed: bool)
    requires
        identifier.len() == 4,
        padded.len() + 12 <= 0xFFFF_FFFF || !size_prefixed,
    ensures
        ({
            let rooted = le32_bytes(value) + (identifier + padded);
            let prefixed = le32_bytes(rooted.len() as int) + rooted;
            &&& rooted.len() == padded.len() + 8
            &&& prefixed.len() == padded.len() + 12
            &&& rooted.subrange(4, 8) == identifier
            &&& prefixed.subrange(8, 12) == identifier
            &&& size_prefixed ==> le32(prefixed, 0) == padded.len() + 8
        }),
{
    let rooted = le32_bytes(value) + (identifier + padded);
    let prefixed = le32_bytes(rooted.len() as int) + rooted;
    assert(rooted.subrange(4, 8) =~= identifier);
    assert(prefixed.subrange(8, 12) =~= identifier);
    if size_prefixed {
        front32(rooted.len() as int, rooted);
    }
}

/// A finished buffer is a whole number of alignments long. It starts with its own length, if it
/// has one, then leads to its root and names its content; what was written before ends it.
#[verifier::spinoff_prover]
#[verifier::rlimit(40)]
pub proof fn finish_meaning(
    tail: Seq<u8>,
    align: int,
    root: int,
    identifier: Seq<u8>,
    size_prefixed: bool,
)
    requires
        4 <= align,
        align % 4 == 0,
        0 < root <= tail.len(),
        identifier.len() == 4,
        finished(tail, align, root, identifier, size_prefixed).len() <= 0xFFFF_FFFF,
    ensures
        ({
            let b = finished(tail, align, root, identifier, size_prefixed);
            let skip: int = if size_prefixed {
                4
            } else {
                0
            };
            &&& b.len() as int % align == 0
            &&& size_prefixed ==> le32(b, 0) == b.len() - 4
            &&& b.subrange(skip + 4, skip + 8) == identifier
            &&& root_of(b, skip) == Some(b.len() - root)
            &&& ends_with(b, tail)
        }),
{
    let skip: int = if size_prefixed {
        4
    } else {
        0
    };
    let padded = aligned(tail, skip + 8, align);
    root_found(tail, align, root, identifier, size_prefixed);
    finish_parts(tail, align, root, identifier, size_prefixed);
    finished_len(tail, align, root, identifier, size_prefixed);
    finish_layout(padded, padded.len() + 8 - root, identifier, size_prefixed);
}

} // verus!
