//! The data table of an AEDAT 4 recording: the list of its packets.

use vstd::prelude::*;

use crate::bytes::{
    bits32, bits64, le32, le32_bytes, le64, le64_bytes, push_u32, signed, unsigned32, unsigned64,
};
use crate::io::aedat4_build::{no_padding, table_identifier};
use crate::io::aedat4_packets::{
    definition, definitions, Packet, DEFINITION_BYTE_OFFSET, DEFINITION_NUM_ELEMENTS,
    DEFINITION_PACKET_INFO, DEFINITION_TIMESTAMP_END, DEFINITION_TIMESTAMP_START, TABLE,
};
use crate::io::flat_builder::{
    aligned, ends_with, ends_with_front, ends_with_trans, field_found, fields_fit, finished,
    finished_len, front32, grows, largest_slot, offset_reads, pad_bounds, padding, root_found,
    scalar64_len, scalar64_reads, table_keeps, table_len, table_place, vtable_len, with_offset, with_scalar,
    with_table, word32_back, FlatBuilder,
};
use crate::io::flatbuffer::{field_of, i64_of, indirect_of, pointed, root_of, tables_of, vector_of};

verus! {

/// One packet as the data table records it.
#[derive(Clone, Copy, Debug, PartialEq, Eq, Structural)]
pub struct Definition {
    pub byte_offset: i64,
    pub size: i32,
    pub elements: i64,
    pub start: i64,
    pub end: i64,
}

/// The stages of an entry written before a tail.
#[verifier::opaque]
pub open spec fn entry_offset(tail: Seq<u8>, d: Definition) -> Seq<u8> {
    with_scalar(tail, le64_bytes(bits64(d.byte_offset as int)))
}

#[verifier::opaque]
pub open spec fn entry_elements(tail: Seq<u8>, d: Definition) -> Seq<u8> {
    with_scalar(entry_offset(tail, d), le64_bytes(bits64(d.elements as int)))
}

#[verifier::opaque]
pub open spec fn entry_start(tail: Seq<u8>, d: Definition) -> Seq<u8> {
    with_scalar(entry_elements(tail, d), le64_bytes(bits64(d.start as int)))
}

#[verifier::opaque]
pub open spec fn entry_end(tail: Seq<u8>, d: Definition) -> Seq<u8> {
    with_scalar(entry_start(tail, d), le64_bytes(bits64(d.end as int)))
}

#[verifier::opaque]
pub open spec fn entry_info(tail: Seq<u8>, d: Definition) -> Seq<u8> {
    le32_bytes(0) + (le32_bytes(bits32(d.size as int)) + aligned(entry_end(tail, d), 8, 4))
}

pub open spec fn entry_fields(tail: Seq<u8>, d: Definition) -> Seq<(usize, usize)> {
    seq![
        (4usize, entry_offset(tail, d).len() as usize),
        (6usize, entry_info(tail, d).len() as usize),
        (8usize, entry_elements(tail, d).len() as usize),
        (10usize, entry_start(tail, d).len() as usize),
        (12usize, entry_end(tail, d).len() as usize),
    ]
}

/// A tail with an entry before it.
#[verifier::opaque]
pub open spec fn with_entry(tail: Seq<u8>, d: Definition) -> Seq<u8> {
    with_table(entry_info(tail, d), tail.len() as int, entry_fields(tail, d))
}

/// Where the entry lies.
#[verifier::opaque]
pub open spec fn entry_place(tail: Seq<u8>, d: Definition) -> int {
    table_place(entry_info(tail, d))
}

/// The packet that an entry records.
pub open spec fn recorded(d: Definition) -> (i32, Packet) {
    (
        0i32,
        Packet {
            offset: d.byte_offset as u64,
            size: d.size as usize,
            first: 0,
            elements: d.elements as usize,
            start: d.start,
            end: d.end,
        },
    )
}

/// What the entry at `at` says: every value of a definition, of the stream numbered zero.
pub open spec fn entry_says(b: Seq<u8>, at: int, d: Definition) -> bool {
    &&& i64_of(b, at, 4, 0) == d.byte_offset
    &&& i64_of(b, at, 8, 0) == d.elements
    &&& i64_of(b, at, 10, 0) == d.start
    &&& i64_of(b, at, 12, 0) == d.end
    &&& match field_of(b, at, 6) {
        Some(info) => info + 8 <= b.len() && le32(b, info) == 0 && signed(
            le32(b, info + 4),
            0x8000_0000,
        ) == d.size,
        None => false,
    }
}

/// Whether an entry can be recorded: no size or count is negative.
pub open spec fn recordable(d: Definition) -> bool {
    &&& d.byte_offset >= 0
    &&& d.size >= 0
    &&& 0 <= d.elements <= usize::MAX
}

/// The lengths of the stages of an entry.
proof fn entry_shape(tail: Seq<u8>, d: Definition)
    ensures
        ({
            let t1 = entry_offset(tail, d);
            let t2 = entry_elements(tail, d);
            let t3 = entry_start(tail, d);
            let t4 = entry_end(tail, d);
            let t5 = entry_info(tail, d);
            let place = entry_place(tail, d);
            &&& tail.len() + 8 <= t1.len() <= tail.len() + 15
            &&& t1.len() + 8 <= t2.len() <= t1.len() + 15
            &&& t2.len() + 8 <= t3.len() <= t2.len() + 15
            &&& t3.len() + 8 <= t4.len() <= t3.len() + 15
            &&& t4.len() + 8 <= t5.len() <= t4.len() + 11
            &&& place == table_place(t5)
            &&& t5.len() + 4 <= place <= t5.len() + 7
            &&& with_entry(tail, d).len() == place + 14
            &&& with_entry(tail, d).len() <= 0xFFFF_FFFF ==> fields_fit(
                entry_fields(tail, d),
                place,
                tail.len() as int,
            )
        }),
{
    let t1 = entry_offset(tail, d);
    let t2 = entry_elements(tail, d);
    let t3 = entry_start(tail, d);
    let t4 = entry_end(tail, d);
    let t5 = entry_info(tail, d);
    assert(tail.len() + 8 <= t1.len() <= tail.len() + 15) by {
        reveal(entry_offset);
        scalar64_len(tail, bits64(d.byte_offset as int));
    }
    assert(t1.len() + 8 <= t2.len() <= t1.len() + 15) by {
        reveal(entry_elements);
        scalar64_len(t1, bits64(d.elements as int));
    }
    assert(t2.len() + 8 <= t3.len() <= t2.len() + 15) by {
        reveal(entry_start);
        scalar64_len(t2, bits64(d.start as int));
    }
    assert(t3.len() + 8 <= t4.len() <= t3.len() + 15) by {
        reveal(entry_end);
        scalar64_len(t3, bits64(d.end as int));
    }
    assert(t4.len() + 8 <= t5.len() <= t4.len() + 11) by {
        reveal(entry_info);
        pad_bounds(t4.len() as int, 8, 4);
    }
    let fields = entry_fields(tail, d);
    entry_slots(fields);
    assert(entry_place(tail, d) == table_place(t5)) by {
        reveal(entry_place);
    }
    assert(with_entry(tail, d).len() == table_place(t5) + 14) by {
        reveal(with_entry);
        table_len(t5, tail.len() as int, fields);
    }
    table_len(t5, tail.len() as int, fields);
}

proof fn entry_slots(fields: Seq<(usize, usize)>)
    requires
        fields.len() == 5,
        fields[0].0 == 4,
        fields[1].0 == 6,
        fields[2].0 == 8,
        fields[3].0 == 10,
        fields[4].0 == 12,
    ensures
        vtable_len(fields) == 7,
{
    reveal_with_fuel(largest_slot, 6);
    let four = fields.drop_last();
    let three = four.drop_last();
    let two = three.drop_last();
    let one = two.drop_last();
    assert(four.last() == fields[3]);
    assert(three.last() == fields[2]);
    assert(two.last() == fields[1]);
    assert(one.last() == fields[0]);
    assert(one.drop_last().len() == 0);
}

/// A buffer that ends with an entry ends with what stood before the entry.
proof fn entry_keeps(b: Seq<u8>, tail: Seq<u8>, d: Definition)
    requires
        ends_with(b, with_entry(tail, d)),
    ensures
        ends_with(b, entry_info(tail, d)),
        ends_with(b, entry_end(tail, d)),
        ends_with(b, tail),
        le64(b, b.len() - entry_offset(tail, d).len()) == bits64(d.byte_offset as int),
        le64(b, b.len() - entry_elements(tail, d).len()) == bits64(d.elements as int),
        le64(b, b.len() - entry_start(tail, d).len()) == bits64(d.start as int),
        le64(b, b.len() - entry_end(tail, d).len()) == bits64(d.end as int),
{
    entry_shape(tail, d);
    let t4 = entry_end(tail, d);
    let t5 = entry_info(tail, d);
    assert(ends_with(b, t5)) by {
        reveal(with_entry);
        table_keeps(b, t5, tail.len() as int, entry_fields(tail, d));
    }
    assert(ends_with(b, t4)) by {
        reveal(entry_info);
        grows(t4, le32_bytes(bits32(d.size as int)), 8, 4);
        let sized = le32_bytes(bits32(d.size as int)) + aligned(t4, 8, 4);
        ends_with_front(le32_bytes(0), sized);
        ends_with_trans(t5, sized, t4);
        ends_with_trans(b, t5, t4);
    }
    reveal(entry_offset);
    reveal(entry_elements);
    reveal(entry_start);
    reveal(entry_end);
    scalar64_reads(b, entry_start(tail, d), bits64(d.end as int));
    scalar64_reads(b, entry_elements(tail, d), bits64(d.start as int));
    scalar64_reads(b, entry_offset(tail, d), bits64(d.elements as int));
    scalar64_reads(b, tail, bits64(d.byte_offset as int));
}

/// The inline pair of an entry.
proof fn entry_pair(b: Seq<u8>, tail: Seq<u8>, d: Definition)
    requires
        ends_with(b, entry_info(tail, d)),
    ensures
        le32(b, b.len() - entry_info(tail, d).len()) == 0,
        le32(b, b.len() - entry_info(tail, d).len() + 4) == bits32(d.size as int),
        entry_info(tail, d).len() >= 8,
{
    reveal(entry_info);
    let rest = aligned(entry_end(tail, d), 8, 4);
    let sized = le32_bytes(bits32(d.size as int)) + rest;
    let whole = entry_info(tail, d);
    word32_back(b, whole, whole.len() as int);
    front32(0, sized);
    ends_with_front(le32_bytes(0), sized);
    ends_with_trans(b, whole, sized);
    word32_back(b, sized, sized.len() as int);
    front32(bits32(d.size as int), rest);
}

/// Where the fields of an entry lie.
proof fn entry_field(b: Seq<u8>, tail: Seq<u8>, d: Definition, k: int)
    requires
        ends_with(b, with_entry(tail, d)),
        b.len() <= 0xFFFF_FFFF,
        0 <= k < 5,
    ensures
        field_of(b, b.len() - entry_place(tail, d), entry_fields(tail, d)[k].0 as int) == Some(
            b.len() - entry_fields(tail, d)[k].1,
        ),
{
    entry_shape(tail, d);
    reveal(with_entry);
    field_found(b, entry_info(tail, d), tail.len() as int, entry_fields(tail, d), k);
}

/// An entry reads back.
proof fn entry_reads(b: Seq<u8>, tail: Seq<u8>, d: Definition)
    requires
        ends_with(b, with_entry(tail, d)),
        b.len() <= 0xFFFF_FFFF,
    ensures
        entry_says(b, b.len() - entry_place(tail, d), d),
{
    entry_shape(tail, d);
    entry_keeps(b, tail, d);
    entry_pair(b, tail, d);
    let at = b.len() - entry_place(tail, d);
    entry_field(b, tail, d, 0);
    entry_field(b, tail, d, 1);
    entry_field(b, tail, d, 2);
    entry_field(b, tail, d, 3);
    entry_field(b, tail, d, 4);
    entry_values(
        b,
        at,
        d,
        b.len() - entry_offset(tail, d).len(),
        b.len() - entry_info(tail, d).len(),
        b.len() - entry_elements(tail, d).len(),
        b.len() - entry_start(tail, d).len(),
        b.len() - entry_end(tail, d).len(),
    );
}

proof fn entry_value(b: Seq<u8>, at: int, slot: int, f: int, v: int)
    requires
        field_of(b, at, slot) == Some(f),
        0 <= f,
        f + 8 <= b.len(),
        le64(b, f) == bits64(v),
        i64::MIN <= v <= i64::MAX,
    ensures
        i64_of(b, at, slot, 0) == v,
{
}

proof fn entry_values(
    b: Seq<u8>,
    at: int,
    d: Definition,
    f4: int,
    f6: int,
    f8: int,
    f10: int,
    f12: int,
)
    requires
        field_of(b, at, 4) == Some(f4),
        field_of(b, at, 6) == Some(f6),
        field_of(b, at, 8) == Some(f8),
        field_of(b, at, 10) == Some(f10),
        field_of(b, at, 12) == Some(f12),
        0 <= f4 && f4 + 8 <= b.len(),
        0 <= f6 && f6 + 8 <= b.len(),
        0 <= f8 && f8 + 8 <= b.len(),
        0 <= f10 && f10 + 8 <= b.len(),
        0 <= f12 && f12 + 8 <= b.len(),
        le64(b, f4) == bits64(d.byte_offset as int),
        le32(b, f6) == 0,
        le32(b, f6 + 4) == bits32(d.size as int),
        le64(b, f8) == bits64(d.elements as int),
        le64(b, f10) == bits64(d.start as int),
        le64(b, f12) == bits64(d.end as int),
    ensures
        entry_says(b, at, d),
{
    entry_value(b, at, 4, f4, d.byte_offset as int);
    entry_value(b, at, 8, f8, d.elements as int);
    entry_value(b, at, 10, f10, d.start as int);
    entry_value(b, at, 12, f12, d.end as int);
    assert(signed(bits32(d.size as int), 0x8000_0000) == d.size);
}

/// An entry that says a definition describes its packet, if no size or count is negative.
proof fn entry_described(b: Seq<u8>, at: int, d: Definition)
    requires
        entry_says(b, at, d),
    ensures
        definition(b, at) == if recordable(d) {
            Some(recorded(d))
        } else {
            None
        },
{
    assert(signed(0, 0x8000_0000) == 0);
}

/// All entries, the last one written first.
pub open spec fn entries_tail(ds: Seq<Definition>) -> Seq<u8>
    decreases ds.len(),
{
    if ds.len() == 0 {
        Seq::empty()
    } else {
        with_entry(entries_tail(ds.skip(1)), ds[0])
    }
}

/// Where the entries lie.
pub open spec fn entry_places(ds: Seq<Definition>) -> Seq<int>
    decreases ds.len(),
{
    if ds.len() == 0 {
        Seq::empty()
    } else {
        seq![entry_place(entries_tail(ds.skip(1)), ds[0])] + entry_places(ds.skip(1))
    }
}

/// A scalar of eight bytes after entries or scalars of that size.
proof fn scalar_len(tail: Seq<u8>, value: int)
    ensures
        tail.len() % 8 == 0 ==> with_scalar(tail, le64_bytes(value)).len() == tail.len() + 8,
        tail.len() % 64 == 58 ==> with_scalar(tail, le64_bytes(value)).len() == tail.len() + 14,
{
    let n = tail.len() as int;
    assert(le64_bytes(value).len() == 8);
    if n % 8 == 0 {
        assert((n + 8) % 8 == 0);
        assert(padding(n, 8, 8) == 0);
    } else if n % 64 == 58 {
        assert((n + 8) % 8 == 2);
        assert(padding(n, 8, 8) == 6);
    }
}

/// The first entry written takes 58 bytes, and each of the others 64.
#[verifier::spinoff_prover]
#[verifier::rlimit(40)]
proof fn entry_len(tail: Seq<u8>, d: Definition)
    requires
        tail.len() == 0 || tail.len() % 64 == 58,
    ensures
        tail.len() == 0 ==> with_entry(tail, d).len() == 58,
        tail.len() % 64 == 58 ==> with_entry(tail, d).len() == tail.len() + 64,
{
    let n = tail.len() as int;
    let t1 = entry_offset(tail, d);
    let t2 = entry_elements(tail, d);
    let t3 = entry_start(tail, d);
    let t4 = entry_end(tail, d);
    let t5 = entry_info(tail, d);
    let lead: int = if n == 0 {
        8
    } else {
        14
    };
    assert(t1.len() == n + lead) by {
        reveal(entry_offset);
        scalar_len(tail, bits64(d.byte_offset as int));
    }
    assert((n + lead) % 8 == 0);
    assert(t2.len() == n + lead + 8) by {
        reveal(entry_elements);
        scalar_len(t1, bits64(d.elements as int));
    }
    assert((n + lead + 8) % 8 == 0);
    assert(t3.len() == n + lead + 16) by {
        reveal(entry_start);
        scalar_len(t2, bits64(d.start as int));
    }
    assert((n + lead + 16) % 8 == 0);
    assert(t4.len() == n + lead + 24) by {
        reveal(entry_end);
        scalar_len(t3, bits64(d.end as int));
    }
    assert((n + lead + 32) % 4 == 0);
    assert(t5.len() == n + lead + 32) by {
        reveal(entry_info);
        no_padding(t4, 8, 4);
    }
    assert((n + lead + 36) % 4 == 0);
    assert(table_place(t5) == n + lead + 36) by {
        no_padding(t5, 4, 4);
    }
    entry_shape(tail, d);
}

/// The length of the entries, and that their places are in the tail.
proof fn entries_shape(ds: Seq<Definition>)
    ensures
        entries_tail(ds).len() == if ds.len() == 0 {
            0
        } else {
            64 * ds.len() - 6
        },
        entry_places(ds).len() == ds.len(),
        forall|i: int|
            0 <= i < ds.len() ==> 0 < #[trigger] entry_places(ds)[i] <= entries_tail(ds).len(),
    decreases ds.len(),
{
    if ds.len() > 0 {
        let rest = ds.skip(1);
        entries_shape(rest);
        entry_shape(entries_tail(rest), ds[0]);
        entry_len(entries_tail(rest), ds[0]);
        assert forall|i: int| 0 <= i < ds.len() implies 0 < #[trigger] entry_places(ds)[i]
            <= entries_tail(ds).len() by {
            if i > 0 {
                assert(entry_places(ds)[i] == entry_places(rest)[i - 1]);
            }
        }
    }
}

/// Every entry reads back.
proof fn entries_read(b: Seq<u8>, ds: Seq<Definition>, i: int)
    requires
        ends_with(b, entries_tail(ds)),
        b.len() <= 0xFFFF_FFFF,
        0 <= i < ds.len(),
    ensures
        entry_says(b, b.len() - entry_places(ds)[i], ds[i]),
    decreases ds.len(),
{
    let rest = ds.skip(1);
    entries_shape(rest);
    if i == 0 {
        entry_reads(b, entries_tail(rest), ds[0]);
    } else {
        entry_keeps(b, entries_tail(rest), ds[0]);
        entries_read(b, rest, i - 1);
        assert(rest[i - 1] == ds[i]);
    }
}

/// Offsets to places, the last one written first.
pub open spec fn offsets_tail(tail: Seq<u8>, places: Seq<int>) -> Seq<u8>
    decreases places.len(),
{
    if places.len() == 0 {
        tail
    } else {
        with_offset(offsets_tail(tail, places.skip(1)), places[0])
    }
}

/// Offsets follow each other without padding.
proof fn offsets_shape(tail: Seq<u8>, places: Seq<int>)
    requires
        tail.len() % 4 == 0,
    ensures
        offsets_tail(tail, places).len() == tail.len() + 4 * places.len(),
    decreases places.len(),
{
    if places.len() > 0 {
        offsets_shape(tail, places.skip(1));
        no_padding(offsets_tail(tail, places.skip(1)), 4, 4);
    }
}

/// Every offset leads to its place.
proof fn offsets_read(b: Seq<u8>, tail: Seq<u8>, places: Seq<int>, i: int)
    requires
        ends_with(b, offsets_tail(tail, places)),
        tail.len() % 4 == 0,
        tail.len() + 4 * places.len() <= 0xFFFF_FFFF,
        forall|j: int| 0 <= j < places.len() ==> 0 < #[trigger] places[j] <= tail.len(),
        0 <= i < places.len(),
    ensures
        ({
            let at = b.len() - (tail.len() + 4 * places.len()) + 4 * i;
            at + le32(b, at) == b.len() - places[i]
        }),
    decreases places.len(),
{
    let rest = places.skip(1);
    offsets_shape(tail, places);
    offsets_shape(tail, rest);
    offset_reads(b, offsets_tail(tail, rest), places[0]);
    if i > 0 {
        assert forall|j: int| 0 <= j < rest.len() implies 0 < #[trigger] rest[j] <= tail.len() by {
            assert(rest[j] == places[j + 1]);
        }
        offsets_read(b, tail, rest, i - 1);
    }
}

/// A buffer that ends with offsets ends with what stood before them.
proof fn offsets_keep(b: Seq<u8>, tail: Seq<u8>, places: Seq<int>)
    requires
        ends_with(b, offsets_tail(tail, places)),
    ensures
        ends_with(b, tail),
    decreases places.len(),
{
    if places.len() > 0 {
        let before = offsets_tail(tail, places.skip(1));
        let value = aligned(before, 4, 4).len() + 4 - places[0];
        grows(before, le32_bytes(value), 4, 4);
        ends_with_trans(b, with_offset(before, places[0]), before);
        offsets_keep(b, tail, places.skip(1));
    }
}

/// The stages of a data table.
#[verifier::opaque]
pub open spec fn table_base(ds: Seq<Definition>) -> Seq<u8> {
    aligned(entries_tail(ds), (4 * ds.len()) as int, 4)
}

#[verifier::opaque]
pub open spec fn table_vector(ds: Seq<Definition>) -> Seq<u8> {
    with_scalar(offsets_tail(table_base(ds), entry_places(ds)), le32_bytes(ds.len() as int))
}

#[verifier::opaque]
pub open spec fn table_offset(ds: Seq<Definition>) -> Seq<u8> {
    with_offset(table_vector(ds), table_vector(ds).len() as int)
}

pub open spec fn table_fields(ds: Seq<Definition>) -> Seq<(usize, usize)> {
    seq![(4usize, table_offset(ds).len() as usize)]
}

#[verifier::opaque]
pub open spec fn table_root(ds: Seq<Definition>) -> Seq<u8> {
    with_table(table_offset(ds), table_vector(ds).len() as int, table_fields(ds))
}

/// The strictest alignment a table of `n` entries asks for.
pub open spec fn table_align(n: int) -> int {
    if n == 0 {
        4
    } else {
        8
    }
}

/// A data table listing packets.
#[verifier::opaque]
pub open spec fn table_bytes(ds: Seq<Definition>) -> Seq<u8> {
    finished(
        table_root(ds),
        table_align(ds.len() as int),
        table_place(table_offset(ds)),
        table_identifier(),
        true,
    )
}

/// Whether a data table is short enough for its offsets, which have 32 bits.
pub open spec fn table_fits(ds: Seq<Definition>) -> bool {
    table_bytes(ds).len() <= 0xFFFF_FFFF
}

/// The lengths of the stages of a data table.
#[verifier::spinoff_prover]
#[verifier::rlimit(60)]
proof fn table_shape(ds: Seq<Definition>)
    ensures
        ({
            let base = table_base(ds);
            let n = ds.len() as int;
            &&& base.len() == if n == 0 {
                0
            } else {
                64 * n - 4
            }
            &&& entries_tail(ds).len() <= base.len()
            &&& table_vector(ds) == le32_bytes(n) + offsets_tail(base, entry_places(ds))
            &&& table_vector(ds).len() == base.len() + 4 * n + 4
            &&& table_offset(ds).len() == base.len() + 4 * n + 8
            &&& table_place(table_offset(ds)) == base.len() + 4 * n + 12
            &&& table_root(ds).len() == base.len() + 4 * n + 18
            &&& table_root(ds).len() <= 0xFFFF_FFFF ==> fields_fit(
                table_fields(ds),
                table_place(table_offset(ds)),
                table_vector(ds).len() as int,
            )
        }),
{
    let n = ds.len() as int;
    let base = table_base(ds);
    let places = entry_places(ds);
    entries_shape(ds);
    let stretched: int = if n == 0 {
        0
    } else {
        64 * n - 4
    };
    assert(base.len() == stretched) by {
        reveal(table_base);
        let len = entries_tail(ds).len() as int;
        let pad: int = if n == 0 {
            0
        } else {
            2
        };
        assert(padding(len, 4 * n, 4) == pad);
    }
    offsets_shape(base, places);
    let m = base.len() as int;
    assert(offsets_tail(base, places).len() == m + 4 * n);
    assert((m + 4 * n + 4) % 4 == 0) by (nonlinear_arith)
        requires
            m % 4 == 0,
    ;
    assert((m + 4 * n + 8) % 4 == 0 && (m + 4 * n + 12) % 4 == 0) by (nonlinear_arith)
        requires
            m % 4 == 0,
    ;
    assert(table_vector(ds) == le32_bytes(n) + offsets_tail(base, places)) by {
        reveal(table_vector);
        no_padding(offsets_tail(base, places), 4, 4);
    }
    assert(table_offset(ds).len() == base.len() + 4 * n + 8) by {
        reveal(table_offset);
        no_padding(table_vector(ds), 4, 4);
    }
    no_padding(table_offset(ds), 4, 4);
    let fields = table_fields(ds);
    assert(vtable_len(fields) == 3) by {
        reveal_with_fuel(largest_slot, 2);
        assert(fields.drop_last() =~= Seq::<(usize, usize)>::empty());
    }
    assert(table_root(ds).len() == base.len() + 4 * n + 18) by {
        reveal(table_root);
        table_len(table_offset(ds), table_vector(ds).len() as int, fields);
    }
}

proof fn filled_up(n: int)
    requires
        n >= 0,
    ensures
        n + (8 - n % 8) % 8 == (n + 7) / 8 * 8,
{
}

/// A data table takes 68 bytes for each packet and 26 more, and is filled up to a multiple of eight.
pub proof fn table_length(ds: Seq<Definition>)
    requires
        ds.len() > 0,
    ensures
        table_bytes(ds).len() == (68 * ds.len() + 33) / 8 * 8,
{
    table_shape(ds);
    let root = table_root(ds);
    let n = ds.len() as int;
    assert(table_bytes(ds).len() == aligned(root, 12, 8).len() + 12) by {
        reveal(table_bytes);
        finished_len(root, 8, table_place(table_offset(ds)), table_identifier(), true);
    }
    filled_up(68 * n + 26);
}

/// The stages of a data table are shorter than the table.
proof fn table_measure(ds: Seq<Definition>)
    ensures
        table_root(ds).len() + 12 <= table_bytes(ds).len(),
{
    reveal(table_bytes);
    finished_len(
        table_root(ds),
        table_align(ds.len() as int),
        table_place(table_offset(ds)),
        table_identifier(),
        true,
    );
}

/// The root of a data table and where its vector lies.
proof fn table_leads(ds: Seq<Definition>)
    requires
        table_fits(ds),
    ensures
        ({
            let b = table_bytes(ds);
            let n = ds.len() as int;
            let m = table_base(ds).len();
            &&& root_of(b, 4) == Some(b.len() - (m + 4 * n + 12))
            &&& field_of(b, b.len() - (m + 4 * n + 12), 4) == Some(b.len() - (m + 4 * n + 8))
            &&& le32(b, b.len() - (m + 4 * n + 8)) == 4
            &&& le32(b, b.len() - (m + 4 * n + 4)) == n
            &&& ends_with(b, offsets_tail(table_base(ds), entry_places(ds)))
            &&& b.len() >= m + 4 * n + 12
        }),
{
    reveal(table_bytes);
    table_shape(ds);
    entries_shape(ds);
    let b = table_bytes(ds);
    let n = ds.len() as int;
    let vector = table_vector(ds);
    let offset = table_offset(ds);
    let root = table_root(ds);
    let fields = table_fields(ds);
    finished_len(root, table_align(n), table_place(offset), table_identifier(), true);
    root_found(root, table_align(n), table_place(offset), table_identifier(), true);
    assert(ends_with(b, offset) && field_of(b, b.len() - table_place(offset), 4) == Some(
        b.len() - offset.len(),
    )) by {
        reveal(table_root);
        field_found(b, offset, vector.len() as int, fields, 0);
        table_keeps(b, offset, vector.len() as int, fields);
    }
    assert(le32(b, b.len() - offset.len()) == 4 && ends_with(b, vector)) by {
        reveal(table_offset);
        offset_reads(b, vector, vector.len() as int);
    }
    let offsets = offsets_tail(table_base(ds), entry_places(ds));
    word32_back(b, vector, vector.len() as int);
    front32(n, offsets);
    ends_with_front(le32_bytes(n), offsets);
    ends_with_trans(b, vector, offsets);
}

/// The tables a data table points at are its entries.
proof fn table_points(ds: Seq<Definition>, k: int)
    requires
        table_fits(ds),
        0 <= k <= ds.len(),
    ensures
        ({
            let b = table_bytes(ds);
            let start = b.len() - (table_base(ds).len() + 4 * ds.len());
            pointed(b, start, k) == Seq::new(k as nat, |i: int| b.len() - entry_places(ds)[i])
        }),
    decreases k,
{
    let b = table_bytes(ds);
    let base = table_base(ds);
    let start = b.len() - (base.len() + 4 * ds.len());
    if k == 0 {
        assert(pointed(b, start, 0) =~= Seq::new(0, |i: int| b.len() - entry_places(ds)[i]));
    } else {
        table_points(ds, k - 1);
        table_leads(ds);
        table_shape(ds);
        entries_shape(ds);
        offsets_read(b, base, entry_places(ds), k - 1);
        assert(pointed(b, start, k) =~= Seq::new(k as nat, |i: int| b.len() - entry_places(ds)[i]));
    }
}

/// A data table has one entry for each packet it was built from, in order, and no other; each says
/// what was recorded, negative values included.
pub proof fn table_entries(ds: Seq<Definition>)
    requires
        table_fits(ds),
    ensures
        root_of(table_bytes(ds), 4) is Some,
        ({
            let b = table_bytes(ds);
            let tables = tables_of(b, root_of(b, 4)->0, 4);
            &&& tables.len() == ds.len()
            &&& forall|i: int|
                0 <= i < ds.len() ==> entry_says(b, #[trigger] tables[i], ds[i])
        }),
{
    let b = table_bytes(ds);
    let n = ds.len() as int;
    let base = table_base(ds);
    table_leads(ds);
    table_shape(ds);
    table_points(ds, n);
    let root = root_of(b, 4)->0;
    let at = b.len() - (base.len() + 4 * n + 4);
    assert(indirect_of(b, root, 4) == Some(at));
    assert(vector_of(b, root, 4, 4) == Some((at + 4, n)));
    let tables = Seq::new(n as nat, |i: int| b.len() - entry_places(ds)[i]);
    assert(tables_of(b, root, 4) == tables);
    offsets_keep(b, base, entry_places(ds));
    assert(ends_with(b, entries_tail(ds))) by {
        reveal(table_base);
        grows(entries_tail(ds), Seq::empty(), 4 * n, 4);
        ends_with_trans(b, base, entries_tail(ds));
    }
    assert forall|i: int| 0 <= i < ds.len() implies entry_says(
        b,
        #[trigger] tables_of(b, root, 4)[i],
        ds[i],
    ) by {
        entries_read(b, ds, i);
    }
}

/// A data table is not empty.
pub proof fn table_not_empty(ds: Seq<Definition>)
    requires
        table_fits(ds),
    ensures
        table_bytes(ds).len() > 0,
{
    table_leads(ds);
}

/// A data table reads back: it lists the packets it was built from.
pub proof fn table_reads(ds: Seq<Definition>)
    requires
        table_fits(ds),
        forall|i: int| 0 <= i < ds.len() ==> recordable(#[trigger] ds[i]),
    ensures
        root_of(table_bytes(ds), 4) is Some,
        definitions(
            table_bytes(ds),
            tables_of(table_bytes(ds), root_of(table_bytes(ds), 4)->0, 4),
        ) == Seq::new(ds.len(), |i: int| recorded(ds[i])),
{
    let b = table_bytes(ds);
    let n = ds.len() as int;
    table_entries(ds);
    let tables = tables_of(b, root_of(b, 4)->0, 4);
    table_lists(ds, tables, n);
    assert(tables.take(n) =~= tables);
}

proof fn table_lists(ds: Seq<Definition>, tables: Seq<int>, k: int)
    requires
        forall|i: int| 0 <= i < ds.len() ==> recordable(#[trigger] ds[i]),
        tables.len() == ds.len(),
        forall|i: int|
            0 <= i < ds.len() ==> entry_says(table_bytes(ds), #[trigger] tables[i], ds[i]),
        0 <= k <= ds.len(),
    ensures
        definitions(table_bytes(ds), tables.take(k)) == Seq::new(
            k as nat,
            |i: int| recorded(ds[i]),
        ),
    decreases k,
{
    let b = table_bytes(ds);
    if k == 0 {
        assert(definitions(b, tables.take(0)) =~= Seq::new(0, |i: int| recorded(ds[i])));
    } else {
        table_lists(ds, tables, k - 1);
        assert(tables.take(k).drop_last() =~= tables.take(k - 1));
        assert(recordable(ds[k - 1]));
        assert(entry_says(b, tables[k - 1], ds[k - 1]));
        entry_described(b, tables[k - 1], ds[k - 1]);
        assert(definitions(b, tables.take(k)) =~= Seq::new(k as nat, |i: int| recorded(ds[i])));
    }
}

/// Writes one entry and gives its place.
fn push_entry(builder: &mut FlatBuilder, d: &Definition) -> (place: usize)
    requires
        with_entry(old(builder).tail(), *d).len() <= 0xFFFF_FFFF,
        4 <= old(builder).align() <= 8,
    ensures
        final(builder).tail() == with_entry(old(builder).tail(), *d),
        final(builder).align() == 8,
        place == entry_place(old(builder).tail(), *d),
{
    let ghost tail = builder.tail();
    proof {
        entry_shape(tail, *d);
        reveal(entry_offset);
        reveal(entry_elements);
        reveal(entry_start);
        reveal(entry_end);
        reveal(entry_info);
        reveal(with_entry);
        reveal(entry_place);
    }
    let start = builder.len();
    let byte_offset = builder.push_u64(unsigned64(d.byte_offset));
    let elements = builder.push_u64(unsigned64(d.elements));
    let start_at = builder.push_u64(unsigned64(d.start));
    let end_at = builder.push_u64(unsigned64(d.end));
    builder.pre_align(8, 4);
    let mut pair: Vec<u8> = Vec::new();
    push_u32(&mut pair, 0);
    push_u32(&mut pair, unsigned32(d.size));
    assert(pair@ =~= le32_bytes(0) + le32_bytes(bits32(d.size as int)));
    builder.push(&pair);
    assert(builder.tail() =~= entry_info(tail, *d));
    let info = builder.len();
    let fields: [(usize, usize); 5] = [
        (DEFINITION_BYTE_OFFSET, byte_offset),
        (DEFINITION_PACKET_INFO, info),
        (DEFINITION_NUM_ELEMENTS, elements),
        (DEFINITION_TIMESTAMP_START, start_at),
        (DEFINITION_TIMESTAMP_END, end_at),
    ];
    assert(fields@ =~= entry_fields(tail, *d));
    builder.end_table(start, &fields)
}

/// The places of entries, as plain numbers, the last one first.
spec fn reversed(places: Seq<usize>) -> Seq<int> {
    Seq::new(places.len(), |i: int| places[places.len() - 1 - i] as int)
}

/// Writes all entries, the last one first, and gives their places in that order.
fn push_entries(builder: &mut FlatBuilder, ds: &[Definition]) -> (places: Vec<usize>)
    requires
        old(builder).tail() == Seq::<u8>::empty(),
        old(builder).align() == 4,
        entries_tail(ds@).len() <= 0xFFFF_FFFF,
    ensures
        final(builder).tail() == entries_tail(ds@),
        final(builder).align() == table_align(ds@.len() as int),
        reversed(places@) == entry_places(ds@),
{
    let n: usize = ds.len();
    let mut places: Vec<usize> = Vec::new();
    let mut i: usize = n;
    assert(ds@.skip(n as int) =~= Seq::<Definition>::empty());
    assert(reversed(places@) =~= Seq::<int>::empty());
    while i > 0
        invariant
            i <= n,
            n == ds@.len(),
            entries_tail(ds@).len() <= 0xFFFF_FFFF,
            builder.tail() == entries_tail(ds@.skip(i as int)),
            builder.align() == table_align(n - i),
            reversed(places@) == entry_places(ds@.skip(i as int)),
        decreases i,
    {
        let ghost rest = ds@.skip(i as int);
        proof {
            entries_shape(ds@);
            entries_shape(ds@.skip(i - 1));
            assert(ds@.skip(i - 1).skip(1) =~= rest);
        }
        let ghost before = places@;
        let place = push_entry(builder, &ds[i - 1]);
        places.push(place);
        i -= 1;
        proof {
            assert(reversed(places@) =~= seq![place as int] + reversed(before));
        }
    }
    assert(ds@.skip(0) =~= ds@);
    places
}

/// Writes offsets to places given last one first.
fn push_offsets(builder: &mut FlatBuilder, places: &[usize])
    requires
        old(builder).tail().len() % 4 == 0,
        old(builder).tail().len() + 4 * places@.len() <= 0xFFFF_FFFF,
        old(builder).align() >= 4,
        forall|i: int|
            0 <= i < places@.len() ==> #[trigger] places@[i] <= old(builder).tail().len(),
    ensures
        final(builder).tail() == offsets_tail(old(builder).tail(), reversed(places@)),
        final(builder).align() == old(builder).align(),
{
    let ghost base = builder.tail();
    let ghost all = reversed(places@);
    assert(base.len() % 4 == 0);
    let n: usize = places.len();
    assert(all.skip(n as int) =~= Seq::<int>::empty());
    for i in 0..n
        invariant
            n == places@.len(),
            all == reversed(places@),
            base.len() % 4 == 0,
            base.len() + 4 * n <= 0xFFFF_FFFF,
            forall|j: int| 0 <= j < n ==> #[trigger] places@[j] <= base.len(),
            builder.tail() == offsets_tail(base, all.skip(n - i)),
            builder.align() >= 4,
            builder.align() == old(builder).align(),
    {
        proof {
            offsets_shape(base, all.skip(n - i));
            offsets_shape(base, all.skip(n - i - 1));
            assert(all.skip(n - i - 1).skip(1) =~= all.skip(n - i));
            assert(all.skip(n - i - 1)[0] == places@[i as int]);
        }
        builder.push_offset(places[i]);
    }
    assert(all.skip(0) =~= all);
}

/// Builds the table that lists the packets of a recording.
pub fn build_data_table(ds: &[Definition]) -> (body: Vec<u8>)
    requires
        table_fits(ds@),
    ensures
        body@ == table_bytes(ds@),
{
    let n: usize = ds.len();
    let mut builder = FlatBuilder::new();
    proof {
        entries_shape(ds@);
        table_shape(ds@);
        table_measure(ds@);
    }
    let places = push_entries(&mut builder, ds);
    assert(places@.len() == reversed(places@).len());
    builder.pre_align(n * 4, 4);
    assert(builder.tail() == table_base(ds@)) by {
        reveal(table_base);
    }
    assert forall|i: int| 0 <= i < places@.len() implies #[trigger] places@[i]
        <= builder.tail().len() by {
        assert(reversed(places@)[n - 1 - i] == places@[i]);
    }
    push_offsets(&mut builder, &places);
    proof {
        offsets_shape(table_base(ds@), entry_places(ds@));
    }
    let vector = builder.push_u32(n as u32);
    assert(builder.tail() == table_vector(ds@)) by {
        reveal(table_vector);
    }
    let start = builder.len();
    assert(with_offset(builder.tail(), vector as int) == table_offset(ds@)) by {
        reveal(table_offset);
    }
    let place = builder.push_offset(vector);
    let fields: [(usize, usize); 1] = [(TABLE, place)];
    assert(fields@ =~= table_fields(ds@));
    assert(with_table(builder.tail(), start as int, fields@) == table_root(ds@)) by {
        reveal(table_root);
    }
    let root = builder.end_table(start, &fields);
    let identifier: [u8; 4] = [0x46, 0x54, 0x41, 0x42];
    assert(identifier@ =~= table_identifier());
    assert(finished(table_root(ds@), builder.align(), root as int, identifier@, true) == table_bytes(
        ds@,
    )) by {
        reveal(table_bytes);
    }
    builder.finish(root, &identifier, true)
}

} // verus!
