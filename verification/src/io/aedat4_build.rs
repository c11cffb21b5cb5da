//! The buffers of an AEDAT 4 recording.

use vstd::prelude::*;
use vstd::string::*;
use vstd::utf8::{encode_utf8, encode_utf8_decode_utf8, encode_utf8_valid_utf8};

use crate::bytes::{
    bits64, le16, le16_bytes, le16_round_trip, le32, le32_bytes, le64, le64_bytes, push_u16,
    push_u64, unsigned64,
};
use crate::io::aedat4::{
    admits, admitted, contributed, stored_event, Window,
};
use crate::io::aedat4_packets::{events_letters, named, span, time_at, ELEMENTS};
use crate::io::aedat4_header::{info_text, COMPRESSION, DATA_TABLE_POSITION, INFO_NODE};
use crate::io::aedat4_info::{info_document, info_len, info_node};
use crate::io::compression::{header_value, Compression};
use crate::io::flat_builder::{
    aligned, byte_back, ends_with, ends_with_front, ends_with_trans, field_found, fields_fit,
    finish_front, finish_meaning, finished, front32, front64, fronts, offset_front, offset_reads, pad_bounds,
    padding, root_found, scalar32_reads, scalar64_reads, table_front, table_keeps, table_place,
    with_elements, with_offset, with_scalar, with_string, with_table, word32_back, zeros,
    FlatBuilder,
};
use crate::io::flatbuffer::{
    field_of, i32_of, i64_of, indirect_of, root_of, string_of_field, vector_of,
};
use crate::stream::{EventStream, RawEvent};

verus! {

/// The id of the one stream a written recording declares.
pub const EVENT_STREAM_ID: i32 = 0;

/// The most events a packet holds.
pub const PACKET_EVENTS: usize = 100_000;

/// An event as a packet stores it.
pub open spec fn event_bytes(e: RawEvent) -> Seq<u8> {
    le64_bytes(bits64(e.t as int)) + (le16_bytes(e.x as int) + (le16_bytes(e.y as int) + seq![
        if e.p {
            1u8
        } else {
            0
        },
        0,
        0,
        0,
    ]))
}

/// Events as a packet stores them.
pub open spec fn elements_bytes(events: Seq<RawEvent>) -> Seq<u8>
    decreases events.len(),
{
    if events.len() == 0 {
        Seq::empty()
    } else {
        elements_bytes(events.drop_last()) + event_bytes(events.last())
    }
}

pub open spec fn header_identifier() -> Seq<u8> {
    seq![0x49u8, 0x4F, 0x48, 0x45]
}

pub open spec fn table_identifier() -> Seq<u8> {
    seq![0x46u8, 0x54, 0x41, 0x42]
}

/// The stages of an event packet.
pub open spec fn packet_vector(events: Seq<RawEvent>) -> Seq<u8> {
    with_elements(Seq::empty(), elements_bytes(events), events.len() as int, 8)
}

pub open spec fn packet_offset(events: Seq<RawEvent>) -> Seq<u8> {
    with_offset(packet_vector(events), packet_vector(events).len() as int)
}

pub open spec fn packet_table(events: Seq<RawEvent>) -> Seq<u8> {
    with_table(
        packet_offset(events),
        packet_vector(events).len() as int,
        seq![(4usize, packet_offset(events).len() as usize)],
    )
}

/// The body of a packet of events.
#[verifier::opaque]
pub open spec fn packet_body(events: Seq<RawEvent>) -> Seq<u8> {
    finished(
        packet_table(events),
        8,
        table_place(packet_offset(events)),
        events_letters(),
        true,
    )
}

proof fn event_bytes_len(e: RawEvent)
    ensures
        event_bytes(e).len() == 16,
{
}

proof fn elements_len(events: Seq<RawEvent>)
    ensures
        elements_bytes(events).len() == 16 * events.len(),
    decreases events.len(),
{
    if events.len() > 0 {
        elements_len(events.drop_last());
        event_bytes_len(events.last());
    }
}

/// The bytes of the `k`-th event.
proof fn elements_at(events: Seq<RawEvent>, k: int, j: int)
    requires
        0 <= k < events.len(),
        0 <= j < 16,
    ensures
        elements_bytes(events)[16 * k + j] == event_bytes(events[k])[j],
    decreases events.len(),
{
    elements_len(events);
    elements_len(events.drop_last());
    event_bytes_len(events.last());
    if k < events.len() - 1 {
        elements_at(events.drop_last(), k, j);
    }
}

/// Nothing is added where everything is aligned.
pub proof fn no_padding(tail: Seq<u8>, size: int, align: int)
    requires
        align == 4 || align == 8,
        (tail.len() + size) % align == 0,
    ensures
        aligned(tail, size, align) == tail,
{
    if align == 4 {
        assert(padding(tail.len() as int, size, 4) == 0);
    } else {
        assert(padding(tail.len() as int, size, 8) == 0);
    }
    assert(aligned(tail, size, align) =~= tail);
}

/// The lengths of the stages of an event packet.
proof fn packet_shape(events: Seq<RawEvent>)
    requires
        events.len() <= 0x0FFF_FF00,
    ensures
        packet_vector(events) == le32_bytes(events.len() as int) + elements_bytes(events),
        packet_vector(events).len() == 16 * events.len() + 4,
        packet_offset(events) == le32_bytes(4) + packet_vector(events),
        packet_offset(events).len() == 16 * events.len() + 8,
        table_place(packet_offset(events)) == 16 * events.len() + 12,
        packet_table(events).len() == 16 * events.len() + 18,
{
    elements_len(events);
    let n = events.len() as int;
    let data = elements_bytes(events);
    no_padding(Seq::empty(), 16 * n, 8);
    assert(data + Seq::<u8>::empty() =~= data);
    no_padding(data, 4, 4);
    no_padding(packet_vector(events), 4, 4);
    no_padding(packet_offset(events), 4, 4);
    let fields = seq![(4usize, packet_offset(events).len() as usize)];
    reveal_with_fuel(crate::io::flat_builder::largest_slot, 2);
    assert(fields.drop_last() =~= Seq::<(usize, usize)>::empty());
    crate::bytes::le16_all_len(
        crate::io::flat_builder::vtable(fields, 16 * n + 12, 16 * n + 4),
    );
}

/// The root of a packet, and where its field lies.
proof fn packet_root(events: Seq<RawEvent>)
    requires
        events.len() <= 0x0FFF_FF00,
    ensures
        ({
            let b = packet_body(events);
            let n = events.len() as int;
            &&& b.len() <= 0xFFFF_FFFF
            &&& root_of(b, 4) == Some(b.len() - (16 * n + 12))
            &&& field_of(b, b.len() - (16 * n + 12), 4) == Some(b.len() - (16 * n + 8))
            &&& ends_with(b, packet_offset(events))
        }),
{
    reveal(packet_body);
    packet_shape(events);
    let b = packet_body(events);
    let t1 = packet_vector(events);
    let t2 = packet_offset(events);
    let t3 = packet_table(events);
    let fields = seq![(4usize, t2.len() as usize)];
    root_found(t3, 8, table_place(t2), events_letters(), true);
    assert(fields_fit(fields, table_place(t2), t1.len() as int));
    field_found(b, t2, t1.len() as int, fields, 0);
    table_keeps(b, t2, t1.len() as int, fields);
}

/// The words of a packet that lead to its events.
proof fn packet_words(events: Seq<RawEvent>)
    requires
        events.len() <= 0x0FFF_FF00,
    ensures
        ({
            let b = packet_body(events);
            let n = events.len() as int;
            &&& le32(b, b.len() - (16 * n + 8)) == 4
            &&& le32(b, b.len() - (16 * n + 4)) == n
            &&& ends_with(b, elements_bytes(events))
            &&& b.len() >= 16 * n + 8
        }),
{
    packet_shape(events);
    packet_root(events);
    elements_len(events);
    let b = packet_body(events);
    let n = events.len() as int;
    let t1 = packet_vector(events);
    let t2 = packet_offset(events);
    let data = elements_bytes(events);
    offset_reads(b, t1, t1.len() as int);
    word32_back(b, t1, t1.len() as int);
    front32(n, data);
    ends_with_front(le32_bytes(n), data);
    ends_with_trans(b, t1, data);
}

/// The length of a packet.
pub proof fn packet_len(events: Seq<RawEvent>)
    requires
        events.len() <= 0x0FFF_FF00,
    ensures
        16 * events.len() + 18 <= packet_body(events).len() <= 16 * events.len() + 48,
{
    reveal(packet_body);
    packet_shape(events);
    let tail = packet_table(events);
    pad_bounds(tail.len() as int, 12, 8);
    let whole = events_letters() + aligned(tail, 12, 8);
    pad_bounds(whole.len() as int, 4, 4);
}

/// A packet reads back: its vector holds as many events as were written, at its end.
pub proof fn packet_reads(events: Seq<RawEvent>)
    requires
        events.len() <= 0x0FFF_FF00,
    ensures
        packet_body(events).len() <= 0xFFFF_FFFF,
        root_of(packet_body(events), 4) is Some,
        vector_of(packet_body(events), root_of(packet_body(events), 4)->0, 4, 16) == Some(
            (packet_body(events).len() - 16 * events.len(), events.len() as int),
        ),
        ends_with(packet_body(events), elements_bytes(events)),
{
    packet_root(events);
    packet_words(events);
}

/// Sixteen equal bytes hold equal values.
proof fn same_values(s: Seq<u8>, at: int, w: Seq<u8>)
    requires
        forall|j: int| 0 <= j < 16 ==> s[at + j] == #[trigger] w[j],
    ensures
        le64(s, at) == le64(w, 0),
        le16(s, at + 8) == le16(w, 8),
        le16(s, at + 10) == le16(w, 10),
        s[at + 12] == w[12],
{
    assert(s[at] == w[0] && s[at + 1] == w[1] && s[at + 2] == w[2] && s[at + 3] == w[3]);
    assert(s[at + 4] == w[4] && s[at + 5] == w[5] && s[at + 6] == w[6] && s[at + 7] == w[7]);
    assert(s[at + 8] == w[8] && s[at + 9] == w[9] && s[at + 10] == w[10] && s[at + 11] == w[11]);
    assert(s[at + 12] == w[12]);
}

/// The values of a stored event.
proof fn event_values(e: RawEvent)
    ensures
        le64(event_bytes(e), 0) == bits64(e.t as int),
        le16(event_bytes(e), 8) == e.x,
        le16(event_bytes(e), 10) == e.y,
        event_bytes(e)[12] == if e.p {
            1u8
        } else {
            0
        },
{
    let v = bits64(e.t as int);
    let rest = le16_bytes(e.x as int) + (le16_bytes(e.y as int) + seq![
        if e.p {
            1u8
        } else {
            0
        },
        0,
        0,
        0,
    ]);
    front64(v, rest);
    le16_round_trip(e.x as int);
    le16_round_trip(e.y as int);
    let w = event_bytes(e);
    assert(w[8] == le16_bytes(e.x as int)[0]);
    assert(w[9] == le16_bytes(e.x as int)[1]);
    assert(w[10] == le16_bytes(e.y as int)[0]);
    assert(w[11] == le16_bytes(e.y as int)[1]);
}

/// A slot of a packet holds the values of its event.
proof fn packet_slot(events: Seq<RawEvent>, k: int)
    requires
        events.len() <= 0x0FFF_FF00,
        0 <= k < events.len(),
    ensures
        ({
            let b = packet_body(events);
            let at = b.len() - 16 * events.len() + 16 * k;
            &&& le64(b, at) == bits64(events[k].t as int)
            &&& le16(b, at + 8) == events[k].x
            &&& le16(b, at + 10) == events[k].y
            &&& b[at + 12] == if events[k].p {
                1u8
            } else {
                0
            }
        }),
{
    packet_reads(events);
    elements_len(events);
    let b = packet_body(events);
    let w = event_bytes(events[k]);
    let at = b.len() - 16 * events.len() + 16 * k;
    assert forall|j: int| 0 <= j < 16 implies b[at + j] == #[trigger] w[j] by {
        elements_at(events, k, j);
        byte_back(b, elements_bytes(events), 16 * events.len() - 16 * k - j);
    }
    same_values(b, at, w);
    event_values(events[k]);
}

/// The event that given values make.
proof fn values_make(b: Seq<u8>, at: int, e: RawEvent)
    requires
        le64(b, at) == bits64(e.t as int),
        le16(b, at + 8) == e.x,
        le16(b, at + 10) == e.y,
        b[at + 12] == (if e.p {
            1u8
        } else {
            0
        }),
    ensures
        time_at(b, at) == e.t,
        e.x < 0x8000 && e.y < 0x8000 ==> stored_event(b, at) == Some(e),
{
}

/// An event of a packet reads as it was written, if its coordinates fit 15 bits.
pub proof fn packet_event(events: Seq<RawEvent>, k: int)
    requires
        events.len() <= 0x0FFF_FF00,
        0 <= k < events.len(),
        events[k].x < 0x8000,
        events[k].y < 0x8000,
    ensures
        stored_event(
            packet_body(events),
            packet_body(events).len() - 16 * events.len() + 16 * k,
        ) == Some(events[k]),
{
    packet_slot(events, k);
    values_make(
        packet_body(events),
        packet_body(events).len() - 16 * events.len() + 16 * k,
        events[k],
    );
}

/// Whether every coordinate fits the 15 bits a packet has for it.
pub open spec fn storable(events: Seq<RawEvent>) -> bool {
    forall|i: int| 0 <= i < events.len() ==> (#[trigger] events[i]).x < 0x8000 && events[i].y
        < 0x8000
}

/// Those of the first `n` events that belong to a window.
pub open spec fn chosen(events: Seq<RawEvent>, first: usize, w: Window, n: int) -> Seq<RawEvent>
    decreases n,
{
    if n <= 0 {
        Seq::empty()
    } else {
        let rest = chosen(events, first, w, n - 1);
        if admits(w, first.wrapping_add((n - 1) as usize), events[n - 1].t) {
            rest.push(events[n - 1])
        } else {
            rest
        }
    }
}

/// What was written into a packet is what it contributes to a window.
pub proof fn packet_contributes(events: Seq<RawEvent>, first: usize, w: Window)
    requires
        events.len() <= 0x0FFF_FF00,
        storable(events),
    ensures
        contributed(packet_body(events), first, w) == Some(
            chosen(events, first, w, events.len() as int),
        ),
{
    packet_reads(events);
    packet_admits(events, first, w, events.len() as int);
}

proof fn packet_admits(events: Seq<RawEvent>, first: usize, w: Window, n: int)
    requires
        events.len() <= 0x0FFF_FF00,
        storable(events),
        0 <= n <= events.len(),
    ensures
        admitted(
            packet_body(events),
            packet_body(events).len() - 16 * events.len(),
            n,
            first,
            w,
        ) == chosen(events, first, w, n),
    decreases n,
{
    if n > 0 {
        packet_admits(events, first, w, n - 1);
        packet_event(events, n - 1);
        assert(events[n - 1].x < 0x8000);
    }
}

/// A packet names its content.
proof fn packet_named(events: Seq<RawEvent>)
    requires
        events.len() <= 0x0FFF_FF00,
    ensures
        named(packet_body(events), events_letters()),
{
    reveal(packet_body);
    packet_shape(events);
    let tail = packet_table(events);
    finish_meaning(tail, 8, table_place(packet_offset(events)), events_letters(), true);
}

/// The span of a written packet: the number of its events and the times of the first and last.
pub proof fn packet_span(events: Seq<RawEvent>)
    requires
        0 < events.len() <= 0x0FFF_FF00,
    ensures
        span(packet_body(events)) == (
            events.len() as int,
            events[0].t as int,
            events.last().t as int,
        ),
{
    packet_reads(events);
    packet_named(events);
    let n = events.len() as int;
    let b = packet_body(events);
    packet_slot(events, 0);
    packet_slot(events, n - 1);
    values_make(b, b.len() - 16 * n, events[0]);
    values_make(b, b.len() - 16 * n + 16 * (n - 1), events[n - 1]);
}

/// Builds the body of a packet from the events numbered `start` to before `end`.
pub fn build_event_packet(stream: &EventStream, start: usize, end: usize) -> (body: Vec<u8>)
    requires
        stream.wf(),
        start <= end <= stream.events().len(),
        end - start <= 0x0FFF_FF00,
    ensures
        body@ == packet_body(stream.events().subrange(start as int, end as int)),
{
    let ghost events = stream.events().subrange(start as int, end as int);
    let mut elements: Vec<u8> = Vec::new();
    let mut i: usize = start;
    assert(events.take(0) =~= Seq::<RawEvent>::empty());
    while i < end
        invariant
            stream.wf(),
            start <= i <= end <= stream.events().len(),
            events == stream.events().subrange(start as int, end as int),
            elements@ == elements_bytes(events.take(i - start)),
        decreases end - i,
    {
        let e = stream.get(i);
        let ghost before = elements@;
        push_u64(&mut elements, unsigned64(e.t));
        push_u16(&mut elements, e.x);
        push_u16(&mut elements, e.y);
        elements.push(
            if e.p {
                1
            } else {
                0
            },
        );
        elements.push(0);
        elements.push(0);
        elements.push(0);
        proof {
            let next = events.take(i + 1 - start);
            assert(next.drop_last() =~= events.take(i - start));
            assert(next.last() == e);
            assert(elements@ =~= before + event_bytes(e));
        }
        i += 1;
    }
    assert(events.take(end - start) =~= events);
    proof {
        packet_shape(events);
        elements_len(events);
    }
    let mut builder = FlatBuilder::new();
    let vector = builder.push_elements(&elements, (end - start) as u32, 8);
    let from = builder.len();
    let place = builder.push_offset(vector);
    let fields: [(usize, usize); 1] = [(ELEMENTS, place)];
    proof {
        assert(fields@ =~= seq![(4usize, packet_offset(events).len() as usize)]);
        assert(fields_fit(fields@, table_place(packet_offset(events)), from as int));
    }
    let root = builder.end_table(from, &fields);
    let identifier: [u8; 4] = [0x45, 0x56, 0x54, 0x53];
    assert(identifier@ =~= events_letters());
    reveal(packet_body);
    builder.finish(root, &identifier, true)
}

/// The stages of a header.
#[verifier::opaque]
pub open spec fn header_text(info: Seq<u8>) -> Seq<u8> {
    with_string(Seq::empty(), info)
}

#[verifier::opaque]
pub open spec fn header_scheme(info: Seq<u8>, scheme: int) -> Seq<u8> {
    with_scalar(header_text(info), le32_bytes(scheme))
}

#[verifier::opaque]
pub open spec fn header_position(info: Seq<u8>, scheme: int, position: int) -> Seq<u8> {
    with_scalar(header_scheme(info, scheme), le64_bytes(bits64(position)))
}

#[verifier::opaque]
pub open spec fn header_offset(info: Seq<u8>, scheme: int, position: int) -> Seq<u8> {
    with_offset(header_position(info, scheme, position), header_text(info).len() as int)
}

pub open spec fn header_fields(info: Seq<u8>, scheme: int, position: int) -> Seq<(usize, usize)> {
    seq![
        (4usize, header_scheme(info, scheme).len() as usize),
        (6usize, header_position(info, scheme, position).len() as usize),
        (8usize, header_offset(info, scheme, position).len() as usize),
    ]
}

#[verifier::opaque]
pub open spec fn header_table(info: Seq<u8>, scheme: int, position: int) -> Seq<u8> {
    with_table(
        header_offset(info, scheme, position),
        header_text(info).len() as int,
        header_fields(info, scheme, position),
    )
}

/// A header buffer: the scheme, where the data table is, and the document listing the streams.
#[verifier::opaque]
pub open spec fn header_bytes(info: Seq<u8>, scheme: int, position: int) -> Seq<u8> {
    finished(
        header_table(info, scheme, position),
        8,
        table_place(header_offset(info, scheme, position)),
        header_identifier(),
        false,
    )
}

/// Where a header buffer says where the data table is.
#[verifier::opaque]
pub open spec fn position_field(info: Seq<u8>, scheme: int) -> int {
    header_bytes(info, scheme, -1).len() - header_position(info, scheme, -1).len()
}

/// The lengths of the stages of a header.
proof fn header_shape(info: Seq<u8>, scheme: int, position: int)
    requires
        info.len() <= 10_000,
    ensures
        ({
            let t1 = header_text(info);
            let t2 = header_scheme(info, scheme);
            let t3 = header_position(info, scheme, position);
            let t4 = header_offset(info, scheme, position);
            &&& ends_with(t1, t1)
            &&& info.len() + 5 <= t1.len() <= info.len() + 8
            &&& t1.len() + 4 <= t2.len() <= t1.len() + 7
            &&& t2.len() + 8 <= t3.len() <= t2.len() + 15
            &&& t3.len() + 4 <= t4.len() <= t3.len() + 7
            &&& t4.len() + 4 <= table_place(t4) <= t4.len() + 7
            &&& t4.len() + 14 <= header_table(info, scheme, position).len() <= t4.len() + 21
            &&& fields_fit(
                header_fields(info, scheme, position),
                table_place(t4),
                t1.len() as int,
            )
        }),
{
    reveal(header_text);
    reveal(header_scheme);
    reveal(header_position);
    reveal(header_offset);
    reveal(header_table);
    let t1 = header_text(info);
    let t2 = header_scheme(info, scheme);
    let t3 = header_position(info, scheme, position);
    let t4 = header_offset(info, scheme, position);
    pad_bounds(0, (info.len() + 1) as int, 4);
    let text = info + (seq![0u8] + aligned(Seq::empty(), (info.len() + 1) as int, 4));
    no_padding(text, 4, 4);
    pad_bounds(t1.len() as int, 4, 4);
    pad_bounds(t2.len() as int, 8, 8);
    pad_bounds(t3.len() as int, 4, 4);
    pad_bounds(t4.len() as int, 4, 4);
    let fields = header_fields(info, scheme, position);
    header_slots(fields);
    crate::bytes::le16_all_len(
        crate::io::flat_builder::vtable(fields, table_place(t4), t1.len() as int),
    );
    assert(t1.subrange(0, t1.len() as int) =~= t1);
}

proof fn header_slots(fields: Seq<(usize, usize)>)
    requires
        fields.len() == 3,
        fields[0].0 == 4,
        fields[1].0 == 6,
        fields[2].0 == 8,
    ensures
        crate::io::flat_builder::vtable_len(fields) == 5,
{
    reveal_with_fuel(crate::io::flat_builder::largest_slot, 4);
    let two = fields.drop_last();
    let one = two.drop_last();
    assert(two.last() == fields[1]);
    assert(one.last() == fields[0]);
    assert(one.drop_last().len() == 0);
}

/// A header buffer is small.
pub proof fn header_small(info: Seq<u8>, scheme: int, position: int)
    requires
        info.len() <= 10_000,
    ensures
        header_bytes(info, scheme, position).len() <= 0xFFFF_FFFF,
{
    header_root(info, scheme, position);
}

/// The root of a header and where its fields lie.
proof fn header_root(info: Seq<u8>, scheme: int, position: int)
    requires
        info.len() <= 10_000,
    ensures
        ({
            let b = header_bytes(info, scheme, position);
            let t4 = header_offset(info, scheme, position);
            let root = b.len() - table_place(t4);
            &&& b.len() <= 0xFFFF_FFFF
            &&& root_of(b, 0) == Some(root)
            &&& field_of(b, root, 4) == Some(b.len() - header_scheme(info, scheme).len())
            &&& field_of(b, root, 6) == Some(
                b.len() - header_position(info, scheme, position).len(),
            )
            &&& field_of(b, root, 8) == Some(b.len() - t4.len())
            &&& ends_with(b, t4)
        }),
{
    reveal(header_bytes);
    reveal(header_table);
    header_shape(info, scheme, position);
    let b = header_bytes(info, scheme, position);
    let t1 = header_text(info);
    let t4 = header_offset(info, scheme, position);
    let t5 = header_table(info, scheme, position);
    let fields = header_fields(info, scheme, position);
    root_found(t5, 8, table_place(t4), header_identifier(), false);
    field_found(b, t4, t1.len() as int, fields, 0);
    field_found(b, t4, t1.len() as int, fields, 1);
    field_found(b, t4, t1.len() as int, fields, 2);
    table_keeps(b, t4, t1.len() as int, fields);
}

/// The values of a header's fields.
proof fn header_values(info: Seq<u8>, scheme: int, position: int)
    requires
        info.len() <= 10_000,
        0 <= scheme < 0x8000_0000,
        i64::MIN <= position <= i64::MAX,
    ensures
        ({
            let b = header_bytes(info, scheme, position);
            let t1 = header_text(info);
            let t4 = header_offset(info, scheme, position);
            &&& le32(b, b.len() - header_scheme(info, scheme).len()) == scheme
            &&& le64(b, b.len() - header_position(info, scheme, position).len()) == bits64(position)
            &&& le32(b, b.len() - t4.len()) == t4.len() - t1.len()
            &&& ends_with(b, t1)
        }),
{
    reveal(header_scheme);
    reveal(header_position);
    reveal(header_offset);
    header_shape(info, scheme, position);
    header_root(info, scheme, position);
    let b = header_bytes(info, scheme, position);
    let t1 = header_text(info);
    let t2 = header_scheme(info, scheme);
    let t3 = header_position(info, scheme, position);
    offset_reads(b, t3, t1.len() as int);
    scalar64_reads(b, t2, bits64(position));
    scalar32_reads(b, t1, scheme);
}

/// The text of a header.
proof fn header_string(info: Seq<u8>, b: Seq<u8>)
    requires
        info.len() <= 10_000,
        ends_with(b, header_text(info)),
    ensures
        le32(b, b.len() - header_text(info).len()) == info.len(),
        b.subrange(
            b.len() - header_text(info).len() + 4,
            b.len() - header_text(info).len() + 4 + info.len(),
        ) == info,
        header_text(info).len() >= info.len() + 4,
{
    reveal(header_text);
    let text = info + (seq![0u8] + aligned(Seq::empty(), (info.len() + 1) as int, 4));
    pad_bounds(0, (info.len() + 1) as int, 4);
    no_padding(text, 4, 4);
    scalar32_reads(b, text, info.len() as int);
    let n = b.len() - text.len();
    assert(b.subrange(n as int, b.len() as int) =~= text);
    assert(b.subrange(n as int, n + info.len()) =~= b.subrange(n as int, b.len() as int).take(
        info.len() as int,
    ));
    assert(text.take(info.len() as int) =~= info);
}

/// A header reads back: the scheme, the place of the data table, and the document.
pub proof fn header_reads(text: Seq<char>, scheme: int, position: int)
    requires
        encode_utf8(text).len() <= 10_000,
        0 <= scheme < 0x8000_0000,
        i64::MIN <= position <= i64::MAX,
    ensures
        ({
            let b = header_bytes(encode_utf8(text), scheme, position);
            &&& root_of(b, 0) is Some
            &&& i32_of(b, root_of(b, 0)->0, 4) == scheme
            &&& forall|default: int| #[trigger]
                i64_of(b, root_of(b, 0)->0, 6, default) == position
            &&& info_text(b, root_of(b, 0)->0) == text
        }),
{
    let info = encode_utf8(text);
    encode_utf8_valid_utf8(text);
    encode_utf8_decode_utf8(text);
    let b = header_bytes(info, scheme, position);
    header_shape(info, scheme, position);
    header_root(info, scheme, position);
    header_values(info, scheme, position);
    header_string(info, b);
    let root = root_of(b, 0)->0;
    header_scalars(b, root, b.len() - header_scheme(info, scheme).len(), b.len() - header_position(
        info,
        scheme,
        position,
    ).len(), scheme, position);
    header_points(b, root, b.len() - header_offset(info, scheme, position).len(), b.len()
        - header_text(info).len(), info);
}

proof fn header_scalars(b: Seq<u8>, root: int, f4: int, f6: int, scheme: int, position: int)
    requires
        field_of(b, root, 4) == Some(f4),
        field_of(b, root, 6) == Some(f6),
        f4 + 4 <= b.len(),
        f6 + 8 <= b.len(),
        le32(b, f4) == scheme,
        0 <= scheme < 0x8000_0000,
        le64(b, f6) == bits64(position),
        i64::MIN <= position <= i64::MAX,
    ensures
        i32_of(b, root, 4) == scheme,
        forall|default: int| #[trigger] i64_of(b, root, 6, default) == position,
{
}

proof fn header_points(b: Seq<u8>, root: int, f8: int, at: int, info: Seq<u8>)
    requires
        b.len() <= 0xFFFF_FFFF,
        field_of(b, root, 8) == Some(f8),
        f8 + 4 <= b.len(),
        f8 + le32(b, f8) == at,
        0 <= at,
        at + 4 + info.len() <= b.len(),
        le32(b, at) == info.len(),
        b.subrange(at + 4, at + 4 + info.len()) == info,
        vstd::utf8::valid_utf8(info),
    ensures
        string_of_field(b, root, 8) == Some(vstd::utf8::decode_utf8(info)),
{
    assert(indirect_of(b, root, 8) == Some(at));
    assert(vector_of(b, root, 8, 1) == Some((at + 4, info.len() as int)));
}

/// Writing another place for the data table changes the eight bytes that hold it.
pub proof fn header_patched(info: Seq<u8>, scheme: int, position: int)
    requires
        info.len() <= 10_000,
    ensures
        ({
            let b = header_bytes(info, scheme, -1);
            let at = position_field(info, scheme);
            &&& 0 <= at
            &&& at + 8 <= b.len()
            &&& header_bytes(info, scheme, position).len() == b.len()
            &&& header_bytes(info, scheme, position) == b.take(at) + le64_bytes(bits64(position))
                + b.skip(at + 8)
        }),
{
    reveal(position_field);
    reveal(header_position);
    header_parts(info, scheme, -1);
    header_parts(info, scheme, position);
    header_shape(info, scheme, -1);
    header_shape(info, scheme, position);
    let front = header_front(info, scheme);
    let rest = aligned(header_scheme(info, scheme), 8, 8);
    let b = header_bytes(info, scheme, -1);
    let at = position_field(info, scheme);
    assert(at == front.len());
    assert(b.take(at) =~= front);
    assert(b.skip(at + 8) =~= rest);
    assert(header_bytes(info, scheme, position) =~= b.take(at) + le64_bytes(bits64(position))
        + b.skip(at + 8));
}

/// What a header holds before the place of the data table.
#[verifier::opaque]
spec fn header_front(info: Seq<u8>, scheme: int) -> Seq<u8> {
    let n = header_position(info, scheme, -1).len() as int;
    let start = header_text(info).len() as int;
    let o = offset_front(n, start);
    let fields = header_fields(info, scheme, -1);
    let m = o.len() + n;
    let w = table_front(m, start, fields);
    finish_front(
        w.len() + m,
        8,
        m + padding(m, 4, 4) + 4,
        header_identifier(),
        false,
    ) + (w + o)
}

#[verifier::spinoff_prover]
#[verifier::rlimit(60)]
proof fn header_parts(info: Seq<u8>, scheme: int, position: int)
    requires
        info.len() <= 10_000,
    ensures
        header_bytes(info, scheme, position) == header_front(info, scheme) + (le64_bytes(
            bits64(position),
        ) + aligned(header_scheme(info, scheme), 8, 8)),
{
    reveal(header_front);
    reveal(header_bytes);
    reveal(header_position);
    reveal(header_offset);
    reveal(header_table);
    let t1 = header_text(info);
    let t3 = header_position(info, scheme, position);
    let t4 = header_offset(info, scheme, position);
    let t5 = header_table(info, scheme, position);
    let fields = header_fields(info, scheme, position);
    let n = t3.len() as int;
    let start = t1.len() as int;
    header_shape(info, scheme, position);
    header_shape(info, scheme, -1);
    assert(n == header_position(info, scheme, -1).len());
    fronts(t3, start, start, fields, 8, header_identifier(), false);
    fronts(header_position(info, scheme, -1), start, start, fields, 8, header_identifier(), false);
    assert(fields =~= header_fields(info, scheme, -1));
    fronts(t4, start, start, fields, 8, header_identifier(), false);
    fronts(t5, table_place(t4), start, fields, 8, header_identifier(), false);
    let o = offset_front(n, start);
    let m = o.len() + n;
    let w = table_front(m, start, fields);
    pad_bounds(m, 4, 4);
    assert(table_place(t4) == m + padding(m, 4, 4) + 4);
    assert(header_bytes(info, scheme, position) =~= header_front(info, scheme) + t3);
}

/// Builds a header buffer that names no data table, and says where its place goes.
#[verifier::spinoff_prover]
#[verifier::rlimit(60)]
pub fn build_header(width: usize, height: usize, compression: Compression) -> (built: (
    Vec<u8>,
    usize,
))
    ensures
        ({
            let info = encode_utf8(info_document(width as int, height as int, compression));
            let scheme = header_value(compression) as int;
            &&& info.len() <= 10_000
            &&& built.0@ == header_bytes(info, scheme, -1)
            &&& built.1 == position_field(info, scheme)
            &&& built.1 + 8 <= built.0@.len()
            &&& built.0@.len() <= 20_000
        }),
{
    let document = info_node(width, height, compression);
    let info = document.as_str().as_bytes();
    let ghost scheme = header_value(compression) as int;
    proof {
        info_len(width, height, compression);
        encoded_len(document@);
        header_shape(info@, scheme, -1);
        reveal(header_bytes);
        reveal(header_text);
        reveal(header_scheme);
        reveal(header_position);
        reveal(header_offset);
        reveal(header_table);
        reveal(position_field);
    }
    let mut builder = FlatBuilder::new();
    let text = builder.push_string(info);
    let start = builder.len();
    let scheme_at = builder.push_u32(compression.to_header() as u32);
    let position_at = builder.push_u64(0xFFFF_FFFF_FFFF_FFFF);
    let info_at = builder.push_offset(text);
    let fields: [(usize, usize); 3] = [
        (COMPRESSION, scheme_at),
        (DATA_TABLE_POSITION, position_at),
        (INFO_NODE, info_at),
    ];
    proof {
        assert(fields@ =~= header_fields(info@, scheme, -1));
    }
    let root = builder.end_table(start, &fields);
    let identifier: [u8; 4] = [0x49, 0x4F, 0x48, 0x45];
    assert(identifier@ =~= header_identifier());
    proof {
        let t5 = header_table(info@, scheme, -1);
        fronts(t5, root as int, start as int, fields@, 8, header_identifier(), false);
        pad_bounds(t5.len() as int, 8, 8);
        let named = header_identifier() + zeros(padding(t5.len() as int, 8, 8));
        pad_bounds((named.len() + t5.len()) as int, 4, 4);
    }
    let buffer = builder.finish(root, &identifier, false);
    let field: usize = buffer.len() - position_at;
    (buffer, field)
}

/// A character takes at most four bytes.
pub proof fn encoded_len(text: Seq<char>)
    ensures
        encode_utf8(text).len() <= 4 * text.len(),
    decreases text.len(),
{
    if text.len() > 0 {
        encoded_len(text.drop_first());
    }
}

} // verus!
