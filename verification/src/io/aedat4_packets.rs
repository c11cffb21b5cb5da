//! The packets of an AEDAT 4 recording, and the index over them.
//!
//! A packet is an 8-byte head (a stream id and a body size) and a compressed body. The data table
//! at the end of a recording lists every packet; without it the packets are walked one by one.

use vstd::prelude::*;
use vstd::slice::slice_subrange;

use crate::bytes::{le32, le64, read_u32, read_u64, signed, signed32, signed64};
use crate::io::aedat4_header::short_read;
use crate::io::aedat4_streams::{Kind, Stream};
use crate::io::compression::{content_of, corrupt, Compression};
use crate::io::flatbuffer::{
    field_of, i64_of, is_table, root_of, tables_of, vector_of, Table,
};
use crate::io::IoError;

verus! {

/// Where the element vector of a packet is listed.
pub const ELEMENTS: usize = 4;

/// Where a frame's and a sample's timestamp is listed.
pub const TIMESTAMP: usize = 4;

/// Bytes of an event: a 64-bit time, two 16-bit coordinates, a polarity, and padding.
pub const EVENT_STRIDE: usize = 16;

/// Bytes of a packet's head.
pub const PACKET_HEADER: usize = 8;

/// One packet as the index sees it: where its body is, what it holds, and when.
#[derive(Clone, Copy, Debug, PartialEq, Eq, Structural)]
pub struct Packet {
    pub offset: u64,
    pub size: usize,
    /// Elements of the stream before this packet.
    pub first: usize,
    pub elements: usize,
    pub start: i64,
    pub end: i64,
}

/// The compressed body of a packet.
pub open spec fn body_bytes(data: Seq<u8>, offset: int, size: int) -> Seq<u8> {
    data.subrange(offset, offset + size)
}

/// What a packet's body holds, if it is all there and decompresses.
pub open spec fn body_of(data: Seq<u8>, c: Compression, offset: int, size: int) -> Option<Seq<u8>> {
    if offset + size <= data.len() {
        content_of(c, body_bytes(data, offset, size))
    } else {
        None
    }
}

/// Why a packet's body cannot be read: it lies past the end, or the codec refuses it.
pub open spec fn body_fault(
    data: Seq<u8>,
    c: Compression,
    offset: int,
    size: int,
    e: IoError,
) -> bool {
    &&& body_of(data, c, offset, size) is None
    &&& if offset + size > data.len() {
        e matches IoError::Io(m) && m@ == "failed to fill whole buffer"@
    } else {
        corrupt(c, e)
    }
}

/// Reads `size` bytes at `offset` and decompresses them.
pub fn read_body(data: &[u8], compression: Compression, offset: u64, size: usize) -> (body: Result<
    Vec<u8>,
    IoError,
>)
    ensures
        match body {
            Ok(b) => body_of(data@, compression, offset as int, size as int) == Some(b@),
            Err(e) => body_fault(data@, compression, offset as int, size as int, e),
        },
{
    let total: u64 = data.len() as u64;
    if offset > total || size as u64 > total - offset {
        return Err(short_read());
    }
    let from: usize = offset as usize;
    compression.decode(slice_subrange(data, from, from + size))
}

/// The time of the event at `at`.
pub open spec fn time_at(b: Seq<u8>, at: int) -> int {
    signed(le64(b, at), 0x8000_0000_0000_0000)
}

/// The shapes of a packet's content.
#[derive(Clone, Copy, Debug, PartialEq, Eq, Structural)]
pub enum Shape {
    /// A vector of events.
    Events,
    /// A vector of tables.
    Tables,
    /// A lone frame.
    Frame,
}

/// Whether a packet names its content by four letters.
pub open spec fn named(b: Seq<u8>, letters: Seq<u8>) -> bool {
    b.len() >= 12 && b.subrange(8, 12) == letters
}

/// The letters of a packet of events, of inertial samples, and of a frame.
pub open spec fn events_letters() -> Seq<u8> {
    seq![0x45u8, 0x56, 0x54, 0x53]
}

pub open spec fn samples_letters() -> Seq<u8> {
    seq![0x49u8, 0x4D, 0x55, 0x53]
}

pub open spec fn frame_letters() -> Seq<u8> {
    seq![0x46u8, 0x52, 0x4D, 0x45]
}

/// Whether every element of a packet's vector leads to a table.
pub open spec fn lists_tables(b: Seq<u8>, root: int) -> bool {
    let tables = tables_of(b, root, 4);
    &&& tables.len() > 0
    &&& forall|i: int| 0 <= i < tables.len() ==> is_table(b, #[trigger] tables[i])
}

/// The shape of a packet: the one it names, or else the one that its elements show.
pub open spec fn shape(b: Seq<u8>, root: int) -> Shape {
    if named(b, events_letters()) {
        Shape::Events
    } else if named(b, frame_letters()) {
        Shape::Frame
    } else if named(b, samples_letters()) || lists_tables(b, root) {
        Shape::Tables
    } else {
        Shape::Events
    }
}

/// How many elements a decompressed packet holds, and the times of its first and last.
pub open spec fn span(b: Seq<u8>) -> (int, int, int) {
    match root_of(b, 4) {
        None => (0, 0, 0),
        Some(root) => {
            let tables = tables_of(b, root, 4);
            let t = i64_of(b, root, 4, 0);
            match (shape(b, root), vector_of(b, root, 4, 16)) {
                (Shape::Frame, _) => (1, t, t),
                (Shape::Events, Some((start, n))) if n > 0 => (
                    n,
                    time_at(b, start),
                    time_at(b, start + 16 * (n - 1)),
                ),
                _ => if tables.len() > 0 {
                    (
                        tables.len() as int,
                        i64_of(b, tables[0], 4, 0),
                        i64_of(b, tables.last(), 4, 0),
                    )
                } else {
                    (1, t, t)
                },
            }
        },
    }
}

fn is_named(body: &[u8], a: u8, b: u8, c: u8, d: u8) -> (yes: bool)
    ensures
        yes == named(body@, seq![a, b, c, d]),
{
    if body.len() < 12 {
        return false;
    }
    let yes = body[8] == a && body[9] == b && body[10] == c && body[11] == d;
    proof {
        let letters = body@.subrange(8, 12);
        if yes {
            assert(letters =~= seq![a, b, c, d]);
        } else {
            assert(letters[0] == body@[8] && letters[1] == body@[9] && letters[2] == body@[10]
                && letters[3] == body@[11]);
        }
    }
    yes
}

/// The shape of a packet whose root has been found.
fn shape_of(body: &[u8], root: &Table<'_>, tables: &[Table<'_>]) -> (found: Shape)
    requires
        root.buffer == body,
        tables@.len() == tables_of(body@, root.at as int, 4).len(),
        forall|i: int|
            0 <= i < tables@.len() ==> (#[trigger] tables@[i]).buffer == body && tables@[i].at
                == tables_of(body@, root.at as int, 4)[i],
    ensures
        found == shape(body@, root.at as int),
{
    if is_named(body, 0x45, 0x56, 0x54, 0x53) {
        return Shape::Events;
    }
    if is_named(body, 0x46, 0x52, 0x4D, 0x45) {
        return Shape::Frame;
    }
    if is_named(body, 0x49, 0x4D, 0x55, 0x53) {
        return Shape::Tables;
    }
    let ghost places = tables_of(body@, root.at as int, 4);
    let n: usize = tables.len();
    for i in 0..n
        invariant
            n == tables@.len(),
            n == places.len(),
            places == tables_of(body@, root.at as int, 4),
            forall|i: int|
                0 <= i < n ==> (#[trigger] tables@[i]).buffer == body && tables@[i].at == places[i],
            forall|j: int| 0 <= j < i ==> is_table(body@, #[trigger] places[j]),
            !named(body@, events_letters()),
            !named(body@, frame_letters()),
            !named(body@, samples_letters()),
    {
        if !tables[i].is_whole() {
            assert(!is_table(body@, places[i as int]));
            return Shape::Events;
        }
    }
    if n > 0 {
        Shape::Tables
    } else {
        Shape::Events
    }
}

/// How many elements a decompressed packet holds, and the times of its first and last, whichever
/// of the three shapes it is: a vector of events, a vector of tables, or a lone frame.
pub fn span_of(body: &[u8]) -> (found: (usize, i64, i64))
    ensures
        (found.0 as int, found.1 as int, found.2 as int) == span(body@),
{
    let table = match Table::size_prefixed_root(body) {
        Some(table) => table,
        None => {
            return (0, 0, 0);
        },
    };
    let tables = table.tables(ELEMENTS);
    let t = table.i64(TIMESTAMP, 0);
    match shape_of(body, &table, &tables) {
        Shape::Frame => {
            return (1, t, t);
        },
        Shape::Events => match table.vector_at(ELEMENTS, EVENT_STRIDE) {
            Some((start, n)) => {
                if n > 0 {
                    assert(start + n * 16 <= body.len());
                    let last: usize = start + (n - 1) * EVENT_STRIDE;
                    return (n, signed64(read_u64(body, start)), signed64(read_u64(body, last)));
                }
            },
            None => {},
        },
        Shape::Tables => {},
    }
    if tables.len() > 0 {
        let first = tables[0].i64(TIMESTAMP, 0);
        let last = tables[tables.len() - 1].i64(TIMESTAMP, 0);
        return (tables.len(), first, last);
    }
    (1, t, t)
}

/// The packets in a run of bytes: the stream of each, and where its body is.
pub open spec fn places(data: Seq<u8>, at: int) -> Seq<(int, int, int)>
    decreases data.len() - at,
{
    let id = signed(le32(data, at), 0x8000_0000);
    let size = signed(le32(data, at + 4), 0x8000_0000);
    if at < 0 || at + 8 > data.len() || size < 0 || at + 8 + size > data.len() {
        Seq::empty()
    } else {
        seq![(id, at + 8, size)] + places(data, at + 8 + size)
    }
}

/// What walking says of the packet at a place. A body that the codec refuses counts as empty.
pub open spec fn walked(data: Seq<u8>, c: Compression, place: (int, int, int), p: Packet) -> bool {
    &&& p.offset == place.1
    &&& p.size == place.2
    &&& p.first == 0
    &&& (p.elements as int, p.start as int, p.end as int) == match content_of(
        c,
        body_bytes(data, place.1, place.2),
    ) {
        Some(content) => span(content),
        None => (0, 0, 0),
    }
}

/// What walking says of all packets.
pub open spec fn all_walked(
    data: Seq<u8>,
    c: Compression,
    at: int,
    packets: Seq<(i32, Packet)>,
) -> bool {
    &&& packets.len() == places(data, at).len()
    &&& forall|i: int|
        0 <= i < packets.len() ==> (#[trigger] packets[i]).0 == places(data, at)[i].0 && walked(
            data,
            c,
            places(data, at)[i],
            packets[i].1,
        )
}

/// Rebuilds the index by reading every packet.
pub fn walk_packets(data: &[u8], compression: Compression, body_offset: u64) -> (packets: Vec<
    (i32, Packet),
>)
    requires
        body_offset <= data@.len(),
    ensures
        all_walked(data@, compression, body_offset as int, packets@),
{
    let total: usize = data.len();
    let mut packets: Vec<(i32, Packet)> = Vec::new();
    let mut offset: usize = body_offset as usize;
    let ghost wanted = places(data@, body_offset as int);
    let ghost mut done: Seq<(int, int, int)> = Seq::empty();
    assert(done + places(data@, offset as int) =~= wanted);
    while offset <= total && total - offset >= PACKET_HEADER
        invariant
            total == data@.len(),
            offset <= total,
            wanted == places(data@, body_offset as int),
            done + places(data@, offset as int) == wanted,
            done.len() == packets@.len(),
            forall|i: int|
                0 <= i < packets@.len() ==> (#[trigger] packets@[i]).0 == done[i].0 && walked(
                    data@,
                    compression,
                    done[i],
                    packets@[i].1,
                ),
        ensures
            offset <= total,
            wanted == places(data@, body_offset as int),
            done + places(data@, offset as int) == wanted,
            places(data@, offset as int) == Seq::<(int, int, int)>::empty(),
            done.len() == packets@.len(),
            forall|i: int|
                0 <= i < packets@.len() ==> (#[trigger] packets@[i]).0 == done[i].0 && walked(
                    data@,
                    compression,
                    done[i],
                    packets@[i].1,
                ),
        decreases total - offset,
    {
        let id = signed32(read_u32(data, offset));
        let declared = signed32(read_u32(data, offset + 4));
        if declared < 0 {
            break;
        }
        let size: usize = declared as usize;
        let at: usize = offset + PACKET_HEADER;
        if size > total - at {
            break;
        }
        let mut packet = Packet {
            offset: at as u64,
            size,
            first: 0,
            elements: 0,
            start: 0,
            end: 0,
        };
        match read_body(data, compression, at as u64, size) {
            Ok(body) => {
                let (elements, start, end) = span_of(&body);
                packet.elements = elements;
                packet.start = start;
                packet.end = end;
            },
            Err(_) => {},
        }
        let ghost place = (id as int, at as int, size as int);
        assert(walked(data@, compression, place, packet));
        packets.push((id, packet));
        proof {
            assert((done + seq![place]) + places(data@, at + size) =~= done + (seq![place]
                + places(data@, at + size)));
            done = done + seq![place];
        }
        offset = at + size;
    }
    assert(done =~= wanted);
    packets
}

/// Where the fields of a data table's entries are listed.
pub const DEFINITION_BYTE_OFFSET: usize = 4;

pub const DEFINITION_PACKET_INFO: usize = 6;

pub const DEFINITION_NUM_ELEMENTS: usize = 8;

pub const DEFINITION_TIMESTAMP_START: usize = 10;

pub const DEFINITION_TIMESTAMP_END: usize = 12;

/// Where the entries of a data table are listed.
pub const TABLE: usize = 4;

/// The packet that an entry of a data table describes, if it is complete.
pub open spec fn definition(b: Seq<u8>, at: int) -> Option<(i32, Packet)> {
    match field_of(b, at, 6) {
        None => None,
        Some(info) => {
            let id = signed(le32(b, info), 0x8000_0000);
            let size = signed(le32(b, info + 4), 0x8000_0000);
            let offset = i64_of(b, at, 4, 0);
            let elements = i64_of(b, at, 8, 0);
            if info + 8 > b.len() || offset < 0 || size < 0 || elements < 0 || elements
                > usize::MAX {
                None
            } else {
                Some(
                    (
                        id as i32,
                        Packet {
                            offset: offset as u64,
                            size: size as usize,
                            first: 0,
                            elements: elements as usize,
                            start: i64_of(b, at, 10, 0) as i64,
                            end: i64_of(b, at, 12, 0) as i64,
                        },
                    ),
                )
            }
        },
    }
}

/// The packets that the complete ones of some entries describe.
pub open spec fn definitions(b: Seq<u8>, entries: Seq<int>) -> Seq<(i32, Packet)>
    decreases entries.len(),
{
    if entries.len() == 0 {
        Seq::empty()
    } else {
        let rest = definitions(b, entries.drop_last());
        match definition(b, entries.last()) {
            Some(d) => rest.push(d),
            None => rest,
        }
    }
}

fn read_definition(entry: &Table<'_>) -> (found: Option<(i32, Packet)>)
    ensures
        found == definition(entry.buffer@, entry.at as int),
{
    let info = match entry.field(DEFINITION_PACKET_INFO) {
        Some(info) => info,
        None => {
            return None;
        },
    };
    let n: usize = entry.buffer.len();
    if n < 8 || info > n - 8 {
        return None;
    }
    let id = signed32(read_u32(entry.buffer, info));
    let size = signed32(read_u32(entry.buffer, info + 4));
    let offset = entry.i64(DEFINITION_BYTE_OFFSET, 0);
    let elements = entry.i64(DEFINITION_NUM_ELEMENTS, 0);
    if offset < 0 || size < 0 || elements < 0 || elements as u64 > usize::MAX as u64 {
        return None;
    }
    Some(
        (
            id,
            Packet {
                offset: offset as u64,
                size: size as usize,
                first: 0,
                elements: elements as usize,
                start: entry.i64(DEFINITION_TIMESTAMP_START, 0),
                end: entry.i64(DEFINITION_TIMESTAMP_END, 0),
            },
        ),
    )
}

/// The packets a decompressed data table lists.
pub fn read_data_table(body: &[u8]) -> (packets: Result<Vec<(i32, Packet)>, IoError>)
    ensures
        match packets {
            Ok(p) => root_of(body@, 4) is Some && p@ == definitions(
                body@,
                tables_of(body@, root_of(body@, 4)->0, 4),
            ),
            Err(IoError::Format(m)) => root_of(body@, 4) is None && m@
                == "AEDAT4 data table is not readable"@,
            Err(_) => false,
        },
{
    let table = match Table::size_prefixed_root(body) {
        Some(table) => table,
        None => {
            return Err(IoError::Format("AEDAT4 data table is not readable".to_owned()));
        },
    };
    let entries = table.tables(TABLE);
    let ghost wanted = tables_of(body@, table.at as int, 4);
    let mut packets: Vec<(i32, Packet)> = Vec::new();
    let n: usize = entries.len();
    for i in 0..n
        invariant
            n == entries@.len(),
            n == wanted.len(),
            forall|j: int|
                0 <= j < n ==> (#[trigger] entries@[j]).buffer == body && entries@[j].at
                    == wanted[j],
            packets@ == definitions(body@, wanted.take(i as int)),
    {
        assert(wanted.take(i + 1).drop_last() =~= wanted.take(i as int));
        match read_definition(&entries[i]) {
            Some(found) => {
                packets.push(found);
            },
            None => {},
        }
    }
    assert(wanted.take(n as int) =~= wanted);
    Ok(packets)
}

/// Whether a stream of the given kind has this id.
pub open spec fn carries(streams: Seq<Stream>, id: i32, kind: Kind) -> bool {
    exists|i: int| 0 <= i < streams.len() && (#[trigger] streams[i]).id == id && streams[i].kind
        == kind
}

/// The packets of the streams of a kind.
pub open spec fn packets_of_kind(
    streams: Seq<Stream>,
    packets: Seq<(i32, Packet)>,
    kind: Kind,
) -> Seq<Packet>
    decreases packets.len(),
{
    if packets.len() == 0 {
        Seq::empty()
    } else {
        let rest = packets_of_kind(streams, packets.drop_last(), kind);
        if carries(streams, packets.last().0, kind) {
            rest.push(packets.last().1)
        } else {
            rest
        }
    }
}

/// Where a packet goes among packets in order: after all that start no later.
pub open spec fn slot_of(sorted: Seq<Packet>, p: Packet) -> int
    decreases sorted.len(),
{
    if sorted.len() == 0 {
        0
    } else if sorted.last().start <= p.start {
        sorted.len() as int
    } else {
        slot_of(sorted.drop_last(), p)
    }
}

/// Packets by start time; those that start together keep their order.
pub open spec fn by_start(packets: Seq<Packet>) -> Seq<Packet>
    decreases packets.len(),
{
    if packets.len() == 0 {
        Seq::empty()
    } else {
        let sorted = by_start(packets.drop_last());
        sorted.insert(slot_of(sorted, packets.last()), packets.last())
    }
}

proof fn slot_bounds(sorted: Seq<Packet>, p: Packet)
    ensures
        0 <= slot_of(sorted, p) <= sorted.len(),
        slot_of(sorted, p) > 0 ==> sorted[slot_of(sorted, p) - 1].start <= p.start,
        forall|i: int| slot_of(sorted, p) <= i < sorted.len() ==> (#[trigger] sorted[i]).start
            > p.start,
    decreases sorted.len(),
{
    if sorted.len() > 0 && sorted.last().start > p.start {
        let rest = sorted.drop_last();
        slot_bounds(rest, p);
        assert forall|i: int| slot_of(sorted, p) <= i < sorted.len() implies (
        #[trigger] sorted[i]).start > p.start by {
            if i < rest.len() {
                assert(sorted[i] == rest[i]);
            }
        }
    }
}

/// The packets come out in order of start time, and they are the same packets.
pub proof fn by_start_sorts(packets: Seq<Packet>)
    ensures
        by_start(packets).len() == packets.len(),
        by_start(packets).to_multiset() == packets.to_multiset(),
        forall|i: int, j: int|
            0 <= i <= j < packets.len() ==> (#[trigger] by_start(packets)[i]).start <= (
            #[trigger] by_start(packets)[j]).start,
    decreases packets.len(),
{
    broadcast use vstd::seq_lib::group_to_multiset_ensures;

    if packets.len() > 0 {
        let rest = packets.drop_last();
        let p = packets.last();
        by_start_sorts(rest);
        let sorted = by_start(rest);
        slot_bounds(sorted, p);
        let k = slot_of(sorted, p);
        assert(rest.push(p) =~= packets);
        let out = by_start(packets);
        assert forall|i: int, j: int| 0 <= i <= j < packets.len() implies (
        #[trigger] out[i]).start <= (#[trigger] out[j]).start by {
            let a = if i < k {
                i
            } else {
                i - 1
            };
            let b = if j < k {
                j
            } else {
                j - 1
            };
            if i != k {
                assert(out[i] == sorted[a]);
            }
            if j != k {
                assert(out[j] == sorted[b]);
            }
            if i < k && k > 0 {
                assert(sorted[a].start <= sorted[k - 1].start);
            }
        }
    }
}

/// Packets already in order stay as they are.
pub proof fn by_start_keeps(packets: Seq<Packet>)
    requires
        forall|i: int, j: int|
            0 <= i <= j < packets.len() ==> (#[trigger] packets[i]).start <= (
            #[trigger] packets[j]).start,
    ensures
        by_start(packets) == packets,
    decreases packets.len(),
{
    if packets.len() > 0 {
        let rest = packets.drop_last();
        assert forall|i: int, j: int| 0 <= i <= j < rest.len() implies (
        #[trigger] rest[i]).start <= (#[trigger] rest[j]).start by {
            assert(rest[i] == packets[i] && rest[j] == packets[j]);
        }
        by_start_keeps(rest);
        let p = packets.last();
        if rest.len() > 0 {
            assert(packets[rest.len() - 1].start <= packets[packets.len() - 1].start);
            assert(rest.last() == packets[rest.len() - 1]);
        }
        assert(slot_of(rest, p) == rest.len());
        assert(rest.insert(rest.len() as int, p) =~= packets);
    }
}

/// The elements of the packets before the `k`-th; sums wrap as machine integers do.
pub open spec fn elements_before(packets: Seq<Packet>, k: int) -> usize
    decreases k,
{
    if k <= 0 {
        0
    } else {
        elements_before(packets, k - 1).wrapping_add(packets[k - 1].elements)
    }
}

/// Packets that know how many elements come before them.
pub open spec fn numbered(packets: Seq<Packet>) -> Seq<Packet> {
    Seq::new(
        packets.len(),
        |i: int| Packet { first: elements_before(packets, i), ..packets[i] },
    )
}

/// The index of the streams of a kind.
pub open spec fn index_of_kind(
    streams: Seq<Stream>,
    packets: Seq<(i32, Packet)>,
    kind: Kind,
) -> Seq<Packet> {
    numbered(by_start(packets_of_kind(streams, packets, kind)))
}

fn is_carried(streams: &[Stream], id: i32, kind: Kind) -> (yes: bool)
    ensures
        yes == carries(streams@, id, kind),
{
    let n: usize = streams.len();
    for i in 0..n
        invariant
            n == streams@.len(),
            forall|j: int|
                0 <= j < i ==> !((#[trigger] streams@[j]).id == id && streams@[j].kind == kind),
    {
        if streams[i].id == id && streams[i].kind == kind {
            return true;
        }
    }
    false
}

/// Puts a packet where it belongs among packets in order.
fn insert_by_start(sorted: &mut Vec<Packet>, p: Packet)
    ensures
        final(sorted)@ == old(sorted)@.insert(slot_of(old(sorted)@, p), p),
{
    let mut at: usize = sorted.len();
    let ghost before = sorted@;
    assert(before.take(at as int) =~= before);
    while at > 0 && sorted[at - 1].start > p.start
        invariant
            at <= sorted@.len(),
            before == sorted@,
            slot_of(before, p) == slot_of(before.take(at as int), p),
        decreases at,
    {
        assert(before.take(at as int).drop_last() =~= before.take(at - 1));
        at -= 1;
    }
    proof {
        slot_bounds(before, p);
    }
    sorted.insert(at, p);
}

/// The index of the streams of a kind: their packets by start time, each with the number of
/// elements before it.
pub fn index_kind(streams: &[Stream], packets: &[(i32, Packet)], kind: Kind) -> (index: Vec<Packet>)
    ensures
        index@ == index_of_kind(streams@, packets@, kind),
{
    let mut sorted: Vec<Packet> = Vec::new();
    let n: usize = packets.len();
    let ghost all = packets@;
    assert(all.take(0) =~= Seq::<(i32, Packet)>::empty());
    for i in 0..n
        invariant
            n == packets@.len(),
            all == packets@,
            sorted@ == by_start(packets_of_kind(streams@, all.take(i as int), kind)),
    {
        assert(all.take(i + 1).drop_last() =~= all.take(i as int));
        let (id, p) = packets[i];
        if is_carried(streams, id, kind) {
            let ghost chosen = packets_of_kind(streams@, all.take(i as int), kind);
            insert_by_start(&mut sorted, p);
            assert(chosen.push(p).drop_last() =~= chosen);
        }
    }
    assert(all.take(n as int) =~= all);
    let mut first: usize = 0;
    let count: usize = sorted.len();
    let mut index: Vec<Packet> = Vec::with_capacity(count);
    let ghost unnumbered = sorted@;
    for i in 0..count
        invariant
            count == unnumbered.len(),
            sorted@ == unnumbered,
            first == elements_before(unnumbered, i as int),
            index@ == numbered(unnumbered).take(i as int),
    {
        let mut p = sorted[i];
        p.first = first;
        first = first.wrapping_add(p.elements);
        index.push(p);
        assert(index@ =~= numbered(unnumbered).take(i + 1));
    }
    assert(numbered(unnumbered).take(count as int) =~= numbered(unnumbered));
    index
}

} // verus!
