//! What reading an AEDAT 4 recording gives back.

use vstd::prelude::*;

use crate::bytes::{le32, le32_bytes};
use crate::io::aedat4::{
    contributed, event_stream_size, gathered, lists, opens, sensor_of, touches, Aedat4SliceSource,
    Window,
};
use crate::io::aedat4_build::{
    chosen, header_bytes, header_patched, header_reads, packet_body,
    encoded_len, packet_contributes, packet_span, storable,
};
use crate::io::aedat4_header::{
    front_says, has_header, has_magic, header_buffer, header_len, header_says, magic, Header,
};
use crate::io::aedat4_packets::{
    body_bytes, body_of, by_start_keeps, carries, elements_before, index_of_kind, numbered,
    packets_of_kind, places, walked, Packet,
};
use crate::io::aedat4_sink::{
    as_signed, body_place, closed_recording, entries_of, entry_of, front, info_bytes, packed,
    packet_bytes, recording, split, valid, valid_packet, Written,
};
use crate::io::aedat4_streams::{declared_streams, Kind, Stream};
use crate::io::aedat4_info::{document_reads, info_document, info_len};
use crate::io::aedat4_table::{
    recordable, recorded, table_bytes, table_fits, table_reads,
};
use crate::io::compression::{content_of, header_value, header_value_names, Compression};
use crate::io::flat_builder::front32;
use crate::io::flatbuffer::root_of;
use crate::stream::{part, part_concat, within, within_concat, within_none, RawEvent};

verus! {

/// Runs of events one after the other.
pub open spec fn joined(chunks: Seq<Seq<RawEvent>>) -> Seq<RawEvent>
    decreases chunks.len(),
{
    if chunks.len() == 0 {
        Seq::empty()
    } else {
        joined(chunks.drop_last()) + chunks.last()
    }
}

/// A packet holds the given events: its body says so, and the index counts them right.
pub open spec fn holds(data: Seq<u8>, c: Compression, p: Packet, events: Seq<RawEvent>) -> bool {
    &&& body_of(data, c, p.offset as int, p.size as int) is Some
    &&& p.elements == events.len()
    &&& forall|w: Window| #[trigger]
        contributed(
            body_of(data, c, p.offset as int, p.size as int)->0,
            p.first,
            w,
        ) == Some(chosen(events, p.first, w, events.len() as int))
}

/// Packets hold the given runs of events, and are numbered right.
pub open spec fn sound(
    data: Seq<u8>,
    c: Compression,
    packets: Seq<Packet>,
    chunks: Seq<Seq<RawEvent>>,
) -> bool {
    &&& packets.len() == chunks.len()
    &&& joined(chunks).len() <= usize::MAX
    &&& forall|k: int|
        0 <= k < packets.len() ==> holds(data, c, #[trigger] packets[k], chunks[k])
            && packets[k].first == joined(chunks.take(k)).len()
}

proof fn joined_grows(chunks: Seq<Seq<RawEvent>>, k: int)
    requires
        0 <= k <= chunks.len(),
    ensures
        joined(chunks.take(k)).len() <= joined(chunks).len(),
    decreases chunks.len() - k,
{
    if k < chunks.len() {
        joined_grows(chunks, k + 1);
        assert(chunks.take(k + 1).drop_last() =~= chunks.take(k));
    } else {
        assert(chunks.take(k) =~= chunks);
    }
}

/// What an index window picks of a run that `first` events come before.
proof fn chosen_by_index(events: Seq<RawEvent>, first: usize, i0: usize, i1: usize, n: int)
    requires
        0 <= n <= events.len(),
        first + events.len() <= usize::MAX,
    ensures
        chosen(events, first, Window::Index(i0, i1), n) == part(
            events.take(n),
            i0 - first,
            i1 - first,
        ),
    decreases n,
{
    let w = Window::Index(i0, i1);
    if n == 0 {
        assert(chosen(events, first, w, 0) =~= part(events.take(0), i0 - first, i1 - first));
    } else {
        chosen_by_index(events, first, i0, i1, n - 1);
        let place = first.wrapping_add((n - 1) as usize);
        assert(place == first + n - 1);
        assert(chosen(events, first, w, n) =~= part(events.take(n), i0 - first, i1 - first));
    }
}

/// What a time window picks of a run.
proof fn chosen_by_time(events: Seq<RawEvent>, first: usize, t0: i64, t1: i64, n: int)
    requires
        0 <= n <= events.len(),
    ensures
        chosen(events, first, Window::Time(t0, t1), n) == within(
            events.take(n),
            t0 as int,
            t1 as int,
        ),
    decreases n,
{
    if n > 0 {
        chosen_by_time(events, first, t0, t1, n - 1);
        assert(events.take(n).drop_last() =~= events.take(n - 1));
    }
}

/// An index slice holds the events numbered `i0` to before `i1`: cutting the recording first or
/// reading all of it and cutting then is the same.
pub proof fn index_slices_agree(
    data: Seq<u8>,
    c: Compression,
    packets: Seq<Packet>,
    chunks: Seq<Seq<RawEvent>>,
    i0: usize,
    i1: usize,
)
    requires
        sound(data, c, packets, chunks),
    ensures
        gathered(data, c, packets, packets.len() as int, Window::Index(i0, i1)) == Some(
            part(joined(chunks), i0 as int, i1 as int),
        ),
{
    index_gathers(data, c, packets, chunks, i0, i1, packets.len() as int);
    assert(chunks.take(chunks.len() as int) =~= chunks);
}

proof fn index_gathers(
    data: Seq<u8>,
    c: Compression,
    packets: Seq<Packet>,
    chunks: Seq<Seq<RawEvent>>,
    i0: usize,
    i1: usize,
    k: int,
)
    requires
        sound(data, c, packets, chunks),
        0 <= k <= packets.len(),
    ensures
        gathered(data, c, packets, k, Window::Index(i0, i1)) == Some(
            part(joined(chunks.take(k)), i0 as int, i1 as int),
        ),
    decreases k,
{
    let w = Window::Index(i0, i1);
    if k == 0 {
        assert(part(joined(chunks.take(0)), i0 as int, i1 as int) =~= Seq::<RawEvent>::empty());
    } else {
        index_gathers(data, c, packets, chunks, i0, i1, k - 1);
        let p = packets[k - 1];
        let events = chunks[k - 1];
        let before = joined(chunks.take(k - 1));
        assert(holds(data, c, p, events));
        assert(chunks.take(k).drop_last() =~= chunks.take(k - 1));
        assert(chunks.take(k).last() == events);
        joined_grows(chunks, k);
        part_concat(before, events, i0 as int, i1 as int);
        assert(p.first == before.len());
        assert(p.first.wrapping_add(p.elements) == before.len() + events.len());
        let more = part(events, i0 - before.len(), i1 - before.len());
        if touches(w, p) {
            let b = body_of(data, c, p.offset as int, p.size as int)->0;
            assert(contributed(b, p.first, w) == Some(
                chosen(events, p.first, w, events.len() as int),
            ));
            chosen_by_index(events, p.first, i0, i1, events.len() as int);
            assert(events.take(events.len() as int) =~= events);
        } else {
            assert(more =~= Seq::<RawEvent>::empty());
            assert(part(before, i0 as int, i1 as int) + more =~= part(
                before,
                i0 as int,
                i1 as int,
            ));
        }
    }
}

/// The index knows when the events of each packet happened.
pub open spec fn timed(packets: Seq<Packet>, chunks: Seq<Seq<RawEvent>>) -> bool {
    forall|k: int, i: int|
        0 <= k < packets.len() && 0 <= i < chunks[k].len() ==> packets[k].start <= (
        #[trigger] chunks[k][i]).t <= packets[k].end
}

/// A time slice holds the events timed from `t0` to before `t1`, in the order of the recording.
pub proof fn time_slices_agree(
    data: Seq<u8>,
    c: Compression,
    packets: Seq<Packet>,
    chunks: Seq<Seq<RawEvent>>,
    t0: i64,
    t1: i64,
)
    requires
        sound(data, c, packets, chunks),
        timed(packets, chunks),
    ensures
        gathered(data, c, packets, packets.len() as int, Window::Time(t0, t1)) == Some(
            within(joined(chunks), t0 as int, t1 as int),
        ),
{
    time_gathers(data, c, packets, chunks, t0, t1, packets.len() as int);
    assert(chunks.take(chunks.len() as int) =~= chunks);
}

proof fn time_gathers(
    data: Seq<u8>,
    c: Compression,
    packets: Seq<Packet>,
    chunks: Seq<Seq<RawEvent>>,
    t0: i64,
    t1: i64,
    k: int,
)
    requires
        sound(data, c, packets, chunks),
        timed(packets, chunks),
        0 <= k <= packets.len(),
    ensures
        gathered(data, c, packets, k, Window::Time(t0, t1)) == Some(
            within(joined(chunks.take(k)), t0 as int, t1 as int),
        ),
    decreases k,
{
    let w = Window::Time(t0, t1);
    if k > 0 {
        time_gathers(data, c, packets, chunks, t0, t1, k - 1);
        let p = packets[k - 1];
        let events = chunks[k - 1];
        let before = joined(chunks.take(k - 1));
        assert(holds(data, c, p, events));
        assert(chunks.take(k).drop_last() =~= chunks.take(k - 1));
        assert(chunks.take(k).last() == events);
        within_concat(before, events, t0 as int, t1 as int);
        if touches(w, p) {
            let b = body_of(data, c, p.offset as int, p.size as int)->0;
            assert(contributed(b, p.first, w) == Some(
                chosen(events, p.first, w, events.len() as int),
            ));
            chosen_by_time(events, p.first, t0, t1, events.len() as int);
            assert(events.take(events.len() as int) =~= events);
        } else {
            assert forall|i: int| 0 <= i < events.len() implies !(t0 <= (#[trigger] events[i]).t
                < t1) by {
                assert(p.start <= chunks[k - 1][i].t <= p.end);
            }
            within_none(events, t0 as int, t1 as int);
            assert(within(before, t0 as int, t1 as int) + within(events, t0 as int, t1 as int)
                =~= within(before, t0 as int, t1 as int));
        }
    }
}

/// Where the packets of a recording lie.
pub proof fn packed_at(bodies: Seq<Seq<u8>>, k: int)
    requires
        0 <= k < bodies.len(),
    ensures
        ({
            let at = packed(bodies.take(k)).len() + 8int;
            &&& at + bodies[k].len() <= packed(bodies).len()
            &&& packed(bodies).subrange(at, at + bodies[k].len()) == bodies[k]
        }),
    decreases bodies.len(),
{
    let rest = bodies.drop_last();
    if k == bodies.len() - 1 {
        assert(bodies.take(k) =~= rest);
        let at = packed(rest).len() + 8int;
        assert(packed(bodies).subrange(at, at + bodies[k].len()) =~= bodies[k]);
    } else {
        packed_at(rest, k);
        assert(rest.take(k) =~= bodies.take(k));
        let at = packed(bodies.take(k)).len() + 8int;
        assert(packed(bodies).subrange(at, at + bodies[k].len()) =~= packed(rest).subrange(
            at,
            at + bodies[k].len(),
        ));
    }
}

/// The front of a recording has the same length wherever its data table is.
proof fn front_len(w: Written, position: int)
    requires
        info_bytes(w.width, w.height, w.scheme).len() <= 10_000,
    ensures
        front(w.width, w.height, w.scheme, position).len() == front(
            w.width,
            w.height,
            w.scheme,
            -1,
        ).len(),
{
    header_patched(
        info_bytes(w.width, w.height, w.scheme),
        header_value(w.scheme) as int,
        position,
    );
}

/// The body of a packet is found where its entry says, whatever comes after the packets.
proof fn body_found(w: Written, position: int, more: Seq<u8>, k: int)
    requires
        valid(w),
        info_bytes(w.width, w.height, w.scheme).len() <= 10_000,
        0 <= k < w.bodies.len(),
    ensures
        body_of(
            recording(w, position) + more,
            w.scheme,
            body_place(w, k),
            w.bodies[k].len() as int,
        ) == Some(packet_body(w.chunks[k])),
        body_place(w, k) + w.bodies[k].len() <= recording(w, position).len(),
        body_place(w, k) >= 0,
{
    front_len(w, position);
    packed_at(w.bodies, k);
    assert(valid_packet(w, w.bodies[k], k));
    let data = recording(w, position) + more;
    let at = body_place(w, k);
    assert(data.subrange(at, at + w.bodies[k].len()) =~= w.bodies[k]);
}

/// The packets of a recording, as its data table lists them.
pub open spec fn written_packets(w: Written) -> Seq<(i32, Packet)> {
    Seq::new(w.bodies.len(), |k: int| recorded(entry_of(w, k)))
}

/// The packets in order of writing, each with the number of events before it.
pub open spec fn written_index(w: Written) -> Seq<Packet> {
    numbered(Seq::new(w.bodies.len(), |k: int| recorded(entry_of(w, k)).1))
}

/// Whether every event can be stored and comes back: its coordinates fit, and the packets start in
/// time order.
pub open spec fn keeps_order(w: Written) -> bool {
    &&& forall|k: int| 0 <= k < w.chunks.len() ==> storable(#[trigger] w.chunks[k])
    &&& forall|i: int, j: int|
        0 <= i <= j < w.chunks.len() ==> (#[trigger] w.chunks[i])[0].t <= (
        #[trigger] w.chunks[j])[0].t
}

/// The index over a written recording is sound.
pub proof fn written_sound(w: Written, position: int, more: Seq<u8>)
    requires
        valid(w),
        info_bytes(w.width, w.height, w.scheme).len() <= 10_000,
        recording(w, -1).len() <= i64::MAX,
        joined(w.chunks).len() <= usize::MAX,
        forall|k: int| 0 <= k < w.chunks.len() ==> storable(#[trigger] w.chunks[k]),
    ensures
        sound(recording(w, position) + more, w.scheme, written_index(w), w.chunks),
{
    let data = recording(w, position) + more;
    let index = written_index(w);
    let plain = Seq::new(w.bodies.len(), |k: int| recorded(entry_of(w, k)).1);
    assert forall|k: int| 0 <= k < index.len() implies holds(
        data,
        w.scheme,
        #[trigger] index[k],
        w.chunks[k],
    ) && index[k].first == joined(w.chunks.take(k)).len() by {
        front_len(w, position);
        body_found(w, -1, Seq::empty(), k);
        body_found(w, position, more, k);
        assert(valid_packet(w, w.bodies[k], k));
        counts_add(w, k);
        let p = index[k];
        let events = w.chunks[k];
        assert(p.offset == body_place(w, k));
        assert(p.size == w.bodies[k].len());
        assert(storable(events));
        assert forall|v: Window| #[trigger]
            contributed(packet_body(events), p.first, v) == Some(
                chosen(events, p.first, v, events.len() as int),
            ) by {
            packet_contributes(events, p.first, v);
        }
    }
}

/// The running count of a written index is the number of events before each packet.
proof fn counts_add(w: Written, k: int)
    requires
        valid(w),
        joined(w.chunks).len() <= usize::MAX,
        0 <= k <= w.bodies.len(),
    ensures
        elements_before(
            Seq::new(w.bodies.len(), |k: int| recorded(entry_of(w, k)).1),
            k,
        ) == joined(w.chunks.take(k)).len(),
    decreases k,
{
    if k > 0 {
        counts_add(w, k - 1);
        joined_grows(w.chunks, k);
        assert(valid_packet(w, w.bodies[k - 1], k - 1));
        assert(w.chunks.take(k).drop_last() =~= w.chunks.take(k - 1));
    }
}

/// The streams of a recording of events for a `width` by `height` sensor.
pub open spec fn one_stream(streams: Seq<Stream>, width: int, height: int) -> bool {
    &&& streams.len() == 1
    &&& streams[0].id == 0
    &&& streams[0].kind == Kind::Events
    &&& streams[0].size == Some((width as usize, height as usize))
}

/// Indexing the written packets keeps their order.
proof fn index_kept(w: Written, streams: Seq<Stream>)
    requires
        valid(w),
        keeps_order(w),
        one_stream(streams, w.width, w.height),
    ensures
        index_of_kind(streams, written_packets(w), Kind::Events) == written_index(w),
{
    let packets = written_packets(w);
    let plain = Seq::new(w.bodies.len(), |k: int| recorded(entry_of(w, k)).1);
    all_chosen(w, streams, packets.len() as int);
    assert(packets.take(packets.len() as int) =~= packets);
    assert(plain.take(packets.len() as int) =~= plain);
    assert forall|i: int, j: int| 0 <= i <= j < plain.len() implies (#[trigger] plain[i]).start <= (
    #[trigger] plain[j]).start by {
        assert(w.chunks[i][0].t <= w.chunks[j][0].t);
    }
    by_start_keeps(plain);
}

proof fn all_chosen(w: Written, streams: Seq<Stream>, k: int)
    requires
        one_stream(streams, w.width, w.height),
        0 <= k <= w.bodies.len(),
    ensures
        packets_of_kind(streams, written_packets(w).take(k), Kind::Events) == Seq::new(
            w.bodies.len(),
            |k: int| recorded(entry_of(w, k)).1,
        ).take(k),
    decreases k,
{
    let packets = written_packets(w);
    let plain = Seq::new(w.bodies.len(), |k: int| recorded(entry_of(w, k)).1);
    if k == 0 {
        assert(packets_of_kind(streams, packets.take(0), Kind::Events) =~= plain.take(0));
    } else {
        all_chosen(w, streams, k - 1);
        assert(packets.take(k).drop_last() =~= packets.take(k - 1));
        assert(streams[0].id == 0 && streams[0].kind == Kind::Events);
        assert(carries(streams, 0, Kind::Events));
        assert(plain.take(k) =~= plain.take(k - 1).push(plain[k - 1]));
    }
}

/// The front of a recording says what it was written with.
#[verifier::spinoff_prover]
#[verifier::rlimit(40)]
pub proof fn front_reads_back(w: Written, position: int, more: Seq<u8>, h: Header)
    requires
        info_bytes(w.width, w.height, w.scheme).len() <= 10_000,
        i64::MIN <= position <= i64::MAX,
        front_says(recording(w, position) + more, h),
    ensures
        h.compression == w.scheme,
        h.data_table_position == position,
        h.streams@ == declared_streams(info_document(w.width, w.height, w.scheme)),
        h.body_offset == front(w.width, w.height, w.scheme, -1).len(),
{
    let data = recording(w, position) + more;
    let info = info_bytes(w.width, w.height, w.scheme);
    let scheme = header_value(w.scheme) as int;
    let header = header_bytes(info, scheme, position);
    assert(header_buffer(data) == header && header_len(data) == header.len()) by {
        front_found(w, position, more);
    }
    header_determines(w, position, 18int + header.len(), h);
    assert(front(w.width, w.height, w.scheme, -1).len() == 18 + header.len()) by {
        front_len(w, position);
    }
}

/// A written header buffer says one thing only.
proof fn header_determines(w: Written, position: int, body: int, h: Header)
    requires
        info_bytes(w.width, w.height, w.scheme).len() <= 10_000,
        i64::MIN <= position <= i64::MAX,
        ({
            let header = header_bytes(
                info_bytes(w.width, w.height, w.scheme),
                header_value(w.scheme) as int,
                position,
            );
            root_of(header, 0) is Some && header_says(header, root_of(header, 0)->0, body, h)
        }),
    ensures
        h.compression == w.scheme,
        h.data_table_position == position,
        h.streams@ == declared_streams(info_document(w.width, w.height, w.scheme)),
        h.body_offset == body,
{
    header_reads(info_document(w.width, w.height, w.scheme), header_value(w.scheme) as int, position);
    header_value_names(w.scheme);
}

/// The header buffer of a recording is the one that was written.
proof fn front_found(w: Written, position: int, more: Seq<u8>)
    requires
        info_bytes(w.width, w.height, w.scheme).len() <= 10_000,
    ensures
        ({
            let data = recording(w, position) + more;
            let header = header_bytes(
                info_bytes(w.width, w.height, w.scheme),
                header_value(w.scheme) as int,
                position,
            );
            &&& has_magic(data)
            &&& has_header(data)
            &&& header_len(data) == header.len()
            &&& header_buffer(data) == header
        }),
{
    let data = recording(w, position) + more;
    let info = info_bytes(w.width, w.height, w.scheme);
    let scheme = header_value(w.scheme) as int;
    let header = header_bytes(info, scheme, position);
    crate::io::aedat4_build::header_small(info, scheme, position);
    let rest = header + (packed(w.bodies) + more);
    let sized = le32_bytes(header.len() as int) + rest;
    assert(data =~= magic() + sized);
    assert(data.take(14) =~= magic());
    front32(header.len() as int, rest);
    assert(le32(data, 14) == le32(sized, 0)) by {
        assert(data[14] == sized[0]);
        assert(data[15] == sized[1]);
        assert(data[16] == sized[2]);
        assert(data[17] == sized[3]);
    }
    assert(data.subrange(18, 18int + header.len()) =~= header);
}

/// A finished recording lists the packets that were written into it.
pub proof fn closed_lists(w: Written, table: Seq<u8>, h: Header, packets: Seq<(i32, Packet)>)
    requires
        valid(w),
        info_bytes(w.width, w.height, w.scheme).len() <= 10_000,
        recording(w, -1).len() <= i64::MAX,
        table_fits(entries_of(w)),
        content_of(w.scheme, table) == Some(table_bytes(entries_of(w))),
        table.len() > 0,
        front_says(closed_recording(w, table), h),
        lists(closed_recording(w, table), h, packets),
    ensures
        packets == written_packets(w),
{
    let position = recording(w, -1).len() as int;
    assert(as_signed(position) == position);
    let data = closed_recording(w, table);
    front_reads_back(w, position, table, h);
    front_len(w, position);
    assert(recording(w, position).len() == position);
    assert(data.subrange(position, data.len() as int) =~= table);
    assert(body_bytes(data, position, data.len() - position) =~= table);
    let ds = entries_of(w);
    assert forall|i: int| 0 <= i < ds.len() implies recordable(#[trigger] ds[i]) by {
        body_found(w, -1, Seq::empty(), i);
        assert(valid_packet(w, w.bodies[i], i));
        assert(recording(w, -1) + Seq::empty() =~= recording(w, -1));
    }
    table_reads(ds);
    assert(Seq::new(ds.len(), |i: int| recorded(ds[i])) =~= written_packets(w));
}

/// A recording abandoned before its data table was written lists its packets all the same.
pub proof fn open_lists(w: Written, h: Header, packets: Seq<(i32, Packet)>)
    requires
        valid(w),
        info_bytes(w.width, w.height, w.scheme).len() <= 10_000,
        recording(w, -1).len() <= i64::MAX,
        front_says(recording(w, -1), h),
        lists(recording(w, -1), h, packets),
    ensures
        packets == written_packets(w),
{
    let data = recording(w, -1);
    let start = front(w.width, w.height, w.scheme, -1);
    assert(data + Seq::empty() =~= data);
    front_reads_back(w, -1, Seq::empty(), h);
    walk_found(w, 0);
    assert(w.bodies.take(0) =~= Seq::<Seq<u8>>::empty());
    assert forall|k: int| 0 <= k < packets.len() implies packets[k] == written_packets(w)[k] by {
        let place = places(data, start.len() as int)[k];
        body_found(w, -1, Seq::empty(), k);
        assert(packets[k].0 == place.0 && walked(data, w.scheme, place, packets[k].1));
        assert(valid_packet(w, w.bodies[k], k));
        packet_span(w.chunks[k]);
    }
    assert(packets =~= written_packets(w));
}

/// Walking a recording finds the packets that were written into it.
#[verifier::spinoff_prover]
#[verifier::rlimit(60)]
proof fn walk_found(w: Written, k: int)
    requires
        valid(w),
        0 <= k <= w.bodies.len(),
    ensures
        ({
            let data = recording(w, -1);
            let at = front(w.width, w.height, w.scheme, -1).len() + packed(w.bodies.take(k)).len()
                + 0int;
            places(data, at as int) == Seq::new(
                (w.bodies.len() - k) as nat,
                |i: int| (0int, body_place(w, k + i), w.bodies[k + i].len() as int),
            )
        }),
    decreases w.bodies.len() - k,
{
    let data = recording(w, -1);
    let start = front(w.width, w.height, w.scheme, -1);
    let at = start.len() + packed(w.bodies.take(k)).len();
    let wanted = Seq::new(
        (w.bodies.len() - k) as nat,
        |i: int| (0int, body_place(w, k + i), w.bodies[k + i].len() as int),
    );
    if k == w.bodies.len() {
        assert(w.bodies.take(k) =~= w.bodies);
        assert(places(data, at as int) =~= wanted);
    } else {
        walk_found(w, k + 1);
        packet_found(w, k);
        assert(w.bodies.take(k + 1).drop_last() =~= w.bodies.take(k));
        assert(places(data, at as int) =~= wanted);
    }
}

/// The head of a packet says what follows it.
proof fn packet_found(w: Written, k: int)
    requires
        valid(w),
        0 <= k < w.bodies.len(),
    ensures
        ({
            let data = recording(w, -1);
            let at = front(w.width, w.height, w.scheme, -1).len() + packed(w.bodies.take(k)).len()
                + 0int;
            &&& le32(data, at as int) == 0
            &&& le32(data, at + 4) == w.bodies[k].len()
            &&& at + 8 + w.bodies[k].len() <= data.len()
            &&& w.bodies[k].len() <= i32::MAX
        }),
{
    let data = recording(w, -1);
    let start = front(w.width, w.height, w.scheme, -1);
    let at = (start.len() + packed(w.bodies.take(k)).len()) as int;
    let body = w.bodies[k];
    assert(valid_packet(w, w.bodies[k], k));
    packed_at(w.bodies, k);
    packed_head(w.bodies, k);
    let inner = packed(w.bodies.take(k)).len() as int;
    let all = packed(w.bodies);
    let head = packet_bytes(body);
    assert(all.subrange(inner, inner + 8) == head.take(8));
    assert forall|j: int| 0 <= j < 8 implies data[at + j] == #[trigger] head[j] by {
        assert(data[at + j] == all[inner + j]);
        assert(all.subrange(inner, inner + 8)[j] == all[inner + j]);
        assert(head.take(8)[j] == head[j]);
    }
    let sized = le32_bytes(body.len() as int) + body;
    front32(0, sized);
    front32(body.len() as int, body);
    assert(data[at] == head[0] && data[at + 1] == head[1] && data[at + 2] == head[2] && data[at + 3]
        == head[3]);
    assert(data[at + 4] == head[4] && data[at + 5] == head[5] && data[at + 6] == head[6] && data[at
        + 7] == head[7]);
    assert(head[4] == sized[0] && head[5] == sized[1] && head[6] == sized[2] && head[7]
        == sized[3]);
}

proof fn packed_head(bodies: Seq<Seq<u8>>, k: int)
    requires
        0 <= k < bodies.len(),
    ensures
        ({
            let at = packed(bodies.take(k)).len() as int;
            &&& at + 8 <= packed(bodies).len()
            &&& packed(bodies).subrange(at, at + 8) == packet_bytes(bodies[k]).take(8)
        }),
    decreases bodies.len(),
{
    let rest = bodies.drop_last();
    let at = packed(bodies.take(k)).len() as int;
    if k == bodies.len() - 1 {
        assert(bodies.take(k) =~= rest);
        assert(packed(bodies).subrange(at, at + 8) =~= packet_bytes(bodies[k]).take(8));
    } else {
        packed_head(rest, k);
        assert(rest.take(k) =~= bodies.take(k));
        assert(packed(bodies).subrange(at, at + 8) =~= packed(rest).subrange(at, at + 8));
    }
}

/// Runs joined in two goes.
proof fn joined_concat(a: Seq<Seq<RawEvent>>, b: Seq<Seq<RawEvent>>)
    ensures
        joined(a + b) == joined(a) + joined(b),
    decreases b.len(),
{
    if b.len() == 0 {
        assert(a + b =~= a);
        assert(joined(a) + joined(b) =~= joined(a));
    } else {
        assert((a + b).drop_last() =~= a + b.drop_last());
        joined_concat(a, b.drop_last());
        assert(joined(a) + joined(b) =~= (joined(a) + joined(b.drop_last())) + b.last());
    }
}

/// Splitting a window of events into packets loses none and keeps their order.
pub proof fn split_joins(events: Seq<RawEvent>)
    ensures
        joined(split(events)) == events,
    decreases events.len(),
{
    if events.len() == 0 {
    } else if events.len() <= 100_000 {
        reveal_with_fuel(joined, 2);
        assert(seq![events].drop_last() =~= Seq::<Seq<RawEvent>>::empty());
        assert(joined(seq![events]) =~= events);
    } else {
        let head = events.take(100_000);
        let rest = events.skip(100_000);
        split_joins(rest);
        reveal_with_fuel(joined, 2);
        assert(seq![head].drop_last() =~= Seq::<Seq<RawEvent>>::empty());
        assert(joined(seq![head]) =~= head);
        joined_concat(seq![head], split(rest));
        assert(head + rest =~= events);
    }
}

/// What is written after one more window is what was written before, then the window.
pub proof fn appended_joins(before: Seq<Seq<RawEvent>>, events: Seq<RawEvent>)
    ensures
        joined(before + split(events)) == joined(before) + events,
{
    split_joins(events);
    joined_concat(before, split(events));
}

/// A recording for a sensor that can be described: its document is short.
proof fn info_small(w: Written)
    requires
        0 <= w.width <= usize::MAX,
        0 <= w.height <= usize::MAX,
    ensures
        info_bytes(w.width, w.height, w.scheme).len() <= 10_000,
{
    info_len(w.width as usize, w.height as usize, w.scheme);
    encoded_len(info_document(w.width, w.height, w.scheme));
}

/// The index of a source over a written recording.
proof fn source_indexes(w: Written, h: Header, s: Aedat4SliceSource)
    requires
        valid(w),
        keeps_order(w),
        0 < w.width <= usize::MAX,
        0 < w.height <= usize::MAX,
        h.streams@ == declared_streams(info_document(w.width, w.height, w.scheme)),
        h.compression == w.scheme,
        sensor_of(h.streams@, None) is Some,
        s.indexes(
            h.compression,
            h.streams@,
            written_packets(w),
            sensor_of(h.streams@, None)->0,
        ),
    ensures
        s.compression() == w.scheme,
        s.width() == w.width,
        s.height() == w.height,
        s.event_packets() == written_index(w),
{
    document_reads(w.width as usize, w.height as usize, w.scheme);
    let streams = h.streams@;
    assert(one_stream(streams, w.width, w.height));
    assert(event_stream_size(streams) == Some((w.width as usize, w.height as usize)));
    index_kept(w, streams);
}

/// The count of a source over a written recording is the number of events written.
proof fn source_counts(w: Written, s: Aedat4SliceSource)
    requires
        valid(w),
        joined(w.chunks).len() <= usize::MAX,
        s.event_packets() == written_index(w),
    ensures
        s.event_count() == joined(w.chunks).len(),
{
    let n = w.bodies.len() as int;
    if n > 0 {
        counts_add(w, n - 1);
        counts_add(w, n);
        assert(w.chunks.take(n) =~= w.chunks);
        assert(valid_packet(w, w.bodies[n - 1], n - 1));
    }
}

/// A finished recording reads back: whatever was appended, in order, comes out of it, whole or
/// sliced by index.
pub proof fn finished_reads_back(
    w: Written,
    table: Seq<u8>,
    s: Aedat4SliceSource,
    i0: usize,
    i1: usize,
)
    requires
        valid(w),
        keeps_order(w),
        0 < w.width <= usize::MAX,
        0 < w.height <= usize::MAX,
        table_fits(entries_of(w)),
        recording(w, -1).len() <= i64::MAX,
        joined(w.chunks).len() <= usize::MAX,
        content_of(w.scheme, table) == Some(table_bytes(entries_of(w))),
        table.len() > 0,
        opens(closed_recording(w, table), None, s),
    ensures
        s.width() == w.width,
        s.height() == w.height,
        s.event_count() == joined(w.chunks).len(),
        gathered(
            closed_recording(w, table),
            s.compression(),
            s.event_packets(),
            s.event_packets().len() as int,
            Window::Index(i0, i1),
        ) == Some(part(joined(w.chunks), i0 as int, i1 as int)),
{
    let data = closed_recording(w, table);
    info_small(w);
    let (h, packets) = choose|h: Header, packets: Seq<(i32, Packet)>|
        #![trigger lists(data, h, packets)]
        {
            &&& front_says(data, h)
            &&& lists(data, h, packets)
            &&& sensor_of(h.streams@, None) is Some
            &&& s.indexes(h.compression, h.streams@, packets, sensor_of(h.streams@, None)->0)
        };
    let position = as_signed(recording(w, -1).len() as int);
    front_reads_back(w, position, table, h);
    closed_lists(w, table, h, packets);
    source_indexes(w, h, s);
    source_counts(w, s);
    written_sound(w, position, table);
    index_slices_agree(data, w.scheme, written_index(w), w.chunks, i0, i1);
}

/// A recording abandoned before its data table was written reads back as well.
pub proof fn abandoned_reads_back(w: Written, s: Aedat4SliceSource, i0: usize, i1: usize)
    requires
        valid(w),
        keeps_order(w),
        0 < w.width <= usize::MAX,
        0 < w.height <= usize::MAX,
        recording(w, -1).len() <= i64::MAX,
        joined(w.chunks).len() <= usize::MAX,
        opens(recording(w, -1), None, s),
    ensures
        s.width() == w.width,
        s.height() == w.height,
        s.event_count() == joined(w.chunks).len(),
        gathered(
            recording(w, -1),
            s.compression(),
            s.event_packets(),
            s.event_packets().len() as int,
            Window::Index(i0, i1),
        ) == Some(part(joined(w.chunks), i0 as int, i1 as int)),
{
    let data = recording(w, -1);
    info_small(w);
    let (h, packets) = choose|h: Header, packets: Seq<(i32, Packet)>|
        #![trigger lists(data, h, packets)]
        {
            &&& front_says(data, h)
            &&& lists(data, h, packets)
            &&& sensor_of(h.streams@, None) is Some
            &&& s.indexes(h.compression, h.streams@, packets, sensor_of(h.streams@, None)->0)
        };
    assert(data + Seq::empty() =~= data);
    front_reads_back(w, -1, Seq::empty(), h);
    open_lists(w, h, packets);
    source_indexes(w, h, s);
    source_counts(w, s);
    written_sound(w, -1, Seq::empty());
    index_slices_agree(data, w.scheme, written_index(w), w.chunks, i0, i1);
}

} // verus!
