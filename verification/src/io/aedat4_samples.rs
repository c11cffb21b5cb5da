//! What the tables of inertial samples and of frames in an AEDAT 4 recording mean, and that a time
//! window misses none of them.

use vstd::prelude::*;

use crate::bytes::{bits32, bits64, le16_bytes, le32_bytes, le64_bytes};
use crate::io::aedat4::{
    admitted, cut_samples, frame_at, frame_says, gathered_frames, gathered_readings, picture_samples, reading_at, readings,
    red_first, stored_event, ImuReading, Picture, TimedPicture, Window,
};
use crate::io::aedat4_packets::{
    body_of, definition, elements_before, named, numbered, packets_of_kind, span, Packet,
};
use crate::io::aedat4_streams::{Kind, Stream};
use crate::io::compression::Compression;
use crate::io::flat_builder::{ends_with, field_found, fields_fit, table_place, with_table};
use crate::io::flatbuffer::{field_of, i8_of, root_of, tables_of, vector_of};
use crate::places::{are_places, places_agree, places_push};
use crate::stream::RawEvent;

verus! {

/// Whether the field in a slot of a table is there and holds some bytes.
pub open spec fn stores(b: Seq<u8>, at: int, slot: int, bytes: Seq<u8>) -> bool {
    match field_of(b, at, slot) {
        Some(f) => 0 <= f && f + bytes.len() <= b.len() && forall|i: int|
            0 <= i < bytes.len() ==> b[f + i] == #[trigger] bytes[i],
        None => false,
    }
}

/// A sample table keeps the time in slot 4, the acceleration along the three axes in slots 8, 10
/// and 12, and the rotation about them in slots 14, 16 and 18.
#[verifier::spinoff_prover]
#[verifier::rlimit(40)]
pub proof fn sample_slots(b: Seq<u8>, at: int, t: i64, a: (u32, u32, u32), r: (u32, u32, u32))
    requires
        stores(b, at, 4, le64_bytes(bits64(t as int))),
        stores(b, at, 8, le32_bytes(a.0 as int)),
        stores(b, at, 10, le32_bytes(a.1 as int)),
        stores(b, at, 12, le32_bytes(a.2 as int)),
        stores(b, at, 14, le32_bytes(r.0 as int)),
        stores(b, at, 16, le32_bytes(r.1 as int)),
        stores(b, at, 18, le32_bytes(r.2 as int)),
    ensures
        reading_at(b, at) == (ImuReading { t, acceleration: a, rotation: r }),
{
    time_stored(b, at, 4, t);
    word_stored(b, at, 8, a.0);
    word_stored(b, at, 10, a.1);
    word_stored(b, at, 12, a.2);
    word_stored(b, at, 14, r.0);
    word_stored(b, at, 16, r.1);
    word_stored(b, at, 18, r.2);
}

proof fn word_stored(b: Seq<u8>, at: int, slot: int, v: u32)
    requires
        stores(b, at, slot, le32_bytes(v as int)),
    ensures
        crate::io::flatbuffer::f32_bits_of(b, at, slot) == v,
{
    let w = le32_bytes(v as int);
    let f = field_of(b, at, slot)->0;
    assert(w.len() == 4);
    assert(b[f + 0] == w[0] && b[f + 1] == w[1] && b[f + 2] == w[2] && b[f + 3] == w[3]);
    crate::bytes::word_round_trip(v as int);
}

proof fn time_stored(b: Seq<u8>, at: int, slot: int, t: i64)
    requires
        stores(b, at, slot, le64_bytes(bits64(t as int))),
    ensures
        crate::io::flatbuffer::i64_of(b, at, slot, 0) == t,
{
    let v = bits64(t as int);
    let w = le64_bytes(v);
    let f = field_of(b, at, slot)->0;
    assert(w.len() == 8);
    assert(b[f + 0] == w[0] && b[f + 1] == w[1] && b[f + 2] == w[2] && b[f + 3] == w[3]);
    assert(b[f + 4] == w[4] && b[f + 5] == w[5] && b[f + 6] == w[6] && b[f + 7] == w[7]);
    crate::bytes::le64_round_trip(v);
}

/// Whether some bytes stand at a place counted from the end of a buffer.
pub open spec fn stands(b: Seq<u8>, place: int, bytes: Seq<u8>) -> bool {
    &&& bytes.len() <= place <= b.len()
    &&& forall|i: int| 0 <= i < bytes.len() ==> b[b.len() - place + i] == #[trigger] bytes[i]
}

/// A sample written as a table, its fields at any places, reads back as it was.
#[verifier::spinoff_prover]
#[verifier::rlimit(40)]
pub proof fn sample_reads_back(
    b: Seq<u8>,
    tail: Seq<u8>,
    start: int,
    places: Seq<usize>,
    sample: ImuReading,
)
    requires
        places.len() == 7,
        ({
            let fields = seq![
                (4usize, places[0]),
                (8usize, places[1]),
                (10usize, places[2]),
                (12usize, places[3]),
                (14usize, places[4]),
                (16usize, places[5]),
                (18usize, places[6]),
            ];
            &&& ends_with(b, with_table(tail, start, fields))
            &&& fields_fit(fields, table_place(tail), start)
        }),
        b.len() <= usize::MAX,
        start <= tail.len(),
        forall|i: int| 0 <= i < 7 ==> #[trigger] places[i] < table_place(tail),
        stands(b, places[0] as int, le64_bytes(bits64(sample.t as int))),
        stands(b, places[1] as int, le32_bytes(sample.acceleration.0 as int)),
        stands(b, places[2] as int, le32_bytes(sample.acceleration.1 as int)),
        stands(b, places[3] as int, le32_bytes(sample.acceleration.2 as int)),
        stands(b, places[4] as int, le32_bytes(sample.rotation.0 as int)),
        stands(b, places[5] as int, le32_bytes(sample.rotation.1 as int)),
        stands(b, places[6] as int, le32_bytes(sample.rotation.2 as int)),
    ensures
        reading_at(b, b.len() - table_place(tail)) == sample,
{
    let fields = seq![
        (4usize, places[0]),
        (8usize, places[1]),
        (10usize, places[2]),
        (12usize, places[3]),
        (14usize, places[4]),
        (16usize, places[5]),
        (18usize, places[6]),
    ];
    let at = b.len() - table_place(tail);
    field_found(b, tail, start, fields, 0);
    field_found(b, tail, start, fields, 1);
    field_found(b, tail, start, fields, 2);
    field_found(b, tail, start, fields, 3);
    field_found(b, tail, start, fields, 4);
    field_found(b, tail, start, fields, 5);
    field_found(b, tail, start, fields, 6);
    sample_slots(b, at, sample.t, sample.acceleration, sample.rotation);
}

/// The samples of a packet that lie in a time window are exactly those not before its beginning and
/// before its end, in the order of the packet.
pub proof fn window_samples(b: Seq<u8>, tables: Seq<int>, t0: int, t1: int) -> (places: Seq<int>)
    ensures
        are_places(
            places,
            tables.len() as int,
            |i: int| t0 <= reading_at(b, tables[i]).t && reading_at(b, tables[i]).t < t1,
        ),
        readings(b, tables, t0, t1).len() == places.len(),
        forall|k: int|
            0 <= k < places.len() ==> #[trigger] readings(b, tables, t0, t1)[k] == reading_at(
                b,
                tables[places[k]],
            ),
    decreases tables.len(),
{
    let holds = |i: int| t0 <= reading_at(b, tables[i]).t && reading_at(b, tables[i]).t < t1;
    if tables.len() == 0 {
        Seq::empty()
    } else {
        let rest = tables.drop_last();
        let before = window_samples(b, rest, t0, t1);
        let held = |i: int| t0 <= reading_at(b, rest[i]).t && reading_at(b, rest[i]).t < t1;
        assert forall|i: int| 0 <= i < rest.len() implies #[trigger] holds(i) == held(i) by {
            assert(rest[i] == tables[i]);
        }
        assert(are_places(before, rest.len() as int, holds)) by {
            assert forall|k: int| 0 <= k < before.len() implies 0 <= (#[trigger] before[k])
                < rest.len() && holds(before[k]) by {
                assert(held(before[k]));
            }
            assert forall|i: int| 0 <= i < rest.len() && #[trigger] holds(i) implies before.contains(
                i,
            ) by {
                assert(held(i));
            }
        }
        places_push(before, rest.len() as int, holds);
        if holds(rest.len() as int) {
            before.push(rest.len() as int)
        } else {
            before
        }
    }
}

/// Whether a packet holds a list of sample tables, each with a time in the packet's span.
pub open spec fn packs_samples(data: Seq<u8>, c: Compression, p: Packet, b: Seq<u8>) -> bool {
    &&& body_of(data, c, p.offset as int, p.size as int) == Some(b)
    &&& root_of(b, 4) matches Some(root) && !cut_samples(b, root) && forall|i: int|
        0 <= i < tables_of(b, root, 4).len() ==> p.start <= reading_at(
            b,
            #[trigger] tables_of(b, root, 4)[i],
        ).t <= p.end
}

/// The samples of some packets in a time window, packet by packet.
pub open spec fn window_of_bodies(bodies: Seq<Seq<u8>>, t0: int, t1: int) -> Seq<ImuReading>
    decreases bodies.len(),
{
    if bodies.len() == 0 {
        Seq::empty()
    } else {
        let b = bodies.last();
        window_of_bodies(bodies.drop_last(), t0, t1) + readings(
            b,
            tables_of(b, root_of(b, 4)->0, 4),
            t0,
            t1,
        )
    }
}

proof fn none_in_window(b: Seq<u8>, tables: Seq<int>, t0: int, t1: int)
    requires
        forall|i: int|
            0 <= i < tables.len() ==> !(t0 <= reading_at(b, #[trigger] tables[i]).t < t1),
    ensures
        readings(b, tables, t0, t1) == Seq::<ImuReading>::empty(),
    decreases tables.len(),
{
    if tables.len() > 0 {
        assert forall|i: int| 0 <= i < tables.drop_last().len() implies !(t0 <= reading_at(
            b,
            #[trigger] tables.drop_last()[i],
        ).t < t1) by {
            assert(tables.drop_last()[i] == tables[i]);
        }
        none_in_window(b, tables.drop_last(), t0, t1);
        assert(tables.last() == tables[tables.len() - 1]);
    }
}

/// Passing over the packets whose span does not touch a time window loses no sample: what is
/// gathered is what all packets hold in the window.
pub proof fn window_misses_no_sample(
    data: Seq<u8>,
    c: Compression,
    packets: Seq<Packet>,
    bodies: Seq<Seq<u8>>,
    t0: int,
    t1: int,
)
    requires
        bodies.len() == packets.len(),
        forall|k: int|
            0 <= k < packets.len() ==> packs_samples(data, c, #[trigger] packets[k], bodies[k]),
    ensures
        gathered_readings(data, c, packets, packets.len() as int, t0, t1) == Some(
            window_of_bodies(bodies, t0, t1),
        ),
{
    gathers_bodies(data, c, packets, bodies, t0, t1, packets.len() as int);
    assert(bodies.take(packets.len() as int) =~= bodies);
}

proof fn gathers_bodies(
    data: Seq<u8>,
    c: Compression,
    packets: Seq<Packet>,
    bodies: Seq<Seq<u8>>,
    t0: int,
    t1: int,
    n: int,
)
    requires
        0 <= n <= packets.len(),
        bodies.len() == packets.len(),
        forall|k: int|
            0 <= k < packets.len() ==> packs_samples(data, c, #[trigger] packets[k], bodies[k]),
    ensures
        gathered_readings(data, c, packets, n, t0, t1) == Some(
            window_of_bodies(bodies.take(n), t0, t1),
        ),
    decreases n,
{
    if n > 0 {
        gathers_bodies(data, c, packets, bodies, t0, t1, n - 1);
        assert(bodies.take(n).drop_last() =~= bodies.take(n - 1));
        let p = packets[n - 1];
        let b = bodies[n - 1];
        assert(packs_samples(data, c, p, b));
        let tables = tables_of(b, root_of(b, 4)->0, 4);
        if !(p.end >= t0 && p.start < t1) {
            none_in_window(b, tables, t0, t1);
            let before = window_of_bodies(bodies.take(n - 1), t0, t1);
            assert(before + Seq::<ImuReading>::empty() =~= before);
        }
    }
}

/// The samples of a colour pixel, stored blue, green, red and perhaps opacity, become red, green
/// and blue.
pub proof fn colours_turn_around(pixels: Seq<u8>, channels: int, n: int, k: int)
    requires
        channels == 3 || channels == 4,
        0 <= k < n,
        n * channels <= pixels.len(),
    ensures
        red_first(pixels, channels, n).len() == 3 * n,
        red_first(pixels, channels, n)[3 * k] == pixels[channels * k + 2],
        red_first(pixels, channels, n)[3 * k + 1] == pixels[channels * k + 1],
        red_first(pixels, channels, n)[3 * k + 2] == pixels[channels * k],
    decreases n,
{
    red_first_len(pixels, channels, n - 1);
    if k < n - 1 {
        assert((n - 1) * channels <= pixels.len()) by (nonlinear_arith)
            requires
                n * channels <= pixels.len(),
                channels >= 0,
        ;
        colours_turn_around(pixels, channels, n - 1, k);
    }
}

proof fn red_first_len(pixels: Seq<u8>, channels: int, n: int)
    requires
        0 <= n,
    ensures
        red_first(pixels, channels, n).len() == 3 * n,
    decreases n,
{
    if n > 0 {
        red_first_len(pixels, channels, n - 1);
    }
}

/// A frame table keeps the time in slot 4, the pixel format in slot 14, the width in slot 16, the
/// height in slot 18 and the pixels in slot 24. Format 0 is grey, 16 has three bytes a pixel and 24
/// has four; a colour frame has three samples a pixel, the red one first.
#[verifier::spinoff_prover]
#[verifier::rlimit(40)]
pub proof fn frame_slots(b: Seq<u8>, at: int, t: i64, format: u8, w: u16, h: u16, start: int, n: int)
    requires
        stores(b, at, 4, le64_bytes(bits64(t as int))),
        stores(b, at, 14, seq![format]),
        stores(b, at, 16, le16_bytes(w as int)),
        stores(b, at, 18, le16_bytes(h as int)),
        vector_of(b, at, 24, 1) == Some((start, n)),
        0 <= start,
        start + n <= b.len(),
        w < 0x8000,
        h < 0x8000,
    ensures
        format == 0 && n == w * h ==> frame_at(b, at) == Some(
            TimedPicture {
                t: t as int,
                width: w as int,
                height: h as int,
                channels: 1,
                samples: b.subrange(start, start + n),
            },
        ),
        forall|channels: int|
            (format == 16 && channels == 3 || format == 24 && channels == 4) && n == w * h
                * channels ==> is_colour_frame(
                #[trigger] frame_at(b, at),
                b,
                t as int,
                w as int,
                h as int,
                start,
                channels,
            ),
{
    time_stored(b, at, 4, t);
    half_stored(b, at, 16, w);
    half_stored(b, at, 18, h);
    let f = field_of(b, at, 14)->0;
    assert(b[f + 0] == seq![format][0]);
    assert(format < 0x80 ==> i8_of(b, at, 14, 0) == format);
    assert forall|channels: int|
        (format == 16 && channels == 3 || format == 24 && channels == 4) && n == w * h
            * channels implies is_colour_frame(
        #[trigger] frame_at(b, at),
        b,
        t as int,
        w as int,
        h as int,
        start,
        channels,
    ) by {
        let pixels = b.subrange(start, start + n);
        let count = w * h;
        assert(0 <= count) by (nonlinear_arith)
            requires
                count == w * h,
        ;
        assert(n / channels == count) by (nonlinear_arith)
            requires
                n == count * channels,
                channels > 0,
        ;
        red_first_len(pixels, channels, count);
        assert(picture_samples(pixels, channels) == red_first(pixels, channels, count));
        assert forall|k: int| 0 <= k < w * h implies ({
            let s = #[trigger] red_first(pixels, channels, count).subrange(3 * k, 3 * k + 3);
            &&& s[0] == b[start + channels * k + 2]
            &&& s[1] == b[start + channels * k + 1]
            &&& s[2] == b[start + channels * k]
        }) by {
            colours_turn_around(pixels, channels, count, k);
            assert(0 <= channels * k && channels * k + channels <= n) by (nonlinear_arith)
                requires
                    0 <= k < count,
                    n == count * channels,
                    channels > 0,
            ;
        }
    }
}

/// Whether a frame is read from pixels stored blue first.
pub open spec fn is_colour_frame(
    frame: Option<TimedPicture>,
    b: Seq<u8>,
    t: int,
    w: int,
    h: int,
    start: int,
    channels: int,
) -> bool {
    match frame {
        Some(p) => {
            &&& p.t == t
            &&& p.width == w
            &&& p.height == h
            &&& p.channels == 3
            &&& p.samples.len() == 3 * (w * h)
            &&& forall|k: int|
                0 <= k < w * h ==> ({
                    let s = #[trigger] p.samples.subrange(3 * k, 3 * k + 3);
                    &&& s[0] == b[start + channels * k + 2]
                    &&& s[1] == b[start + channels * k + 1]
                    &&& s[2] == b[start + channels * k]
                })
        },
        None => false,
    }
}

proof fn half_stored(b: Seq<u8>, at: int, slot: int, v: u16)
    requires
        stores(b, at, slot, le16_bytes(v as int)),
        v < 0x8000,
    ensures
        crate::io::flatbuffer::i16_of(b, at, slot) == v,
{
    let w = le16_bytes(v as int);
    let f = field_of(b, at, slot)->0;
    assert(w.len() == 2);
    assert(b[f + 0] == w[0] && b[f + 1] == w[1]);
    crate::bytes::le16_round_trip(v as int);
}

/// An event is stored in sixteen bytes: the time in the first eight, the column in the next two, the
/// row in the two after them, and then the polarity. One whose column or row has its highest bit set
/// is none.
#[verifier::spinoff_prover]
#[verifier::rlimit(40)]
pub proof fn event_bytes_read(
    before: Seq<u8>,
    t: i64,
    x: u16,
    y: u16,
    p: u8,
    after: Seq<u8>,
)
    ensures
        ({
            let b = before + (le64_bytes(bits64(t as int)) + le16_bytes(x as int) + le16_bytes(
                y as int,
            ) + seq![p]) + after;
            stored_event(b, before.len() as int) == if x < 0x8000 && y < 0x8000 {
                Some(RawEvent { x, y, t, p: p != 0 })
            } else {
                None
            }
        }),
{
    let w = le64_bytes(bits64(t as int));
    let c = le16_bytes(x as int);
    let l = le16_bytes(y as int);
    let own = w + c + l + seq![p];
    let b = before + own + after;
    let at = before.len() as int;
    assert(w.len() == 8);
    assert forall|i: int| 0 <= i < 13 implies b[at + i] == #[trigger] own[i] by {}
    assert(own[0] == w[0] && own[1] == w[1] && own[2] == w[2] && own[3] == w[3]);
    assert(own[4] == w[4] && own[5] == w[5] && own[6] == w[6] && own[7] == w[7]);
    assert(own[8] == c[0] && own[9] == c[1] && own[10] == l[0] && own[11] == l[1] && own[12] == p);
    assert(b[at + 0] == w[0]);
    crate::bytes::le64_round_trip(bits64(t as int));
    crate::bytes::le16_round_trip(x as int);
    crate::bytes::le16_round_trip(y as int);
    assert(crate::bytes::le64(b, at) == crate::bytes::le64(w, 0));
    assert(crate::bytes::le16(b, at + 8) == crate::bytes::le16(c, 0));
    assert(crate::bytes::le16(b, at + 10) == crate::bytes::le16(l, 0));
}

/// A packet contributes to an index window the events whose number, counted from that of its first,
/// lies in the window, and to a time window those whose time does; in their order.
pub proof fn window_takes_events(b: Seq<u8>, start: int, n: int, first: usize, w: Window) -> (places:
    Seq<int>)
    requires
        0 <= n,
        first + n <= usize::MAX,
    ensures
        are_places(
            places,
            n,
            |i: int|
                stored_event(b, start + 16 * i) is Some && match w {
                    Window::Index(i0, i1) => i0 <= first + i && first + i < i1,
                    Window::Time(t0, t1) => t0 <= stored_event(b, start + 16 * i)->0.t
                        && stored_event(b, start + 16 * i)->0.t < t1,
                },
        ),
        admitted(b, start, n, first, w).len() == places.len(),
        forall|k: int|
            0 <= k < places.len() ==> Some(#[trigger] admitted(b, start, n, first, w)[k])
                == stored_event(b, start + 16 * places[k]),
    decreases n,
{
    let holds = |i: int|
        stored_event(b, start + 16 * i) is Some && match w {
            Window::Index(i0, i1) => i0 <= first + i && first + i < i1,
            Window::Time(t0, t1) => t0 <= stored_event(b, start + 16 * i)->0.t && stored_event(
                b,
                start + 16 * i,
            )->0.t < t1,
        };
    if n == 0 {
        Seq::empty()
    } else {
        let before = window_takes_events(b, start, n - 1, first, w);
        places_push(before, n - 1, holds);
        if holds(n - 1) {
            before.push(n - 1)
        } else {
            before
        }
    }
}

/// The packets of a kind are exactly those whose stream is listed as of that kind, in their order.
pub proof fn kind_packets(streams: Seq<Stream>, packets: Seq<(i32, Packet)>, kind: Kind) -> (places:
    Seq<int>)
    ensures
        are_places(
            places,
            packets.len() as int,
            |i: int|
                exists|j: int|
                    0 <= j < streams.len() && (#[trigger] streams[j]).id == packets[i].0
                        && streams[j].kind == kind,
        ),
        packets_of_kind(streams, packets, kind).len() == places.len(),
        forall|k: int|
            0 <= k < places.len() ==> #[trigger] packets_of_kind(streams, packets, kind)[k]
                == packets[places[k]].1,
    decreases packets.len(),
{
    let holds = |i: int|
        exists|j: int|
            0 <= j < streams.len() && (#[trigger] streams[j]).id == packets[i].0 && streams[j].kind
                == kind;
    if packets.len() == 0 {
        Seq::empty()
    } else {
        let rest = packets.drop_last();
        let n = rest.len() as int;
        let before = kind_packets(streams, rest, kind);
        let held = |i: int|
            exists|j: int|
                0 <= j < streams.len() && (#[trigger] streams[j]).id == rest[i].0 && streams[j].kind
                    == kind;
        assert forall|i: int| 0 <= i < n implies #[trigger] holds(i) == held(i) by {
            assert(rest[i] == packets[i]);
        }
        places_agree(before, n, held, holds);
        places_push(before, n, holds);
        assert(packets.last() == packets[n]);
        assert(crate::io::aedat4_packets::carries(streams, packets[n].0, kind) == holds(n));
        let out = packets_of_kind(streams, packets, kind);
        let now = if holds(n) {
            before.push(n)
        } else {
            before
        };
        assert forall|k: int| 0 <= k < now.len() implies #[trigger] out[k] == packets[now[k]].1 by {
            if k < before.len() {
                assert(out[k] == packets_of_kind(streams, rest, kind)[k]);
                assert(rest[before[k]] == packets[before[k]]);
            }
        }
        now
    }
}

/// Packets are numbered on: the first element of one comes after the last of the one before it.
pub proof fn numbered_on(packets: Seq<Packet>, k: int)
    requires
        0 <= k < packets.len(),
    ensures
        numbered(packets).len() == packets.len(),
        numbered(packets)[0].first == 0,
        k + 1 < packets.len() && numbered(packets)[k].first + packets[k].elements <= usize::MAX
            ==> numbered(packets)[k + 1].first == numbered(packets)[k].first + packets[k].elements,
        numbered(packets)[k].offset == packets[k].offset,
        numbered(packets)[k].size == packets[k].size,
        numbered(packets)[k].elements == packets[k].elements,
        numbered(packets)[k].start == packets[k].start,
        numbered(packets)[k].end == packets[k].end,
{
    assert(elements_before(packets, k + 1) == elements_before(packets, k).wrapping_add(
        packets[k].elements,
    ));
}

/// A packet of inertial samples, whose letters are `IMUS`, spans from its first sample to its last,
/// and a frame packet, whose letters are `FRME`, is one element at its own time.
pub proof fn packet_spans(b: Seq<u8>, root: int, tables: Seq<int>)
    requires
        root_of(b, 4) == Some(root),
        tables == tables_of(b, root, 4),
    ensures
        b.len() >= 12 && b[8] == 0x49 && b[9] == 0x4D && b[10] == 0x55 && b[11] == 0x53 && tables.len()
            > 0 ==> span(b).0 == tables.len() && span(b).1 == crate::io::flatbuffer::i64_of(
            b,
            tables[0],
            4,
            0,
        ) && span(b).2 == crate::io::flatbuffer::i64_of(b, tables[tables.len() - 1], 4, 0),
        b.len() >= 12 && b[8] == 0x46 && b[9] == 0x52 && b[10] == 0x4D && b[11] == 0x45 ==> span(b)
            == (
            1int,
            crate::io::flatbuffer::i64_of(b, root, 4, 0),
            crate::io::flatbuffer::i64_of(b, root, 4, 0),
        ),
{
    if b.len() >= 12 {
        let l = b.subrange(8, 12);
        assert(l[0] == b[8] && l[1] == b[9] && l[2] == b[10] && l[3] == b[11]);
        if b[8] == 0x49 && b[9] == 0x4D && b[10] == 0x55 && b[11] == 0x53 {
            assert(l =~= seq![0x49u8, 0x4D, 0x55, 0x53]);
            assert(named(b, crate::io::aedat4_packets::samples_letters()));
            assert(!named(b, crate::io::aedat4_packets::events_letters())) by {
                assert(seq![0x45u8, 0x56, 0x54, 0x53][0] == 0x45u8);
            }
            assert(!named(b, crate::io::aedat4_packets::frame_letters())) by {
                assert(seq![0x46u8, 0x52, 0x4D, 0x45][0] == 0x46u8);
            }
        }
        if b[8] == 0x46 && b[9] == 0x52 && b[10] == 0x4D && b[11] == 0x45 {
            assert(l =~= seq![0x46u8, 0x52, 0x4D, 0x45]);
            assert(!named(b, crate::io::aedat4_packets::events_letters())) by {
                assert(seq![0x45u8, 0x56, 0x54, 0x53][0] == 0x45u8);
            }
        }
    }
}

/// An entry of the data table keeps the place of a packet in slot 4, its stream and its size in slot
/// 6, the number of its elements in slot 8, and the times of the first and the last in slots 10 and
/// 12.
#[verifier::spinoff_prover]
#[verifier::rlimit(40)]
pub proof fn entry_slots(
    b: Seq<u8>,
    at: int,
    id: i32,
    size: i32,
    offset: i64,
    elements: i64,
    start: i64,
    end: i64,
)
    requires
        stores(b, at, 4, le64_bytes(bits64(offset as int))),
        stores(b, at, 6, le32_bytes(bits32(id as int)) + le32_bytes(bits32(size as int))),
        stores(b, at, 8, le64_bytes(bits64(elements as int))),
        stores(b, at, 10, le64_bytes(bits64(start as int))),
        stores(b, at, 12, le64_bytes(bits64(end as int))),
        0 <= elements <= usize::MAX,
        0 <= offset,
        0 <= size,
    ensures
        definition(b, at) == Some(
            (
                id,
                Packet {
                    offset: offset as u64,
                    size: size as usize,
                    first: 0,
                    elements: elements as usize,
                    start,
                    end,
                },
            ),
        ),
{
    time_stored(b, at, 4, offset);
    time_stored(b, at, 8, elements);
    time_stored(b, at, 10, start);
    time_stored(b, at, 12, end);
    pair_stored(b, at, 6, bits32(id as int), bits32(size as int));
}

#[verifier::spinoff_prover]
#[verifier::rlimit(40)]
proof fn pair_stored(b: Seq<u8>, at: int, slot: int, first: int, second: int)
    requires
        stores(b, at, slot, le32_bytes(first) + le32_bytes(second)),
        0 <= first < 0x1_0000_0000,
        0 <= second < 0x1_0000_0000,
    ensures
        field_of(b, at, slot) matches Some(f) && f + 8 <= b.len() && crate::bytes::le32(b, f) == first
            && crate::bytes::le32(b, f + 4) == second,
{
    let w = le32_bytes(first);
    let v = le32_bytes(second);
    let both = w + v;
    let f = field_of(b, at, slot)->0;
    assert(both.len() == 8);
    assert(b[f + 0] == both[0] && b[f + 1] == both[1] && b[f + 2] == both[2] && b[f + 3] == both[3]);
    assert(b[f + 4] == both[4] && b[f + 5] == both[5] && b[f + 6] == both[6] && b[f + 7] == both[7]);
    crate::bytes::word_round_trip(first);
    crate::bytes::word_round_trip(second);
    assert(crate::bytes::le32(b, f) == crate::bytes::le32(w, 0));
    assert(crate::bytes::le32(b, f + 4) == crate::bytes::le32(v, 0));
}

/// A picture that a frame table says is the frame that the table describes.
pub proof fn picture_is_the_frame(b: Seq<u8>, at: int, p: Picture)
    requires
        frame_says(b, at, p),
    ensures
        frame_at(b, at) matches Some(f) && f.width == p.width && f.height == p.height && f.channels
            == p.channels && f.samples == p.samples@,
{
}

/// Whether a packet holds a readable frame with a time in the packet's span.
pub open spec fn packs_frame(data: Seq<u8>, c: Compression, p: Packet, f: TimedPicture) -> bool {
    match body_of(data, c, p.offset as int, p.size as int) {
        Some(b) => match root_of(b, 4) {
            Some(root) => frame_at(b, root) == Some(f) && p.start <= f.t <= p.end,
            None => false,
        },
        None => false,
    }
}

/// The frames of a time window are exactly those stamped not before its beginning and before its
/// end, packet by packet: passing over the packets whose span does not touch it loses none.
pub proof fn window_misses_no_frame(
    data: Seq<u8>,
    c: Compression,
    packets: Seq<Packet>,
    frames: Seq<TimedPicture>,
    n: int,
    t0: int,
    t1: int,
) -> (places: Seq<int>)
    requires
        0 <= n <= packets.len(),
        frames.len() == packets.len(),
        forall|k: int|
            0 <= k < packets.len() ==> packs_frame(data, c, #[trigger] packets[k], frames[k]),
    ensures
        are_places(places, n, |k: int| t0 <= frames[k].t && frames[k].t < t1),
        gathered_frames(data, c, packets, n, t0, t1) matches Some(g) && crate::places::are_items(
            g,
            frames,
            places,
        ),
    decreases n,
{
    let holds = |k: int| t0 <= frames[k].t && frames[k].t < t1;
    if n == 0 {
        Seq::empty()
    } else {
        let before = window_misses_no_frame(data, c, packets, frames, n - 1, t0, t1);
        places_push(before, n - 1, holds);
        assert(packs_frame(data, c, packets[n - 1], frames[n - 1]));
        if holds(n - 1) {
            before.push(n - 1)
        } else {
            before
        }
    }
}

/// A table begins with how far before it its list of fields stands; the list begins with its own
/// length, and holds for every slot how far after the table the field is, or zero if there is none.
pub proof fn fields_by_list(b: Seq<u8>, at: int, list: int, length: int, slot: int, far: int)
    requires
        0 <= list < at,
        at - list < 0x8000_0000,
        at + 4 <= b.len() <= usize::MAX,
        crate::bytes::le32(b, at) == at - list,
        crate::bytes::le16(b, list) == length,
        4 <= slot,
        slot + 2 <= length,
        list + length <= b.len(),
        crate::bytes::le16(b, list + slot) == far,
        at + far <= b.len(),
    ensures
        field_of(b, at, slot) == (if far == 0 {
            None
        } else {
            Some(at + far)
        }),
        field_of(b, at, length) is None,
{
    reveal(field_of);
}

} // verus!
