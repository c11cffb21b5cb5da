//! What ROS messages carry: times, images and tensors.

use vstd::prelude::*;

use crate::bytes::{be32_bytes, le32_bytes, word_round_trip};
use crate::representation::EventFrameData;
use crate::chars::decimal;
use crate::io::raw_header::EvtVersion;
use crate::ros2::{
    extent, first_time, gap, image_encoding, interleaved, sample_bytes, sample_size, sample_value,
    shifted, shifted_on, stamp_of, time_base_of, truncated_thousandth, EventPacket,
};
use crate::stream::{EventStream, RawEvent};

verus! {

/// A stamp is a whole number of seconds and the nanoseconds left over, and together they are the
/// time, as long as 31 bits hold the seconds.
pub proof fn stamp_adds_up(ns: u64)
    requires
        ns < 0x8000_0000 * 1_000_000_000,
    ensures
        stamp_of(ns).sec >= 0,
        stamp_of(ns).nanosec < 1_000_000_000,
        stamp_of(ns).sec * 1_000_000_000 + stamp_of(ns).nanosec == ns,
{
    assert(ns / 1_000_000_000 < 0x8000_0000);
}

/// Events at other times are later by the same amount, and otherwise what they were.
pub proof fn shift_moves_times(events: Seq<RawEvent>, by: i64, i: int)
    requires
        0 <= i < events.len(),
        i64::MIN <= events[i].t + by <= i64::MAX,
    ensures
        shifted(events, by).len() == events.len(),
        shifted(events, by)[i].t == events[i].t + by,
        shifted(events, by)[i].x == events[i].x,
        shifted(events, by)[i].y == events[i].y,
        shifted(events, by)[i].p == events[i].p,
{
}

/// The base of a packet is the time of its first event in nanoseconds, with an offset.
pub proof fn base_is_the_first_time(events: Seq<RawEvent>, offset: i64)
    requires
        events.len() > 0,
        0 <= events[0].t * 1000 + offset <= i64::MAX,
    ensures
        time_base_of(events, offset) == events[0].t * 1000 + offset,
{
}

/// A base in nanoseconds is as many microseconds as it holds whole ones, whatever its sign.
pub proof fn base_in_microseconds(value: int)
    ensures
        value >= 0 ==> truncated_thousandth(value) * 1000 <= value < truncated_thousandth(value) * 1000
            + 1000,
        value < 0 ==> truncated_thousandth(value) * 1000 - 1000 < value <= truncated_thousandth(value)
            * 1000,
{
}

/// A packet that comes so many numbers after the next one shows that so many are missing; the next
/// one, or one that is not newer, shows none.
pub proof fn gap_counts_the_missing(previous: u64, seq: u64)
    requires
        previous < u64::MAX,
    ensures
        seq > previous ==> previous + 1 + gap(previous, seq) == seq,
        seq <= previous ==> gap(previous, seq) == 0,
{
}

/// The number that some bytes spell, the least significant first or the most.
pub open spec fn spelled(b: Seq<u8>, at: int, size: int, big: bool) -> int {
    if size == 1 {
        b[at] as int
    } else if size == 2 {
        if big {
            0x100 * b[at] + b[at + 1]
        } else {
            b[at] + 0x100 * b[at + 1]
        }
    } else {
        if big {
            0x100_0000 * b[at] + 0x1_0000 * b[at + 1] + 0x100 * b[at + 2] + b[at + 3]
        } else {
            b[at] + 0x100 * b[at + 1] + 0x1_0000 * b[at + 2] + 0x100_0000 * b[at + 3]
        }
    }
}

proof fn sample_spelled(value: u64, size: int, big: bool)
    requires
        size == 1 && value < 0x100 || size == 2 && value < 0x1_0000 || size == 4 && value
            < 0x1_0000_0000,
    ensures
        sample_bytes(value, size, big).len() == size,
        spelled(sample_bytes(value, size, big), 0, size, big) == value,
{
    let v = value as int;
    let b = sample_bytes(value, size, big);
    if size == 2 {
        assert(v == v % 0x100 + 0x100 * (v / 0x100 % 0x100));
    } else if size == 4 {
        word_round_trip(v);
        if big {
            assert(b =~= be32_bytes(v));
        } else {
            assert(b =~= le32_bytes(v));
        }
    }
}

#[verifier::spinoff_prover]
#[verifier::rlimit(40)]
proof fn interleaved_at(
    data: EventFrameData,
    channels: int,
    pixels: int,
    big: bool,
    n: int,
    s: int,
    j: int,
)
    requires
        0 <= s < n,
        0 <= j < sample_size(data),
    ensures
        interleaved(data, channels, pixels, big, n).len() == n * sample_size(data),
        0 <= s * sample_size(data) + j < n * sample_size(data),
        interleaved(data, channels, pixels, big, n)[s * sample_size(data) + j] == sample_bytes(
            sample_value(data, s % channels * pixels + s / channels),
            sample_size(data),
            big,
        )[j],
    decreases n,
{
    let size = sample_size(data);
    let before = interleaved(data, channels, pixels, big, n - 1);
    assert((n - 1) * size + size == n * size) by (nonlinear_arith);
    if n == 1 {
        assert(before.len() == 0);
    } else {
        interleaved_at(data, channels, pixels, big, n - 1, if s < n - 1 { s } else { 0 }, 0);
    }
    assert(0 <= s * size + j < n * size) by (nonlinear_arith)
        requires
            0 <= s < n,
            0 <= j < size,
    ;
    if s < n - 1 {
        interleaved_at(data, channels, pixels, big, n - 1, s, j);
    }
}

/// An image lists its pixels row by row with the channels of each together: the sample of a channel
/// at a pixel stands at the pixel's place times the channels plus the channel, in the byte order of
/// the message. Counts are held to 16 bits.
#[verifier::spinoff_prover]
#[verifier::rlimit(40)]
pub proof fn image_by_pixel(
    data: EventFrameData,
    channels: int,
    width: int,
    height: int,
    big: bool,
    c: int,
    x: int,
    y: int,
)
    requires
        0 <= c < channels,
        0 <= x < width,
        0 <= y < height,
        data.size() == channels * (width * height),
    ensures
        ({
            let size = match data {
                EventFrameData::U8(_) => 1int,
                EventFrameData::U16(_) => 2,
                EventFrameData::U64(_) => 2,
                EventFrameData::F32(_) => 4,
            };
            let pixels = width * height;
            let bytes = interleaved(data, channels, pixels, big, channels * pixels);
            let place = c * pixels + y * width + x;
            let at = ((y * width + x) * channels + c) * size;
            &&& bytes.len() == size * (channels * pixels)
            &&& 0 <= at <= bytes.len() - size
            &&& 0 <= place < data.size()
            &&& match data {
                EventFrameData::U8(v) => spelled(bytes, at, size, big) == v@[place],
                EventFrameData::U16(v) => spelled(bytes, at, size, big) == v@[place],
                EventFrameData::U64(v) => spelled(bytes, at, size, big) == (if v@[place] > 65535 {
                    65535
                } else {
                    v@[place] as int
                }),
                EventFrameData::F32(v) => spelled(bytes, at, size, big) == v@[place],
            }
        }),
{
    let size = sample_size(data);
    let pixels = width * height;
    let n = channels * pixels;
    crate::representation::pixel_in_plane(x, y, width, height);
    let pixel = y * width + x;
    let s = pixel * channels + c;
    assert(0 <= s < n && 0 <= c * pixels + pixel < n) by (nonlinear_arith)
        requires
            0 <= pixel < pixels,
            0 <= c < channels,
            s == pixel * channels + c,
            n == channels * pixels,
    ;
    vstd::arithmetic::div_mod::lemma_fundamental_div_mod_converse(s, channels, pixel, c);
    interleaved_at(data, channels, pixels, big, n, s, 0);
    interleaved_at(data, channels, pixels, big, n, s, size - 1);
    assert(n * size == size * n) by (nonlinear_arith);
    if size >= 2 {
        interleaved_at(data, channels, pixels, big, n, s, 1);
    }
    if size == 4 {
        interleaved_at(data, channels, pixels, big, n, s, 2);
    }
    sample_spelled(sample_value(data, c * pixels + pixel), size, big);
}

/// A tensor spans as much from an axis on as one step along it spans, as often as it is long; past
/// the last axis it spans one.
pub proof fn extent_by_axis(shape: Seq<usize>, a: int, b: int)
    requires
        0 <= a < b <= shape.len(),
    ensures
        extent(shape, a, b) == shape[a] * extent(shape, a + 1, b),
        extent(shape, b, b) == 1,
    decreases b - a,
{
    if a + 1 < b {
        extent_by_axis(shape, a, b - 1);
        let e = extent(shape, a + 1, b - 1);
        let last = shape[b - 1] as int;
        let first = shape[a] as int;
        assert(first * e * last == first * (e * last)) by (nonlinear_arith);
    } else {
        assert(extent(shape, a, a) == 1);
        assert(extent(shape, a + 1, b) == 1);
    }
}

/// A packet says of which sensor its events are, which number it has and how it is encoded, and it is
/// stamped with the time of its first event. Events out of order are refused.
#[verifier::spinoff_prover]
#[verifier::rlimit(40)]
pub proof fn packet_describes_its_window(
    packet: EventPacket,
    stream: EventStream,
    seq: u64,
    encoding: EvtVersion,
    offset: i64,
    frame_id: Seq<char>,
    is_bigendian: bool,
)
    requires
        EventPacket::encodes(Ok(packet), &stream, seq, encoding, offset, frame_id, is_bigendian),
        stream.in_bounds(),
        stream.events().len() > 0,
        stream.width() <= u32::MAX,
        stream.height() <= u32::MAX,
        0 <= stream.events()[0].t * 1000 + offset < 0x8000_0000 * 1_000_000_000,
        forall|i: int|
            0 <= i < stream.events().len() ==> i64::MIN <= (#[trigger] stream.events()[i]).t
                - stream.events()[0].t <= i64::MAX,
        stream.events()[0].t != i64::MIN,
    ensures
        packet.width == stream.width(),
        packet.height == stream.height(),
        packet.seq == seq,
        packet.frame_id@ == frame_id,
        packet.is_bigendian == is_bigendian,
        packet.time_base == stream.events()[0].t * 1000 + offset,
        packet.stamp.sec * 1_000_000_000 + packet.stamp.nanosec == packet.time_base,
        packet.stamp.nanosec < 1_000_000_000,
        encoding == EvtVersion::Evt2 ==> packet.encoding@ == "evt2"@,
        encoding == EvtVersion::Evt3 ==> packet.encoding@ == "evt3"@,
        forall|i: int|
            0 < i < stream.events().len() ==> stream.events()[i - 1].t <= (
            #[trigger] stream.events()[i]).t,
{
    stream.size_fits();
    stamp_adds_up(packet.time_base);
    let events = stream.events();
    let by = (-first_time(events)) as i64;
    let moved = shifted_on(events, stream.width(), stream.height(), by);
    assert(crate::stream::on_sensor(events[0], stream.width(), stream.height()));
    assert(moved == shifted(events, by));
    crate::io::header_laws::disorder_comes_first(None, moved, 0);
    assert forall|i: int| 0 < i < events.len() implies events[i - 1].t <= (
    #[trigger] events[i]).t by {
        assert(moved[i - 1].t <= moved[i].t);
        assert(events[i].t - events[0].t <= i64::MAX);
        assert(events[i - 1].t - events[0].t <= i64::MAX);
        shift_moves_times(events, by, i);
        shift_moves_times(events, by, i - 1);
    }
}

/// Images are named by the width of their samples and the number of their channels; counts are sent
/// in 16 bits.
pub proof fn images_by_name(data: EventFrameData, channels: nat)
    ensures
        data is U8 && channels == 1 ==> image_encoding(data, channels as int) == "mono8"@,
        data is U8 && channels != 1 ==> image_encoding(data, channels as int) == "8UC"@ + decimal(
            channels,
        ),
        (data is U16 || data is U64) && channels == 1 ==> image_encoding(data, channels as int)
            == "mono16"@,
        (data is U16 || data is U64) && channels != 1 ==> image_encoding(data, channels as int)
            == "16UC"@ + decimal(channels),
        data is F32 ==> image_encoding(data, channels as int) == "32FC"@ + decimal(channels),
        sample_size(data) == (if data is U8 {
            1int
        } else if data is F32 {
            4
        } else {
            2
        }),
{
}

} // verus!
