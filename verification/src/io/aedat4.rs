//! Reading AEDAT 4 recordings.
//!
//! A recording is a version line, a header buffer, a run of packets, and a table listing them.
//! The table makes a recording sliceable: only the packets a window touches are decompressed.

use vstd::prelude::*;

use crate::bytes::{le16, read_u16, read_u64, signed, signed16, signed64};
use crate::chars::{decimal, decimal_string, join2, join3, join5, signed_decimal, signed_decimal_string};
use crate::io::aedat4_header::{front_fault, front_says, read_header, Header};
use crate::io::aedat4_packets::{
    all_walked, body_fault, body_of, definitions, index_kind, index_of_kind, read_body, read_data_table,
    time_at, walk_packets, Packet, ELEMENTS, EVENT_STRIDE, TIMESTAMP,
};
use crate::io::aedat4_streams::{Kind, Stream};
use crate::io::compression::Compression;
use crate::io::flatbuffer::{
    f32_bits_of, field_of, i16_of, i64_of, i8_of, root_of, tables_of, vector_of, Table,
};
use crate::io::IoError;
use crate::stream::{
    kept, kept_push, EventStream, EventStreamBuilder, RawEvent, MICROSECOND_SCALE,
};

verus! {

/// Where the fields of a frame are listed.
pub const FRAME_FORMAT: usize = 14;

pub const FRAME_SIZE_X: usize = 16;

pub const FRAME_SIZE_Y: usize = 18;

pub const FRAME_PIXELS: usize = 24;

/// Where the fields of an inertial sample are listed; Y and Z follow X.
pub const IMU_ACCELEROMETER: usize = 8;

pub const IMU_GYROSCOPE: usize = 14;

/// Which elements of a recording a slice holds.
#[derive(Clone, Copy, Debug, PartialEq, Eq, Structural)]
pub enum Window {
    /// Elements numbered from the first to before the second.
    Index(usize, usize),
    /// Elements timed from the first to before the second.
    Time(i64, i64),
}

/// Whether an event belongs to a window.
pub open spec fn admits(w: Window, index: usize, t: i64) -> bool {
    match w {
        Window::Index(i0, i1) => i0 <= index < i1,
        Window::Time(t0, t1) => t0 <= t < t1,
    }
}

/// Whether a packet may hold elements of a window.
pub open spec fn touches(w: Window, p: Packet) -> bool {
    match w {
        Window::Index(i0, i1) => p.first < i1 && p.first.wrapping_add(p.elements) > i0,
        Window::Time(t0, t1) => p.end >= t0 && p.start < t1,
    }
}

impl Window {
    pub fn admits(self, index: usize, t: i64) -> (yes: bool)
        ensures
            yes == admits(self, index, t),
    {
        match self {
            Window::Index(i0, i1) => i0 <= index && index < i1,
            Window::Time(t0, t1) => t0 <= t && t < t1,
        }
    }

    pub fn touches(self, p: &Packet) -> (yes: bool)
        ensures
            yes == touches(self, *p),
    {
        match self {
            Window::Index(i0, i1) => p.first < i1 && p.first.wrapping_add(p.elements) > i0,
            Window::Time(t0, t1) => p.end >= t0 && p.start < t1,
        }
    }
}

/// The event stored at `at`; one with a negative coordinate is none.
pub open spec fn stored_event(b: Seq<u8>, at: int) -> Option<RawEvent> {
    let x = signed(le16(b, at + 8), 0x8000);
    let y = signed(le16(b, at + 10), 0x8000);
    if x < 0 || y < 0 {
        None
    } else {
        Some(RawEvent { x: x as u16, y: y as u16, t: time_at(b, at) as i64, p: b[at + 12] != 0 })
    }
}

/// Those of the first `n` events stored from `start` on that belong to a window.
pub open spec fn admitted(b: Seq<u8>, start: int, n: int, first: usize, w: Window) -> Seq<RawEvent>
    decreases n,
{
    if n <= 0 {
        Seq::empty()
    } else {
        let rest = admitted(b, start, n - 1, first, w);
        match stored_event(b, start + 16 * (n - 1)) {
            Some(e) if admits(w, first.wrapping_add((n - 1) as usize), e.t) => rest.push(e),
            _ => rest,
        }
    }
}

/// What a decompressed event packet contributes to a window; `None` if it is not readable. One
/// without a vector of events contributes nothing; one whose vector does not fit is not readable.
pub open spec fn contributed(b: Seq<u8>, first: usize, w: Window) -> Option<Seq<RawEvent>> {
    match root_of(b, 4) {
        None => None,
        Some(root) => match vector_of(b, root, 4, 16) {
            Some((start, n)) => Some(admitted(b, start, n, first, w)),
            None => if field_of(b, root, 4) is None {
                Some(Seq::empty())
            } else {
                None
            },
        },
    }
}

/// Why a decompressed event packet is not readable.
pub open spec fn event_packet_fault(b: Seq<u8>, e: IoError) -> bool {
    match root_of(b, 4) {
        None => e matches IoError::Format(m) && m@ == "AEDAT4 event packet is not readable"@,
        Some(root) => {
            &&& field_of(b, root, 4) is Some
            &&& vector_of(b, root, 4, 16) is None
            &&& e matches IoError::Format(m) && m@ == "AEDAT4 event packet is truncated"@
        },
    }
}

/// What the first `n` packets contribute to a window; `None` if one it needs is not readable.
pub open spec fn gathered(
    data: Seq<u8>,
    c: Compression,
    packets: Seq<Packet>,
    n: int,
    w: Window,
) -> Option<Seq<RawEvent>>
    decreases n,
{
    if n <= 0 {
        Some(Seq::empty())
    } else {
        let p = packets[n - 1];
        match gathered(data, c, packets, n - 1, w) {
            None => None,
            Some(rest) => if !touches(w, p) {
                Some(rest)
            } else {
                match body_of(data, c, p.offset as int, p.size as int) {
                    None => None,
                    Some(b) => match contributed(b, p.first, w) {
                        None => None,
                        Some(more) => Some(rest + more),
                    },
                }
            },
        }
    }
}

/// Adds what a decompressed event packet contributes to a window.
pub fn collect_events(body: &[u8], first: usize, window: Window, builder: &mut EventStreamBuilder) -> (
    outcome: Result<(), IoError>)
    requires
        old(builder).wf(),
    ensures
        final(builder).wf(),
        final(builder).same_grid(old(builder)),
        match outcome {
            Ok(()) => contributed(body@, first, window) is Some && final(builder).events() == old(
                builder,
            ).events() + kept(
                contributed(body@, first, window)->0,
                old(builder).width(),
                old(builder).height(),
            ),
            Err(e) => contributed(body@, first, window) is None && event_packet_fault(body@, e)
                && final(builder).events() == old(builder).events(),
        },
{
    let table = match Table::size_prefixed_root(body) {
        Some(table) => table,
        None => {
            return Err(IoError::Format("AEDAT4 event packet is not readable".to_owned()));
        },
    };
    let (start, n) = match table.vector_at(ELEMENTS, EVENT_STRIDE) {
        Some(place) => place,
        None => {
            if table.field(ELEMENTS).is_some() {
                return Err(IoError::Format("AEDAT4 event packet is truncated".to_owned()));
            }
            assert(builder.events() + kept(
                Seq::empty(),
                builder.width(),
                builder.height(),
            ) =~= builder.events());
            return Ok(());
        },
    };
    let ghost b = body@;
    let total: usize = body.len();
    let ghost before = builder.events();
    assert(before + kept(Seq::empty(), builder.width(), builder.height()) =~= before);
    for i in 0..n
        invariant
            b == body@,
            total == b.len(),
            start + n * 16 <= total,
            builder.wf(),
            builder.same_grid(old(builder)),
            builder.events() == before + kept(
                admitted(b, start as int, i as int, first, window),
                builder.width(),
                builder.height(),
            ),
    {
        let at: usize = start + i * EVENT_STRIDE;
        let t = signed64(read_u64(body, at));
        let x = signed16(read_u16(body, at + 8));
        let y = signed16(read_u16(body, at + 10));
        let ghost earlier = admitted(b, start as int, i as int, first, window);
        if x >= 0 && y >= 0 && window.admits(first.wrapping_add(i), t) {
            let p = body[at + 12] != 0;
            let ghost e = RawEvent { x: x as u16, y: y as u16, t, p };
            proof {
                assert(stored_event(b, start + 16 * i) == Some(e));
                kept_push(earlier, e, builder.width(), builder.height());
            }
            builder.push(x as u16, y as u16, t, p);
            assert(admitted(b, start as int, i + 1, first, window) == earlier.push(e));
            assert(builder.events() =~= before + kept(
                earlier.push(e),
                builder.width(),
                builder.height(),
            ));
        } else {
            assert(admitted(b, start as int, i + 1, first, window) == earlier);
        }
    }
    Ok(())
}

/// A random-access view of an AEDAT 4 recording: the index of its packets.
#[derive(Debug)]
pub struct Aedat4SliceSource {
    compression: Compression,
    width: usize,
    height: usize,
    events: Vec<Packet>,
    frames: Vec<Packet>,
    imu: Vec<Packet>,
    n_events: usize,
    time_span: (i64, i64),
}

/// The resolution a recording's first event stream declares.
pub open spec fn event_stream_size(streams: Seq<Stream>) -> Option<(usize, usize)>
    decreases streams.len(),
{
    if streams.len() == 0 {
        None
    } else if streams[0].kind == Kind::Events {
        streams[0].size
    } else {
        event_stream_size(streams.skip(1))
    }
}

/// The sensor size of a recording: the one asked for, else the declared one.
pub open spec fn sensor_of(streams: Seq<Stream>, asked: Option<(usize, usize)>) -> Option<
    (usize, usize),
> {
    let size = match asked {
        Some(size) => Some(size),
        None => event_stream_size(streams),
    };
    match size {
        Some((w, h)) if w > 0 && h > 0 => Some((w, h)),
        _ => None,
    }
}

fn declared_size(streams: &[Stream]) -> (size: Option<(usize, usize)>)
    ensures
        size == event_stream_size(streams@),
{
    let n: usize = streams.len();
    assert(streams@.skip(0) =~= streams@);
    for i in 0..n
        invariant
            n == streams@.len(),
            event_stream_size(streams@) == event_stream_size(streams@.skip(i as int)),
    {
        assert(streams@.skip(i as int).skip(1) =~= streams@.skip(i + 1));
        assert(streams@.skip(i as int)[0] == streams@[i as int]);
        if streams[i].kind == Kind::Events {
            return streams[i].size;
        }
    }
    None
}

impl Aedat4SliceSource {
    pub closed spec fn compression(&self) -> Compression {
        self.compression
    }

    pub closed spec fn width(&self) -> int {
        self.width as int
    }

    pub closed spec fn height(&self) -> int {
        self.height as int
    }

    /// The packets of events, by start time.
    pub closed spec fn event_packets(&self) -> Seq<Packet> {
        self.events@
    }

    pub closed spec fn frame_packets(&self) -> Seq<Packet> {
        self.frames@
    }

    pub closed spec fn imu_packets(&self) -> Seq<Packet> {
        self.imu@
    }

    /// The number of events the index promises.
    pub open spec fn event_count(&self) -> usize {
        let packets = self.event_packets();
        if packets.len() == 0 {
            0
        } else {
            packets.last().first.wrapping_add(packets.last().elements)
        }
    }

    /// When the first packet of events starts and the last one ends.
    pub open spec fn span(&self) -> (i64, i64) {
        let packets = self.event_packets();
        if packets.len() == 0 {
            (0, 0)
        } else {
            (packets[0].start, packets.last().end)
        }
    }

    /// The totals are those of the index.
    pub closed spec fn wf(&self) -> bool {
        &&& self.n_events == self.event_count()
        &&& self.time_span == self.span()
        &&& self.width > 0
        &&& self.height > 0
    }

    /// The source over given packets.
    pub open spec fn indexes(
        &self,
        c: Compression,
        streams: Seq<Stream>,
        packets: Seq<(i32, Packet)>,
        size: (usize, usize),
    ) -> bool {
        &&& self.wf()
        &&& self.compression() == c
        &&& self.width() == size.0
        &&& self.height() == size.1
        &&& self.event_packets() == index_of_kind(streams, packets, Kind::Events)
        &&& self.frame_packets() == index_of_kind(streams, packets, Kind::Frames)
        &&& self.imu_packets() == index_of_kind(streams, packets, Kind::Imu)
    }

    /// Indexes the packets of a recording.
    pub fn index(header: &Header, packets: &[(i32, Packet)], sensor_size: Option<
        (usize, usize),
    >) -> (source: Result<Self, IoError>)
        ensures
            match source {
                Ok(s) => sensor_of(header.streams@, sensor_size) is Some && s.indexes(
                    header.compression,
                    header.streams@,
                    packets@,
                    sensor_of(header.streams@, sensor_size)->0,
                ),
                Err(e) => e is InvalidSensorSize && sensor_of(header.streams@, sensor_size) is None,
            },
    {
        let events = index_kind(&header.streams, packets, Kind::Events);
        let asked = match sensor_size {
            Some(size) => Some(size),
            None => declared_size(&header.streams),
        };
        let (width, height) = match asked {
            Some(size) => size,
            None => {
                return Err(IoError::InvalidSensorSize);
            },
        };
        if width == 0 || height == 0 {
            return Err(IoError::InvalidSensorSize);
        }
        let n: usize = events.len();
        let (n_events, time_span) = if n == 0 {
            (0usize, (0i64, 0i64))
        } else {
            let last = events[n - 1];
            (last.first.wrapping_add(last.elements), (events[0].start, last.end))
        };
        Ok(
            Aedat4SliceSource {
                compression: header.compression,
                width,
                height,
                events,
                frames: index_kind(&header.streams, packets, Kind::Frames),
                imu: index_kind(&header.streams, packets, Kind::Imu),
                n_events,
                time_span,
            },
        )
    }

    /// `(width, height)` of the sensor.
    pub fn sensor_size(&self) -> (size: (usize, usize))
        ensures
            size.0 == self.width(),
            size.1 == self.height(),
    {
        (self.width, self.height)
    }

    pub fn n_events(&self) -> (n: usize)
        requires
            self.wf(),
        ensures
            n == self.event_count(),
    {
        self.n_events
    }

    pub fn time_span(&self) -> (span: (i64, i64))
        requires
            self.wf(),
        ensures
            span == self.span(),
    {
        self.time_span
    }

    /// The events of a window.
    fn slice(&self, data: &[u8], window: Window) -> (stream: Result<EventStream, IoError>)
        ensures
            match stream {
                Ok(s) => {
                    let all = gathered(
                        data@,
                        self.compression(),
                        self.event_packets(),
                        self.event_packets().len() as int,
                        window,
                    );
                    &&& all is Some
                    &&& s.wf()
                    &&& s.events() == kept(all->0, self.width(), self.height())
                    &&& s.width() == self.width()
                    &&& s.height() == self.height()
                    &&& s.scale() == MICROSECOND_SCALE
                },
                Err(e) => slice_fault(
                    data@,
                    self.compression(),
                    self.event_packets(),
                    window,
                    e,
                ),
            },
    {
        let mut builder = EventStreamBuilder::new(self.width, self.height, MICROSECOND_SCALE);
        let n: usize = self.events.len();
        let ghost packets = self.event_packets();
        let ghost c = self.compression();
        let mut i: usize = 0;
        assert(kept(Seq::empty(), self.width(), self.height()) =~= Seq::<RawEvent>::empty());
        while i < n
            invariant
                i <= n,
                n == packets.len(),
                packets == self.event_packets(),
                c == self.compression(),
                builder.wf(),
                builder.width() == self.width(),
                builder.height() == self.height(),
                builder.scale() == MICROSECOND_SCALE,
                gathered(data@, c, packets, i as int, window) is Some,
                builder.events() == kept(
                    gathered(data@, c, packets, i as int, window)->0,
                    self.width(),
                    self.height(),
                ),
            decreases n - i,
        {
            let p = self.events[i];
            assert(p == packets[i as int]);
            if window.touches(&p) {
                let body = match read_body(data, self.compression, p.offset, p.size) {
                    Ok(body) => body,
                    Err(error) => {
                        proof {
                            gathered_fails(data@, c, packets, i + 1, window);
                            assert(stops_slice(data@, c, packets, window, i as int, error));
                        }
                        return Err(error);
                    },
                };
                let ghost rest = gathered(data@, c, packets, i as int, window)->0;
                match collect_events(&body, p.first, window, &mut builder) {
                    Ok(()) => {
                        proof {
                            crate::stream::kept_concat(
                                rest,
                                contributed(body@, p.first, window)->0,
                                self.width(),
                                self.height(),
                            );
                        }
                    },
                    Err(error) => {
                        proof {
                            gathered_fails(data@, c, packets, i + 1, window);
                            assert(stops_slice(data@, c, packets, window, i as int, error));
                        }
                        return Err(error);
                    },
                }
            }
            i += 1;
        }
        Ok(builder.build())
    }

    /// The events numbered from `i0` to before `i1`.
    pub fn slice_index(&self, data: &[u8], i0: usize, i1: usize) -> (stream: Result<
        EventStream,
        IoError,
    >)
        requires
            self.wf(),
        ensures
            match stream {
                Ok(s) => self.sliced(data@, self.index_window(i0, i1), s),
                Err(e) => slice_fault(
                    data@,
                    self.compression(),
                    self.event_packets(),
                    self.index_window(i0, i1),
                    e,
                ),
            },
    {
        let n: usize = self.n_events;
        let i0: usize = if i0 < n {
            i0
        } else {
            n
        };
        let i1: usize = if i1 < i0 {
            i0
        } else if i1 > n {
            n
        } else {
            i1
        };
        self.slice(data, Window::Index(i0, i1))
    }

    /// The window of an index slice: both ends clamped to the recording.
    pub open spec fn index_window(&self, i0: usize, i1: usize) -> Window {
        let n = self.event_count();
        let a = if i0 < n {
            i0
        } else {
            n
        };
        Window::Index(
            a,
            if i1 < a {
                a
            } else if i1 > n {
                n
            } else {
                i1
            },
        )
    }

    /// A stream holds what a window of the recording holds.
    pub open spec fn sliced(&self, data: Seq<u8>, w: Window, s: EventStream) -> bool {
        let all = gathered(
            data,
            self.compression(),
            self.event_packets(),
            self.event_packets().len() as int,
            w,
        );
        &&& all is Some
        &&& s.wf()
        &&& s.events() == kept(all->0, self.width(), self.height())
        &&& s.width() == self.width()
        &&& s.height() == self.height()
        &&& s.scale() == MICROSECOND_SCALE
    }

    /// The events timed from `t0` to before `t1`.
    pub fn slice_time(&self, data: &[u8], t0: i64, t1: i64) -> (stream: Result<
        EventStream,
        IoError,
    >)
        ensures
            match stream {
                Ok(s) => self.sliced(data@, Window::Time(t0, t1), s),
                Err(e) => slice_fault(
                    data@,
                    self.compression(),
                    self.event_packets(),
                    Window::Time(t0, t1),
                    e,
                ),
            },
    {
        self.slice(data, Window::Time(t0, t1))
    }
}

/// Whether the packet that a window touches at `k` is the first that cannot be read, and why.
pub open spec fn stops_slice(
    data: Seq<u8>,
    c: Compression,
    packets: Seq<Packet>,
    w: Window,
    k: int,
    e: IoError,
) -> bool {
    let p = packets[k];
    &&& gathered(data, c, packets, k, w) is Some
    &&& gathered(data, c, packets, k + 1, w) is None
    &&& touches(w, p)
    &&& match body_of(data, c, p.offset as int, p.size as int) {
        None => body_fault(data, c, p.offset as int, p.size as int, e),
        Some(b) => contributed(b, p.first, w) is None && event_packet_fault(b, e),
    }
}

/// Why a window cannot be read: what is wrong with the first packet that cannot.
pub open spec fn slice_fault(
    data: Seq<u8>,
    c: Compression,
    packets: Seq<Packet>,
    w: Window,
    e: IoError,
) -> bool {
    &&& gathered(data, c, packets, packets.len() as int, w) is None
    &&& exists|k: int| 0 <= k < packets.len() && #[trigger] stops_slice(data, c, packets, w, k, e)
}

/// What fails for some packets fails for more.
proof fn gathered_fails(data: Seq<u8>, c: Compression, packets: Seq<Packet>, k: int, w: Window)
    requires
        0 <= k <= packets.len(),
    ensures
        gathered(data, c, packets, k, w) is None ==> gathered(
            data,
            c,
            packets,
            packets.len() as int,
            w,
        ) is None,
    decreases packets.len() - k,
{
    if k < packets.len() {
        gathered_fails(data, c, packets, k + 1, w);
    }
}

/// An image of a recording: grey samples, or red, green and blue ones in turn.
#[derive(Debug)]
pub struct Picture {
    pub width: usize,
    pub height: usize,
    pub channels: usize,
    pub samples: Vec<u8>,
}

/// The bytes of a pixel in a frame format, if it is one of those handled.
pub open spec fn format_channels(format: int) -> Option<int> {
    if format == 0 {
        Some(1)
    } else if format == 16 {
        Some(3)
    } else if format == 24 {
        Some(4)
    } else {
        None
    }
}

/// A 16-bit dimension widened as machine integers are: a negative one becomes huge.
pub open spec fn widened_size(v: int) -> int {
    if v < 0 {
        usize::MAX + 1 + v
    } else {
        v
    }
}

/// The samples of colour pixels, stored blue first, as red, green and blue.
pub open spec fn red_first(pixels: Seq<u8>, channels: int, n: int) -> Seq<u8>
    decreases n,
{
    if n <= 0 {
        Seq::empty()
    } else {
        let at = channels * (n - 1);
        red_first(pixels, channels, n - 1) + seq![pixels[at + 2], pixels[at + 1], pixels[at]]
    }
}

/// The samples of a frame's pixels.
pub open spec fn picture_samples(pixels: Seq<u8>, channels: int) -> Seq<u8> {
    if channels == 1 {
        pixels
    } else {
        red_first(pixels, channels, pixels.len() as int / channels)
    }
}

/// What a frame table says.
pub open spec fn frame_says(b: Seq<u8>, at: int, p: Picture) -> bool {
    let w = widened_size(i16_of(b, at, 16));
    let h = widened_size(i16_of(b, at, 18));
    match (format_channels(i8_of(b, at, 14, 0)), vector_of(b, at, 24, 1)) {
        (Some(channels), Some((start, n))) => {
            &&& n == w * h * channels
            &&& p.width == w
            &&& p.height == h
            &&& p.channels == (if channels == 1 {
                1int
            } else {
                3
            })
            &&& p.samples@ == picture_samples(b.subrange(start, start + n), channels)
        },
        _ => false,
    }
}

/// Why a frame table cannot be read.
pub open spec fn frame_fault(b: Seq<u8>, at: int, e: IoError) -> bool {
    let w = widened_size(i16_of(b, at, 16));
    let h = widened_size(i16_of(b, at, 18));
    let format = i8_of(b, at, 14, 0);
    match format_channels(format) {
        None => e matches IoError::Unsupported(m) && m@ == "AEDAT4 frame format "@ + signed_decimal(
            format,
        ) + " is not an 8-bit image this reader decodes"@,
        Some(channels) => match vector_of(b, at, 24, 1) {
            None => e matches IoError::Format(m) && m@ == "AEDAT4 frame has no pixels"@,
            Some((start, n)) => n != w * h * channels && (e matches IoError::Format(m) && m@ == (
            "AEDAT4 frame declares "@ + decimal(w as nat) + "x"@ + decimal(h as nat) + "x"@) + (
            decimal(channels as nat) + " but carries "@ + decimal(n as nat) + " bytes"@)),
        },
    }
}

fn widen(v: i16) -> (size: usize)
    ensures
        size == widened_size(v as int),
{
    if v < 0 {
        let below: usize = (-(v as i32) - 1) as usize;
        usize::MAX - below
    } else {
        v as usize
    }
}

fn to_red_first(pixels: &[u8], channels: usize) -> (samples: Vec<u8>)
    requires
        3 <= channels <= 4,
        pixels@.len() as int % channels as int == 0,
    ensures
        samples@ == red_first(pixels@, channels as int, pixels@.len() as int / channels as int),
{
    let total: usize = pixels.len();
    let n: usize = total / channels;
    proof {
        assert(channels * n == total) by (nonlinear_arith)
            requires
                n == total as int / channels as int,
                total as int % channels as int == 0,
                channels > 0,
        ;
    }
    let mut samples: Vec<u8> = Vec::new();
    for i in 0..n
        invariant
            total == pixels@.len(),
            channels * n == total,
            3 <= channels <= 4,
            samples@ == red_first(pixels@, channels as int, i as int),
    {
        assert(channels * i + channels <= total && 0 <= channels * i) by (nonlinear_arith)
            requires
                channels * n == total,
                0 <= i < n,
                3 <= channels,
        ;
        let at: usize = channels * i;
        samples.push(pixels[at + 2]);
        samples.push(pixels[at + 1]);
        samples.push(pixels[at]);
        assert(samples@ =~= red_first(pixels@, channels as int, i + 1));
    }
    samples
}

/// Whether a number is the product of three.
fn is_product(n: usize, a: usize, b: usize, c: usize) -> (yes: bool)
    requires
        c >= 1,
    ensures
        yes == (n == a * b * c),
{
    match a.checked_mul(b) {
        Some(ab) => match ab.checked_mul(c) {
            Some(abc) => n == abc,
            None => false,
        },
        None => {
            assert(a * b * c >= a * b) by (nonlinear_arith)
                requires
                    c >= 1,
                    a * b >= 0,
            ;
            false
        },
    }
}

/// Reads a frame table.
pub fn decode_frame(table: &Table<'_>) -> (picture: Result<Picture, IoError>)
    ensures
        match picture {
            Ok(p) => frame_says(table.buffer@, table.at as int, p),
            Err(e) => frame_fault(table.buffer@, table.at as int, e),
        },
{
    let width = widen(table.i16(FRAME_SIZE_X));
    let height = widen(table.i16(FRAME_SIZE_Y));
    let format = table.i8(FRAME_FORMAT, 0);
    let channels: usize = if format == 0 {
        1
    } else if format == 16 {
        3
    } else if format == 24 {
        4
    } else {
        let number = signed_decimal_string(format as i64);
        return Err(
            IoError::Unsupported(
                join3(
                    "AEDAT4 frame format ",
                    number.as_str(),
                    " is not an 8-bit image this reader decodes",
                ),
            ),
        );
    };
    let (pixels, n) = match table.vector(FRAME_PIXELS, 1) {
        Some(found) => found,
        None => {
            return Err(IoError::Format("AEDAT4 frame has no pixels".to_owned()));
        },
    };
    if !is_product(n, width, height, channels) {
        let (w, h) = (decimal_string(width as u64), decimal_string(height as u64));
        let (c, count) = (decimal_string(channels as u64), decimal_string(n as u64));
        let declared = join5("AEDAT4 frame declares ", w.as_str(), "x", h.as_str(), "x");
        let carried = join3(c.as_str(), " but carries ", count.as_str());
        let carried = join2(carried.as_str(), " bytes");
        return Err(IoError::Format(join2(declared.as_str(), carried.as_str())));
    }
    assert(pixels@.len() == n);
    proof {
        assert(n as int % channels as int == 0) by (nonlinear_arith)
            requires
                n == width * height * channels,
                channels >= 1,
        ;
    }
    if channels == 1 {
        Ok(Picture { width, height, channels: 1, samples: vstd::slice::slice_to_vec(pixels) })
    } else {
        Ok(Picture { width, height, channels: 3, samples: to_red_first(pixels, channels) })
    }
}

/// A frame and its time, as plain values.
pub ghost struct TimedPicture {
    pub t: int,
    pub width: int,
    pub height: int,
    pub channels: int,
    pub samples: Seq<u8>,
}

/// The frame a table describes, if it is readable.
pub open spec fn frame_at(b: Seq<u8>, at: int) -> Option<TimedPicture> {
    let w = widened_size(i16_of(b, at, 16));
    let h = widened_size(i16_of(b, at, 18));
    match (format_channels(i8_of(b, at, 14, 0)), vector_of(b, at, 24, 1)) {
        (Some(channels), Some((start, n))) => if n == w * h * channels {
            Some(
                TimedPicture {
                    t: i64_of(b, at, 4, 0),
                    width: w,
                    height: h,
                    channels: if channels == 1 {
                        1
                    } else {
                        3
                    },
                    samples: picture_samples(b.subrange(start, start + n), channels),
                },
            )
        } else {
            None
        },
        _ => None,
    }
}

/// Frames as plain values.
pub open spec fn pictured(frames: Seq<(i64, Picture)>) -> Seq<TimedPicture> {
    Seq::new(
        frames.len(),
        |i: int|
            TimedPicture {
                t: frames[i].0 as int,
                width: frames[i].1.width as int,
                height: frames[i].1.height as int,
                channels: frames[i].1.channels as int,
                samples: frames[i].1.samples@,
            },
    )
}

/// The frames of a time window among the first `n` packets; `None` if one is not readable.
pub open spec fn gathered_frames(
    data: Seq<u8>,
    c: Compression,
    packets: Seq<Packet>,
    n: int,
    t0: int,
    t1: int,
) -> Option<Seq<TimedPicture>>
    decreases n,
{
    if n <= 0 {
        Some(Seq::empty())
    } else {
        let p = packets[n - 1];
        match gathered_frames(data, c, packets, n - 1, t0, t1) {
            None => None,
            Some(rest) => if !(p.end >= t0 && p.start < t1) {
                Some(rest)
            } else {
                match body_of(data, c, p.offset as int, p.size as int) {
                    None => None,
                    Some(b) => match root_of(b, 4) {
                        None => None,
                        Some(root) => if t0 <= i64_of(b, root, 4, 0) < t1 {
                            match frame_at(b, root) {
                                Some(frame) => Some(rest.push(frame)),
                                None => None,
                            }
                        } else {
                            Some(rest)
                        },
                    },
                }
            },
        }
    }
}

proof fn frames_fail(
    data: Seq<u8>,
    c: Compression,
    packets: Seq<Packet>,
    k: int,
    t0: int,
    t1: int,
)
    requires
        0 <= k <= packets.len(),
    ensures
        gathered_frames(data, c, packets, k, t0, t1) is None ==> gathered_frames(
            data,
            c,
            packets,
            packets.len() as int,
            t0,
            t1,
        ) is None,
    decreases packets.len() - k,
{
    if k < packets.len() {
        frames_fail(data, c, packets, k + 1, t0, t1);
    }
}

/// Why a decompressed frame packet cannot be read.
pub open spec fn frame_packet_fault(b: Seq<u8>, t0: int, t1: int, e: IoError) -> bool {
    match root_of(b, 4) {
        None => e matches IoError::Format(m) && m@ == "AEDAT4 frame packet is not readable"@,
        Some(root) => t0 <= i64_of(b, root, 4, 0) < t1 && frame_fault(b, root, e),
    }
}

/// Whether the packet at `k` that a time window touches is the first that cannot be read, and why.
pub open spec fn stops_frames(
    data: Seq<u8>,
    c: Compression,
    packets: Seq<Packet>,
    t0: int,
    t1: int,
    k: int,
    e: IoError,
) -> bool {
    let p = packets[k];
    &&& gathered_frames(data, c, packets, k, t0, t1) is Some
    &&& gathered_frames(data, c, packets, k + 1, t0, t1) is None
    &&& p.end >= t0 && p.start < t1
    &&& match body_of(data, c, p.offset as int, p.size as int) {
        None => body_fault(data, c, p.offset as int, p.size as int, e),
        Some(b) => frame_packet_fault(b, t0, t1, e),
    }
}

/// Why the frames of a time window cannot be read: what is wrong with the first packet that cannot.
pub open spec fn frames_fault(
    data: Seq<u8>,
    c: Compression,
    packets: Seq<Packet>,
    t0: int,
    t1: int,
    e: IoError,
) -> bool {
    exists|k: int|
        0 <= k < packets.len() && #[trigger] stops_frames(data, c, packets, t0, t1, k, e)
}

/// Reads a decompressed frame packet: its frame, if that lies in a time window.
pub fn read_frame(body: &[u8], t0: i64, t1: i64) -> (frame: Result<Option<(i64, Picture)>, IoError>)
    ensures
        match frame {
            Ok(Some((t, p))) => {
                &&& root_of(body@, 4) is Some
                &&& t0 <= t < t1
                &&& t == i64_of(body@, root_of(body@, 4)->0, 4, 0)
                &&& frame_says(body@, root_of(body@, 4)->0, p)
            },
            Ok(None) => root_of(body@, 4) is Some && !(t0 <= i64_of(
                body@,
                root_of(body@, 4)->0,
                4,
                0,
            ) < t1),
            Err(e) => frame_packet_fault(body@, t0 as int, t1 as int, e),
        },
{
    let table = match Table::size_prefixed_root(body) {
        Some(table) => table,
        None => {
            return Err(IoError::Format("AEDAT4 frame packet is not readable".to_owned()));
        },
    };
    let t = table.i64(TIMESTAMP, 0);
    if t < t0 || t >= t1 {
        return Ok(None);
    }
    match decode_frame(&table) {
        Ok(picture) => Ok(Some((t, picture))),
        Err(error) => Err(error),
    }
}

/// An inertial sample as stored: the bit patterns of single precision numbers, acceleration in
/// multiples of standard gravity and rotation in degrees per second.
#[derive(Clone, Copy, Debug, PartialEq, Eq)]
pub struct ImuReading {
    pub t: i64,
    pub acceleration: (u32, u32, u32),
    pub rotation: (u32, u32, u32),
}

/// The inertial sample that a table describes.
pub open spec fn reading_at(b: Seq<u8>, at: int) -> ImuReading {
    ImuReading {
        t: i64_of(b, at, 4, 0) as i64,
        acceleration: (
            f32_bits_of(b, at, 8) as u32,
            f32_bits_of(b, at, 10) as u32,
            f32_bits_of(b, at, 12) as u32,
        ),
        rotation: (
            f32_bits_of(b, at, 14) as u32,
            f32_bits_of(b, at, 16) as u32,
            f32_bits_of(b, at, 18) as u32,
        ),
    }
}

/// The samples of some tables that lie in a time window.
pub open spec fn readings(b: Seq<u8>, tables: Seq<int>, t0: int, t1: int) -> Seq<ImuReading>
    decreases tables.len(),
{
    if tables.len() == 0 {
        Seq::empty()
    } else {
        let rest = readings(b, tables.drop_last(), t0, t1);
        let sample = reading_at(b, tables.last());
        if t0 <= sample.t < t1 {
            rest.push(sample)
        } else {
            rest
        }
    }
}

/// Whether a packet has a vector of samples that does not fit.
pub open spec fn cut_samples(b: Seq<u8>, root: int) -> bool {
    field_of(b, root, 4) is Some && vector_of(b, root, 4, 4) is None
}

/// The samples of a time window among the first `n` packets; `None` if one is not readable.
pub open spec fn gathered_readings(
    data: Seq<u8>,
    c: Compression,
    packets: Seq<Packet>,
    n: int,
    t0: int,
    t1: int,
) -> Option<Seq<ImuReading>>
    decreases n,
{
    if n <= 0 {
        Some(Seq::empty())
    } else {
        let p = packets[n - 1];
        match gathered_readings(data, c, packets, n - 1, t0, t1) {
            None => None,
            Some(rest) => if !(p.end >= t0 && p.start < t1) {
                Some(rest)
            } else {
                match body_of(data, c, p.offset as int, p.size as int) {
                    None => None,
                    Some(b) => match root_of(b, 4) {
                        None => None,
                        Some(root) => if cut_samples(b, root) {
                            None
                        } else {
                            Some(rest + readings(b, tables_of(b, root, 4), t0, t1))
                        },
                    },
                }
            },
        }
    }
}

proof fn readings_fail(
    data: Seq<u8>,
    c: Compression,
    packets: Seq<Packet>,
    k: int,
    t0: int,
    t1: int,
)
    requires
        0 <= k <= packets.len(),
    ensures
        gathered_readings(data, c, packets, k, t0, t1) is None ==> gathered_readings(
            data,
            c,
            packets,
            packets.len() as int,
            t0,
            t1,
        ) is None,
    decreases packets.len() - k,
{
    if k < packets.len() {
        readings_fail(data, c, packets, k + 1, t0, t1);
    }
}

/// Why a decompressed packet of inertial samples cannot be read.
pub open spec fn sample_packet_fault(b: Seq<u8>, e: IoError) -> bool {
    match root_of(b, 4) {
        None => e matches IoError::Format(m) && m@ == "AEDAT4 IMU packet is not readable"@,
        Some(root) => cut_samples(b, root) && (e matches IoError::Format(m) && m@
            == "AEDAT4 IMU packet is truncated"@),
    }
}

/// Whether the packet at `k` that a time window touches is the first that cannot be read, and why.
pub open spec fn stops_readings(
    data: Seq<u8>,
    c: Compression,
    packets: Seq<Packet>,
    t0: int,
    t1: int,
    k: int,
    e: IoError,
) -> bool {
    let p = packets[k];
    &&& gathered_readings(data, c, packets, k, t0, t1) is Some
    &&& gathered_readings(data, c, packets, k + 1, t0, t1) is None
    &&& p.end >= t0 && p.start < t1
    &&& match body_of(data, c, p.offset as int, p.size as int) {
        None => body_fault(data, c, p.offset as int, p.size as int, e),
        Some(b) => sample_packet_fault(b, e),
    }
}

/// Why the samples of a time window cannot be read: what is wrong with the first packet that
/// cannot.
pub open spec fn readings_fault(
    data: Seq<u8>,
    c: Compression,
    packets: Seq<Packet>,
    t0: int,
    t1: int,
    e: IoError,
) -> bool {
    exists|k: int|
        0 <= k < packets.len() && #[trigger] stops_readings(data, c, packets, t0, t1, k, e)
}

/// Reads a decompressed packet of inertial samples: those in a time window.
pub fn read_readings(body: &[u8], t0: i64, t1: i64) -> (samples: Result<Vec<ImuReading>, IoError>)
    ensures
        match samples {
            Ok(s) => root_of(body@, 4) is Some && !cut_samples(body@, root_of(body@, 4)->0) && s@
                == readings(
                body@,
                tables_of(body@, root_of(body@, 4)->0, 4),
                t0 as int,
                t1 as int,
            ),
            Err(e) => sample_packet_fault(body@, e),
        },
{
    let table = match Table::size_prefixed_root(body) {
        Some(table) => table,
        None => {
            return Err(IoError::Format("AEDAT4 IMU packet is not readable".to_owned()));
        },
    };
    if table.field(ELEMENTS).is_some() && table.vector_at(ELEMENTS, 4).is_none() {
        return Err(IoError::Format("AEDAT4 IMU packet is truncated".to_owned()));
    }
    let elements = table.tables(ELEMENTS);
    let ghost wanted = tables_of(body@, table.at as int, 4);
    let mut samples: Vec<ImuReading> = Vec::new();
    let n: usize = elements.len();
    for i in 0..n
        invariant
            n == elements@.len(),
            n == wanted.len(),
            forall|j: int|
                0 <= j < n ==> (#[trigger] elements@[j]).buffer == body && elements@[j].at
                    == wanted[j],
            samples@ == readings(body@, wanted.take(i as int), t0 as int, t1 as int),
    {
        assert(wanted.take(i + 1).drop_last() =~= wanted.take(i as int));
        let element = elements[i];
        let t = element.i64(TIMESTAMP, 0);
        if t0 <= t && t < t1 {
            samples.push(
                ImuReading {
                    t,
                    acceleration: (
                        element.f32_bits(IMU_ACCELEROMETER),
                        element.f32_bits(IMU_ACCELEROMETER + 2),
                        element.f32_bits(IMU_ACCELEROMETER + 4),
                    ),
                    rotation: (
                        element.f32_bits(IMU_GYROSCOPE),
                        element.f32_bits(IMU_GYROSCOPE + 2),
                        element.f32_bits(IMU_GYROSCOPE + 4),
                    ),
                },
            );
        }
    }
    assert(wanted.take(n as int) =~= wanted);
    Ok(samples)
}

impl Aedat4SliceSource {
    /// The frames of a time window, each with its time.
    pub fn frames(&self, data: &[u8], t0: i64, t1: i64) -> (frames: Result<
        Vec<(i64, Picture)>,
        IoError,
    >)
        ensures
            ({
                let packets = self.frame_packets();
                let all = gathered_frames(
                    data@,
                    self.compression(),
                    packets,
                    packets.len() as int,
                    t0 as int,
                    t1 as int,
                );
                match frames {
                    Ok(f) => all == Some(pictured(f@)),
                    Err(e) => all is None && frames_fault(
                        data@,
                        self.compression(),
                        packets,
                        t0 as int,
                        t1 as int,
                        e,
                    ),
                }
            }),
    {
        let mut frames: Vec<(i64, Picture)> = Vec::new();
        let n: usize = self.frames.len();
        let ghost packets = self.frame_packets();
        let ghost c = self.compression();
        assert(pictured(frames@) =~= Seq::<TimedPicture>::empty());
        let mut i: usize = 0;
        while i < n
            invariant
                i <= n,
                n == packets.len(),
                packets == self.frame_packets(),
                c == self.compression(),
                gathered_frames(data@, c, packets, i as int, t0 as int, t1 as int) == Some(
                    pictured(frames@),
                ),
            decreases n - i,
        {
            let p = self.frames[i];
            assert(p == packets[i as int]);
            if p.end >= t0 && p.start < t1 {
                let body = match read_body(data, self.compression, p.offset, p.size) {
                    Ok(body) => body,
                    Err(error) => {
                        proof {
                            frames_fail(data@, c, packets, i + 1, t0 as int, t1 as int);
                            assert(stops_frames(
                                data@,
                                c,
                                packets,
                                t0 as int,
                                t1 as int,
                                i as int,
                                error,
                            ));
                        }
                        return Err(error);
                    },
                };
                let ghost before = frames@;
                match read_frame(&body, t0, t1) {
                    Ok(Some((t, picture))) => {
                        frames.push((t, picture));
                        assert(pictured(frames@) =~= pictured(before).push(
                            frame_at(body@, root_of(body@, 4)->0)->0,
                        ));
                    },
                    Ok(None) => {},
                    Err(error) => {
                        proof {
                            frames_fail(data@, c, packets, i + 1, t0 as int, t1 as int);
                            assert(stops_frames(
                                data@,
                                c,
                                packets,
                                t0 as int,
                                t1 as int,
                                i as int,
                                error,
                            ));
                        }
                        return Err(error);
                    },
                }
            }
            i += 1;
        }
        Ok(frames)
    }

    /// The inertial samples of a time window.
    pub fn imu(&self, data: &[u8], t0: i64, t1: i64) -> (samples: Result<Vec<ImuReading>, IoError>)
        ensures
            ({
                let packets = self.imu_packets();
                let all = gathered_readings(
                    data@,
                    self.compression(),
                    packets,
                    packets.len() as int,
                    t0 as int,
                    t1 as int,
                );
                match samples {
                    Ok(s) => all == Some(s@),
                    Err(e) => all is None && readings_fault(
                        data@,
                        self.compression(),
                        packets,
                        t0 as int,
                        t1 as int,
                        e,
                    ),
                }
            }),
    {
        let mut samples: Vec<ImuReading> = Vec::new();
        let n: usize = self.imu.len();
        let ghost packets = self.imu_packets();
        let ghost c = self.compression();
        let mut i: usize = 0;
        while i < n
            invariant
                i <= n,
                n == packets.len(),
                packets == self.imu_packets(),
                c == self.compression(),
                gathered_readings(data@, c, packets, i as int, t0 as int, t1 as int) == Some(
                    samples@,
                ),
            decreases n - i,
        {
            let p = self.imu[i];
            assert(p == packets[i as int]);
            if p.end >= t0 && p.start < t1 {
                let body = match read_body(data, self.compression, p.offset, p.size) {
                    Ok(body) => body,
                    Err(error) => {
                        proof {
                            readings_fail(data@, c, packets, i + 1, t0 as int, t1 as int);
                            assert(stops_readings(
                                data@,
                                c,
                                packets,
                                t0 as int,
                                t1 as int,
                                i as int,
                                error,
                            ));
                        }
                        return Err(error);
                    },
                };
                let ghost before = samples@;
                match read_readings(&body, t0, t1) {
                    Ok(mut more) => {
                        let ghost added = more@;
                        samples.append(&mut more);
                        assert(samples@ =~= before + added);
                    },
                    Err(error) => {
                        proof {
                            readings_fail(data@, c, packets, i + 1, t0 as int, t1 as int);
                            assert(stops_readings(
                                data@,
                                c,
                                packets,
                                t0 as int,
                                t1 as int,
                                i as int,
                                error,
                            ));
                        }
                        return Err(error);
                    },
                }
            }
            i += 1;
        }
        Ok(samples)
    }
}

/// The packets a recording lists, in its data table if it has one that is in reach.
pub open spec fn lists(data: Seq<u8>, h: Header, packets: Seq<(i32, Packet)>) -> bool {
    if 0 <= h.data_table_position < data.len() {
        let place = h.data_table_position as int;
        match body_of(data, h.compression, place, data.len() - place) {
            Some(b) => root_of(b, 4) is Some && packets == definitions(
                b,
                tables_of(b, root_of(b, 4)->0, 4),
            ),
            None => false,
        }
    } else {
        all_walked(data, h.compression, h.body_offset as int, packets)
    }
}

/// Why the data table of a recording cannot be read, if it has one in reach: the codec refuses it,
/// or it is not readable.
pub open spec fn table_fault(data: Seq<u8>, h: Header, e: IoError) -> bool {
    let place = h.data_table_position as int;
    &&& 0 <= place < data.len()
    &&& match body_of(data, h.compression, place, data.len() - place) {
        None => body_fault(data, h.compression, place, data.len() - place, e),
        Some(b) => root_of(b, 4) is None && (e matches IoError::Format(m) && m@
            == "AEDAT4 data table is not readable"@),
    }
}

/// The packets of a recording whose header has been read.
pub fn list_packets(data: &[u8], header: &Header) -> (packets: Result<Vec<(i32, Packet)>, IoError>)
    requires
        header.body_offset <= data@.len(),
    ensures
        match packets {
            Ok(p) => lists(data@, *header, p@),
            Err(e) => table_fault(data@, *header, e),
        },
{
    let total: u64 = data.len() as u64;
    let position = header.data_table_position;
    if position >= 0 && (position as u64) < total {
        let place: u64 = position as u64;
        let size: usize = (total - place) as usize;
        assert(data@.subrange(place as int, place + size) =~= data@.subrange(
            position as int,
            data@.len() as int,
        ));
        match read_body(data, header.compression, place, size) {
            Ok(body) => read_data_table(&body),
            Err(error) => Err(error),
        }
    } else {
        Ok(walk_packets(data, header.compression, header.body_offset))
    }
}

/// What opening a recording gives.
pub open spec fn opens(data: Seq<u8>, asked: Option<(usize, usize)>, s: Aedat4SliceSource) -> bool {
    exists|h: Header, packets: Seq<(i32, Packet)>|
        #![trigger lists(data, h, packets)]
        {
            &&& front_says(data, h)
            &&& lists(data, h, packets)
            &&& sensor_of(h.streams@, asked) is Some
            &&& s.indexes(h.compression, h.streams@, packets, sensor_of(h.streams@, asked)->0)
        }
}

/// Why a recording cannot be opened.
pub open spec fn open_fault(data: Seq<u8>, asked: Option<(usize, usize)>, e: IoError) -> bool {
    ||| front_fault(data, e)
    ||| exists|h: Header|
        #[trigger] front_says(data, h) && (table_fault(data, h, e) || (e is InvalidSensorSize
            && sensor_of(h.streams@, asked) is None && exists|packets: Seq<(i32, Packet)>|
            lists(data, h, packets)))
}

/// Opens an AEDAT 4 recording for random slicing.
pub fn open_aedat4_slice(data: &[u8], sensor_size: Option<(usize, usize)>) -> (source: Result<
    Aedat4SliceSource,
    IoError,
>)
    ensures
        match source {
            Ok(s) => opens(data@, sensor_size, s) && s.wf(),
            Err(e) => open_fault(data@, sensor_size, e),
        },
{
    let header = match read_header(data) {
        Ok(header) => header,
        Err(error) => {
            return Err(error);
        },
    };
    let packets = match list_packets(data, &header) {
        Ok(packets) => packets,
        Err(error) => {
            assert(front_says(data@, header));
            return Err(error);
        },
    };
    match Aedat4SliceSource::index(&header, &packets, sensor_size) {
        Ok(source) => {
            assert(lists(data@, header, packets@));
            Ok(source)
        },
        Err(error) => {
            assert(front_says(data@, header));
            assert(lists(data@, header, packets@));
            Err(error)
        },
    }
}

/// Reads the events of an AEDAT 4 recording, at most `max_events` of them.
pub fn read_aedat4(data: &[u8], sensor_size: Option<(usize, usize)>, max_events: Option<usize>) -> (
    stream: Result<EventStream, IoError>)
    ensures
        match stream {
            Ok(s) => exists|source: Aedat4SliceSource| #[trigger]
                opens(data@, sensor_size, source) && source.sliced(
                    data@,
                    source.index_window(
                        0,
                        match max_events {
                            Some(n) => n,
                            None => source.event_count(),
                        },
                    ),
                    s,
                ),
            Err(e) => open_fault(data@, sensor_size, e) || exists|source: Aedat4SliceSource|
                #[trigger] opens(data@, sensor_size, source) && slice_fault(
                    data@,
                    source.compression(),
                    source.event_packets(),
                    source.index_window(
                        0,
                        match max_events {
                            Some(n) => n,
                            None => source.event_count(),
                        },
                    ),
                    e,
                ),
        },
{
    let source = match open_aedat4_slice(data, sensor_size) {
        Ok(source) => source,
        Err(error) => {
            return Err(error);
        },
    };
    let limit: usize = match max_events {
        Some(n) => n,
        None => source.n_events(),
    };
    source.slice_index(data, 0, limit)
}

} // verus!
