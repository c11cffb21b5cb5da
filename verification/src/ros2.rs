//! Messages of ROS 2: packets of encoded events, images and tensors.
//!
//! The transport belongs to the caller, and so does the order of the bytes of its machine.

use vstd::prelude::*;
use vstd::string::*;

use crate::bytes::{signed, signed64};
use crate::chars::{
    chars_of, decimal, decimal_string, find_text, join2, join3, lowered, spells, text_at, to_lower,
};
use crate::io::codec::{decoded, fresh};
use crate::io::evt::fresh_encoder;
use crate::io::raw_header::EvtVersion;

use crate::io::lines::texts;
use crate::io::prophesee_raw::{all_words, decode_words};
use crate::io::raw_sink::{
    carries, disorder, disorder_message, encoded, written_is_read, RawEventSink,
};
use crate::io::IoError;
use crate::representation::{EventFrame, EventFrameData};
use crate::stream::{
    kept, kept_whole, on_sensor, rows, EventStream, RawEvent, MICROSECOND_SCALE,
};

verus! {

/// What went wrong talking to ROS 2.
#[derive(Debug)]
pub enum Ros2Error {
    /// The session, a node or an endpoint could not be created.
    Session(String),
    /// A message could not be published or received.
    Transport(String),
    /// A payload could not be made or understood.
    Payload(String),
    /// Encoding or decoding events failed.
    Io(IoError),
}

impl Ros2Error {
    /// The sentence describing the error; an error of encoding or decoding speaks for itself.
    pub fn message(&self) -> (text: Option<String>)
        ensures
            match self {
                Ros2Error::Session(m) => text matches Some(t) && t@ == "ROS 2 session: "@ + m@,
                Ros2Error::Transport(m) => text matches Some(t) && t@ == "ROS 2 transport: "@ + m@,
                Ros2Error::Payload(m) => text matches Some(t) && t@ == "ROS 2 payload: "@ + m@,
                Ros2Error::Io(_) => text is None,
            },
    {
        match self {
            Ros2Error::Session(m) => Some(join2("ROS 2 session: ", m.as_str())),
            Ros2Error::Transport(m) => Some(join2("ROS 2 transport: ", m.as_str())),
            Ros2Error::Payload(m) => Some(join2("ROS 2 payload: ", m.as_str())),
            Ros2Error::Io(_) => None,
        }
    }
}

/// A time as ROS headers carry it.
#[derive(Clone, Copy, Debug, PartialEq, Eq, Structural)]
pub struct Stamp {
    pub sec: i32,
    pub nanosec: u32,
}

/// Nanoseconds as a header carries them. Seconds are held in 32 bits.
pub open spec fn stamp_of(ns: u64) -> Stamp {
    Stamp {
        sec: signed((ns / 1_000_000_000) as int % 0x1_0000_0000, 0x8000_0000) as i32,
        nanosec: (ns % 1_000_000_000) as u32,
    }
}

/// Splits nanoseconds into the seconds and nanoseconds that a header carries.
pub fn stamp_from_nanos(ns: u64) -> (stamp: Stamp)
    ensures
        stamp == stamp_of(ns),
{
    let seconds: u64 = ns / 1_000_000_000;
    let low: u64 = seconds % 0x1_0000_0000;
    Stamp {
        sec: crate::bytes::signed32(low as u32),
        nanosec: (ns % 1_000_000_000) as u32,
    }
}

/// `event_camera_msgs/msg/EventPacket`, with the header's stamp and frame first.
#[derive(Clone, Debug)]
pub struct EventPacket {
    pub stamp: Stamp,
    pub frame_id: String,
    pub height: u32,
    pub width: u32,
    /// The number of the packet, from which a lost one is noticed.
    pub seq: u64,
    /// The time that is added to that of every event, in nanoseconds.
    pub time_base: u64,
    /// How the events are encoded.
    pub encoding: String,
    pub is_bigendian: bool,
    pub events: Vec<u8>,
}

/// An event at another time. Times wrap as machine integers do.
pub open spec fn shifted_event(e: RawEvent, by: i64) -> RawEvent {
    RawEvent { x: e.x, y: e.y, t: e.t.wrapping_add(by), p: e.p }
}

/// Events at other times.
pub open spec fn shifted(events: Seq<RawEvent>, by: i64) -> Seq<RawEvent> {
    Seq::new(events.len(), |i: int| shifted_event(events[i], by))
}

/// The events of a sensor at other times. A sensor without pixels holds none.
pub open spec fn shifted_on(
    events: Seq<RawEvent>,
    width: int,
    height: int,
    by: i64,
) -> Seq<RawEvent> {
    if width == 0 || height == 0 {
        Seq::empty()
    } else {
        shifted(events, by)
    }
}

proof fn shifted_on_sensor(stream: &EventStream, by: i64)
    requires
        stream.in_bounds(),
    ensures
        shifted_on(stream.events(), stream.width(), stream.height(), by) == shifted(
            stream.events(),
            by,
        ),
{
    if stream.events().len() > 0 {
        assert(on_sensor(stream.events()[0], stream.width(), stream.height()));
    } else {
        assert(shifted(stream.events(), by) =~= Seq::<RawEvent>::empty());
    }
}

/// The stream with every event at another time.
pub fn time_shift(stream: &EventStream, by: i64) -> (moved: EventStream)
    requires
        stream.wf(),
    ensures
        moved.wf(),
        moved.width() == stream.width(),
        moved.height() == stream.height(),
        moved.scale() == stream.scale(),
        moved.events() == shifted_on(stream.events(), stream.width(), stream.height(), by),
        stream.in_bounds() ==> moved.in_bounds(),
{
    let (width, height) = stream.sensor_size();
    let n: usize = stream.len();
    let ghost events = stream.events();
    let mut xs: Vec<u16> = Vec::with_capacity(n);
    let mut ys: Vec<u16> = Vec::with_capacity(n);
    let mut ts: Vec<i64> = Vec::with_capacity(n);
    let mut ps: Vec<bool> = Vec::with_capacity(n);
    for i in 0..n
        invariant
            stream.wf(),
            events == stream.events(),
            n == events.len(),
            xs@.len() == i,
            ys@.len() == i,
            ts@.len() == i,
            ps@.len() == i,
            rows(xs@, ys@, ts@, ps@) == shifted(events, by).take(i as int),
    {
        let e = stream.get(i);
        let ghost before = rows(xs@, ys@, ts@, ps@);
        xs.push(e.x);
        ys.push(e.y);
        ts.push(e.t.wrapping_add(by));
        ps.push(e.p);
        assert(rows(xs@, ys@, ts@, ps@) =~= before.push(shifted_event(e, by)));
        assert(shifted(events, by).take(i + 1) =~= shifted(events, by).take(i as int).push(
            shifted_event(e, by),
        ));
    }
    assert(shifted(events, by).take(n as int) =~= shifted(events, by));
    let moved = stream.map_columns(width, height, xs, ys, ts, ps);
    assert(stream.in_bounds() ==> moved.in_bounds()) by {
        if stream.in_bounds() {
            shifted_on_sensor(stream, by);
            assert forall|i: int| 0 <= i < moved.events().len() implies on_sensor(
                #[trigger] moved.events()[i],
                moved.width(),
                moved.height(),
            ) by {
                assert(on_sensor(events[i], stream.width(), stream.height()));
            }
        }
    }
    moved
}

/// The time of the first event, zero if there is none.
pub open spec fn first_time(events: Seq<RawEvent>) -> int {
    if events.len() == 0 {
        0
    } else {
        events[0].t as int
    }
}

/// The base of a packet: the first time in nanoseconds, moved by an offset; not before zero.
pub open spec fn time_base_of(events: Seq<RawEvent>, offset: i64) -> int {
    let base = first_time(events) * 1000 + offset;
    if base < 0 {
        0
    } else if base > i64::MAX {
        i64::MAX as int
    } else {
        base
    }
}

/// What an encoding is called in a packet.
pub open spec fn encoding_name(version: EvtVersion) -> Seq<char> {
    match version {
        EvtVersion::Evt2 => "evt2"@,
        EvtVersion::Evt3 => "evt3"@,
    }
}

/// The complaint about an encoding that is not known.
pub open spec fn unknown_encoding(name: Seq<char>) -> Seq<char> {
    "this build decodes the \"evt2\" and \"evt3\" encodings; the packet says \""@ + name
        + "\". The ROS 2 event-camera stack also defines libcaer, libcaer_cmp, mono and trigger."@
}

impl EventPacket {
    /// Encodes a window of events without an offset.
    pub fn encode(stream: &EventStream, seq: u64, encoding: EvtVersion, is_bigendian: bool) -> (
        packet: Result<Self, Ros2Error>)
        requires
            stream.wf(),
            stream.scale() == MICROSECOND_SCALE,
            -9_223_372_036_854_775 <= first_time(stream.events()) <= 9_223_372_036_854_775,
        ensures
            Self::encodes(packet, stream, seq, encoding, 0, "event_camera"@, is_bigendian),
    {
        Self::encode_with(stream, seq, encoding, 0, "event_camera", is_bigendian)
    }

    /// Whether a packet is that of a window: its events are encoded as if the first were at zero,
    /// and its base says when that was. Events out of order are refused.
    pub open spec fn encodes(
        packet: Result<Self, Ros2Error>,
        stream: &EventStream,
        seq: u64,
        encoding: EvtVersion,
        offset: i64,
        frame_id: Seq<char>,
        is_bigendian: bool,
    ) -> bool {
        let events = shifted_on(
            stream.events(),
            stream.width(),
            stream.height(),
            (-first_time(stream.events())) as i64,
        );
        let at = disorder(None, events, 0);
        match packet {
            Ok(p) => {
                &&& at == events.len()
                &&& p.time_base == time_base_of(stream.events(), offset)
                &&& p.stamp == stamp_of(p.time_base)
                &&& p.frame_id@ == frame_id
                &&& p.height == stream.height() as u32
                &&& p.width == stream.width() as u32
                &&& p.seq == seq
                &&& p.encoding@ == encoding_name(encoding)
                &&& p.is_bigendian == is_bigendian
                &&& p.events@ == if events.len() == 0 {
                    Seq::empty()
                } else {
                    encoded(encoding, fresh_encoder(), events)
                }
            },
            Err(Ros2Error::Io(IoError::Unsupported(m))) => 0 < at < events.len() && m@
                == disorder_message(events[at].t as int, events[at - 1].t as int),
            Err(_) => false,
        }
    }

    /// Encodes a window of events that are timed in microseconds, with an offset in nanoseconds to
    /// the clock of the sensor.
    pub fn encode_with(
        stream: &EventStream,
        seq: u64,
        encoding: EvtVersion,
        clock_offset_ns: i64,
        frame_id: &str,
        is_bigendian: bool,
    ) -> (packet: Result<Self, Ros2Error>)
        requires
            stream.wf(),
            stream.scale() == MICROSECOND_SCALE,
            -9_223_372_036_854_775 <= first_time(stream.events()) <= 9_223_372_036_854_775,
        ensures
            Self::encodes(
                packet,
                stream,
                seq,
                encoding,
                clock_offset_ns,
                frame_id@,
                is_bigendian,
            ),
    {
        let (width, height) = stream.sensor_size();
        let first_us: i64 = if stream.len() > 0 {
            stream.get(0).t
        } else {
            0
        };
        let base: i128 = first_us as i128 * 1000 + clock_offset_ns as i128;
        let time_base: u64 = if base < 0 {
            0
        } else if base > i64::MAX as i128 {
            i64::MAX as u64
        } else {
            base as u64
        };
        let moved = time_shift(stream, -first_us);
        let mut sink = RawEventSink::to_writer(Vec::new(), encoding, false);
        proof {
            moved.size_fits();
        }
        let appended = sink.append(&moved);
        match appended {
            Ok(()) => {},
            Err(error) => {
                proof {
                    disorder_is_later(moved.events(), 0);
                }
                return Err(Ros2Error::Io(error));
            },
        }
        let name = match encoding {
            EvtVersion::Evt2 => "evt2".to_owned(),
            EvtVersion::Evt3 => "evt3".to_owned(),
        };
        let packet = EventPacket {
            stamp: stamp_from_nanos(time_base),
            frame_id: frame_id.to_owned(),
            height: height as u32,
            width: width as u32,
            seq,
            time_base,
            encoding: name,
            is_bigendian,
            events: sink.into_inner(),
        };
        proof {
            disorder_is_later(moved.events(), 0);
            if moved.events().len() > 0 {
                assert(packet.events@ =~= encoded(encoding, fresh_encoder(), moved.events()));
            }
        }
        Ok(packet)
    }

    /// The encoding that a packet says it has.
    pub open spec fn version(&self) -> Option<EvtVersion> {
        if self.encoding@ == "evt3"@ {
            Some(EvtVersion::Evt3)
        } else if self.encoding@ == "evt2"@ {
            Some(EvtVersion::Evt2)
        } else {
            None
        }
    }

    /// The events of a packet, in an encoding.
    pub open spec fn content(&self, version: EvtVersion) -> Seq<RawEvent> {
        shifted(
            kept(
                decoded(fresh(version), self.events@, all_words(version, self.events@)),
                self.width as int,
                self.height as int,
            ),
            self.shift(),
        )
    }

    /// The base of a packet in microseconds, as it is added to times.
    pub open spec fn shift(&self) -> i64 {
        truncated_thousandth(signed(self.time_base as int, 0x8000_0000_0000_0000)) as i64
    }

    /// Decodes a packet into a stream.
    pub fn decode(&self) -> (stream: Result<EventStream, Ros2Error>)
        ensures
            match stream {
                Ok(s) => {
                    &&& self.version() is Some
                    &&& s.wf()
                    &&& s.width() == self.width
                    &&& s.height() == self.height
                    &&& s.scale() == MICROSECOND_SCALE
                    &&& s.events() == self.content(self.version()->0)
                },
                Err(Ros2Error::Payload(m)) => self.version() is None && m@ == unknown_encoding(
                    self.encoding@,
                ),
                Err(_) => false,
            },
    {
        let name = chars_of(self.encoding.as_str());
        let version = if spells(&name, "evt3") {
            EvtVersion::Evt3
        } else if spells(&name, "evt2") {
            EvtVersion::Evt2
        } else {
            return Err(
                Ros2Error::Payload(
                    join3(
                        "this build decodes the \"evt2\" and \"evt3\" encodings; the packet says \"",
                        self.encoding.as_str(),
                        "\". The ROS 2 event-camera stack also defines libcaer, libcaer_cmp, mono and trigger.",
                    ),
                ),
            );
        };
        let stream = decode_words(
            self.events.as_slice(),
            version,
            self.width as usize,
            self.height as usize,
        );
        let base = signed64(self.time_base);
        let by: i64 = if base >= 0 {
            base / 1000
        } else {
            -((-(base as i128) / 1000) as i64)
        };
        proof {
            shifted_on_sensor(&stream, by);
        }
        Ok(time_shift(&stream, by))
    }

    /// The time of the packet, in nanoseconds.
    pub fn time_base_ns(&self) -> (ns: u64)
        ensures
            ns == self.time_base,
    {
        self.time_base
    }
}

/// A thousandth, rounded toward zero.
pub open spec fn truncated_thousandth(value: int) -> int {
    if value >= 0 {
        value / 1000
    } else {
        -((-value) / 1000)
    }
}

proof fn disorder_is_later(events: Seq<RawEvent>, i: int)
    requires
        0 <= i <= events.len(),
    ensures
        i <= disorder(None, events, i) <= events.len(),
        i == 0 && events.len() > 0 ==> disorder(None, events, 0) > 0,
    decreases events.len() - i,
{
    if i < events.len() {
        disorder_is_later(events, i + 1);
    }
}

proof fn shifts_cancel(events: Seq<RawEvent>, by: i64)
    requires
        by != i64::MIN,
    ensures
        shifted(shifted(events, (-by) as i64), by) == events,
{
    assert forall|i: int| 0 <= i < events.len() implies shifted(
        shifted(events, (-by) as i64),
        by,
    )[i] == events[i] by {
        let t = events[i].t;
        assert(t.wrapping_add((-by) as i64).wrapping_add(by) == t);
    }
    assert(shifted(shifted(events, (-by) as i64), by) =~= events);
}

/// A packet that is decoded gives back the events that were encoded, at the times they had, if the
/// encoding can carry them.
pub proof fn packet_round_trip(
    packet: EventPacket,
    stream: EventStream,
    seq: u64,
    encoding: EvtVersion,
    frame_id: Seq<char>,
    is_bigendian: bool,
)
    requires
        stream.wf(),
        stream.in_bounds(),
        stream.width() <= u32::MAX,
        stream.height() <= u32::MAX,
        0 <= first_time(stream.events()) <= 9_223_372_036_854_775,
        EventPacket::encodes(Ok(packet), &stream, seq, encoding, 0, frame_id, is_bigendian),
        carries(
            encoding,
            shifted(stream.events(), (-first_time(stream.events())) as i64),
        ),
    ensures
        packet.version() == Some(encoding),
        packet.content(encoding) == stream.events(),
{
    reveal_strlit("evt2");
    reveal_strlit("evt3");
    stream.size_fits();
    let first = first_time(stream.events());
    let by = first as i64;
    let moved = shifted(stream.events(), (-first) as i64);
    shifted_on_sensor(&stream, (-first) as i64);
    assert("evt2"@[3] != "evt3"@[3]);
    if moved.len() > 0 {
        written_is_read(encoding, moved);
    } else {
        assert(decoded(fresh(encoding), packet.events@, all_words(encoding, packet.events@))
            =~= moved);
    }
    assert forall|i: int| 0 <= i < moved.len() implies on_sensor(
        #[trigger] moved[i],
        stream.width(),
        stream.height(),
    ) by {
        assert(on_sensor(stream.events()[i], stream.width(), stream.height()));
    }
    kept_whole(moved, stream.width(), stream.height());
    assert(packet.time_base == first * 1000);
    assert(packet.shift() == by);
    shifts_cancel(stream.events(), by);
}

/// What a publisher puts into its packets, and what it has published.
#[derive(Debug)]
pub struct EventPublisher {
    seq: u64,
    encoding: EvtVersion,
    clock_offset_ns: i64,
    frame_id: String,
    is_bigendian: bool,
    bytes: usize,
}

impl EventPublisher {
    pub closed spec fn sequence(&self) -> u64 {
        self.seq
    }

    pub closed spec fn version(&self) -> EvtVersion {
        self.encoding
    }

    pub closed spec fn offset(&self) -> i64 {
        self.clock_offset_ns
    }

    pub closed spec fn frame(&self) -> Seq<char> {
        self.frame_id@
    }

    pub closed spec fn big(&self) -> bool {
        self.is_bigendian
    }

    pub closed spec fn sent(&self) -> usize {
        self.bytes
    }

    /// A publisher of EVT3 packets in the frame `event_camera`, without an offset.
    pub fn new(is_bigendian: bool) -> (publisher: Self)
        ensures
            publisher.sequence() == 0,
            publisher.version() == EvtVersion::Evt3,
            publisher.offset() == 0,
            publisher.frame() == "event_camera"@,
            publisher.big() == is_bigendian,
            publisher.sent() == 0,
    {
        EventPublisher {
            seq: 0,
            encoding: EvtVersion::Evt3,
            clock_offset_ns: 0,
            frame_id: "event_camera".to_owned(),
            is_bigendian,
            bytes: 0,
        }
    }

    /// The publisher with another encoding.
    pub fn with_encoding(self, encoding: EvtVersion) -> (publisher: Self)
        ensures
            publisher.sequence() == self.sequence(),
            publisher.version() == encoding,
            publisher.offset() == self.offset(),
            publisher.frame() == self.frame(),
            publisher.big() == self.big(),
            publisher.sent() == self.sent(),
    {
        EventPublisher {
            seq: self.seq,
            encoding,
            clock_offset_ns: self.clock_offset_ns,
            frame_id: self.frame_id,
            is_bigendian: self.is_bigendian,
            bytes: self.bytes,
        }
    }

    /// The publisher with an offset in nanoseconds that is added to the time of every packet.
    pub fn with_clock_offset(self, ns: i64) -> (publisher: Self)
        ensures
            publisher.sequence() == self.sequence(),
            publisher.version() == self.version(),
            publisher.offset() == ns,
            publisher.frame() == self.frame(),
            publisher.big() == self.big(),
            publisher.sent() == self.sent(),
    {
        EventPublisher {
            seq: self.seq,
            encoding: self.encoding,
            clock_offset_ns: ns,
            frame_id: self.frame_id,
            is_bigendian: self.is_bigendian,
            bytes: self.bytes,
        }
    }

    /// The publisher with another frame on every packet.
    pub fn with_frame_id(self, frame_id: &str) -> (publisher: Self)
        ensures
            publisher.sequence() == self.sequence(),
            publisher.version() == self.version(),
            publisher.offset() == self.offset(),
            publisher.frame() == frame_id@,
            publisher.big() == self.big(),
            publisher.sent() == self.sent(),
    {
        EventPublisher {
            seq: self.seq,
            encoding: self.encoding,
            clock_offset_ns: self.clock_offset_ns,
            frame_id: frame_id.to_owned(),
            is_bigendian: self.is_bigendian,
            bytes: self.bytes,
        }
    }

    /// The next packet. The sequence number advances whether or not the events can be encoded; counts
    /// wrap as machine integers do.
    pub fn next_packet(&mut self, stream: &EventStream) -> (packet: Result<EventPacket, Ros2Error>)
        requires
            stream.wf(),
            stream.scale() == MICROSECOND_SCALE,
            -9_223_372_036_854_775 <= first_time(stream.events()) <= 9_223_372_036_854_775,
        ensures
            final(self).sequence() == old(self).sequence().wrapping_add(1),
            final(self).version() == old(self).version(),
            final(self).offset() == old(self).offset(),
            final(self).frame() == old(self).frame(),
            final(self).big() == old(self).big(),
            EventPacket::encodes(
                packet,
                stream,
                final(self).sequence(),
                old(self).version(),
                old(self).offset(),
                old(self).frame(),
                old(self).big(),
            ),
            match packet {
                Ok(p) => final(self).sent() == old(self).sent().wrapping_add(p.events.len()),
                Err(_) => final(self).sent() == old(self).sent(),
            },
    {
        self.seq = self.seq.wrapping_add(1);
        match EventPacket::encode_with(
            stream,
            self.seq,
            self.encoding,
            self.clock_offset_ns,
            self.frame_id.as_str(),
            self.is_bigendian,
        ) {
            Ok(packet) => {
                self.bytes = self.bytes.wrapping_add(packet.events.len());
                Ok(packet)
            },
            Err(error) => Err(error),
        }
    }

    /// How many packets have been made.
    pub fn published(&self) -> (n: u64)
        ensures
            n == self.sequence(),
    {
        self.seq
    }

    /// Bytes of encoded events in all packets.
    pub fn bytes_published(&self) -> (n: usize)
        ensures
            n == self.sent(),
    {
        self.bytes
    }
}

/// What a subscriber has received, and what the sequence numbers say it has missed. Counts wrap as
/// machine integers do.
#[derive(Clone, Copy, Debug, PartialEq, Eq, Structural)]
pub struct EventSubscriber {
    pub received: u64,
    pub last_seq: Option<u64>,
    pub last_time_base_ns: u64,
    pub dropped: u64,
}

/// How many packets are missing between two sequence numbers.
pub open spec fn gap(previous: u64, seq: u64) -> u64 {
    let expected = previous.wrapping_add(1);
    if seq > expected {
        (seq - expected) as u64
    } else {
        0
    }
}

impl EventSubscriber {
    pub fn new() -> (subscriber: Self)
        ensures
            subscriber == (EventSubscriber {
                received: 0,
                last_seq: None,
                last_time_base_ns: 0,
                dropped: 0,
            }),
    {
        EventSubscriber { received: 0, last_seq: None, last_time_base_ns: 0, dropped: 0 }
    }

    /// Counts a packet.
    pub fn count(&mut self, packet: &EventPacket)
        ensures
            *final(self) == (EventSubscriber {
                received: old(self).received.wrapping_add(1),
                last_seq: Some(packet.seq),
                last_time_base_ns: packet.time_base,
                dropped: match old(self).last_seq {
                    Some(previous) => old(self).dropped.wrapping_add(gap(previous, packet.seq)),
                    None => old(self).dropped,
                },
            }),
    {
        self.received = self.received.wrapping_add(1);
        if let Some(previous) = self.last_seq {
            let expected = previous.wrapping_add(1);
            let missing: u64 = if packet.seq > expected {
                packet.seq - expected
            } else {
                0
            };
            self.dropped = self.dropped.wrapping_add(missing);
        }
        self.last_seq = Some(packet.seq);
        self.last_time_base_ns = packet.time_base;
    }

    /// How many packets have arrived.
    pub fn received(&self) -> (n: u64)
        ensures
            n == self.received,
    {
        self.received
    }

    /// The time of the last packet in nanoseconds; zero before the first.
    pub fn last_time_base_ns(&self) -> (ns: u64)
        ensures
            ns == self.last_time_base_ns,
    {
        self.last_time_base_ns
    }

    /// How many packets the sequence numbers say are missing.
    pub fn dropped(&self) -> (n: u64)
        ensures
            n == self.dropped,
    {
        self.dropped
    }
}

/// Whether a complaint of the transport says that nothing arrived in time.
pub fn is_timeout(message: &str) -> (yes: bool)
    ensures
        yes == (find_text(lowered(message@), "timeout"@, 0) is Some || find_text(
            lowered(message@),
            "timed out"@,
            0,
        ) is Some),
{
    let text = to_lower(&chars_of(message));
    text_at(&text, &chars_of("timeout"), 0).is_some() || text_at(
        &text,
        &chars_of("timed out"),
        0,
    ).is_some()
}

/// The bytes of a sample, in the order of a machine.
pub open spec fn sample_bytes(value: u64, size: int, big: bool) -> Seq<u8> {
    if size == 1 {
        seq![(value % 0x100) as u8]
    } else if size == 2 {
        if big {
            seq![(value / 0x100 % 0x100) as u8, (value % 0x100) as u8]
        } else {
            seq![(value % 0x100) as u8, (value / 0x100 % 0x100) as u8]
        }
    } else {
        if big {
            seq![
                (value / 0x100_0000 % 0x100) as u8,
                (value / 0x1_0000 % 0x100) as u8,
                (value / 0x100 % 0x100) as u8,
                (value % 0x100) as u8,
            ]
        } else {
            seq![
                (value % 0x100) as u8,
                (value / 0x100 % 0x100) as u8,
                (value / 0x1_0000 % 0x100) as u8,
                (value / 0x100_0000 % 0x100) as u8,
            ]
        }
    }
}

/// The samples of a frame as numbers; counts are held to 16 bits.
pub open spec fn sample_value(data: EventFrameData, i: int) -> u64 {
    match data {
        EventFrameData::U8(v) => v@[i] as u64,
        EventFrameData::U16(v) => v@[i] as u64,
        EventFrameData::U64(v) => if v@[i] < 0xFFFF {
            v@[i]
        } else {
            0xFFFF
        },
        EventFrameData::F32(v) => v@[i] as u64,
    }
}

/// How many bytes a sample takes in an image.
pub open spec fn sample_size(data: EventFrameData) -> int {
    match data {
        EventFrameData::U8(_) => 1,
        EventFrameData::U16(_) => 2,
        EventFrameData::U64(_) => 2,
        EventFrameData::F32(_) => 4,
    }
}

/// What ROS calls images of samples.
pub open spec fn image_encoding(data: EventFrameData, channels: int) -> Seq<char> {
    match data {
        EventFrameData::U8(_) => if channels == 1 {
            "mono8"@
        } else {
            "8UC"@ + decimal(channels as nat)
        },
        EventFrameData::F32(_) => "32FC"@ + decimal(channels as nat),
        _ => if channels == 1 {
            "mono16"@
        } else {
            "16UC"@ + decimal(channels as nat)
        },
    }
}

/// The first `n` samples in the order of pixels, with the channels of each together, as bytes.
pub open spec fn interleaved(
    data: EventFrameData,
    channels: int,
    pixels: int,
    big: bool,
    n: int,
) -> Seq<u8>
    decreases n,
{
    if n <= 0 {
        Seq::empty()
    } else {
        interleaved(data, channels, pixels, big, n - 1) + sample_bytes(
            sample_value(data, (n - 1) % channels * pixels + (n - 1) / channels),
            sample_size(data),
            big,
        )
    }
}

/// The complaint about too many channels.
pub open spec fn too_many_channels(channels: int) -> Seq<char> {
    "sensor_msgs/Image tops out at 4 channels; this frame has "@ + decimal(channels as nat)
        + ". Publish one topic per channel, or reduce the representation first."@
}

/// The complaint about a wrong number of samples.
pub open spec fn wrong_samples(channels: int, height: int, width: int, len: int) -> Seq<char> {
    "frame says "@ + decimal(channels as nat) + "x"@ + decimal(height as nat) + "x"@ + decimal(
        width as nat,
    ) + " but carries "@ + decimal(len as nat) + " samples"@
}

fn push_sample(out: &mut Vec<u8>, value: u64, size: usize, big: bool)
    requires
        size == 1 || size == 2 || size == 4,
    ensures
        final(out)@ == old(out)@ + sample_bytes(value, size as int, big),
{
    let b0 = (value % 0x100) as u8;
    let b1 = (value / 0x100 % 0x100) as u8;
    let b2 = (value / 0x1_0000 % 0x100) as u8;
    let b3 = (value / 0x100_0000 % 0x100) as u8;
    if size == 1 {
        out.push(b0);
    } else if size == 2 {
        if big {
            out.push(b1);
            out.push(b0);
        } else {
            out.push(b0);
            out.push(b1);
        }
    } else if big {
        out.push(b3);
        out.push(b2);
        out.push(b1);
        out.push(b0);
    } else {
        out.push(b0);
        out.push(b1);
        out.push(b2);
        out.push(b3);
    }
    assert(out@ =~= old(out)@ + sample_bytes(value, size as int, big));
}

fn read_sample(data: &EventFrameData, i: usize) -> (value: u64)
    requires
        i < data.size(),
    ensures
        value == sample_value(*data, i as int),
{
    match data {
        EventFrameData::U8(v) => v[i] as u64,
        EventFrameData::U16(v) => v[i] as u64,
        EventFrameData::U64(v) => if v[i] < 0xFFFF {
            v[i]
        } else {
            0xFFFF
        },
        EventFrameData::F32(v) => v[i] as u64,
    }
}

proof fn plane_place(s: int, channels: int, pixels: int)
    requires
        0 <= s < pixels * channels,
        0 < channels,
    ensures
        0 <= s % channels * pixels + s / channels < pixels * channels,
        0 <= s % channels * pixels,
        0 <= s / channels < pixels,
        0 <= s % channels < channels,
{
    assert(0 <= s / channels < pixels && 0 <= s % channels < channels) by (nonlinear_arith)
        requires
            0 <= s < pixels * channels,
            0 < channels,
    ;
    let c = s % channels;
    let p = s / channels;
    assert(0 <= c * pixels && c * pixels + p < pixels * channels) by (nonlinear_arith)
        requires
            0 <= c < channels,
            0 <= p < pixels,
    ;
}

/// The name, the sample size and the bytes of the image of a frame.
pub fn encode_frame(
    data: &EventFrameData,
    channels: usize,
    width: usize,
    height: usize,
    big: bool,
) -> (image: Result<(String, usize, Vec<u8>), Ros2Error>)
    requires
        0 < channels,
        width * height * channels <= usize::MAX,
        width * height <= usize::MAX,
    ensures
        match image {
            Ok((name, size, bytes)) => {
                &&& channels <= 4
                &&& data.size() == width * height * channels
                &&& name@ == image_encoding(*data, channels as int)
                &&& size == sample_size(*data)
                &&& bytes@ == interleaved(
                    *data,
                    channels as int,
                    width * height,
                    big,
                    data.size() as int,
                )
            },
            Err(Ros2Error::Payload(m)) => if channels > 4 {
                m@ == too_many_channels(channels as int)
            } else {
                &&& data.size() != width * height * channels
                &&& m@ == wrong_samples(
                    channels as int,
                    height as int,
                    width as int,
                    data.size() as int,
                )
            },
            Err(_) => false,
        },
{
    if channels > 4 {
        let n = decimal_string(channels as u64);
        return Err(
            Ros2Error::Payload(
                join3(
                    "sensor_msgs/Image tops out at 4 channels; this frame has ",
                    n.as_str(),
                    ". Publish one topic per channel, or reduce the representation first.",
                ),
            ),
        );
    }
    proof {
        assert(0 <= width * height) by (nonlinear_arith);
    }
    let pixels: usize = width * height;
    let total: usize = pixels * channels;
    let len: usize = data.len();
    if len != total {
        let mut text = join3("frame says ", decimal_string(channels as u64).as_str(), "x");
        text.append(decimal_string(height as u64).as_str());
        text.append("x");
        text.append(decimal_string(width as u64).as_str());
        text.append(" but carries ");
        text.append(decimal_string(len as u64).as_str());
        text.append(" samples");
        assert(text@ =~= wrong_samples(
            channels as int,
            height as int,
            width as int,
            len as int,
        ));
        return Err(Ros2Error::Payload(text));
    }
    let n = decimal_string(channels as u64);
    let (name, size): (String, usize) = match data {
        EventFrameData::U8(_) => (
            if channels == 1 {
                "mono8".to_owned()
            } else {
                join2("8UC", n.as_str())
            },
            1,
        ),
        EventFrameData::U16(_) => (
            if channels == 1 {
                "mono16".to_owned()
            } else {
                join2("16UC", n.as_str())
            },
            2,
        ),
        EventFrameData::U64(_) => (
            if channels == 1 {
                "mono16".to_owned()
            } else {
                join2("16UC", n.as_str())
            },
            2,
        ),
        EventFrameData::F32(_) => (join2("32FC", n.as_str()), 4),
    };
    let mut bytes: Vec<u8> = Vec::new();
    for s in 0..total
        invariant
            total == pixels * channels,
            total == data.size(),
            0 < channels,
            size == sample_size(*data),
            bytes@ == interleaved(*data, channels as int, pixels as int, big, s as int),
    {
        proof {
            plane_place(s as int, channels as int, pixels as int);
        }
        let value = read_sample(data, s % channels * pixels + s / channels);
        push_sample(&mut bytes, value, size, big);
    }
    Ok((name, size, bytes))
}

/// `sensor_msgs/msg/Image`, with the header's stamp and frame first.
#[derive(Clone, Debug)]
pub struct ImageMessage {
    pub stamp: Stamp,
    pub frame_id: String,
    pub height: u32,
    pub width: u32,
    pub encoding: String,
    pub is_bigendian: bool,
    /// The bytes of a row.
    pub step: u32,
    pub data: Vec<u8>,
}

/// The image of a frame.
pub fn image_message(frame: &EventFrame, stamp_ns: u64, frame_id: &str, is_bigendian: bool) -> (
    image: Result<ImageMessage, Ros2Error>)
    requires
        frame.width() * frame.height() <= usize::MAX,
        frame.width() * frame.height() * frame.names().len() <= usize::MAX,
        frame.width() * frame.names().len() * 4 <= usize::MAX,
    ensures
        ({
            let channels = frame.names().len() as int;
            let empty = channels == 0 || frame.width() == 0 || frame.height() == 0;
            match image {
                Ok(i) => {
                    &&& !empty
                    &&& channels <= 4
                    &&& frame.samples().size() == frame.width() * frame.height() * channels
                    &&& i.stamp == stamp_of(stamp_ns)
                    &&& i.frame_id@ == frame_id@
                    &&& i.height == frame.height() as u32
                    &&& i.width == frame.width() as u32
                    &&& i.encoding@ == image_encoding(frame.samples(), channels)
                    &&& i.is_bigendian == is_bigendian
                    &&& i.step == (frame.width() * channels * sample_size(frame.samples())) as u32
                    &&& i.data@ == interleaved(
                        frame.samples(),
                        channels,
                        frame.width() * frame.height(),
                        is_bigendian,
                        frame.samples().size() as int,
                    )
                },
                Err(Ros2Error::Payload(m)) => if empty {
                    m@ == "frame has a zero dimension"@
                } else if channels > 4 {
                    m@ == too_many_channels(channels)
                } else {
                    &&& frame.samples().size() != frame.width() * frame.height() * channels
                    &&& m@ == wrong_samples(
                        channels,
                        frame.height(),
                        frame.width(),
                        frame.samples().size() as int,
                    )
                },
                Err(_) => false,
            }
        }),
{
    let (channels, height, width) = frame.shape();
    if channels == 0 || width == 0 || height == 0 {
        return Err(Ros2Error::Payload("frame has a zero dimension".to_owned()));
    }
    match encode_frame(frame.data(), channels, width, height, is_bigendian) {
        Ok((encoding, size, data)) => {
            proof {
                assert(0 <= width * channels) by (nonlinear_arith);
                assert(width * channels * size <= width * channels * 4) by (nonlinear_arith)
                    requires
                        0 <= width * channels,
                        0 <= size <= 4,
                ;
            }
            Ok(
                ImageMessage {
                    stamp: stamp_from_nanos(stamp_ns),
                    frame_id: frame_id.to_owned(),
                    height: height as u32,
                    width: width as u32,
                    encoding,
                    is_bigendian,
                    step: (width * channels * size) as u32,
                    data,
                },
            )
        },
        Err(error) => Err(error),
    }
}

/// The product of the sizes from axis `a` to axis `b`.
pub open spec fn extent(shape: Seq<usize>, a: int, b: int) -> int
    decreases b - a,
{
    if a >= b {
        1
    } else {
        extent(shape, a, b - 1) * shape[b - 1]
    }
}

/// An axis of a tensor, as `std_msgs/msg/Float32MultiArray` describes it.
#[derive(Clone, Debug)]
pub struct Dimension {
    pub label: String,
    pub size: u32,
    /// The elements that one step along the axis before this one spans.
    pub stride: u32,
}

/// Sizes between commas.
pub open spec fn size_list(shape: Seq<usize>, n: int) -> Seq<char>
    decreases n,
{
    if n <= 0 {
        Seq::empty()
    } else if n == 1 {
        decimal(shape[0] as nat)
    } else {
        size_list(shape, n - 1) + ", "@ + decimal(shape[n - 1] as nat)
    }
}

/// The complaint about a shape that does not fit the values.
pub open spec fn wrong_shape(shape: Seq<usize>, n: int) -> Seq<char> {
    "shape ["@ + size_list(shape, shape.len() as int) + "] wants "@ + decimal(
        extent(shape, 0, shape.len() as int) as nat,
    ) + " values, got "@ + decimal(n as nat)
}

fn product(shape: &[usize], from: usize) -> (value: usize)
    requires
        from <= shape@.len(),
        forall|b: int|
            from <= b <= shape@.len() ==> 0 <= #[trigger] extent(shape@, from as int, b)
                <= usize::MAX,
    ensures
        value == extent(shape@, from as int, shape@.len() as int),
{
    let n: usize = shape.len();
    let mut value: usize = 1;
    for i in from..n
        invariant
            n == shape@.len(),
            forall|b: int|
                from <= b <= n ==> 0 <= #[trigger] extent(shape@, from as int, b) <= usize::MAX,
            value == extent(shape@, from as int, i as int),
    {
        assert(extent(shape@, from as int, i + 1) == value * shape@[i as int]);
        value = value * shape[i];
    }
    value
}

fn list_sizes(shape: &[usize]) -> (list: String)
    ensures
        list@ == size_list(shape@, shape@.len() as int),
{
    let n: usize = shape.len();
    let mut list = String::new();
    for i in 0..n
        invariant
            n == shape@.len(),
            list@ == size_list(shape@, i as int),
    {
        let form = decimal_string(shape[i] as u64);
        if i == 0 {
            list = form;
        } else {
            list = join3(list.as_str(), ", ", form.as_str());
        }
    }
    list
}

/// The label of an axis.
pub open spec fn label_of(labels: Seq<Seq<char>>, axis: int) -> Seq<char> {
    if axis < labels.len() {
        labels[axis]
    } else {
        "dim"@ + decimal(axis as nat)
    }
}

/// `std_msgs/msg/Float32MultiArray`: a tensor with its layout. Values are the bit patterns of single
/// precision numbers.
#[derive(Clone, Debug)]
pub struct TensorMessage {
    pub dim: Vec<Dimension>,
    pub data: Vec<u32>,
}

/// The message of a tensor, row by row. An axis without a label is called by its number.
pub fn tensor_message(shape: &[usize], values: Vec<u32>, labels: &[String]) -> (message: Result<
    TensorMessage,
    Ros2Error,
>)
    requires
        forall|a: int, b: int|
            0 <= a <= b <= shape@.len() ==> 0 <= #[trigger] extent(shape@, a, b) <= usize::MAX,
    ensures
        match message {
            Ok(m) => {
                &&& extent(shape@, 0, shape@.len() as int) == values@.len()
                &&& m.data@ == values@
                &&& m.dim@.len() == shape@.len()
                &&& forall|i: int|
                    0 <= i < m.dim@.len() ==> {
                        &&& (#[trigger] m.dim@[i]).label@ == label_of(texts(labels@), i)
                        &&& m.dim@[i].size == shape@[i] as u32
                        &&& m.dim@[i].stride == extent(shape@, i, shape@.len() as int) as u32
                    }
            },
            Err(Ros2Error::Payload(m)) => extent(shape@, 0, shape@.len() as int) != values@.len()
                && m@ == wrong_shape(shape@, values@.len() as int),
            Err(_) => false,
        },
{
    let count: usize = values.len();
    let expected = product(shape, 0);
    if expected != count {
        let mut text = join3("shape [", list_sizes(shape).as_str(), "] wants ");
        text.append(decimal_string(expected as u64).as_str());
        text.append(" values, got ");
        text.append(decimal_string(count as u64).as_str());
        assert(text@ =~= wrong_shape(shape@, count as int));
        return Err(Ros2Error::Payload(text));
    }
    let n: usize = shape.len();
    let mut dims: Vec<Dimension> = Vec::new();
    for i in 0..n
        invariant
            n == shape@.len(),
            forall|a: int, b: int|
                0 <= a <= b <= n ==> 0 <= #[trigger] extent(shape@, a, b) <= usize::MAX,
            dims@.len() == i,
            forall|j: int|
                0 <= j < i ==> {
                    &&& (#[trigger] dims@[j]).label@ == label_of(texts(labels@), j)
                    &&& dims@[j].size == shape@[j] as u32
                    &&& dims@[j].stride == extent(shape@, j, n as int) as u32
                },
    {
        let label = if i < labels.len() {
            labels[i].as_str().to_owned()
        } else {
            join2("dim", decimal_string(i as u64).as_str())
        };
        dims.push(
            Dimension { label, size: shape[i] as u32, stride: product(shape, i) as u32 },
        );
    }
    Ok(TensorMessage { dim: dims, data: values })
}

/// The shape of a frame as the input of a graph: a batch of one.
pub fn input_shape(frame: &EventFrame) -> (shape: Vec<usize>)
    ensures
        shape@ == seq![
            1usize,
            frame.names().len() as usize,
            frame.height() as usize,
            frame.width() as usize,
        ],
{
    let (channels, height, width) = frame.shape();
    let mut shape: Vec<usize> = Vec::new();
    shape.push(1);
    shape.push(channels);
    shape.push(height);
    shape.push(width);
    assert(shape@ =~= seq![
        1usize,
        frame.names().len() as usize,
        frame.height() as usize,
        frame.width() as usize,
    ]);
    shape
}

/// What a replay did.
#[derive(Clone, Copy, Debug, PartialEq, Eq, Structural)]
pub struct ReplayReport {
    /// Packets published: one per window with events.
    pub packets: u64,
    /// Events published.
    pub events: usize,
    /// Windows without events, which are not published.
    pub empty_windows: u64,
}

/// A replay of a recording, window by window.
#[derive(Debug)]
pub struct Replay {
    t0: i64,
    t1: i64,
    step: i64,
    t: i64,
    report: ReplayReport,
}

impl Replay {
    pub closed spec fn start(&self) -> int {
        self.t0 as int
    }

    pub closed spec fn end(&self) -> int {
        self.t1 as int
    }

    pub closed spec fn width(&self) -> int {
        self.step as int
    }

    pub closed spec fn now(&self) -> int {
        self.t as int
    }

    pub closed spec fn so_far(&self) -> ReplayReport {
        self.report
    }

    pub closed spec fn windows_done(&self) -> int {
        self.report.packets + self.report.empty_windows
    }

    /// The next window follows the ones before it without a gap.
    pub closed spec fn wf(&self) -> bool {
        &&& self.step > 0
        &&& self.t1 + self.step <= i64::MAX
        &&& self.t0 <= self.t <= i64::MAX
        &&& self.t == self.t0 + self.windows_done() * self.step
        &&& self.t <= self.t1 + self.step || self.t == self.t0
        &&& 0 <= self.windows_done() <= self.t - self.t0
    }

    /// A replay of the microseconds from `t0` to `t1` in windows of `step`.
    pub fn new(t0: i64, t1: i64, step: i64) -> (replay: Self)
        requires
            step > 0,
            t1 + step <= i64::MAX,
        ensures
            replay.wf(),
            replay.start() == t0,
            replay.end() == t1,
            replay.width() == step,
            replay.now() == t0,
            replay.so_far() == (ReplayReport { packets: 0, events: 0, empty_windows: 0 }),
    {
        let replay = Replay {
            t0,
            t1,
            step,
            t: t0,
            report: ReplayReport { packets: 0, events: 0, empty_windows: 0 },
        };
        assert(replay.windows_done() == 0);
        assert(0 * replay.step == 0) by (nonlinear_arith);
        replay
    }

    /// The next window, from its start to before its end; `None` at the end of the recording.
    pub fn window(&self) -> (window: Option<(i64, i64)>)
        requires
            self.wf(),
        ensures
            match window {
                Some((a, b)) => self.now() <= self.end() && a == self.now() && b == self.now()
                    + self.width(),
                None => self.now() > self.end(),
            },
    {
        if self.t <= self.t1 {
            Some((self.t, self.t + self.step))
        } else {
            None
        }
    }

    /// Counts a window that held some events. The number of events wraps as machine integers do.
    pub fn advance(&mut self, events: usize)
        requires
            old(self).wf(),
            old(self).now() <= old(self).end(),
            old(self).end() - old(self).start() < 0x7FFF_FFFF_FFFF_FFFF,
        ensures
            final(self).wf(),
            final(self).start() == old(self).start(),
            final(self).end() == old(self).end(),
            final(self).width() == old(self).width(),
            final(self).now() == old(self).now() + old(self).width(),
            final(self).so_far() == if events == 0 {
                ReplayReport {
                    packets: old(self).so_far().packets,
                    events: old(self).so_far().events,
                    empty_windows: (old(self).so_far().empty_windows + 1) as u64,
                }
            } else {
                ReplayReport {
                    packets: (old(self).so_far().packets + 1) as u64,
                    events: old(self).so_far().events.wrapping_add(events),
                    empty_windows: old(self).so_far().empty_windows,
                }
            },
    {
        let ghost done = self.windows_done();
        proof {
            assert((done + 1) * self.step == done * self.step + self.step) by (nonlinear_arith);
        }
        if events == 0 {
            self.report.empty_windows = self.report.empty_windows + 1;
        } else {
            self.report.events = self.report.events.wrapping_add(events);
            self.report.packets = self.report.packets + 1;
        }
        self.t = self.t + self.step;
        assert(self.windows_done() == done + 1);
    }

    /// The microseconds after the start at which the last window is due.
    pub fn due(&self) -> (us: u64)
        requires
            self.wf(),
        ensures
            us == self.now() - self.start(),
    {
        (self.t as i128 - self.t0 as i128) as u64
    }

    /// What the replay has done.
    pub fn report(&self) -> (report: ReplayReport)
        ensures
            report == self.so_far(),
    {
        self.report
    }
}

/// Every time of a recording lies in one window of its replay, and in no other.
pub proof fn windows_tile(t0: int, step: int, t: int, k: int)
    requires
        step > 0,
        t0 <= t,
    ensures
        (t0 + k * step <= t < t0 + k * step + step) <==> k == (t - t0) / step,
{
    let q = (t - t0) / step;
    vstd::arithmetic::div_mod::lemma_fundamental_div_mod(t - t0, step);
    assert((t0 + k * step <= t < t0 + k * step + step) <==> k == q) by (nonlinear_arith)
        requires
            step > 0,
            t - t0 == step * q + (t - t0) % step,
            0 <= (t - t0) % step < step,
    ;
}

/// Whether another packet goes through a network after some, given a limit.
pub fn infers_more(done: u64, limit: Option<u64>) -> (yes: bool)
    ensures
        yes == !(limit matches Some(n) && done >= n),
{
    match limit {
        Some(n) => done < n,
        None => true,
    }
}

/// What a recording run did.
#[derive(Clone, Copy, Debug, PartialEq, Eq, Structural)]
pub struct RecordReport {
    pub packets: u64,
    pub events: usize,
    /// Packets that the sequence numbers say never arrived.
    pub dropped: u64,
}

/// A recording of a topic, packet by packet.
#[derive(Debug)]
pub struct Recording {
    max_packets: Option<u64>,
    report: RecordReport,
}

impl Recording {
    pub closed spec fn limit(&self) -> Option<u64> {
        self.max_packets
    }

    pub closed spec fn so_far(&self) -> RecordReport {
        self.report
    }

    pub fn new(max_packets: Option<u64>) -> (recording: Self)
        ensures
            recording.limit() == max_packets,
            recording.so_far() == (RecordReport { packets: 0, events: 0, dropped: 0 }),
    {
        Recording { max_packets, report: RecordReport { packets: 0, events: 0, dropped: 0 } }
    }

    /// Whether another packet is waited for.
    pub fn wants_more(&self) -> (yes: bool)
        ensures
            yes == !(self.limit() matches Some(cap) && self.so_far().packets >= cap),
    {
        match self.max_packets {
            Some(cap) => self.report.packets < cap,
            None => true,
        }
    }

    /// Counts a packet with some events. Counts wrap as machine integers do.
    pub fn take(&mut self, events: usize)
        ensures
            final(self).limit() == old(self).limit(),
            final(self).so_far() == (RecordReport {
                packets: old(self).so_far().packets.wrapping_add(1),
                events: old(self).so_far().events.wrapping_add(events),
                dropped: old(self).so_far().dropped,
            }),
    {
        self.report.packets = self.report.packets.wrapping_add(1);
        self.report.events = self.report.events.wrapping_add(events);
    }

    /// What the run did, given what its subscriber missed.
    pub fn finish(self, dropped: u64) -> (report: RecordReport)
        ensures
            report == (RecordReport {
                packets: self.so_far().packets,
                events: self.so_far().events,
                dropped,
            }),
    {
        RecordReport { packets: self.report.packets, events: self.report.events, dropped }
    }
}

} // verus!
