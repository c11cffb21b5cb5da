//! Events in UDP datagrams, in the word layout that aestream and SPIF speak.
//!
//! - **Untimestamped**: one word per event, with bit 31 set.
//! - **Timestamped**: two words, bit 31 of the first clear, the second the timestamp.
//!
//! Bits 16 to 30 of the data word are `x`, bits 0 to 14 are `y`, and bit 15 is the polarity. A
//! receiver tells the two modes apart by bit 31 of the first word.

use vstd::prelude::*;

use crate::bytes::{be32, be32_bytes, le32, le32_bytes, push_all, word_round_trip};
use crate::stream::{kept, kept_push, EventStream, EventStreamBuilder, RawEvent};

verus! {

/// Largest payload of one datagram, in bytes.
pub const MAX_PAYLOAD_BYTES: usize = 1400;

/// Words per datagram.
pub const MAX_WORDS: usize = 350;

/// Bit marking the untimestamped mode.
pub const NO_TIMESTAMP_FLAG: u32 = 0x8000_0000;

/// Bit carrying polarity.
pub const POLARITY_FLAG: u32 = 0x0000_8000;

/// States of one coordinate: 15 bits per axis.
pub const COORD_STATES: u32 = 0x8000;

/// The order of the bytes of a word.
#[derive(Clone, Copy, Debug, PartialEq, Eq, Structural)]
pub enum ByteOrder {
    LittleEndian,
    BigEndian,
}

/// How events are laid out on the wire.
#[derive(Clone, Copy, Debug, PartialEq, Eq, Structural)]
pub struct WireFormat {
    /// Send a timestamp word after each data word.
    pub timestamps: bool,
    /// Write words in host byte order rather than in network order.
    pub host_endian: bool,
}

/// The bytes of a word in a given order.
pub open spec fn word_bytes(word: int, order: ByteOrder) -> Seq<u8> {
    match order {
        ByteOrder::LittleEndian => le32_bytes(word),
        ByteOrder::BigEndian => be32_bytes(word),
    }
}

/// The word at `at` in a given order.
pub open spec fn word_at(bytes: Seq<u8>, at: int, order: ByteOrder) -> int {
    match order {
        ByteOrder::LittleEndian => le32(bytes, at),
        ByteOrder::BigEndian => be32(bytes, at),
    }
}

/// The words of a payload; bytes short of a whole word at the end are not part of it.
pub open spec fn words_of(bytes: Seq<u8>, order: ByteOrder) -> Seq<int> {
    Seq::new(bytes.len() / 4, |i: int| word_at(bytes, 4 * i, order))
}

/// The data word of an event.
pub open spec fn event_word(x: int, y: int, polarity: bool, timestamped: bool) -> int {
    0x1_0000 * (x % 0x8000) + y % 0x8000 + (if polarity {
        0x8000int
    } else {
        0
    }) + (if timestamped {
        0int
    } else {
        0x8000_0000
    })
}

/// The words of one event.
pub open spec fn event_words(e: RawEvent, timestamped: bool) -> Seq<int> {
    let word = event_word(e.x as int, e.y as int, e.p, timestamped);
    if timestamped {
        seq![word, e.t as int % 0x1_0000_0000]
    } else {
        seq![word]
    }
}

/// The words of a run of events.
pub open spec fn stream_words(events: Seq<RawEvent>, timestamped: bool) -> Seq<int>
    decreases events.len(),
{
    if events.len() == 0 {
        Seq::empty()
    } else {
        stream_words(events.drop_last(), timestamped) + event_words(events.last(), timestamped)
    }
}

/// The bytes of a run of words.
pub open spec fn words_bytes(words: Seq<int>, order: ByteOrder) -> Seq<u8>
    decreases words.len(),
{
    if words.len() == 0 {
        Seq::empty()
    } else {
        words_bytes(words.drop_last(), order) + word_bytes(words.last(), order)
    }
}

/// The payload carrying a run of events.
pub open spec fn payload(events: Seq<RawEvent>, timestamped: bool, order: ByteOrder) -> Seq<u8> {
    words_bytes(stream_words(events, timestamped), order)
}

/// Events per datagram.
pub open spec fn per_packet(timestamped: bool) -> int {
    if timestamped {
        175
    } else {
        350
    }
}

/// The events that datagram `i` of a stream carries.
pub open spec fn packet_events(events: Seq<RawEvent>, timestamped: bool, i: int) -> Seq<RawEvent> {
    let k = per_packet(timestamped);
    events.subrange(k * i, if k * (i + 1) < events.len() {
            k * (i + 1)
        } else {
            events.len() as int
        })
}

/// How many datagrams a stream of `n` events takes.
pub open spec fn packet_count(n: int, timestamped: bool) -> int {
    let k = per_packet(timestamped);
    (n + k - 1) / k
}

/// The datagrams carrying a stream.
pub open spec fn datagrams_of(
    events: Seq<RawEvent>,
    timestamped: bool,
    order: ByteOrder,
) -> Seq<Seq<u8>> {
    Seq::new(
        packet_count(events.len() as int, timestamped) as nat,
        |i: int| payload(packet_events(events, timestamped, i), timestamped, order),
    )
}

/// The event a data word stands for, with its timestamp given.
pub open spec fn word_event(word: int, t: int) -> RawEvent {
    RawEvent {
        x: (word / 0x1_0000 % 0x8000) as u16,
        y: (word % 0x8000) as u16,
        t: t as i64,
        p: word / 0x8000 % 2 == 1,
    }
}

/// The events that a run of words holds from `at` on, the first of them the `arrival`-th to
/// arrive: an untimestamped event is stamped with its place in the order of arrival, and a
/// timestamped one whose timestamp word is missing is no event.
pub open spec fn words_events(words: Seq<int>, at: int, arrival: int) -> Seq<RawEvent>
    decreases words.len() - at,
{
    if at < 0 || at >= words.len() {
        Seq::empty()
    } else if words[at] >= 0x8000_0000 {
        seq![word_event(words[at], arrival)] + words_events(words, at + 1, arrival + 1)
    } else if at + 1 >= words.len() {
        Seq::empty()
    } else {
        seq![word_event(words[at], words[at + 1])] + words_events(words, at + 2, arrival + 1)
    }
}

/// A datagram of `bytes` bytes holds at most one event per word.
proof fn words_events_len(words: Seq<int>, at: int, arrival: int)
    requires
        0 <= at <= words.len(),
    ensures
        words_events(words, at, arrival).len() <= words.len() - at,
    decreases words.len() - at,
{
    if at < words.len() {
        if words[at] >= 0x8000_0000 {
            words_events_len(words, at + 1, arrival + 1);
        } else if at + 1 < words.len() {
            words_events_len(words, at + 2, arrival + 1);
        }
    }
}

/// The event that arrives when an untimestamped or timestamped event was sent: coordinates and
/// polarity as they were, and the timestamp either cut to 32 bits or replaced by the order of
/// arrival.
pub open spec fn arrived(e: RawEvent, timestamped: bool, arrival: int) -> RawEvent {
    RawEvent {
        x: e.x,
        y: e.y,
        t: (if timestamped {
            e.t as int % 0x1_0000_0000
        } else {
            arrival
        }) as i64,
        p: e.p,
    }
}

/// A data word decodes to the event it was made of, and its top bit tells the mode.
pub proof fn data_word_round_trip(x: int, y: int, polarity: bool, timestamped: bool, t: int)
    requires
        0 <= x < 0x8000,
        0 <= y < 0x8000,
    ensures
        word_event(event_word(x, y, polarity, timestamped), t) == (RawEvent {
            x: x as u16,
            y: y as u16,
            t: t as i64,
            p: polarity,
        }),
        (event_word(x, y, polarity, timestamped) >= 0x8000_0000) == !timestamped,
        0 <= event_word(x, y, polarity, timestamped) < 0x1_0000_0000,
{
}

/// Decoding skips any prefix: what the words hold from `at` on does not depend on what precedes.
proof fn words_events_suffix(head: Seq<int>, tail: Seq<int>, at: int, arrival: int)
    requires
        0 <= at <= tail.len(),
    ensures
        words_events(head + tail, head.len() + at, arrival) == words_events(tail, at, arrival),
    decreases tail.len() - at,
{
    if at < tail.len() {
        let whole = head + tail;
        assert(whole[head.len() + at] == tail[at]);
        if tail[at] >= 0x8000_0000 {
            words_events_suffix(head, tail, at + 1, arrival + 1);
        } else if at + 1 < tail.len() {
            assert(whole[head.len() + at + 1] == tail[at + 1]);
            words_events_suffix(head, tail, at + 2, arrival + 1);
        }
    }
}

/// The words of a run of events start with those of its first event.
proof fn stream_words_first(events: Seq<RawEvent>, timestamped: bool)
    requires
        events.len() > 0,
    ensures
        stream_words(events, timestamped) == event_words(events[0], timestamped) + stream_words(
            events.skip(1),
            timestamped,
        ),
    decreases events.len(),
{
    if events.len() == 1 {
        assert(events.drop_last() =~= Seq::<RawEvent>::empty());
        assert(events.skip(1) =~= Seq::<RawEvent>::empty());
        assert(stream_words(events, timestamped) =~= event_words(events[0], timestamped)
            + stream_words(events.skip(1), timestamped));
    } else {
        stream_words_first(events.drop_last(), timestamped);
        assert(events.drop_last().skip(1) =~= events.skip(1).drop_last());
        assert(stream_words(events, timestamped) =~= event_words(events[0], timestamped)
            + stream_words(events.skip(1), timestamped));
    }
}

/// Sending a run of events and decoding its words gives the events back, each with its
/// coordinates and polarity, and with its timestamp cut to 32 bits or replaced by the order of
/// arrival.
pub proof fn words_round_trip(events: Seq<RawEvent>, timestamped: bool, arrival: int)
    requires
        forall|i: int|
            0 <= i < events.len() ==> #[trigger] events[i].x < 0x8000 && events[i].y < 0x8000,
    ensures
        words_events(stream_words(events, timestamped), 0, arrival) == Seq::new(
            events.len(),
            |i: int| arrived(events[i], timestamped, arrival + i),
        ),
    decreases events.len(),
{
    let words = stream_words(events, timestamped);
    let expected = Seq::new(events.len(), |i: int| arrived(events[i], timestamped, arrival + i));
    if events.len() == 0 {
        assert(words_events(words, 0, arrival) =~= expected);
    } else {
        let e = events[0];
        let rest = events.skip(1);
        let head = event_words(e, timestamped);
        let tail = stream_words(rest, timestamped);
        stream_words_first(events, timestamped);
        assert forall|i: int| 0 <= i < rest.len() implies #[trigger] rest[i].x < 0x8000 && rest[i].y
            < 0x8000 by {
            assert(rest[i] == events[i + 1]);
        }
        words_round_trip(rest, timestamped, arrival + 1);
        words_events_suffix(head, tail, 0, arrival + 1);
        let t = if timestamped {
            e.t as int % 0x1_0000_0000
        } else {
            arrival
        };
        data_word_round_trip(e.x as int, e.y as int, e.p, timestamped, t);
        assert(words[0] == head[0]);
        if timestamped {
            assert(words[1] == head[1]);
        }
        assert(words_events(words, 0, arrival) == seq![arrived(e, timestamped, arrival)]
            + words_events(tail, 0, arrival + 1));
        assert forall|i: int| 0 <= i < rest.len() implies #[trigger] words_events(
            tail,
            0,
            arrival + 1,
        )[i] == expected[i + 1] by {
            assert(rest[i] == events[i + 1]);
        }
        assert(words_events(words, 0, arrival) =~= expected);
    }
}

/// Writing words and reading the payload back gives the words.
pub proof fn bytes_round_trip(words: Seq<int>, order: ByteOrder)
    requires
        forall|i: int| 0 <= i < words.len() ==> 0 <= #[trigger] words[i] < 0x1_0000_0000,
    ensures
        words_bytes(words, order).len() == 4 * words.len(),
        words_of(words_bytes(words, order), order) == words,
    decreases words.len(),
{
    let bytes = words_bytes(words, order);
    if words.len() == 0 {
        assert(words_of(bytes, order) =~= words);
    } else {
        let front = words.drop_last();
        assert forall|i: int| 0 <= i < front.len() implies 0 <= #[trigger] front[i]
            < 0x1_0000_0000 by {
            assert(front[i] == words[i]);
        }
        bytes_round_trip(front, order);
        let low = words_bytes(front, order);
        let last = word_bytes(words.last(), order);
        word_round_trip(words.last());
        assert(bytes == low + last);
        assert forall|i: int| 0 <= i < words.len() implies #[trigger] words_of(bytes, order)[i]
            == words[i] by {
            if i < front.len() {
                assert(words_of(low, order)[i] == front[i]);
                assert(bytes[4 * i] == low[4 * i] && bytes[4 * i + 1] == low[4 * i + 1] && bytes[4
                    * i + 2] == low[4 * i + 2] && bytes[4 * i + 3] == low[4 * i + 3]);
            } else {
                assert(bytes[4 * i] == last[0] && bytes[4 * i + 1] == last[1] && bytes[4 * i + 2]
                    == last[2] && bytes[4 * i + 3] == last[3]);
            }
        }
        assert(words_of(bytes, order) =~= words);
    }
}

/// Every word of a run of events is a 32-bit value, and there are one or two per event.
proof fn stream_words_bounded(events: Seq<RawEvent>, timestamped: bool)
    ensures
        stream_words(events, timestamped).len() == events.len() * (if timestamped {
            2int
        } else {
            1
        }),
        forall|i: int|
            0 <= i < stream_words(events, timestamped).len() ==> 0 <= #[trigger] stream_words(
                events,
                timestamped,
            )[i] < 0x1_0000_0000,
    decreases events.len(),
{
    if events.len() > 0 {
        stream_words_bounded(events.drop_last(), timestamped);
    }
}

/// What arrives of a datagram is what was sent in it, whole event by whole event, for either byte
/// order that sender and receiver agree on.
pub proof fn payload_round_trip(
    events: Seq<RawEvent>,
    timestamped: bool,
    order: ByteOrder,
    arrival: int,
)
    requires
        forall|i: int|
            0 <= i < events.len() ==> #[trigger] events[i].x < 0x8000 && events[i].y < 0x8000,
    ensures
        words_events(words_of(payload(events, timestamped, order), order), 0, arrival) == Seq::new(
            events.len(),
            |i: int| arrived(events[i], timestamped, arrival + i),
        ),
{
    stream_words_bounded(events, timestamped);
    bytes_round_trip(stream_words(events, timestamped), order);
    words_round_trip(events, timestamped, arrival);
}

/// No datagram exceeds the payload limit, every one holds whole events, and together they hold
/// every event of the stream once, in order.
pub proof fn datagrams_tile(events: Seq<RawEvent>, timestamped: bool, order: ByteOrder, i: int)
    requires
        0 <= i < packet_count(events.len() as int, timestamped),
    ensures
        0 < datagrams_of(events, timestamped, order)[i].len() <= MAX_PAYLOAD_BYTES,
        packet_events(events, timestamped, i).len() == if i + 1 < packet_count(
            events.len() as int,
            timestamped,
        ) {
            per_packet(timestamped)
        } else {
            events.len() - per_packet(timestamped) * i
        },
        forall|j: int|
            0 <= j < packet_events(events, timestamped, i).len() ==> #[trigger] packet_events(
                events,
                timestamped,
                i,
            )[j] == events[per_packet(timestamped) * i + j],
{
    let part = packet_events(events, timestamped, i);
    stream_words_bounded(part, timestamped);
    bytes_round_trip(stream_words(part, timestamped), order);
}

/// The host's bytes of a word: `u32::to_ne_bytes`, which documents them to be the word's memory
/// representation in native byte order. Which of the two orders is native is not stated: it is a
/// property of the machine.
#[verifier::external_body]
fn native_bytes(word: u32) -> (bytes: [u8; 4])
    ensures
        bytes@ == le32_bytes(word as int) || bytes@ == be32_bytes(word as int),
{
    word.to_ne_bytes()
}

/// The byte order of the machine this runs on.
pub fn host_order() -> ByteOrder {
    let probe = native_bytes(1);
    if probe[0] == 1 {
        ByteOrder::LittleEndian
    } else {
        ByteOrder::BigEndian
    }
}

/// A word's bytes in a given order.
pub fn encode_word_in(word: u32, order: ByteOrder) -> (bytes: [u8; 4])
    ensures
        bytes@ == word_bytes(word as int, order),
{
    let b0 = (word % 0x100) as u8;
    let b1 = (word / 0x100 % 0x100) as u8;
    let b2 = (word / 0x1_0000 % 0x100) as u8;
    let b3 = (word / 0x100_0000) as u8;
    let bytes = match order {
        ByteOrder::LittleEndian => [b0, b1, b2, b3],
        ByteOrder::BigEndian => [b3, b2, b1, b0],
    };
    assert(bytes@ =~= word_bytes(word as int, order));
    bytes
}

/// The word that four bytes hold in a given order.
pub fn decode_word_in(bytes: [u8; 4], order: ByteOrder) -> (word: u32)
    ensures
        word == word_at(bytes@, 0, order),
{
    match order {
        ByteOrder::LittleEndian => bytes[0] as u32 + 0x100 * (bytes[1] as u32) + 0x1_0000 * (
        bytes[2] as u32) + 0x100_0000 * (bytes[3] as u32),
        ByteOrder::BigEndian => bytes[3] as u32 + 0x100 * (bytes[2] as u32) + 0x1_0000 * (
        bytes[1] as u32) + 0x100_0000 * (bytes[0] as u32),
    }
}

impl Default for WireFormat {
    fn default() -> (format: Self)
        ensures
            format == (WireFormat { timestamps: false, host_endian: true }),
    {
        WireFormat { timestamps: false, host_endian: true }
    }
}

impl WireFormat {
    /// Host byte order, no timestamps.
    pub fn host_endian() -> (format: Self)
        ensures
            format == (WireFormat { timestamps: false, host_endian: true }),
    {
        Self::default()
    }

    /// Network byte order, no timestamps.
    pub fn network_endian() -> (format: Self)
        ensures
            format == (WireFormat { timestamps: false, host_endian: false }),
    {
        WireFormat { timestamps: false, host_endian: false }
    }

    /// The same format with timestamps included.
    pub fn with_timestamps(self) -> (format: Self)
        ensures
            format == (WireFormat { timestamps: true, host_endian: self.host_endian }),
    {
        WireFormat { timestamps: true, host_endian: self.host_endian }
    }

    /// The byte order this format writes on a machine whose own order is `host`.
    pub open spec fn order_on(self, host: ByteOrder) -> ByteOrder {
        if self.host_endian {
            host
        } else {
            ByteOrder::BigEndian
        }
    }

    /// The byte order this format writes on a machine whose own order is `host`.
    pub fn order(self, host: ByteOrder) -> (order: ByteOrder)
        ensures
            order == self.order_on(host),
    {
        if self.host_endian {
            host
        } else {
            ByteOrder::BigEndian
        }
    }

    /// A word's bytes on the wire.
    pub fn encode_word(self, word: u32) -> (bytes: [u8; 4])
        ensures
            exists|host: ByteOrder| bytes@ == word_bytes(word as int, #[trigger] self.order_on(host)),
    {
        let host = host_order();
        let bytes = encode_word_in(word, self.order(host));
        assert(bytes@ == word_bytes(word as int, self.order_on(host)));
        bytes
    }

    /// The word that four bytes on the wire hold.
    pub fn decode_word(self, bytes: [u8; 4]) -> (word: u32)
        ensures
            exists|host: ByteOrder| word == word_at(bytes@, 0, #[trigger] self.order_on(host)),
    {
        let host = host_order();
        let word = decode_word_in(bytes, self.order(host));
        assert(word == word_at(bytes@, 0, self.order_on(host)));
        word
    }
}

/// Packs an event into its data word: each coordinate cut to 15 bits.
pub fn encode_event(x: u16, y: u16, polarity: bool, timestamped: bool) -> (word: u32)
    ensures
        word == event_word(x as int, y as int, polarity, timestamped),
{
    let data: u32 = 0x1_0000 * (x as u32 % COORD_STATES) + y as u32 % COORD_STATES;
    let polarity_bit: u32 = if polarity {
        POLARITY_FLAG
    } else {
        0
    };
    let mode_bit: u32 = if timestamped {
        0
    } else {
        NO_TIMESTAMP_FLAG
    };
    data + polarity_bit + mode_bit
}

/// Unpacks a data word into `(x, y, polarity)`.
pub fn decode_event(word: u32) -> (event: (u16, u16, bool))
    ensures
        event.0 == word_event(word as int, 0).x,
        event.1 == word_event(word as int, 0).y,
        event.2 == word_event(word as int, 0).p,
{
    (
        (word / 0x1_0000 % COORD_STATES) as u16,
        (word % COORD_STATES) as u16,
        word / POLARITY_FLAG % 2 == 1,
    )
}

/// The low 32 bits of a timestamp.
fn low_word(t: i64) -> (word: u32)
    ensures
        word == t as int % 0x1_0000_0000,
{
    (crate::bytes::unsigned64(t) % 0x1_0000_0000) as u32
}

/// Appends one event's words to a payload.
fn push_event(out: &mut Vec<u8>, e: RawEvent, timestamped: bool, order: ByteOrder)
    ensures
        final(out)@ == old(out)@ + words_bytes(event_words(e, timestamped), order),
{
    let ghost words = event_words(e, timestamped);
    proof {
        reveal_with_fuel(words_bytes, 3);
    }
    let word = encode_word_in(encode_event(e.x, e.y, e.p, timestamped), order);
    push_all(out, &word);
    if timestamped {
        let stamp = encode_word_in(low_word(e.t), order);
        push_all(out, &stamp);
        proof {
            assert(words.drop_last().drop_last() =~= Seq::<int>::empty());
            assert(words.drop_last().last() == words[0]);
            assert(words_bytes(words.drop_last(), order) =~= word_bytes(words[0], order));
            assert(out@ =~= old(out)@ + words_bytes(words, order));
        }
    } else {
        proof {
            assert(words.drop_last() =~= Seq::<int>::empty());
            assert(words_bytes(words, order) =~= word_bytes(words[0], order));
            assert(out@ =~= old(out)@ + words_bytes(words, order));
        }
    }
}

/// The bytes of two runs of words are the bytes of the run of both.
proof fn words_bytes_concat(a: Seq<int>, b: Seq<int>, order: ByteOrder)
    ensures
        words_bytes(a + b, order) == words_bytes(a, order) + words_bytes(b, order),
    decreases b.len(),
{
    if b.len() == 0 {
        assert(a + b =~= a);
        assert(words_bytes(a, order) + words_bytes(b, order) =~= words_bytes(a, order));
    } else {
        assert((a + b).drop_last() =~= a + b.drop_last());
        words_bytes_concat(a, b.drop_last(), order);
        assert(words_bytes(a + b, order) =~= words_bytes(a, order) + words_bytes(b, order));
    }
}

/// One datagram of events `start..end` of a stream.
fn packet(stream: &EventStream, start: usize, end: usize, timestamped: bool, order: ByteOrder) -> (
    bytes: Vec<u8>)
    requires
        stream.wf(),
        start <= end <= stream.events().len(),
    ensures
        bytes@ == payload(
            stream.events().subrange(start as int, end as int),
            timestamped,
            order,
        ),
{
    let mut bytes: Vec<u8> = Vec::with_capacity(MAX_PAYLOAD_BYTES);
    let ghost part = stream.events().subrange(start as int, end as int);
    assert(part.take(0) =~= Seq::<RawEvent>::empty());
    let mut at: usize = start;
    while at < end
        invariant
            stream.wf(),
            start <= at <= end <= stream.events().len(),
            part == stream.events().subrange(start as int, end as int),
            bytes@ == payload(part.take(at - start), timestamped, order),
        decreases end - at,
    {
        let e = stream.get(at);
        push_event(&mut bytes, e, timestamped, order);
        proof {
            let before = part.take(at - start);
            let after = part.take(at + 1 - start);
            assert(after.drop_last() =~= before);
            assert(after.last() == e);
            words_bytes_concat(
                stream_words(before, timestamped),
                event_words(e, timestamped),
                order,
            );
        }
        at += 1;
    }
    assert(part.take(end - start) =~= part);
    bytes
}

/// The datagrams that carry a stream to a peer with the given byte order, each within the payload
/// limit and none splitting an event.
pub fn datagrams_in(stream: &EventStream, timestamped: bool, order: ByteOrder) -> (packets: Vec<
    Vec<u8>>)
    requires
        stream.wf(),
        stream.events().len() + 350 <= usize::MAX,
    ensures
        packets@.len() == datagrams_of(stream.events(), timestamped, order).len(),
        forall|i: int|
            0 <= i < packets@.len() ==> #[trigger] packets@[i]@ == datagrams_of(
                stream.events(),
                timestamped,
                order,
            )[i],
{
    let k: usize = if timestamped {
        MAX_WORDS / 2
    } else {
        MAX_WORDS
    };
    let n: usize = stream.len();
    let mut packets: Vec<Vec<u8>> = Vec::new();
    let mut start: usize = 0;
    while start < n
        invariant
            stream.wf(),
            n == stream.events().len(),
            n + 350 <= usize::MAX,
            k == per_packet(timestamped),
            start == k * packets@.len() || start == n,
            start <= n,
            start == n ==> packets@.len() == packet_count(n as int, timestamped),
            packets@.len() <= packet_count(n as int, timestamped),
            forall|i: int|
                0 <= i < packets@.len() ==> #[trigger] packets@[i]@ == datagrams_of(
                    stream.events(),
                    timestamped,
                    order,
                )[i],
        decreases n - start,
    {
        let end: usize = if n - start < k {
            n
        } else {
            start + k
        };
        let bytes = packet(stream, start, end, timestamped, order);
        proof {
            let i = packets@.len() as int;
            assert(bytes@ == payload(
                packet_events(stream.events(), timestamped, i),
                timestamped,
                order,
            ));
        }
        packets.push(bytes);
        start = end;
    }
    packets
}

/// The datagrams that carry a stream in a given format from this machine.
pub fn datagrams(stream: &EventStream, format: WireFormat) -> (packets: Vec<Vec<u8>>)
    requires
        stream.wf(),
        stream.events().len() + 350 <= usize::MAX,
    ensures
        exists|host: ByteOrder|
            {
                let sent = datagrams_of(
                    stream.events(),
                    format.timestamps,
                    #[trigger] format.order_on(host),
                );
                packets@.len() == sent.len() && forall|i: int|
                    0 <= i < packets@.len() ==> #[trigger] packets@[i]@ == sent[i]
            },
{
    let host = host_order();
    let packets = datagrams_in(stream, format.timestamps, format.order(host));
    assert({
        let sent = datagrams_of(stream.events(), format.timestamps, format.order_on(host));
        packets@.len() == sent.len() && forall|i: int|
            0 <= i < packets@.len() ==> #[trigger] packets@[i]@ == sent[i]
    });
    packets
}

/// Decodes one datagram into `builder`, returning how many events it held. Events outside the
/// builder's sensor are counted and dropped; untimestamped events are stamped from
/// `arrival_index` on.
pub fn decode_into(
    payload: &[u8],
    order: ByteOrder,
    builder: &mut EventStreamBuilder,
    arrival_index: i64,
) -> (count: i64)
    requires
        old(builder).wf(),
        payload@.len() <= i64::MAX,
        arrival_index + payload@.len() <= i64::MAX,
    ensures
        final(builder).wf(),
        final(builder).same_grid(old(builder)),
        count == words_events(words_of(payload@, order), 0, arrival_index as int).len(),
        final(builder).events() == old(builder).events() + kept(
            words_events(words_of(payload@, order), 0, arrival_index as int),
            old(builder).width(),
            old(builder).height(),
        ),
{
    let ghost words = words_of(payload@, order);
    let ghost all = words_events(words, 0, arrival_index as int);
    let ghost mut seen: Seq<RawEvent> = Seq::empty();
    let n: usize = payload.len() / 4;
    let mut at: usize = 0;
    let mut count: i64 = 0;
    proof {
        words_events_len(words, 0, arrival_index as int);
        assert(builder.events() + kept(seen, builder.width(), builder.height())
            =~= builder.events());
        assert(seen + all =~= all);
    }
    while at < n
        invariant
            builder.wf(),
            builder.same_grid(old(builder)),
            words == words_of(payload@, order),
            n == words.len(),
            n == payload@.len() / 4,
            payload@.len() <= usize::MAX,
            at <= n,
            payload@.len() <= i64::MAX,
            arrival_index + payload@.len() <= i64::MAX,
            count == seen.len(),
            count <= at,
            all == words_events(words, 0, arrival_index as int),
            all == seen + words_events(words, at as int, arrival_index + count),
            builder.events() == old(builder).events() + kept(
                seen,
                builder.width(),
                builder.height(),
            ),
        decreases n - at,
    {
        let word = decode_word_in(
            [payload[4 * at], payload[4 * at + 1], payload[4 * at + 2], payload[4 * at + 3]],
            order,
        );
        assert(word == words[at as int]);
        let timestamped = word < NO_TIMESTAMP_FLAG;
        let (x, y, polarity) = decode_event(word);
        let ghost before = at as int;
        let ghost prior = count as int;
        let mut timestamp: i64 = arrival_index + count;
        if timestamped {
            if at + 1 >= n {
                at = n;
                assert(all =~= seen);
                assert(all =~= seen + words_events(words, at as int, arrival_index + count));
                continue;
            }
            at += 1;
            let stamp = decode_word_in(
                [payload[4 * at], payload[4 * at + 1], payload[4 * at + 2], payload[4 * at + 3]],
                order,
            );
            assert(stamp == words[at as int]);
            timestamp = stamp as i64;
        }
        let ghost e = RawEvent { x, y, t: timestamp, p: polarity };
        builder.push(x, y, timestamp, polarity);
        count += 1;
        at += 1;
        proof {
            let rest = words_events(words, at as int, arrival_index + count);
            assert(words_events(words, before, arrival_index + prior) == seq![e] + rest);
            kept_push(seen, e, builder.width(), builder.height());
            assert(builder.events() =~= old(builder).events() + kept(
                seen.push(e),
                builder.width(),
                builder.height(),
            ));
            assert(seen + (seq![e] + rest) =~= seen.push(e) + rest);
            seen = seen.push(e);
        }
    }
    assert(seen + Seq::<RawEvent>::empty() =~= seen);
    count
}

} // verus!
