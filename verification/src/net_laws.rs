//! What the words and the datagrams of an event stream on the wire are.

use vstd::prelude::*;

use crate::net::{
    datagrams_of, event_word, packet_count, packet_events, payload, per_packet, stream_words,
    word_event, words_bytes, ByteOrder, WireFormat,
};
use crate::stream::RawEvent;

verus! {

/// A data word holds the row in its 15 low bits, the polarity in the next, the column in the 15 after
/// that, and in the highest that no timestamp follows.
pub proof fn word_layout(x: u16, y: u16, p: bool, timestamped: bool)
    requires
        x < 0x8000,
        y < 0x8000,
    ensures
        ({
            let w = event_word(x as int, y as int, p, timestamped);
            &&& 0 <= w < 0x1_0000_0000
            &&& w % 0x8000 == y
            &&& w / 0x8000 % 2 == (if p {
                1int
            } else {
                0
            })
            &&& w / 0x1_0000 % 0x8000 == x
            &&& w / 0x8000_0000 == (if timestamped {
                0int
            } else {
                1
            })
        }),
{
}

/// A data word is read by the same layout.
pub proof fn word_is_read(x: u16, y: u16, p: bool, high: int, t: i64)
    requires
        x < 0x8000,
        y < 0x8000,
        0 <= high < 2,
    ensures
        word_event(
            y + (if p {
                0x8000int
            } else {
                0
            }) + x * 0x1_0000 + high * 0x8000_0000,
            t as int,
        ) == (RawEvent { x, y, t, p }),
{
}

/// An event takes one word, or two with its timestamp.
pub proof fn payload_len(events: Seq<RawEvent>, timestamped: bool, order: ByteOrder)
    ensures
        payload(events, timestamped, order).len() == events.len() * (if timestamped {
            8int
        } else {
            4
        }),
    decreases events.len(),
{
    words_len(events, timestamped);
    bytes_len(stream_words(events, timestamped), order);
}

proof fn words_len(events: Seq<RawEvent>, timestamped: bool)
    ensures
        stream_words(events, timestamped).len() == events.len() * (if timestamped {
            2int
        } else {
            1
        }),
    decreases events.len(),
{
    if events.len() > 0 {
        words_len(events.drop_last(), timestamped);
    }
}

proof fn bytes_len(words: Seq<int>, order: ByteOrder)
    ensures
        words_bytes(words, order).len() == 4 * words.len(),
    decreases words.len(),
{
    if words.len() > 0 {
        bytes_len(words.drop_last(), order);
    }
}

/// No datagram is longer than 1400 bytes or empty, and every one but the last is that long.
pub proof fn datagrams_are_full(events: Seq<RawEvent>, timestamped: bool, order: ByteOrder, i: int)
    requires
        0 <= i < datagrams_of(events, timestamped, order).len(),
    ensures
        0 < datagrams_of(events, timestamped, order)[i].len() <= 1400,
        i + 1 < datagrams_of(events, timestamped, order).len() ==> datagrams_of(
            events,
            timestamped,
            order,
        )[i].len() == 1400,
{
    let k = per_packet(timestamped);
    let n = events.len() as int;
    let count = packet_count(n, timestamped);
    assert(k * i < n && (i + 1 < count ==> k * (i + 1) <= n)) by (nonlinear_arith)
        requires
            count == (n + k - 1) / k,
            0 <= i < count,
            k == 175 || k == 350,
    ;
    payload_len(packet_events(events, timestamped, i), timestamped, order);
    assert(k * (i + 1) == k * i + k) by (nonlinear_arith);
    assert(0 <= k * i) by (nonlinear_arith)
        requires
            0 <= i,
            k > 0,
    ;
}

/// Words go out the most significant byte first, unless the machine's own order was asked for.
pub proof fn network_order(format: WireFormat, host: ByteOrder, word: u32)
    ensures
        !format.host_endian ==> format.order_on(host) == ByteOrder::BigEndian,
        format.host_endian ==> format.order_on(host) == host,
        ({
            let b = crate::net::word_bytes(word as int, ByteOrder::BigEndian);
            &&& b.len() == 4
            &&& word == 0x100_0000 * b[0] + 0x1_0000 * b[1] + 0x100 * b[2] + b[3]
        }),
        ({
            let b = crate::net::word_bytes(word as int, ByteOrder::LittleEndian);
            &&& b.len() == 4
            &&& word == b[0] + 0x100 * b[1] + 0x1_0000 * b[2] + 0x100_0000 * b[3]
        }),
{
    crate::bytes::word_round_trip(word as int);
}

} // verus!
