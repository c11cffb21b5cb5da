//! What event messages of ROS bags mean.
//!
//! A message is spelled out byte by byte here, and shown to decode to what it was spelled from.

use vstd::prelude::*;

use crate::bytes::{le16, le16_bytes, le32, le32_bytes};
use crate::io::bag::{
    array_count, array_event, array_events, array_size, array_whole, chunk_span, complete_events,
    event_chunks, event_connections, has_count, has_size, latest_end, limited, overlapping, share,
    until, BagIndexRecord, ChunkMeta,
};
use crate::places::{are_items, are_places, places_push};
use crate::stream::{kept, RawEvent};

verus! {

/// An event of a message, with the stamp of its time.
pub ghost struct Stamped {
    pub x: u16,
    pub y: u16,
    pub seconds: u32,
    pub nanoseconds: u32,
    pub polarity: bool,
}

/// The bytes of an event: column, row, seconds, nanoseconds and polarity.
pub open spec fn event_bytes(e: Stamped) -> Seq<u8> {
    le16_bytes(e.x as int) + le16_bytes(e.y as int) + le32_bytes(e.seconds as int) + le32_bytes(
        e.nanoseconds as int,
    ) + seq![
        if e.polarity {
            1u8
        } else {
            0u8
        },
    ]
}

/// The bytes of events, thirteen each.
pub open spec fn events_bytes(events: Seq<Stamped>) -> Seq<u8> {
    Seq::new(13 * events.len(), |i: int| event_bytes(events[i / 13])[i % 13])
}

/// What stands before the events of a message: a sequence number and a stamp in twelve bytes, the
/// name of the frame with its length, the height and the width of the sensor, and the number of
/// events.
pub open spec fn message_front(
    start: Seq<u8>,
    frame: Seq<u8>,
    width: u32,
    height: u32,
    count: u32,
) -> Seq<u8> {
    start + le32_bytes(frame.len() as int) + frame + le32_bytes(height as int) + le32_bytes(
        width as int,
    ) + le32_bytes(count as int)
}

proof fn word_at(s: Seq<u8>, at: int, value: int)
    requires
        0 <= at,
        at + 4 <= s.len(),
        0 <= value < 0x1_0000_0000,
        s.subrange(at, at + 4) == le32_bytes(value),
    ensures
        le32(s, at) == value,
{
    crate::bytes::word_round_trip(value);
    let b = s.subrange(at, at + 4);
    assert(b[0] == s[at] && b[1] == s[at + 1] && b[2] == s[at + 2] && b[3] == s[at + 3]);
}

/// A part of a prefix is that part of the whole.
proof fn prefix_part(front: Seq<u8>, d: Seq<u8>, at: int, part: Seq<u8>)
    requires
        front.is_prefix_of(d),
        0 <= at,
        at + part.len() <= front.len(),
        front.subrange(at, at + part.len()) == part,
    ensures
        d.subrange(at, at + part.len()) == part,
{
    assert(d.subrange(0, front.len() as int) == front);
    assert(d.subrange(at, at + part.len()) =~= front.subrange(at, at + part.len())) by {
        assert forall|i: int| 0 <= i < part.len() implies d[at + i] == #[trigger] front[at + i] by {
            assert(d.subrange(0, front.len() as int)[at + i] == d[at + i]);
        }
    }
}

/// What is put between two runs of bytes stands between them.
proof fn middle(a: Seq<u8>, b: Seq<u8>, c: Seq<u8>)
    ensures
        ((a + b) + c).subrange(a.len() as int, (a.len() + b.len()) as int) == b,
{
    assert(((a + b) + c).subrange(a.len() as int, (a.len() + b.len()) as int) =~= b);
}

#[verifier::spinoff_prover]
#[verifier::rlimit(40)]
proof fn front_parts(start: Seq<u8>, frame: Seq<u8>, width: u32, height: u32, count: u32)
    requires
        start.len() == 12,
    ensures
        ({
            let front = message_front(start, frame, width, height, count);
            let n = frame.len() as int;
            &&& front.len() == 28 + n
            &&& front.subrange(12, 16) == le32_bytes(n)
            &&& front.subrange(16 + n, 20 + n) == le32_bytes(height as int)
            &&& front.subrange(20 + n, 24 + n) == le32_bytes(width as int)
            &&& front.subrange(24 + n, 28 + n) == le32_bytes(count as int)
        }),
{
    let n = frame.len() as int;
    let (a, h, w, c) = (
        le32_bytes(n),
        le32_bytes(height as int),
        le32_bytes(width as int),
        le32_bytes(count as int),
    );
    let front = message_front(start, frame, width, height, count);
    assert(front =~= (start + a) + (frame + h + w + c));
    middle(start, a, frame + h + w + c);
    assert(front =~= ((start + a + frame) + h) + (w + c));
    middle(start + a + frame, h, w + c);
    assert(front =~= ((start + a + frame + h) + w) + c);
    middle(start + a + frame + h, w, c);
    assert(front =~= ((start + a + frame + h + w) + c) + Seq::<u8>::empty());
    middle(start + a + frame + h + w, c, Seq::<u8>::empty());
}

proof fn front_reads(
    d: Seq<u8>,
    start: Seq<u8>,
    frame: Seq<u8>,
    width: u32,
    height: u32,
    count: u32,
)
    requires
        start.len() == 12,
        frame.len() <= u32::MAX,
        message_front(start, frame, width, height, count).is_prefix_of(d),
    ensures
        message_front(start, frame, width, height, count).len() == 28 + frame.len(),
        has_size(d),
        has_count(d),
        array_size(d) == (width as int, height as int),
        array_count(d) == count,
        crate::io::bag::after_frame(d) == 16 + frame.len(),
{
    let front = message_front(start, frame, width, height, count);
    let n = frame.len() as int;
    front_parts(start, frame, width, height, count);
    prefix_part(front, d, 12, le32_bytes(n));
    prefix_part(front, d, 16 + n, le32_bytes(height as int));
    prefix_part(front, d, 20 + n, le32_bytes(width as int));
    prefix_part(front, d, 24 + n, le32_bytes(count as int));
    word_at(d, 12, n);
    word_at(d, 16 + n, height as int);
    word_at(d, 20 + n, width as int);
    word_at(d, 24 + n, count as int);
}

/// A decoded event has the column, the row and the polarity that were sent, and the microsecond
/// within which its stamp lies.
pub open spec fn is_decoded(e: RawEvent, sent: Stamped) -> bool {
    let stamp = sent.seconds * 1_000_000_000 + sent.nanoseconds;
    &&& e.x == sent.x
    &&& e.y == sent.y
    &&& e.p == sent.polarity
    &&& e.t * 1000 <= stamp < (e.t + 1) * 1000
}

proof fn event_reads(d: Seq<u8>, at: int, e: Stamped)
    requires
        0 <= at,
        at + 13 <= d.len(),
        d.subrange(at, at + 13) == event_bytes(e),
    ensures
        is_decoded(array_event(d, at), e),
{
    let b = event_bytes(e);
    assert forall|i: int| 0 <= i < 13 implies d[at + i] == #[trigger] b[i] by {
        assert(d.subrange(at, at + 13)[i] == d[at + i]);
    }
    crate::bytes::le16_round_trip(e.x as int);
    crate::bytes::le16_round_trip(e.y as int);
    assert(b[0] == le16_bytes(e.x as int)[0] && b[1] == le16_bytes(e.x as int)[1]);
    assert(b[2] == le16_bytes(e.y as int)[0] && b[3] == le16_bytes(e.y as int)[1]);
    assert(le16(d, at) == e.x);
    assert(le16(d, at + 2) == e.y);
    assert(d.subrange(at + 4, at + 8) =~= le32_bytes(e.seconds as int)) by {
        assert(b.subrange(4, 8) =~= le32_bytes(e.seconds as int));
        assert(d.subrange(at + 4, at + 8) =~= b.subrange(4, 8));
    }
    assert(d.subrange(at + 8, at + 12) =~= le32_bytes(e.nanoseconds as int)) by {
        assert(b.subrange(8, 12) =~= le32_bytes(e.nanoseconds as int));
        assert(d.subrange(at + 8, at + 12) =~= b.subrange(8, 12));
    }
    word_at(d, at + 4, e.seconds as int);
    word_at(d, at + 8, e.nanoseconds as int);
    assert(d[at + 12] == b[12]);
}

/// A message decodes to the size and the events it was made of, in order. One that is cut off still
/// gives the events before the cut, and does not pass for whole.
pub proof fn message_reads_back(
    d: Seq<u8>,
    start: Seq<u8>,
    frame: Seq<u8>,
    width: u32,
    height: u32,
    sent: Seq<Stamped>,
)
    requires
        start.len() == 12,
        frame.len() <= u32::MAX,
        sent.len() <= u32::MAX,
        ({
            let front = message_front(start, frame, width, height, sent.len() as u32);
            front.is_prefix_of(d) && d.is_prefix_of(front + events_bytes(sent))
        }),
    ensures
        has_size(d),
        has_count(d),
        array_size(d) == (width as int, height as int),
        ({
            let n = array_events(d).len();
            let front = message_front(start, frame, width, height, sent.len() as u32).len();
            &&& n <= sent.len()
            &&& front + 13 * n <= d.len()
            &&& n < sent.len() ==> d.len() < front + 13 * (n + 1)
            &&& array_whole(d) <==> n == sent.len()
            &&& forall|i: int| 0 <= i < n ==> is_decoded(#[trigger] array_events(d)[i], sent[i])
        }),
{
    let front = message_front(start, frame, width, height, sent.len() as u32);
    let all = front + events_bytes(sent);
    front_reads(d, start, frame, width, height, sent.len() as u32);
    let base = front.len() as int;
    let n = complete_events(d);
    assert(d.len() <= base + 13 * sent.len());
    assert(0 <= n <= sent.len());
    assert forall|i: int| 0 <= i < n implies is_decoded(#[trigger] array_events(d)[i], sent[i]) by {
        sent_event(d, front, sent, i);
    }
}

proof fn sent_event(d: Seq<u8>, front: Seq<u8>, sent: Seq<Stamped>, i: int)
    requires
        d.is_prefix_of(front + events_bytes(sent)),
        0 <= i < sent.len(),
        front.len() + 13 * i + 13 <= d.len(),
    ensures
        is_decoded(array_event(d, front.len() + 13 * i), sent[i]),
{
    let all = front + events_bytes(sent);
    let at = front.len() + 13 * i;
    assert forall|j: int| 0 <= j < 13 implies d[at + j] == #[trigger] event_bytes(sent[i])[j] by {
        assert(d[at + j] == all[at + j]) by {
            assert(all.subrange(0, d.len() as int)[at + j] == all[at + j]);
        }
        assert(all[at + j] == events_bytes(sent)[13 * i + j]);
        assert((13 * i + j) / 13 == i && (13 * i + j) % 13 == j);
    }
    assert(d.subrange(at, at + 13) =~= event_bytes(sent[i]));
    event_reads(d, at, sent[i]);
}

/// Times keep the order of their stamps.
pub proof fn stamps_keep_order(a: RawEvent, b: RawEvent, earlier: Stamped, later: Stamped)
    requires
        is_decoded(a, earlier),
        is_decoded(b, later),
        earlier.seconds * 1_000_000_000 + earlier.nanoseconds <= later.seconds * 1_000_000_000
            + later.nanoseconds,
    ensures
        a.t <= b.t,
{
}

/// The connections that are read are exactly those of the topic whose messages are arrays of
/// events.
pub proof fn connections_listed(records: Seq<BagIndexRecord>, wanted: Seq<char>, n: int) -> (places:
    Seq<int>)
    requires
        0 <= n <= records.len(),
    ensures
        are_places(
            places,
            n,
            |i: int|
                records[i] is Connection && records[i]->topic@ == wanted && records[i]->kind@
                    == "dvs_msgs/EventArray"@,
        ),
        event_connections(records, wanted, n).len() == places.len(),
        forall|k: int|
            0 <= k < places.len() ==> #[trigger] event_connections(records, wanted, n)[k]
                == records[places[k]]->id,
    decreases n,
{
    let holds = |i: int|
        records[i] is Connection && records[i]->topic@ == wanted && records[i]->kind@
            == "dvs_msgs/EventArray"@;
    if n == 0 {
        Seq::empty()
    } else {
        let before = connections_listed(records, wanted, n - 1);
        places_push(before, n - 1, holds);
        if holds(n - 1) {
            before.push(n - 1)
        } else {
            before
        }
    }
}

/// Whether a chunk is that of an index record with messages of some connections. Times are cut to
/// microseconds.
pub open spec fn is_chunk_of(c: ChunkMeta, r: BagIndexRecord, ids: Seq<u32>) -> bool {
    match r {
        BagIndexRecord::ChunkInfo { pos, start_time, end_time, connections } => {
            &&& exists|i: int, j: int|
                0 <= i < connections@.len() && 0 <= j < ids.len() && #[trigger] connections@[i]
                    == #[trigger] ids[j]
            &&& c.pos == pos
            &&& c.start_us * 1000 <= start_time < c.start_us * 1000 + 1000
            &&& c.end_us * 1000 <= end_time < c.end_us * 1000 + 1000
        },
        _ => false,
    }
}

/// The chunks that are read are those of the index records with messages of the connections: each
/// of them stands for one, and each such record has one.
#[verifier::spinoff_prover]
#[verifier::rlimit(40)]
pub proof fn chunks_listed(records: Seq<BagIndexRecord>, ids: Seq<u32>, n: int)
    requires
        0 <= n <= records.len(),
    ensures
        forall|k: int|
            0 <= k < event_chunks(records, ids, n).len() ==> exists|i: int|
                0 <= i < n && is_chunk_of(
                    #[trigger] event_chunks(records, ids, n)[k],
                    #[trigger] records[i],
                    ids,
                ),
        forall|i: int, c: ChunkMeta|
            0 <= i < n && #[trigger] is_chunk_of(c, records[i], ids) ==> event_chunks(
                records,
                ids,
                n,
            ).contains(c),
    decreases n,
{
    if n > 0 {
        chunks_listed(records, ids, n - 1);
        let before = event_chunks(records, ids, n - 1);
        let now = event_chunks(records, ids, n);
        let r = records[n - 1];
        if let BagIndexRecord::ChunkInfo { pos, start_time, end_time, connections } = r {
            assert(share(connections@, ids) <==> exists|i: int, j: int|
                0 <= i < connections@.len() && 0 <= j < ids.len() && #[trigger] connections@[i]
                    == #[trigger] ids[j]) by {
                if share(connections@, ids) {
                    let i = choose|i: int|
                        0 <= i < connections@.len() && ids.contains(#[trigger] connections@[i]);
                    let j = choose|j: int| 0 <= j < ids.len() && ids[j] == connections@[i];
                    assert(connections@[i] == ids[j]);
                }
            }
            if share(connections@, ids) {
                let own = ChunkMeta {
                    pos,
                    start_us: (start_time / 1000) as i64,
                    end_us: (end_time / 1000) as i64,
                };
                assert(is_chunk_of(own, r, ids));
                let at = crate::io::bag::chunk_slot(before, own);
                crate::io::bag::chunk_slot_bounds(before, own);
                assert(now == before.insert(at, own));
                assert(now[at] == own);
                assert forall|k: int| 0 <= k < now.len() implies exists|i: int|
                    0 <= i < n && is_chunk_of(#[trigger] now[k], #[trigger] records[i], ids) by {
                    if k == at {
                        assert(is_chunk_of(now[k], records[n - 1], ids));
                    } else {
                        let b = if k < at {
                            k
                        } else {
                            k - 1
                        };
                        assert(now[k] == before[b]);
                        let i = choose|i: int|
                            0 <= i < n - 1 && is_chunk_of(before[b], #[trigger] records[i], ids);
                        assert(is_chunk_of(now[k], records[i], ids));
                    }
                }
                assert forall|i: int, c: ChunkMeta|
                    0 <= i < n && #[trigger] is_chunk_of(c, records[i], ids) implies now.contains(
                    c,
                ) by {
                    if i == n - 1 {
                        assert(c == own);
                    } else {
                        assert(before.contains(c));
                        let b = choose|b: int| 0 <= b < before.len() && before[b] == c;
                        if b < at {
                            assert(now[b] == c);
                        } else {
                            assert(now[b + 1] == c);
                        }
                    }
                }
            } else {
                assert(now == before);
                assert forall|i: int, c: ChunkMeta|
                    0 <= i < n && #[trigger] is_chunk_of(c, records[i], ids) implies now.contains(
                    c,
                ) by {
                    assert(i < n - 1);
                }
            }
        }
    }
}

/// The span of chunks in order of time is from the first start to the latest end.
pub proof fn span_holds_chunks(chunks: Seq<ChunkMeta>)
    requires
        chunks.len() > 0,
        forall|i: int, j: int|
            0 <= i <= j < chunks.len() ==> (#[trigger] chunks[i]).start_us <= (
            #[trigger] chunks[j]).start_us,
    ensures
        forall|i: int|
            0 <= i < chunks.len() ==> chunk_span(chunks).0 <= (#[trigger] chunks[i]).start_us
                && chunks[i].end_us <= chunk_span(chunks).1,
        exists|i: int| 0 <= i < chunks.len() && (#[trigger] chunks[i]).start_us == chunk_span(chunks).0,
        exists|i: int| 0 <= i < chunks.len() && (#[trigger] chunks[i]).end_us == chunk_span(chunks).1,
{
    let last = latest_found(chunks, chunks.len() as int);
    assert(chunks[0].start_us == chunk_span(chunks).0);
    assert(chunks[last].end_us == chunk_span(chunks).1);
}

proof fn latest_found(chunks: Seq<ChunkMeta>, n: int) -> (at: int)
    requires
        0 < n <= chunks.len(),
    ensures
        0 <= at < n,
        chunks[at].end_us == latest_end(chunks, n),
        forall|i: int| 0 <= i < n ==> (#[trigger] chunks[i]).end_us <= latest_end(chunks, n),
    decreases n,
{
    if n == 1 {
        0
    } else {
        let before = latest_found(chunks, n - 1);
        if chunks[n - 1].end_us > latest_end(chunks, n - 1) {
            n - 1
        } else {
            before
        }
    }
}

/// The chunks that a time window needs are exactly those that start before it ends and do not end
/// before it begins, in their order.
pub proof fn window_chunks(chunks: Seq<ChunkMeta>, t0: int, t1: int, n: int) -> (places: Seq<int>)
    requires
        0 <= n <= chunks.len(),
    ensures
        are_places(places, n, |i: int| chunks[i].start_us < t1 && t0 <= chunks[i].end_us),
        are_items(overlapping(chunks, t0, t1, n), chunks, places),
    decreases n,
{
    let holds = |i: int| chunks[i].start_us < t1 && t0 <= chunks[i].end_us;
    if n == 0 {
        Seq::empty()
    } else {
        let before = window_chunks(chunks, t0, t1, n - 1);
        places_push(before, n - 1, holds);
        if holds(n - 1) {
            before.push(n - 1)
        } else {
            before
        }
    }
}

/// A chunk is read up to the first event at or after a time.
pub proof fn read_until(events: Seq<RawEvent>, t: int, n: int)
    requires
        0 <= n <= events.len(),
    ensures
        n <= until(events, t, n) <= events.len(),
        forall|i: int| n <= i < until(events, t, n) ==> (#[trigger] events[i]).t < t,
        until(events, t, n) < events.len() ==> events[until(events, t, n)].t >= t,
    decreases events.len() - n,
{
    if n < events.len() && events[n].t < t {
        read_until(events, t, n + 1);
    }
}

/// With a limit, a stream takes the events on the sensor in their order until it holds so many, and
/// says whether it does.
pub proof fn limit_is_kept(
    before: Seq<RawEvent>,
    events: Seq<RawEvent>,
    width: int,
    height: int,
    max: usize,
)
    requires
        before.len() < max,
    ensures
        ({
            let all = before + kept(events, width, height);
            let (held, stopped) = limited(before, events, width, height, Some(max));
            &&& stopped <==> all.len() >= max
            &&& held == if all.len() >= max {
                all.take(max as int)
            } else {
                all
            }
        }),
    decreases events.len(),
{
    if events.len() > 0 {
        let rest = events.drop_last();
        limit_is_kept(before, rest, width, height, max);
        let then = before + kept(rest, width, height);
        let all = before + kept(events, width, height);
        if crate::stream::on_sensor(events.last(), width, height) {
            assert(all =~= then.push(events.last()));
            assert(then.len() >= max ==> all.take(max as int) =~= then.take(max as int));
            assert(then.len() + 1 == max ==> all.take(max as int) =~= all);
        } else {
            assert(all =~= then);
        }
    } else {
        assert(before + kept(events, width, height) =~= before);
    }
}

} // verus!
