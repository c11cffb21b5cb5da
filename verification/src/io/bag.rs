//! Event messages of ROS bags.
//!
//! A bag is opened and its chunks are read by the caller. What arrives here are the records of the
//! bag's index, the connections, and the payloads of messages.

use std::collections::HashMap;

use vstd::prelude::*;
use vstd::string::*;

use crate::bytes::{le16, le32, read_u16, read_u32};
use crate::chars::{chars_of, join2, same};
use crate::io::IoError;
use crate::stream::{
    kept, kept_concat, kept_push, on_sensor, part, part_concat, within, within_push, EventStream,
    EventStreamBuilder, RawEvent, MICROSECOND_SCALE,
};

verus! {

broadcast use vstd::std_specs::hash::group_hash_axioms;

/// The topic that is read if none is named.
pub open spec fn topic_or_default(topic: Option<&str>) -> Seq<char> {
    match topic {
        Some(t) => t@,
        None => "/davis/left/events"@,
    }
}

fn resolve_topic(topic: Option<&str>) -> (name: String)
    ensures
        name@ == topic_or_default(topic),
{
    match topic {
        Some(t) => t.to_owned(),
        None => "/davis/left/events".to_owned(),
    }
}

/// Whether a connection carries the events of a topic.
pub open spec fn carries_events(topic: Seq<char>, kind: Seq<char>, wanted: Seq<char>) -> bool {
    topic == wanted && kind == "dvs_msgs/EventArray"@
}

fn is_event_connection(topic: &str, kind: &str, wanted: &str) -> (yes: bool)
    ensures
        yes == carries_events(topic@, kind@, wanted@),
{
    same(&chars_of(topic), &chars_of(wanted)) && same(
        &chars_of(kind),
        &chars_of("dvs_msgs/EventArray"),
    )
}

/// The error for a message that ends early.
pub open spec fn is_truncated(e: IoError) -> bool {
    e matches IoError::Format(m) && m@ == "truncated dvs_msgs/EventArray message"@
}

fn truncated() -> (e: IoError)
    ensures
        is_truncated(e),
{
    IoError::Format("truncated dvs_msgs/EventArray message".to_owned())
}

/// Where the fields after the name of the frame start in a message.
pub open spec fn after_frame(d: Seq<u8>) -> int {
    16 + le32(d, 12)
}

/// Whether a message holds the sensor size.
pub open spec fn has_size(d: Seq<u8>) -> bool {
    d.len() >= 16 && d.len() >= after_frame(d) + 8
}

/// `(width, height)` of the sensor, as a message gives it.
pub open spec fn array_size(d: Seq<u8>) -> (int, int) {
    (le32(d, after_frame(d) + 4), le32(d, after_frame(d)))
}

/// Whether a message holds the number of its events.
pub open spec fn has_count(d: Seq<u8>) -> bool {
    has_size(d) && d.len() >= after_frame(d) + 12
}

/// How many events a message announces.
pub open spec fn array_count(d: Seq<u8>) -> int {
    le32(d, after_frame(d) + 8)
}

/// The event of a message whose bytes start at `at`.
pub open spec fn array_event(d: Seq<u8>, at: int) -> RawEvent {
    RawEvent {
        x: le16(d, at) as u16,
        y: le16(d, at + 2) as u16,
        t: (le32(d, at + 4) * 1000000 + le32(d, at + 8) / 1000) as i64,
        p: d[at + 12] != 0,
    }
}

/// How many events are complete.
pub open spec fn complete_events(d: Seq<u8>) -> int {
    let room = (d.len() - after_frame(d) - 12) / 13;
    if array_count(d) < room {
        array_count(d)
    } else {
        room
    }
}

/// The complete events of a message.
pub open spec fn array_events(d: Seq<u8>) -> Seq<RawEvent> {
    Seq::new(
        complete_events(d) as nat,
        |i: int| array_event(d, after_frame(d) + 12 + 13 * i),
    )
}

/// Whether every announced event is complete.
pub open spec fn array_whole(d: Seq<u8>) -> bool {
    complete_events(d) == array_count(d)
}

/// Reads the `(width, height)` of a message.
pub fn read_event_array_header(bytes: &[u8]) -> (size: Result<(usize, usize), IoError>)
    ensures
        match size {
            Ok((w, h)) => has_size(bytes@) && (w as int, h as int) == array_size(bytes@),
            Err(e) => is_truncated(e) && !has_size(bytes@),
        },
{
    let n: usize = bytes.len();
    if n < 16 {
        return Err(truncated());
    }
    let frame = read_u32(bytes, 12) as usize;
    if n - 16 < frame || n - 16 - frame < 8 {
        return Err(truncated());
    }
    let at = 16 + frame;
    Ok((read_u32(bytes, at + 4) as usize, read_u32(bytes, at) as usize))
}

/// The events of a message: those that are complete, and whether that is all of them.
#[derive(Debug)]
pub struct EventArray {
    pub events: Vec<RawEvent>,
    pub whole: bool,
}

/// Decodes the events of a message. A message that ends within an event still gives those before.
pub fn decode_event_array(bytes: &[u8]) -> (array: Result<EventArray, IoError>)
    ensures
        match array {
            Ok(a) => {
                &&& has_count(bytes@)
                &&& a.events@ == array_events(bytes@)
                &&& a.whole == array_whole(bytes@)
            },
            Err(e) => is_truncated(e) && !has_count(bytes@),
        },
{
    let n: usize = bytes.len();
    if n < 16 {
        return Err(truncated());
    }
    let frame = read_u32(bytes, 12) as usize;
    if n - 16 < frame || n - 16 - frame < 12 {
        return Err(truncated());
    }
    let start: usize = 16 + frame + 12;
    let count = read_u32(bytes, start - 4) as usize;
    let room: usize = (n - start) / 13;
    let total: usize = if count < room {
        count
    } else {
        room
    };
    let mut events: Vec<RawEvent> = Vec::new();
    for i in 0..total
        invariant
            n == bytes@.len(),
            start == after_frame(bytes@) + 12,
            13 * total <= n - start,
            start <= n,
            events@.len() == i,
            forall|j: int|
                0 <= j < i ==> #[trigger] events@[j] == array_event(bytes@, start + 13 * j),
    {
        let at: usize = start + 13 * i;
        let seconds = read_u32(bytes, at + 4) as i64;
        let nanoseconds = read_u32(bytes, at + 8) as i64;
        events.push(
            RawEvent {
                x: read_u16(bytes, at),
                y: read_u16(bytes, at + 2),
                t: seconds * 1000000 + nanoseconds / 1000,
                p: bytes[at + 12] != 0,
            },
        );
    }
    assert(events@ =~= array_events(bytes@));
    Ok(EventArray { events, whole: total == count })
}

/// What a stream holds after more events, up to the one after which a limit is reached, and whether
/// it was reached.
pub open spec fn limited(
    before: Seq<RawEvent>,
    events: Seq<RawEvent>,
    width: int,
    height: int,
    max: Option<usize>,
) -> (Seq<RawEvent>, bool)
    decreases events.len(),
{
    if events.len() == 0 {
        (before, false)
    } else {
        let (held, stopped) = limited(before, events.drop_last(), width, height, max);
        if stopped {
            (held, true)
        } else {
            let now = if on_sensor(events.last(), width, height) {
                held.push(events.last())
            } else {
                held
            };
            (now, max matches Some(m) && now.len() >= m)
        }
    }
}

proof fn limited_stays(
    before: Seq<RawEvent>,
    events: Seq<RawEvent>,
    width: int,
    height: int,
    max: Option<usize>,
    n: int,
)
    requires
        0 <= n <= events.len(),
        limited(before, events.take(n), width, height, max).1,
    ensures
        limited(before, events, width, height, max) == limited(
            before,
            events.take(n),
            width,
            height,
            max,
        ),
    decreases events.len() - n,
{
    if n < events.len() {
        assert(events.take(n + 1).drop_last() =~= events.take(n));
        limited_stays(before, events, width, height, max, n + 1);
    } else {
        assert(events.take(n) =~= events);
    }
}

/// Without a limit, the events on the sensor are added.
pub proof fn limited_never(
    before: Seq<RawEvent>,
    events: Seq<RawEvent>,
    width: int,
    height: int,
)
    ensures
        limited(before, events, width, height, None) == (
            before + kept(events, width, height),
            false,
        ),
    decreases events.len(),
{
    if events.len() > 0 {
        limited_never(before, events.drop_last(), width, height);
        kept_push(events.drop_last(), events.last(), width, height);
        assert(events.drop_last().push(events.last()) =~= events);
        assert(limited(before, events, width, height, None).0 =~= before + kept(
            events,
            width,
            height,
        ));
    } else {
        assert(before + kept(events, width, height) =~= before);
    }
}

/// Adds events to a builder until a limit is reached; `true` if it was.
fn add_limited(builder: &mut EventStreamBuilder, events: &Vec<RawEvent>, max: Option<usize>) -> (
    stopped: bool)
    requires
        old(builder).wf(),
    ensures
        final(builder).wf(),
        final(builder).same_grid(old(builder)),
        (final(builder).events(), stopped) == limited(
            old(builder).events(),
            events@,
            old(builder).width(),
            old(builder).height(),
            max,
        ),
{
    let n: usize = events.len();
    let ghost before = builder.events();
    let ghost w = builder.width();
    let ghost h = builder.height();
    assert(events@.take(0) =~= Seq::<RawEvent>::empty());
    for i in 0..n
        invariant
            n == events@.len(),
            builder.wf(),
            builder.same_grid(old(builder)),
            w == builder.width(),
            h == builder.height(),
            before == old(builder).events(),
            w == old(builder).width(),
            h == old(builder).height(),
            (builder.events(), false) == limited(before, events@.take(i as int), w, h, max),
    {
        let e = events[i];
        assert(events@.take(i + 1).drop_last() =~= events@.take(i as int));
        builder.push(e.x, e.y, e.t, e.p);
        if let Some(m) = max {
            if builder.len() >= m {
                proof {
                    limited_stays(before, events@, w, h, max, i + 1);
                }
                return true;
            }
        }
    }
    assert(events@.take(n as int) =~= events@);
    false
}

/// Reads the events of one topic out of the messages of a bag.
pub struct BagReader {
    topic: String,
    sensor: Option<(usize, usize)>,
    max_events: Option<usize>,
    wanted: HashMap<u32, bool>,
    builder: Option<EventStreamBuilder>,
}

impl BagReader {
    /// The topic that is read.
    pub closed spec fn topic(&self) -> Seq<char> {
        self.topic@
    }

    /// The sensor size that overrides that of the messages.
    pub closed spec fn sensor(&self) -> Option<(usize, usize)> {
        self.sensor
    }

    pub closed spec fn max_events(&self) -> Option<usize> {
        self.max_events
    }

    /// The connections seen, and whether they are read.
    pub closed spec fn wanted(&self) -> Map<u32, bool> {
        self.wanted@
    }

    /// The sensor size, once a message has been read.
    pub closed spec fn size(&self) -> Option<(int, int)> {
        match self.builder {
            Some(b) => Some((b.width(), b.height())),
            None => None,
        }
    }

    /// The events read so far.
    pub closed spec fn events(&self) -> Seq<RawEvent> {
        match self.builder {
            Some(b) => b.events(),
            None => Seq::empty(),
        }
    }

    pub closed spec fn wf(&self) -> bool {
        self.builder matches Some(b) ==> b.wf() && b.scale() == MICROSECOND_SCALE
    }

    /// What does not change while a bag is read.
    pub open spec fn same_settings(&self, other: &Self) -> bool {
        &&& self.topic() == other.topic()
        &&& self.sensor() == other.sensor()
        &&& self.max_events() == other.max_events()
    }

    /// A reader of a topic, `/davis/left/events` if none is named.
    pub fn new(
        topic: Option<&str>,
        sensor_size: Option<(usize, usize)>,
        max_events: Option<usize>,
    ) -> (reader: Self)
        ensures
            reader.wf(),
            reader.topic() == topic_or_default(topic),
            reader.sensor() == sensor_size,
            reader.max_events() == max_events,
            reader.wanted() == Map::<u32, bool>::empty(),
            reader.size() is None,
            reader.events() == Seq::<RawEvent>::empty(),
    {
        BagReader {
            topic: resolve_topic(topic),
            sensor: sensor_size,
            max_events,
            wanted: HashMap::new(),
            builder: None,
        }
    }

    /// Notes a connection of the bag.
    pub fn connection(&mut self, id: u32, topic: &str, kind: &str)
        requires
            old(self).wf(),
        ensures
            final(self).wf(),
            final(self).same_settings(old(self)),
            final(self).size() == old(self).size(),
            final(self).events() == old(self).events(),
            final(self).wanted() == old(self).wanted().insert(
                id,
                carries_events(topic@, kind@, old(self).topic()),
            ),
    {
        let matches = is_event_connection(topic, kind, self.topic.as_str());
        self.wanted.insert(id, matches);
    }

    /// Whether the messages of a connection are read.
    pub open spec fn reads(&self, id: u32) -> bool {
        self.wanted().contains_key(id) && self.wanted()[id]
    }

    /// The sensor size with which a message is read.
    pub open spec fn size_for(&self, d: Seq<u8>) -> (int, int) {
        match self.size() {
            Some(size) => size,
            None => match self.sensor() {
                Some((w, h)) => (w as int, h as int),
                None => array_size(d),
            },
        }
    }

    /// Whether a message lacks a field that is needed before its events.
    pub open spec fn lacks(&self, d: Seq<u8>) -> bool {
        (self.sensor() is None && !has_size(d)) || !has_count(d)
    }

    /// Takes a message; `true` once the limit on events is reached.
    pub fn message(&mut self, conn_id: u32, data: &[u8]) -> (stop: Result<bool, IoError>)
        requires
            old(self).wf(),
        ensures
            final(self).wf(),
            final(self).same_settings(old(self)),
            final(self).wanted() == old(self).wanted(),
            !old(self).reads(conn_id) ==> {
                &&& stop == Ok::<bool, IoError>(false)
                &&& final(self).size() == old(self).size()
                &&& final(self).events() == old(self).events()
            },
            old(self).reads(conn_id) && old(self).lacks(data@) ==> (stop matches Err(e)
                && is_truncated(e)) && final(self).events() == old(self).events(),
            old(self).reads(conn_id) && !old(self).lacks(data@) ==> ({
                let size = old(self).size_for(data@);
                let (events, stopped) = limited(
                    old(self).events(),
                    array_events(data@),
                    size.0,
                    size.1,
                    old(self).max_events(),
                );
                &&& final(self).size() == Some(size)
                &&& final(self).events() == events
                &&& stopped ==> stop == Ok::<bool, IoError>(true)
                &&& !stopped && array_whole(data@) ==> stop == Ok::<bool, IoError>(false)
                &&& !stopped && !array_whole(data@) ==> (stop matches Err(e) && is_truncated(e))
            }),
    {
        let wanted = match self.wanted.get(&conn_id) {
            Some(wanted) => *wanted,
            None => false,
        };
        if !wanted {
            return Ok(false);
        }
        let (width, height) = match self.sensor {
            Some(size) => size,
            None => match read_event_array_header(data) {
                Ok(size) => size,
                Err(error) => {
                    return Err(error);
                },
            },
        };
        let array = match decode_event_array(data) {
            Ok(array) => array,
            Err(error) => {
                return Err(error);
            },
        };
        let mut builder = match self.builder.take() {
            Some(builder) => builder,
            None => EventStreamBuilder::new(width, height, MICROSECOND_SCALE),
        };
        let stopped = add_limited(&mut builder, &array.events, self.max_events);
        self.builder = Some(builder);
        if stopped {
            Ok(true)
        } else if array.whole {
            Ok(false)
        } else {
            Err(truncated())
        }
    }

    /// The events that were read; an error if there was no message.
    pub fn finish(self) -> (stream: Result<EventStream, IoError>)
        requires
            self.wf(),
        ensures
            match stream {
                Ok(s) => {
                    &&& self.size() == Some((s.width(), s.height()))
                    &&& s.wf()
                    &&& s.scale() == MICROSECOND_SCALE
                    &&& s.events() == self.events()
                },
                Err(IoError::Format(m)) => self.size() is None && m@
                    == "no dvs_msgs/EventArray messages found on topic "@ + self.topic(),
                Err(_) => false,
            },
    {
        match self.builder {
            Some(builder) => Ok(builder.build()),
            None => Err(
                IoError::Format(
                    join2("no dvs_msgs/EventArray messages found on topic ", self.topic.as_str()),
                ),
            ),
        }
    }
}

/// A chunk of a bag: where it is, and the microseconds it covers.
#[derive(Clone, Copy, Debug, PartialEq, Eq, Structural)]
pub struct ChunkMeta {
    pub pos: u64,
    pub start_us: i64,
    pub end_us: i64,
}

/// A record of the index of a bag.
#[derive(Debug)]
pub enum BagIndexRecord {
    Connection { id: u32, topic: String, kind: String },
    /// A chunk, with its nanoseconds and the connections it holds messages of.
    ChunkInfo { pos: u64, start_time: u64, end_time: u64, connections: Vec<u32> },
}

/// The connections of a topic among the first `n` records.
pub open spec fn event_connections(
    records: Seq<BagIndexRecord>,
    wanted: Seq<char>,
    n: int,
) -> Seq<u32>
    decreases n,
{
    if n <= 0 {
        Seq::empty()
    } else {
        let before = event_connections(records, wanted, n - 1);
        match records[n - 1] {
            BagIndexRecord::Connection { id, topic, kind } => if carries_events(
                topic@,
                kind@,
                wanted,
            ) {
                before.push(id)
            } else {
                before
            },
            _ => before,
        }
    }
}

/// Whether two lists share a member.
pub open spec fn share(a: Seq<u32>, b: Seq<u32>) -> bool {
    exists|i: int| 0 <= i < a.len() && b.contains(#[trigger] a[i])
}

/// Where a chunk goes among chunks in order of time: after those that start no later.
pub open spec fn chunk_slot(sorted: Seq<ChunkMeta>, c: ChunkMeta) -> int
    decreases sorted.len(),
{
    if sorted.len() == 0 {
        0
    } else if sorted.last().start_us > c.start_us {
        chunk_slot(sorted.drop_last(), c)
    } else {
        sorted.len() as int
    }
}

/// The chunks with messages of some connections among the first `n` records, in order of time.
pub open spec fn event_chunks(records: Seq<BagIndexRecord>, ids: Seq<u32>, n: int) -> Seq<ChunkMeta>
    decreases n,
{
    if n <= 0 {
        Seq::empty()
    } else {
        let before = event_chunks(records, ids, n - 1);
        match records[n - 1] {
            BagIndexRecord::ChunkInfo { pos, start_time, end_time, connections } => if share(
                connections@,
                ids,
            ) {
                let c = ChunkMeta {
                    pos,
                    start_us: (start_time / 1000) as i64,
                    end_us: (end_time / 1000) as i64,
                };
                before.insert(chunk_slot(before, c), c)
            } else {
                before
            },
            _ => before,
        }
    }
}

pub proof fn chunk_slot_bounds(sorted: Seq<ChunkMeta>, c: ChunkMeta)
    ensures
        0 <= chunk_slot(sorted, c) <= sorted.len(),
        chunk_slot(sorted, c) > 0 ==> sorted[chunk_slot(sorted, c) - 1].start_us <= c.start_us,
        forall|i: int|
            chunk_slot(sorted, c) <= i < sorted.len() ==> (#[trigger] sorted[i]).start_us
                > c.start_us,
    decreases sorted.len(),
{
    if sorted.len() > 0 && sorted.last().start_us > c.start_us {
        let rest = sorted.drop_last();
        chunk_slot_bounds(rest, c);
        assert forall|i: int| chunk_slot(sorted, c) <= i < sorted.len() implies (
        #[trigger] sorted[i]).start_us > c.start_us by {
            if i < rest.len() {
                assert(sorted[i] == rest[i]);
            }
        }
    }
}

/// Chunks are in order of the time at which they start.
pub proof fn event_chunks_sorted(records: Seq<BagIndexRecord>, ids: Seq<u32>, n: int)
    requires
        0 <= n <= records.len(),
    ensures
        forall|i: int, j: int|
            0 <= i <= j < event_chunks(records, ids, n).len() ==> (#[trigger] event_chunks(
                records,
                ids,
                n,
            )[i]).start_us <= (#[trigger] event_chunks(records, ids, n)[j]).start_us,
    decreases n,
{
    if n > 0 {
        event_chunks_sorted(records, ids, n - 1);
        let sorted = event_chunks(records, ids, n - 1);
        let out = event_chunks(records, ids, n);
        if out != sorted {
            let c = ChunkMeta {
                pos: records[n - 1]->pos,
                start_us: (records[n - 1]->start_time / 1000) as i64,
                end_us: (records[n - 1]->end_time / 1000) as i64,
            };
            chunk_slot_bounds(sorted, c);
            let k = chunk_slot(sorted, c);
            assert(out == sorted.insert(k, c));
            assert forall|i: int, j: int| 0 <= i <= j < out.len() implies (
            #[trigger] out[i]).start_us <= (#[trigger] out[j]).start_us by {
                let a = if i < k {
                    i
                } else {
                    i - 1
                };
                let b = if j < k {
                    j
                } else {
                    j - 1
                };
                if i != k {
                    assert(out[i] == sorted[a]);
                }
                if j != k {
                    assert(out[j] == sorted[b]);
                }
                if i < k && k > 0 {
                    assert(sorted[a].start_us <= sorted[k - 1].start_us);
                }
            }
        }
    }
}

/// The latest end among the first `n` chunks.
pub open spec fn latest_end(chunks: Seq<ChunkMeta>, n: int) -> i64
    decreases n,
{
    if n <= 1 {
        chunks[0].end_us
    } else {
        let before = latest_end(chunks, n - 1);
        if chunks[n - 1].end_us > before {
            chunks[n - 1].end_us
        } else {
            before
        }
    }
}

/// The first and last microsecond of chunks in order of time.
pub open spec fn chunk_span(chunks: Seq<ChunkMeta>) -> (i64, i64) {
    if chunks.len() == 0 {
        (0, 0)
    } else {
        (chunks[0].start_us, latest_end(chunks, chunks.len() as int))
    }
}

fn has_id(ids: &Vec<u32>, id: u32) -> (yes: bool)
    ensures
        yes == ids@.contains(id),
{
    let n: usize = ids.len();
    for i in 0..n
        invariant
            n == ids@.len(),
            forall|j: int| 0 <= j < i ==> ids@[j] != id,
    {
        if ids[i] == id {
            return true;
        }
    }
    false
}

fn shares(a: &Vec<u32>, b: &Vec<u32>) -> (yes: bool)
    ensures
        yes == share(a@, b@),
{
    let n: usize = a.len();
    for i in 0..n
        invariant
            n == a@.len(),
            forall|j: int| 0 <= j < i ==> !b@.contains(#[trigger] a@[j]),
    {
        if has_id(b, a[i]) {
            return true;
        }
    }
    false
}

fn insert_chunk(sorted: &mut Vec<ChunkMeta>, c: ChunkMeta)
    ensures
        final(sorted)@ == old(sorted)@.insert(chunk_slot(old(sorted)@, c), c),
{
    let mut at: usize = sorted.len();
    let ghost before = sorted@;
    assert(before.take(at as int) =~= before);
    while at > 0 && sorted[at - 1].start_us > c.start_us
        invariant
            at <= before.len(),
            sorted@ == before,
            chunk_slot(before, c) == chunk_slot(before.take(at as int), c),
        decreases at,
    {
        assert(before.take(at as int).drop_last() =~= before.take(at - 1));
        at -= 1;
    }
    sorted.insert(at, c);
}

/// A bag that can be sliced: the connections and chunks of a topic.
#[derive(Debug)]
pub struct BagSliceSource {
    conn_ids: Vec<u32>,
    chunks: Vec<ChunkMeta>,
    sensor: Option<(usize, usize)>,
    span_us: (i64, i64),
}

/// Indexes a topic of a bag by the records of the bag's index.
pub fn open_bag_slice(
    records: &[BagIndexRecord],
    topic: Option<&str>,
    sensor_size: Option<(usize, usize)>,
) -> (source: Result<BagSliceSource, IoError>)
    ensures
        ({
            let ids = event_connections(
                records@,
                topic_or_default(topic),
                records@.len() as int,
            );
            match source {
                Ok(s) => {
                    &&& ids.len() > 0
                    &&& s.connections() == ids
                    &&& s.chunk_list() == event_chunks(records@, ids, records@.len() as int)
                    &&& s.span() == chunk_span(s.chunk_list())
                    &&& s.sensor() == sensor_size
                },
                Err(IoError::Format(m)) => ids.len() == 0 && m@
                    == "no dvs_msgs/EventArray connection on topic "@ + topic_or_default(topic),
                Err(_) => false,
            }
        }),
{
    let wanted = resolve_topic(topic);
    let n: usize = records.len();
    let mut conn_ids: Vec<u32> = Vec::new();
    for i in 0..n
        invariant
            n == records@.len(),
            conn_ids@ == event_connections(records@, wanted@, i as int),
    {
        match &records[i] {
            BagIndexRecord::Connection { id, topic, kind } => {
                if is_event_connection(topic.as_str(), kind.as_str(), wanted.as_str()) {
                    conn_ids.push(*id);
                }
            },
            BagIndexRecord::ChunkInfo { .. } => {},
        }
    }
    if conn_ids.len() == 0 {
        return Err(
            IoError::Format(
                join2("no dvs_msgs/EventArray connection on topic ", wanted.as_str()),
            ),
        );
    }
    let mut chunks: Vec<ChunkMeta> = Vec::new();
    for i in 0..n
        invariant
            n == records@.len(),
            chunks@ == event_chunks(records@, conn_ids@, i as int),
    {
        match &records[i] {
            BagIndexRecord::ChunkInfo { pos, start_time, end_time, connections } => {
                if shares(connections, &conn_ids) {
                    insert_chunk(
                        &mut chunks,
                        ChunkMeta {
                            pos: *pos,
                            start_us: (*start_time / 1000) as i64,
                            end_us: (*end_time / 1000) as i64,
                        },
                    );
                }
            },
            BagIndexRecord::Connection { .. } => {},
        }
    }
    let count: usize = chunks.len();
    let mut span_us: (i64, i64) = (0, 0);
    if count > 0 {
        let mut latest: i64 = chunks[0].end_us;
        for i in 1..count
            invariant
                count == chunks@.len(),
                latest == latest_end(chunks@, i as int),
        {
            if chunks[i].end_us > latest {
                latest = chunks[i].end_us;
            }
        }
        span_us = (chunks[0].start_us, latest);
    }
    Ok(BagSliceSource { conn_ids, chunks, sensor: sensor_size, span_us })
}

/// The chunks whose time range overlaps `[t0, t1)`, among the first `n`.
pub open spec fn overlapping(chunks: Seq<ChunkMeta>, t0: int, t1: int, n: int) -> Seq<ChunkMeta>
    decreases n,
{
    if n <= 0 {
        Seq::empty()
    } else {
        let before = overlapping(chunks, t0, t1, n - 1);
        if chunks[n - 1].start_us < t1 && chunks[n - 1].end_us >= t0 {
            before.push(chunks[n - 1])
        } else {
            before
        }
    }
}

/// The chunks whose time range overlaps `[t0, t1)`.
pub fn select_chunks(chunks: &[ChunkMeta], t0: i64, t1: i64) -> (selected: Vec<ChunkMeta>)
    ensures
        selected@ == overlapping(chunks@, t0 as int, t1 as int, chunks@.len() as int),
{
    let n: usize = chunks.len();
    let mut selected: Vec<ChunkMeta> = Vec::new();
    for i in 0..n
        invariant
            n == chunks@.len(),
            selected@ == overlapping(chunks@, t0 as int, t1 as int, i as int),
    {
        if chunks[i].start_us < t1 && chunks[i].end_us >= t0 {
            selected.push(chunks[i]);
        }
    }
    selected
}

/// Whether numbers do not fall.
pub open spec fn rising(counts: Seq<usize>) -> bool {
    forall|i: int, j: int| 0 <= i <= j < counts.len() ==> counts[i] <= counts[j]
}

/// The chunk that holds the event with number `i`, given how many events come before each chunk.
pub fn locate_chunk(counts: &[usize], i: usize) -> (chunk: usize)
    requires
        rising(counts@),
    ensures
        counts@.len() == 0 ==> chunk == 0,
        counts@.len() > 0 ==> chunk < counts@.len(),
        chunk > 0 ==> counts@[chunk as int] <= i,
        chunk + 1 < counts@.len() ==> counts@[chunk + 1] > i,
{
    let mut lo: usize = 0;
    let mut hi: usize = counts.len();
    while lo < hi
        invariant
            lo <= hi <= counts@.len(),
            rising(counts@),
            forall|k: int| 0 <= k < lo ==> counts@[k] <= i,
            forall|k: int| hi <= k < counts@.len() ==> counts@[k] > i,
        decreases hi - lo,
    {
        let mid: usize = lo + (hi - lo) / 2;
        if counts[mid] <= i {
            lo = mid + 1;
        } else {
            hi = mid;
        }
    }
    if lo == 0 {
        0
    } else {
        lo - 1
    }
}

/// How many events come before the `k`-th chunk.
pub open spec fn events_before(sizes: Seq<usize>, k: int) -> int
    decreases k,
{
    if k <= 0 {
        0
    } else {
        events_before(sizes, k - 1) + sizes[k - 1]
    }
}

proof fn events_before_rises(sizes: Seq<usize>, i: int, j: int)
    requires
        0 <= i <= j,
    ensures
        0 <= events_before(sizes, i) <= events_before(sizes, j),
    decreases j,
{
    if i < j {
        events_before_rises(sizes, i, j - 1);
    } else if i > 0 {
        events_before_rises(sizes, 0, i - 1);
    }
}

/// Sums up the events of chunks.
pub fn cumulative_counts(sizes: &[usize]) -> (counts: Vec<usize>)
    requires
        events_before(sizes@, sizes@.len() as int) <= usize::MAX,
        sizes@.len() < usize::MAX,
    ensures
        counts@.len() == sizes@.len() + 1,
        forall|k: int|
            0 <= k <= sizes@.len() ==> #[trigger] counts@[k] == events_before(sizes@, k),
        rising(counts@),
{
    let n: usize = sizes.len();
    let mut counts: Vec<usize> = Vec::new();
    counts.push(0);
    let mut total: usize = 0;
    for i in 0..n
        invariant
            n == sizes@.len(),
            events_before(sizes@, n as int) <= usize::MAX,
            total == events_before(sizes@, i as int),
            counts@.len() == i + 1,
            forall|k: int| 0 <= k <= i ==> #[trigger] counts@[k] == events_before(sizes@, k),
    {
        proof {
            events_before_rises(sizes@, i + 1, n as int);
        }
        total += sizes[i];
        counts.push(total);
    }
    proof {
        assert forall|i: int, j: int| 0 <= i <= j < counts@.len() implies counts@[i]
            <= counts@[j] by {
            events_before_rises(sizes@, i, j);
        }
    }
    counts
}

/// The events before the first that is not before `t`.
pub open spec fn until(events: Seq<RawEvent>, t: int, n: int) -> int
    decreases events.len() - n,
{
    if n >= events.len() || events[n].t >= t {
        n
    } else {
        until(events, t, n + 1)
    }
}

impl BagSliceSource {
    pub closed spec fn connections(&self) -> Seq<u32> {
        self.conn_ids@
    }

    pub closed spec fn chunk_list(&self) -> Seq<ChunkMeta> {
        self.chunks@
    }

    pub closed spec fn sensor(&self) -> Option<(usize, usize)> {
        self.sensor
    }

    pub closed spec fn span(&self) -> (i64, i64) {
        self.span_us
    }

    /// The first and last microsecond.
    pub fn time_span(&self) -> (span: (i64, i64))
        ensures
            span == self.span(),
    {
        self.span_us
    }

    /// The chunks, in order of time.
    pub fn chunks(&self) -> (chunks: &[ChunkMeta])
        ensures
            chunks@ == self.chunk_list(),
    {
        self.chunks.as_slice()
    }

    /// Whether a message is one of those that are read.
    pub fn follows(&self, conn_id: u32) -> (yes: bool)
        ensures
            yes == self.connections().contains(conn_id),
    {
        has_id(&self.conn_ids, conn_id)
    }

    /// `(width, height)` of the sensor, if it is known.
    pub fn sensor_size(&self) -> (size: Option<(usize, usize)>)
        ensures
            size == self.sensor(),
    {
        self.sensor
    }

    /// Settles the sensor size by the first message of the first chunk, unless it is known; without
    /// a message it is one by one.
    pub fn detect_sensor(&mut self, first: Option<&[u8]>) -> (done: Result<(), IoError>)
        ensures
            final(self).connections() == old(self).connections(),
            final(self).chunk_list() == old(self).chunk_list(),
            final(self).span() == old(self).span(),
            match done {
                Ok(()) => match old(self).sensor() {
                    Some(size) => final(self).sensor() == Some(size),
                    None => match first {
                        Some(data) => has_size(data@) && final(self).sensor() == Some(
                            (array_size(data@).0 as usize, array_size(data@).1 as usize),
                        ),
                        None => final(self).sensor() == Some((1usize, 1usize)),
                    },
                },
                Err(e) => is_truncated(e) && old(self).sensor() is None && (first matches Some(data)
                    && !has_size(data@)) && final(self).sensor() is None,
            },
    {
        if self.sensor.is_some() {
            return Ok(());
        }
        match first {
            Some(data) => match read_event_array_header(data) {
                Ok(size) => {
                    self.sensor = Some(size);
                    Ok(())
                },
                Err(error) => Err(error),
            },
            None => {
                self.sensor = Some((1, 1));
                Ok(())
            },
        }
    }

    /// How many events a message holds; an error if it ends early.
    pub fn count_events(&self, data: &[u8]) -> (n: Result<usize, IoError>)
        ensures
            match n {
                Ok(n) => has_count(data@) && array_whole(data@) && n == array_events(data@).len(),
                Err(e) => is_truncated(e) && !(has_count(data@) && array_whole(data@)),
            },
    {
        match decode_event_array(data) {
            Ok(array) => if array.whole {
                Ok(array.events.len())
            } else {
                Err(truncated())
            },
            Err(error) => Err(error),
        }
    }

    /// Starts a time slice.
    pub fn slice_time(&self, t0: i64, t1: i64) -> (start: (Vec<ChunkMeta>, BagTimeSlice))
        requires
            self.sensor() is Some,
        ensures
            start.0@ == overlapping(
                self.chunk_list(),
                t0 as int,
                t1 as int,
                self.chunk_list().len() as int,
            ),
            start.1.wf(),
            start.1.window() == (t0, t1),
            start.1.size() == ((self.sensor()->0).0 as int, (self.sensor()->0).1 as int),
            start.1.events() == Seq::<RawEvent>::empty(),
    {
        let (width, height) = self.sensor.unwrap();
        let slice = BagTimeSlice {
            t0,
            t1,
            builder: EventStreamBuilder::new(width, height, MICROSECOND_SCALE),
        };
        (select_chunks(self.chunks.as_slice(), t0, t1), slice)
    }

    /// Starts an index slice, given how many events come before each chunk. The first value is the
    /// chunk to start with.
    pub fn slice_index(&self, counts: &[usize], i0: usize, i1: usize) -> (start: (
        usize,
        BagIndexSlice,
    ))
        requires
            self.sensor() is Some,
            rising(counts@),
            counts@.len() > 0,
        ensures
            start.0 < counts@.len(),
            start.0 > 0 ==> counts@[start.0 as int] <= start.1.wanted().0,
            start.0 + 1 < counts@.len() ==> counts@[start.0 + 1] > start.1.wanted().0,
            start.1.wf(),
            start.1.wanted().0 == if i0 < counts@.last() {
                i0
            } else {
                counts@.last()
            },
            start.1.wanted().1 == if i1 < start.1.wanted().0 {
                start.1.wanted().0
            } else if i1 > counts@.last() {
                counts@.last()
            } else {
                i1
            },
            start.1.next() == 0,
            start.1.size() == ((self.sensor()->0).0 as int, (self.sensor()->0).1 as int),
            start.1.events() == Seq::<RawEvent>::empty(),
    {
        let (width, height) = self.sensor.unwrap();
        let total = counts[counts.len() - 1];
        let a: usize = if i0 < total {
            i0
        } else {
            total
        };
        let b: usize = if i1 < a {
            a
        } else if i1 > total {
            total
        } else {
            i1
        };
        let slice = BagIndexSlice {
            i0: a,
            i1: b,
            index: 0,
            builder: EventStreamBuilder::new(width, height, MICROSECOND_SCALE),
        };
        (locate_chunk(counts, a), slice)
    }
}

/// The events of a time slice of a bag, as its messages are read.
pub struct BagTimeSlice {
    t0: i64,
    t1: i64,
    builder: EventStreamBuilder,
}

impl BagTimeSlice {
    pub closed spec fn window(&self) -> (i64, i64) {
        (self.t0, self.t1)
    }

    pub closed spec fn size(&self) -> (int, int) {
        (self.builder.width(), self.builder.height())
    }

    pub closed spec fn events(&self) -> Seq<RawEvent> {
        self.builder.events()
    }

    pub closed spec fn wf(&self) -> bool {
        self.builder.wf() && self.builder.scale() == MICROSECOND_SCALE
    }

    /// Takes a message; `true` once an event is not before the end, which ends a chunk.
    pub fn message(&mut self, data: &[u8]) -> (stop: Result<bool, IoError>)
        requires
            old(self).wf(),
        ensures
            final(self).wf(),
            final(self).window() == old(self).window(),
            final(self).size() == old(self).size(),
            !has_count(data@) ==> (stop matches Err(e) && is_truncated(e)) && final(self).events()
                == old(self).events(),
            has_count(data@) ==> ({
                let events = array_events(data@);
                let n = until(events, old(self).window().1 as int, 0);
                &&& final(self).events() == old(self).events() + kept(
                    within(
                        events.take(n),
                        old(self).window().0 as int,
                        old(self).window().1 as int,
                    ),
                    old(self).size().0,
                    old(self).size().1,
                )
                &&& n < events.len() ==> stop == Ok::<bool, IoError>(true)
                &&& n == events.len() && array_whole(data@) ==> stop == Ok::<bool, IoError>(false)
                &&& n == events.len() && !array_whole(data@) ==> (stop matches Err(e)
                    && is_truncated(e))
            }),
    {
        let array = match decode_event_array(data) {
            Ok(array) => array,
            Err(error) => {
                return Err(error);
            },
        };
        let ghost events = array.events@;
        let n: usize = array.events.len();
        let mut i: usize = 0;
        let ghost before = self.builder.events();
        let ghost w = self.builder.width();
        let ghost h = self.builder.height();
        assert(events.take(0) =~= Seq::<RawEvent>::empty());
        assert(before + kept(Seq::empty(), w, h) =~= before);
        while i < n && array.events[i].t < self.t1
            invariant
                i <= n,
                n == events.len(),
                events == array.events@,
                self.wf(),
                self.window() == old(self).window(),
                self.builder.width() == w,
                self.builder.height() == h,
                self.size() == old(self).size(),
                until(events, self.t1 as int, 0) == until(events, self.t1 as int, i as int),
                self.builder.events() == before + kept(
                    within(events.take(i as int), self.t0 as int, self.t1 as int),
                    w,
                    h,
                ),
            decreases n - i,
        {
            let e = array.events[i];
            proof {
                let so_far = within(events.take(i as int), self.t0 as int, self.t1 as int);
                assert(events.take(i + 1) =~= events.take(i as int).push(e));
                within_push(events.take(i as int), e, self.t0 as int, self.t1 as int);
                kept_push(so_far, e, w, h);
                assert(before + kept(so_far, w, h).push(e) =~= (before + kept(so_far, w, h)).push(
                    e,
                ));
            }
            if e.t >= self.t0 {
                self.builder.push(e.x, e.y, e.t, e.p);
            }
            i += 1;
        }
        if i < n {
            Ok(true)
        } else if array.whole {
            Ok(false)
        } else {
            Err(truncated())
        }
    }

    /// The events of the slice.
    pub fn finish(self) -> (stream: EventStream)
        requires
            self.wf(),
        ensures
            stream.wf(),
            (stream.width(), stream.height()) == self.size(),
            stream.scale() == MICROSECOND_SCALE,
            stream.events() == self.events(),
    {
        self.builder.build()
    }
}

/// The events of an index slice of a bag, as its messages are read.
pub struct BagIndexSlice {
    i0: usize,
    i1: usize,
    index: usize,
    builder: EventStreamBuilder,
}

impl BagIndexSlice {
    pub closed spec fn wanted(&self) -> (usize, usize) {
        (self.i0, self.i1)
    }

    /// The number of the next event.
    pub closed spec fn next(&self) -> usize {
        self.index
    }

    pub closed spec fn size(&self) -> (int, int) {
        (self.builder.width(), self.builder.height())
    }

    pub closed spec fn events(&self) -> Seq<RawEvent> {
        self.builder.events()
    }

    pub closed spec fn wf(&self) -> bool {
        self.builder.wf() && self.builder.scale() == MICROSECOND_SCALE
    }

    /// Starts a chunk before which `count` events come; `false` if the slice ends before it.
    pub fn begin_chunk(&mut self, count: usize) -> (more: bool)
        requires
            old(self).wf(),
        ensures
            final(self).wf(),
            final(self).wanted() == old(self).wanted(),
            final(self).size() == old(self).size(),
            final(self).events() == old(self).events(),
            final(self).next() == count,
            more == (count < old(self).wanted().1 && old(self).wanted().0 < old(self).wanted().1),
    {
        self.index = count;
        count < self.i1 && self.i0 < self.i1
    }

    /// Takes a message of a chunk; `true` once the slice is complete.
    pub fn message(&mut self, data: &[u8]) -> (stop: Result<bool, IoError>)
        requires
            old(self).wf(),
            old(self).next() < old(self).wanted().1,
        ensures
            final(self).wf(),
            final(self).wanted() == old(self).wanted(),
            final(self).size() == old(self).size(),
            !has_count(data@) ==> (stop matches Err(e) && is_truncated(e)) && final(self).events()
                == old(self).events(),
            has_count(data@) ==> ({
                let events = array_events(data@);
                let room = old(self).wanted().1 - old(self).next();
                &&& final(self).events() == old(self).events() + kept(
                    part(
                        events,
                        old(self).wanted().0 - old(self).next(),
                        old(self).wanted().1 - old(self).next(),
                    ),
                    old(self).size().0,
                    old(self).size().1,
                )
                &&& events.len() >= room ==> stop == Ok::<bool, IoError>(true)
                &&& events.len() < room ==> final(self).next() == old(self).next() + events.len()
                &&& events.len() < room && array_whole(data@) ==> stop == Ok::<bool, IoError>(
                    false,
                )
                &&& events.len() < room && !array_whole(data@) ==> (stop matches Err(e)
                    && is_truncated(e))
            }),
    {
        let array = match decode_event_array(data) {
            Ok(array) => array,
            Err(error) => {
                return Err(error);
            },
        };
        let ghost events = array.events@;
        let n: usize = array.events.len();
        let ghost before = self.builder.events();
        let ghost w = self.builder.width();
        let ghost h = self.builder.height();
        let ghost lo = self.i0 - self.index;
        let ghost hi = self.i1 - self.index;
        let first: usize = self.index;
        let mut i: usize = 0;
        assert(part(events.take(0), lo, hi) =~= Seq::<RawEvent>::empty());
        assert(before + kept(Seq::empty(), w, h) =~= before);
        while i < n
            invariant
                i <= n,
                n == events.len(),
                events == array.events@,
                self.wf(),
                self.wanted() == old(self).wanted(),
                self.builder.width() == w,
                self.builder.height() == h,
                self.size() == old(self).size(),
                (w, h) == old(self).size(),
                has_count(data@),
                events == array_events(data@),
                first == old(self).next(),
                before == old(self).events(),
                self.index == first + i,
                self.index < self.i1,
                lo == self.i0 - first,
                hi == self.i1 - first,
                self.builder.events() == before + kept(part(events.take(i as int), lo, hi), w, h),
            decreases n - i,
        {
            let e = array.events[i];
            proof {
                let so_far = part(events.take(i as int), lo, hi);
                assert(part(events.take(i + 1), lo, hi) =~= if lo <= i < hi {
                    so_far.push(e)
                } else {
                    so_far
                });
                kept_push(so_far, e, w, h);
                assert(before + kept(so_far, w, h).push(e) =~= (before + kept(so_far, w, h)).push(
                    e,
                ));
            }
            if self.index >= self.i0 {
                self.builder.push(e.x, e.y, e.t, e.p);
            }
            self.index += 1;
            i += 1;
            if self.index >= self.i1 {
                assert(part(events.take(i as int), lo, hi) =~= part(events, lo, hi));
                return Ok(true);
            }
        }
        assert(events.take(n as int) =~= events);
        if array.whole {
            Ok(false)
        } else {
            Err(truncated())
        }
    }

    /// The events of the slice.
    pub fn finish(self) -> (stream: EventStream)
        requires
            self.wf(),
        ensures
            stream.wf(),
            (stream.width(), stream.height()) == self.size(),
            stream.scale() == MICROSECOND_SCALE,
            stream.events() == self.events(),
    {
        self.builder.build()
    }
}

/// Reading a run of events in two pieces takes the same part of it as reading it at once: what an
/// index slice collects does not depend on how events are spread over messages and chunks.
pub proof fn index_slice_spreads(
    a: Seq<RawEvent>,
    b: Seq<RawEvent>,
    first: int,
    i0: int,
    i1: int,
    width: int,
    height: int,
)
    requires
        0 <= first,
        0 <= i0 <= i1,
    ensures
        kept(part(a, i0 - first, i1 - first), width, height) + kept(
            part(b, i0 - first - a.len(), i1 - first - a.len()),
            width,
            height,
        ) == kept(part(a + b, i0 - first, i1 - first), width, height),
{
    part_concat(a, b, i0 - first, i1 - first);
    kept_concat(
        part(a, i0 - first, i1 - first),
        part(b, i0 - first - a.len(), i1 - first - a.len()),
        width,
        height,
    );
}

} // verus!
