//! Random access to Prophesee `.raw` recordings.
//!
//! A recording is decoded once, a megabyte at a time, into a sparse index: the decoder state and
//! the number of events at every megabyte. A slice then replays from the nearest such state, so
//! the events are never held as a whole.

use vstd::prelude::*;
use vstd::slice::slice_subrange;

use crate::io::codec::{
    after, after_same_encoding, decoded, decoded_bound, decoded_prefix, decoded_split, fresh, started,
    time_of, word_count, word_events, word_events_bound, word_len, Codec,
};
use crate::io::raw_header::{
    chosen_size, data_start, declared_version, empty_size, header_fields, parse_header,
    unknown_version_message, EvtVersion, Header,
};
use crate::io::IoError;
use crate::stream::{
    kept, kept_concat, kept_from, kept_on_sensor, kept_push, kept_whole, on_sensor, within,
    within_concat, within_none, within_push, EventStream, EventStreamBuilder, RawEvent,
    MICROSECOND_SCALE,
};

verus! {

/// Bytes between two saved decoder states.
pub const CHECKPOINT_BYTES: u64 = 0x10_0000;

/// A saved decoder state.
#[derive(Clone, Copy, Debug)]
pub struct Checkpoint {
    /// Where in the file the state holds.
    pub byte_offset: u64,
    /// Events before it.
    pub event_index: usize,
    /// The decoder's time there.
    pub time: i64,
    pub codec: Codec,
}

/// What is known of the events read so far.
#[derive(Clone, Copy, Debug)]
pub struct Tally {
    pub count: usize,
    pub minimum: i64,
    pub maximum: i64,
    pub extent_x: usize,
    pub extent_y: usize,
}

/// The least timestamp, or the largest value if there is none.
pub open spec fn earliest(events: Seq<RawEvent>) -> int
    decreases events.len(),
{
    if events.len() == 0 {
        i64::MAX as int
    } else if events.last().t < earliest(events.drop_last()) {
        events.last().t as int
    } else {
        earliest(events.drop_last())
    }
}

/// The greatest timestamp, or the least value if there is none.
pub open spec fn latest(events: Seq<RawEvent>) -> int
    decreases events.len(),
{
    if events.len() == 0 {
        i64::MIN as int
    } else if events.last().t > latest(events.drop_last()) {
        events.last().t as int
    } else {
        latest(events.drop_last())
    }
}

/// The greatest column, or zero if there is none.
pub open spec fn rightmost(events: Seq<RawEvent>) -> int
    decreases events.len(),
{
    if events.len() == 0 {
        0
    } else if events.last().x > rightmost(events.drop_last()) {
        events.last().x as int
    } else {
        rightmost(events.drop_last())
    }
}

/// The greatest row, or zero if there is none.
pub open spec fn lowest(events: Seq<RawEvent>) -> int
    decreases events.len(),
{
    if events.len() == 0 {
        0
    } else if events.last().y > lowest(events.drop_last()) {
        events.last().y as int
    } else {
        lowest(events.drop_last())
    }
}

/// A tally with one more event.
pub open spec fn tally_step(t: Tally, e: RawEvent) -> Tally {
    Tally {
        count: (t.count + 1) as usize,
        minimum: if e.t < t.minimum {
            e.t
        } else {
            t.minimum
        },
        maximum: if e.t > t.maximum {
            e.t
        } else {
            t.maximum
        },
        extent_x: if e.x > t.extent_x {
            e.x as usize
        } else {
            t.extent_x
        },
        extent_y: if e.y > t.extent_y {
            e.y as usize
        } else {
            t.extent_y
        },
    }
}

/// A tally with a run of events more.
pub open spec fn tally_after(t: Tally, events: Seq<RawEvent>) -> Tally
    decreases events.len(),
{
    if events.len() == 0 {
        t
    } else {
        tally_step(tally_after(t, events.drop_last()), events.last())
    }
}

/// The tally of no event.
pub open spec fn no_tally() -> Tally {
    Tally { count: 0, minimum: i64::MAX, maximum: i64::MIN, extent_x: 0, extent_y: 0 }
}

/// What a tally says of the events it counted.
pub proof fn tally_meaning(events: Seq<RawEvent>)
    requires
        events.len() <= usize::MAX,
    ensures
        tally_after(no_tally(), events).count == events.len(),
        tally_after(no_tally(), events).minimum == earliest(events),
        tally_after(no_tally(), events).maximum == latest(events),
        tally_after(no_tally(), events).extent_x == rightmost(events),
        tally_after(no_tally(), events).extent_y == lowest(events),
    decreases events.len(),
{
    if events.len() > 0 {
        tally_meaning(events.drop_last());
    }
}

proof fn tally_concat(t: Tally, a: Seq<RawEvent>, b: Seq<RawEvent>)
    ensures
        tally_after(t, a + b) == tally_after(tally_after(t, a), b),
    decreases b.len(),
{
    if b.len() == 0 {
        assert(a + b =~= a);
    } else {
        assert((a + b).drop_last() =~= a + b.drop_last());
        tally_concat(t, a, b.drop_last());
    }
}

proof fn tally_count(t: Tally, events: Seq<RawEvent>)
    requires
        t.count + events.len() <= usize::MAX,
    ensures
        tally_after(t, events).count == t.count + events.len(),
    decreases events.len(),
{
    if events.len() > 0 {
        tally_count(t, events.drop_last());
    }
}

/// Every event lies within the extent of its run.
pub proof fn extent_holds(events: Seq<RawEvent>, i: int)
    requires
        0 <= i < events.len(),
    ensures
        events[i].x <= rightmost(events),
        events[i].y <= lowest(events),
        earliest(events) <= events[i].t <= latest(events),
    decreases events.len(),
{
    if i < events.len() - 1 {
        extent_holds(events.drop_last(), i);
    }
}

/// The events that count: those on the sensor, or all of them when its size is unknown.
pub open spec fn counted(events: Seq<RawEvent>, size: Option<(usize, usize)>) -> Seq<RawEvent> {
    match size {
        Some((w, h)) => kept(events, w as int, h as int),
        None => events,
    }
}

proof fn counted_push(events: Seq<RawEvent>, e: RawEvent, size: Option<(usize, usize)>)
    ensures
        counted(events.push(e), size) == if size is None || on_sensor(
            e,
            (size->0).0 as int,
            (size->0).1 as int,
        ) {
            counted(events, size).push(e)
        } else {
            counted(events, size)
        },
{
    if let Some((w, h)) = size {
        kept_push(events, e, w as int, h as int);
    }
}

proof fn counted_concat(a: Seq<RawEvent>, b: Seq<RawEvent>, size: Option<(usize, usize)>)
    ensures
        counted(a + b, size) == counted(a, size) + counted(b, size),
{
    if let Some((w, h)) = size {
        kept_concat(a, b, w as int, h as int);
    }
}

proof fn counted_bound(events: Seq<RawEvent>, size: Option<(usize, usize)>)
    ensures
        counted(events, size).len() <= events.len(),
{
    if let Some((w, h)) = size {
        kept_on_sensor(events, w as int, h as int);
    }
}

/// How many states are saved for `n` bytes.
pub open spec fn checkpoint_count(n: int) -> int {
    if n == 0 {
        1
    } else {
        (n + 0xF_FFFF) / 0x10_0000
    }
}

/// The words before saved state `k`.
pub open spec fn words_before(version: EvtVersion, k: int) -> int {
    match version {
        EvtVersion::Evt2 => 0x4_0000 * k,
        EvtVersion::Evt3 => 0x8_0000 * k,
    }
}

/// A saved state is the decoder's after all the bytes before it.
pub open spec fn marks(
    cp: Checkpoint,
    version: EvtVersion,
    d: Seq<u8>,
    size: Option<(usize, usize)>,
    offset: int,
    k: int,
) -> bool {
    let n = words_before(version, k);
    &&& cp.byte_offset == offset + 0x10_0000 * k
    &&& cp.event_index == counted(decoded(fresh(version), d, n), size).len()
    &&& cp.codec == after(fresh(version), d, n)
    &&& cp.time == time_of(after(fresh(version), d, n))
}

/// All the words of a recording.
pub open spec fn all_words(version: EvtVersion, d: Seq<u8>) -> int {
    word_count(fresh(version), d)
}

/// Counts the events of one word.
fn count_events(tally: Tally, events: &[RawEvent], size: Option<(usize, usize)>) -> (after: Tally)
    requires
        tally.count + events@.len() <= usize::MAX,
    ensures
        after == tally_after(tally, counted(events@, size)),
{
    let mut t = tally;
    let mut j: usize = 0;
    assert(events@.take(0) =~= Seq::<RawEvent>::empty());
    assert(counted(events@.take(0), size) =~= Seq::<RawEvent>::empty());
    while j < events.len()
        invariant
            j <= events@.len(),
            tally.count + events@.len() <= usize::MAX,
            t == tally_after(tally, counted(events@.take(j as int), size)),
            t.count <= tally.count + j,
        decreases events@.len() - j,
    {
        let e = events[j];
        let inside = match size {
            Some((width, height)) => (e.x as usize) < width && (e.y as usize) < height,
            None => true,
        };
        proof {
            let front = events@.take(j as int);
            assert(events@.take(j + 1) =~= front.push(e));
            counted_push(front, e, size);
            assert(counted(front, size).push(e).drop_last() =~= counted(front, size));
        }
        if inside {
            t = Tally {
                count: t.count + 1,
                minimum: if e.t < t.minimum {
                    e.t
                } else {
                    t.minimum
                },
                maximum: if e.t > t.maximum {
                    e.t
                } else {
                    t.maximum
                },
                extent_x: if e.x as usize > t.extent_x {
                    e.x as usize
                } else {
                    t.extent_x
                },
                extent_y: if e.y as usize > t.extent_y {
                    e.y as usize
                } else {
                    t.extent_y
                },
            };
        }
        j += 1;
    }
    assert(events@.take(events@.len() as int) =~= events@);
    t
}

/// Decodes a chunk and counts its events.
fn run_chunk(start: Codec, tally: Tally, size: Option<(usize, usize)>, chunk: &[u8]) -> (end: (
    Codec,
    Tally,
))
    requires
        tally.count + 6 * chunk@.len() <= usize::MAX,
    ensures
        end.0 == after(start, chunk@, word_count(start, chunk@)),
        end.1 == tally_after(
            tally,
            counted(decoded(start, chunk@, word_count(start, chunk@)), size),
        ),
{
    let mut codec = start;
    let mut t = tally;
    let w: usize = codec.word_size();
    let n: usize = chunk.len() / w;
    let mut buffer: Vec<RawEvent> = Vec::new();
    let mut i: usize = 0;
    assert(counted(decoded(start, chunk@, 0), size) =~= Seq::<RawEvent>::empty());
    while i < n
        invariant
            w == word_len(start),
            w == 2 || w == 4,
            n == chunk@.len() as int / w as int,
            i <= n,
            codec == after(start, chunk@, i as int),
            tally.count + 6 * chunk@.len() <= usize::MAX,
            t == tally_after(tally, counted(decoded(start, chunk@, i as int), size)),
        decreases n - i,
    {
        buffer.clear();
        proof {
            after_same_encoding(start, chunk@, i as int);
            assert(w * (i + 1) <= chunk@.len() && 12 * (i + 1) <= 6 * chunk@.len()) by (nonlinear_arith)
                requires
                    i + 1 <= n,
                    n == chunk@.len() as int / w as int,
                    w == 2 || w == 4,
            ;
            assert(w * i + w == w * (i + 1)) by (nonlinear_arith);
            decoded_bound(start, chunk@, i as int);
            counted_bound(decoded(start, chunk@, i as int), size);
            tally_count(tally, counted(decoded(start, chunk@, i as int), size));
        }
        let ghost front = decoded(start, chunk@, i as int);
        let ghost word = word_events(codec, chunk@, w * i);
        proof {
            word_events_bound(codec, chunk@, w * i);
            counted_concat(front, word, size);
            tally_concat(tally, counted(front, size), counted(word, size));
        }
        codec.decode(chunk, w * i, &mut buffer);
        assert(buffer@ =~= word);
        t = count_events(t, &buffer, size);
        i += 1;
    }
    (codec, t)
}

/// Builds the index of a recording from its bytes, a megabyte at a time.
#[derive(Debug)]
pub struct RawIndexer {
    version: EvtVersion,
    size: Option<(usize, usize)>,
    data_offset: u64,
    bytes: u64,
    codec: Codec,
    checkpoints: Vec<Checkpoint>,
    tally: Tally,
}

/// The first saved states of a recording are those of its first bytes.
proof fn marks_prefix(
    cp: Checkpoint,
    version: EvtVersion,
    d: Seq<u8>,
    more: Seq<u8>,
    size: Option<(usize, usize)>,
    offset: int,
    k: int,
)
    requires
        marks(cp, version, d, size, offset, k),
        0 <= k,
        0x10_0000 * k <= d.len(),
    ensures
        marks(cp, version, d + more, size, offset, k),
{
    decoded_prefix(fresh(version), d, more, words_before(version, k));
}

/// What whole megabytes decode to, followed by what the next bytes do.
proof fn decoded_grows(version: EvtVersion, d: Seq<u8>, chunk: Seq<u8>)
    requires
        d.len() % 0x10_0000 == 0,
    ensures
        ({
            let c = fresh(version);
            let n = all_words(version, d);
            let mid = after(c, d, n);
            let m = word_count(mid, chunk);
            &&& n == words_before(version, d.len() as int / 0x10_0000)
            &&& after(c, d + chunk, n) == mid
            &&& decoded(c, d + chunk, n) == decoded(c, d, n)
            &&& after(c, d + chunk, all_words(version, d + chunk)) == after(mid, chunk, m)
            &&& decoded(c, d + chunk, all_words(version, d + chunk)) == decoded(c, d, n) + decoded(
                mid,
                chunk,
                m,
            )
        }),
{
    let c = fresh(version);
    let w = word_len(c);
    let n = all_words(version, d);
    let whole = d + chunk;
    let mid = after(c, d, n);
    let m = word_count(mid, chunk);
    after_same_encoding(c, d, n);
    decoded_prefix(c, d, chunk, n);
    match version {
        EvtVersion::Evt2 => {
            assert(w == 4 && d.len() == 4 * n && all_words(version, whole) == n + m);
        },
        EvtVersion::Evt3 => {
            assert(w == 2 && d.len() == 2 * n && all_words(version, whole) == n + m);
        },
    }
    decoded_split(c, whole, n, m);
    assert(whole.skip(w * n) =~= chunk);
}

impl RawIndexer {
    pub closed spec fn version(&self) -> EvtVersion {
        self.version
    }

    pub closed spec fn size(&self) -> Option<(usize, usize)> {
        self.size
    }

    /// Where in the file the first word lies.
    pub closed spec fn offset(&self) -> int {
        self.data_offset as int
    }

    /// Bytes taken so far.
    pub closed spec fn consumed(&self) -> int {
        self.bytes as int
    }

    /// This is the index of the bytes `d`.
    pub closed spec fn covers(&self, d: Seq<u8>) -> bool {
        let c = fresh(self.version);
        let n = all_words(self.version, d);
        &&& self.bytes == d.len()
        &&& 6 * d.len() <= usize::MAX
        &&& self.codec == after(c, d, n)
        &&& self.tally == tally_after(no_tally(), counted(decoded(c, d, n), self.size))
        &&& self.checkpoints@.len() == checkpoint_count(d.len() as int)
        &&& forall|k: int|
            0 <= k < self.checkpoints@.len() ==> marks(
                #[trigger] self.checkpoints@[k],
                self.version,
                d,
                self.size,
                self.data_offset as int,
                k,
            )
    }

    /// A recording cannot hold more events than it has room for.
    proof fn count_fits(&self, d: Seq<u8>)
        requires
            self.covers(d),
        ensures
            self.tally.count == counted(
                decoded(fresh(self.version), d, all_words(self.version, d)),
                self.size,
            ).len(),
            self.tally.count <= 6 * d.len(),
    {
        let c = fresh(self.version);
        let n = all_words(self.version, d);
        decoded_bound(c, d, n);
        counted_bound(decoded(c, d, n), self.size);
        assert(12 * n <= 6 * d.len());
        tally_meaning(counted(decoded(c, d, n), self.size));
    }

    /// The index of no bytes, for a recording whose words start at `data_offset` of its file.
    pub fn new(header: Header, data_offset: u64) -> (indexer: Self)
        ensures
            indexer.covers(Seq::empty()),
            indexer.version() == header.encoding,
            indexer.size() == header.sensor_size,
            indexer.offset() == data_offset,
            indexer.consumed() == 0,
    {
        let codec = Codec::new(header.encoding);
        let mut checkpoints: Vec<Checkpoint> = Vec::new();
        checkpoints.push(
            Checkpoint { byte_offset: data_offset, event_index: 0, time: codec.time(), codec },
        );
        let tally = Tally {
            count: 0,
            minimum: i64::MAX,
            maximum: i64::MIN,
            extent_x: 0,
            extent_y: 0,
        };
        let indexer = RawIndexer {
            version: header.encoding,
            size: header.sensor_size,
            data_offset,
            bytes: 0,
            codec,
            checkpoints,
            tally,
        };
        proof {
            let d = Seq::<u8>::empty();
            assert(counted(decoded(codec, d, 0), indexer.size) =~= Seq::<RawEvent>::empty());
        }
        indexer
    }

    /// Takes the next bytes of the recording: a whole megabyte, or fewer at its end.
    pub fn add_chunk(&mut self, chunk: &[u8])
        requires
            old(self).consumed() % 0x10_0000 == 0,
            0 < chunk@.len() <= 0x10_0000,
            6 * (old(self).consumed() + chunk@.len()) <= usize::MAX,
            old(self).offset() + old(self).consumed() + chunk@.len() <= u64::MAX,
            exists|d: Seq<u8>| old(self).covers(d),
        ensures
            final(self).version() == old(self).version(),
            final(self).size() == old(self).size(),
            final(self).offset() == old(self).offset(),
            final(self).consumed() == old(self).consumed() + chunk@.len(),
            forall|d: Seq<u8>| #[trigger]
                old(self).covers(d) ==> final(self).covers(d + chunk@),
    {
        proof {
            let witness = choose|d: Seq<u8>| self.covers(d);
            self.count_fits(witness);
        }
        if self.bytes != 0 {
            self.checkpoints.push(
                Checkpoint {
                    byte_offset: self.data_offset + self.bytes,
                    event_index: self.tally.count,
                    time: self.codec.time(),
                    codec: self.codec,
                },
            );
        }
        let (codec, tally) = run_chunk(self.codec, self.tally, self.size, chunk);
        self.codec = codec;
        self.tally = tally;
        self.bytes = self.bytes + chunk.len() as u64;
        assert forall|d: Seq<u8>| #[trigger] old(self).covers(d) implies self.covers(d + chunk@) by {
            let c = fresh(self.version);
            let n = all_words(self.version, d);
            let mid = after(c, d, n);
            let m = word_count(mid, chunk@);
            old(self).count_fits(d);
            decoded_grows(self.version, d, chunk@);
            counted_concat(decoded(c, d, n), decoded(mid, chunk@, m), self.size);
            tally_concat(
                no_tally(),
                counted(decoded(c, d, n), self.size),
                counted(decoded(mid, chunk@, m), self.size),
            );
            assert forall|k: int| 0 <= k < self.checkpoints@.len() implies marks(
                #[trigger] self.checkpoints@[k],
                self.version,
                d + chunk@,
                self.size,
                self.data_offset as int,
                k,
            ) by {
                if k < old(self).checkpoints@.len() {
                    assert(self.checkpoints@[k] == old(self).checkpoints@[k]);
                    marks_prefix(
                        self.checkpoints@[k],
                        self.version,
                        d,
                        chunk@,
                        self.size,
                        self.data_offset as int,
                        k,
                    );
                } else {
                    assert(k == d.len() as int / 0x10_0000);
                }
            }
        }
    }

    /// The finished index. Without a declared sensor size the size is one past the largest
    /// coordinates, and a recording without events has none.
    pub fn finish(self) -> (source: Result<RawSliceSource, IoError>)
        requires
            exists|d: Seq<u8>| self.covers(d),
        ensures
            forall|d: Seq<u8>| #[trigger]
                self.covers(d) ==> {
                    let events = decoded(fresh(self.version()), d, all_words(self.version(), d));
                    match source {
                        Ok(s) => {
                            &&& s.indexes(d)
                            &&& s.version() == self.version()
                            &&& s.offset() == self.offset()
                            &&& match self.size() {
                                Some((w, h)) => s.width() == w && s.height() == h,
                                None => events.len() > 0 && s.width() == rightmost(events) + 1
                                    && s.height() == lowest(events) + 1,
                            }
                        },
                        Err(IoError::InvalidSensorSize) => self.size() is None && events.len() == 0,
                        Err(_) => false,
                    }
                },
            source matches Ok(s) ==> s.wf(),
    {
        proof {
            let d = choose|d: Seq<u8>| self.covers(d);
            self.count_fits(d);
            self.extent_fits(d);
            assert(marks(
                self.checkpoints@[0],
                self.version,
                d,
                self.size,
                self.data_offset as int,
                0,
            ));
            assert(counted(decoded(fresh(self.version), d, 0), self.size)
                =~= Seq::<RawEvent>::empty());
            assert forall|d: Seq<u8>| #[trigger] self.covers(d) implies self.tally.count == counted(
                decoded(fresh(self.version), d, all_words(self.version, d)),
                self.size,
            ).len() by {
                self.count_fits(d);
            }
        }
        let (width, height) = match self.size {
            Some(size) => size,
            None => {
                if self.tally.count == 0 {
                    return Err(IoError::InvalidSensorSize);
                }
                (self.tally.extent_x + 1, self.tally.extent_y + 1)
            },
        };
        let time_span: (i64, i64) = if self.tally.count == 0 {
            (0, 0)
        } else {
            (self.tally.minimum, self.tally.maximum)
        };
        let ghost indexer = self;
        let source = RawSliceSource {
            version: self.version,
            data_offset: self.data_offset,
            width,
            height,
            checkpoints: self.checkpoints,
            n_events: self.tally.count,
            time_span,
        };
        assert forall|d: Seq<u8>| #[trigger] indexer.covers(d) implies source.indexes(d) && (
        indexer.size is None ==> source.width == rightmost(
            decoded(fresh(indexer.version), d, all_words(indexer.version, d)),
        ) + 1 && source.height == lowest(
            decoded(fresh(indexer.version), d, all_words(indexer.version, d)),
        ) + 1) by {
            indexer.extent_fits(d);
            indexer.finishes(source, d);
        }
        Ok(source)
    }

    /// What the tally of an index says.
    proof fn extent_fits(&self, d: Seq<u8>)
        requires
            self.covers(d),
        ensures
            ({
                let events = counted(
                    decoded(fresh(self.version), d, all_words(self.version, d)),
                    self.size,
                );
                &&& self.tally.count == events.len()
                &&& self.tally.minimum == earliest(events)
                &&& self.tally.maximum == latest(events)
                &&& self.tally.extent_x == rightmost(events)
                &&& self.tally.extent_y == lowest(events)
                &&& rightmost(events) <= 0xFFFF
                &&& lowest(events) <= 0xFFFF
            }),
    {
        self.count_fits(d);
        let events = counted(
            decoded(fresh(self.version), d, all_words(self.version, d)),
            self.size,
        );
        tally_meaning(events);
        coordinates_fit(events);
    }

    /// The finished index is the index of the same bytes.
    proof fn finishes(&self, source: RawSliceSource, d: Seq<u8>)
        requires
            self.covers(d),
            source.version == self.version,
            source.data_offset == self.data_offset,
            source.checkpoints@ == self.checkpoints@,
            source.n_events == self.tally.count,
            source.time_span == (if self.tally.count == 0 {
                (0i64, 0i64)
            } else {
                (self.tally.minimum, self.tally.maximum)
            }),
            match self.size {
                Some((w, h)) => source.width == w && source.height == h,
                None => source.width == self.tally.extent_x + 1 && source.height
                    == self.tally.extent_y + 1,
            },
        ensures
            source.indexes(d),
    {
        let c = fresh(self.version);
        let n = all_words(self.version, d);
        self.extent_fits(d);
        let size = Some((source.width, source.height));
        let whole = decoded(c, d, n);
        if self.size is None {
            assert forall|i: int| 0 <= i < whole.len() implies on_sensor(
                #[trigger] whole[i],
                source.width as int,
                source.height as int,
            ) by {
                extent_holds(whole, i);
            }
            kept_whole(whole, source.width as int, source.height as int);
        }
        assert(counted(whole, self.size) == counted(whole, size));
        assert forall|k: int| 0 <= k < source.checkpoints@.len() implies marks(
            #[trigger] source.checkpoints@[k],
            source.version,
            d,
            size,
            source.data_offset as int,
            k,
        ) by {
            let words = words_before(self.version, k);
            assert(marks(
                self.checkpoints@[k],
                self.version,
                d,
                self.size,
                self.data_offset as int,
                k,
            ));
            if self.size is None {
                let part = decoded(c, d, words);
                words_within(self.version, d, k);
                decoded_split(c, d, words, n - words);
                assert forall|i: int| 0 <= i < part.len() implies on_sensor(
                    #[trigger] part[i],
                    source.width as int,
                    source.height as int,
                ) by {
                    assert(whole[i] == part[i]);
                }
                kept_whole(part, source.width as int, source.height as int);
            }
        }
    }
}

/// Coordinates are 16-bit values.
proof fn coordinates_fit(events: Seq<RawEvent>)
    ensures
        0 <= rightmost(events) <= 0xFFFF,
        0 <= lowest(events) <= 0xFFFF,
    decreases events.len(),
{
    if events.len() > 0 {
        coordinates_fit(events.drop_last());
    }
}

/// Every saved state lies within the recording.
proof fn words_within(version: EvtVersion, d: Seq<u8>, k: int)
    requires
        0 <= k < checkpoint_count(d.len() as int),
    ensures
        0 <= words_before(version, k) <= all_words(version, d),
        word_len(fresh(version)) * words_before(version, k) == 0x10_0000 * k,
        word_len(fresh(version)) * all_words(version, d) <= d.len(),
        0x10_0000 * k <= d.len(),
{
    assert(0x10_0000 * k <= d.len());
}

/// The part of a sequence from place `a` up to place `b`, as far as there is one.
pub open spec fn clip(s: Seq<RawEvent>, a: int, b: int) -> Seq<RawEvent> {
    s.subrange(if a < s.len() {
            a
        } else {
            s.len() as int
        }, if b < s.len() {
            b
        } else {
            s.len() as int
        })
}

/// The first saved state from `k` on with more than `index` events before it, or the number of
/// states.
pub open spec fn past_index(cps: Seq<Checkpoint>, index: int, k: int) -> int
    decreases cps.len() - k,
{
    if k >= cps.len() {
        cps.len() as int
    } else if cps[k].event_index > index {
        k
    } else {
        past_index(cps, index, k + 1)
    }
}

/// The first saved state from `k` on that is later than `t`, or the number of states.
pub open spec fn past_time(cps: Seq<Checkpoint>, t: int, k: int) -> int
    decreases cps.len() - k,
{
    if k >= cps.len() {
        cps.len() as int
    } else if cps[k].time > t {
        k
    } else {
        past_time(cps, t, k + 1)
    }
}

/// How many of the first `n` words are read until the clock reaches `t1`, counting from `j`.
pub open spec fn words_until(c: Codec, bytes: Seq<u8>, n: int, t1: int, j: int) -> int
    decreases n - j,
{
    if j >= n {
        n
    } else if started(after(c, bytes, j)) && time_of(after(c, bytes, j)) >= t1 {
        j
    } else {
        words_until(c, bytes, n, t1, j + 1)
    }
}

/// An indexed recording: slices of it are decoded from its bytes on demand.
#[derive(Debug)]
pub struct RawSliceSource {
    version: EvtVersion,
    data_offset: u64,
    width: usize,
    height: usize,
    checkpoints: Vec<Checkpoint>,
    n_events: usize,
    time_span: (i64, i64),
}

impl RawSliceSource {
    pub closed spec fn version(&self) -> EvtVersion {
        self.version
    }

    pub closed spec fn offset(&self) -> int {
        self.data_offset as int
    }

    pub closed spec fn width(&self) -> int {
        self.width as int
    }

    pub closed spec fn height(&self) -> int {
        self.height as int
    }

    pub closed spec fn checkpoints(&self) -> Seq<Checkpoint> {
        self.checkpoints@
    }

    pub closed spec fn count(&self) -> int {
        self.n_events as int
    }

    pub closed spec fn span(&self) -> (i64, i64) {
        self.time_span
    }

    /// There is a saved state before the first event.
    pub open spec fn wf(&self) -> bool {
        &&& self.checkpoints().len() > 0
        &&& self.checkpoints()[0].event_index == 0
    }

    /// The events of a recording whose words are `d`.
    pub open spec fn events_of(&self, d: Seq<u8>) -> Seq<RawEvent> {
        kept(
            decoded(fresh(self.version()), d, all_words(self.version(), d)),
            self.width(),
            self.height(),
        )
    }

    /// This is the index of the recording whose words are `d`.
    pub closed spec fn indexes(&self, d: Seq<u8>) -> bool {
        let size = Some((self.width, self.height));
        let events = self.events_of(d);
        &&& self.n_events == events.len()
        &&& self.time_span == (if events.len() == 0 {
            (0i64, 0i64)
        } else {
            (earliest(events) as i64, latest(events) as i64)
        })
        &&& self.checkpoints@.len() == checkpoint_count(d.len() as int)
        &&& forall|k: int|
            0 <= k < self.checkpoints@.len() ==> marks(
                #[trigger] self.checkpoints@[k],
                self.version,
                d,
                size,
                self.data_offset as int,
                k,
            )
    }

    /// `index` as far as there are events.
    pub open spec fn bounded(&self, index: int) -> int {
        if index < self.count() {
            index
        } else {
            self.count()
        }
    }

    /// Where a slice from `i0` up to `i1` ends.
    pub open spec fn slice_end(&self, i0: int, i1: int) -> int {
        if self.bounded(i1) < self.bounded(i0) {
            self.bounded(i0)
        } else {
            self.bounded(i1)
        }
    }

    /// The saved state a slice from event `i0` replays from: the last with no more events before
    /// it.
    pub open spec fn index_place(&self, i0: int) -> int {
        past_index(self.checkpoints(), self.bounded(i0), 0) - 1
    }

    /// The saved state a slice from time `t0` replays from: one before the last that is no later.
    pub open spec fn time_place(&self, t0: int) -> int {
        let p = past_time(self.checkpoints(), t0, 0);
        if p < 2 {
            0
        } else {
            p - 2
        }
    }

    /// The index says how many events a recording has, and when the first and the last happened.
    pub proof fn index_totals(&self, d: Seq<u8>)
        requires
            self.indexes(d),
        ensures
            self.count() == self.events_of(d).len(),
            self.count() > 0 ==> self.span().0 == earliest(self.events_of(d)) && self.span().1
                == latest(self.events_of(d)),
            self.count() == 0 ==> self.span() == (0i64, 0i64),
    {
        if self.events_of(d).len() > 0 {
            extent_holds(self.events_of(d), 0);
            time_range(self.events_of(d));
        }
    }

    pub fn sensor_size(&self) -> (size: (usize, usize))
        ensures
            size.0 == self.width(),
            size.1 == self.height(),
    {
        (self.width, self.height)
    }

    pub fn n_events(&self) -> (n: usize)
        ensures
            n == self.count(),
    {
        self.n_events
    }

    /// The timestamps of the first and the last event in time.
    pub fn time_span(&self) -> (span: (i64, i64))
        ensures
            span == self.span(),
    {
        self.time_span
    }

    /// The number of saved states.
    pub fn checkpoint_len(&self) -> (n: usize)
        ensures
            n == self.checkpoints().len(),
    {
        self.checkpoints.len()
    }

    fn place_for_index(&self, i0: usize) -> (k: usize)
        requires
            self.wf(),
            i0 <= self.count(),
        ensures
            k == self.index_place(i0 as int),
            k < self.checkpoints().len(),
            self.checkpoints()[k as int].event_index <= i0,
    {
        let mut k: usize = 0;
        while k < self.checkpoints.len() && self.checkpoints[k].event_index <= i0
            invariant
                self.wf(),
                k <= self.checkpoints@.len(),
                k > 0 ==> self.checkpoints@[k - 1].event_index <= i0,
                past_index(self.checkpoints@, i0 as int, 0) == past_index(
                    self.checkpoints@,
                    i0 as int,
                    k as int,
                ),
            decreases self.checkpoints@.len() - k,
        {
            k += 1;
        }
        k - 1
    }

    fn place_for_time(&self, t0: i64) -> (k: usize)
        requires
            self.wf(),
        ensures
            k == self.time_place(t0 as int),
            k < self.checkpoints().len(),
    {
        let mut k: usize = 0;
        while k < self.checkpoints.len() && self.checkpoints[k].time <= t0
            invariant
                k <= self.checkpoints@.len(),
                past_time(self.checkpoints@, t0 as int, 0) == past_time(
                    self.checkpoints@,
                    t0 as int,
                    k as int,
                ),
            decreases self.checkpoints@.len() - k,
        {
            k += 1;
        }
        if k < 2 {
            0
        } else {
            k - 2
        }
    }

    /// Where in the file the bytes start that a slice from event `i0` needs, and where they end:
    /// `None` for the end of the file.
    pub fn index_window(&self, i0: usize, i1: usize) -> (window: (u64, Option<u64>))
        requires
            self.wf(),
        ensures
            window.0 == self.checkpoints()[self.index_place(i0 as int)].byte_offset,
            match window.1 {
                Some(end) => exists|k: int|
                    self.index_place(i0 as int) < k < self.checkpoints().len()
                        && #[trigger] self.checkpoints()[k].event_index >= self.slice_end(
                        i0 as int,
                        i1 as int,
                    ) && end == self.checkpoints()[k].byte_offset,
                None => forall|k: int|
                    self.index_place(i0 as int) < k < self.checkpoints().len()
                        ==> #[trigger] self.checkpoints()[k].event_index < self.slice_end(
                        i0 as int,
                        i1 as int,
                    ),
            },
    {
        let (from, to) = self.bounds(i0, i1);
        let start = self.place_for_index(from);
        let count: usize = self.checkpoints.len();
        let mut k: usize = start + 1;
        while k < count
            invariant
                count == self.checkpoints@.len(),
                start < k <= count,
                start == self.index_place(i0 as int),
                to == self.slice_end(i0 as int, i1 as int),
                forall|j: int|
                    start < j < k ==> #[trigger] self.checkpoints@[j].event_index < to,
            decreases count - k,
        {
            if self.checkpoints[k].event_index >= to {
                assert(self.checkpoints()[k as int].event_index >= to);
                return (self.checkpoints[start].byte_offset, Some(self.checkpoints[k].byte_offset));
            }
            k += 1;
        }
        (self.checkpoints[start].byte_offset, None)
    }

    /// Where in the file the bytes start that a slice from time `t0` needs, and where they end:
    /// `None` for the end of the file.
    pub fn time_window(&self, t0: i64, t1: i64) -> (window: (u64, Option<u64>))
        requires
            self.wf(),
        ensures
            window.0 == self.checkpoints()[self.time_place(t0 as int)].byte_offset,
            match window.1 {
                Some(end) => exists|k: int|
                    self.time_place(t0 as int) < k < self.checkpoints().len() && started(
                        (#[trigger] self.checkpoints()[k]).codec,
                    ) && self.checkpoints()[k].time >= t1 && end
                        == self.checkpoints()[k].byte_offset,
                None => forall|k: int|
                    self.time_place(t0 as int) < k < self.checkpoints().len() ==> !(started(
                        (#[trigger] self.checkpoints()[k]).codec,
                    ) && self.checkpoints()[k].time >= t1),
            },
    {
        let start = self.place_for_time(t0);
        let count: usize = self.checkpoints.len();
        let mut k: usize = start + 1;
        while k < count
            invariant
                count == self.checkpoints@.len(),
                start < k <= count,
                start == self.time_place(t0 as int),
                forall|j: int|
                    start < j < k ==> !(started((#[trigger] self.checkpoints@[j]).codec)
                        && self.checkpoints@[j].time >= t1),
            decreases count - k,
        {
            let cp = self.checkpoints[k];
            if cp.codec.initialised() && cp.time >= t1 {
                assert(started(self.checkpoints()[k as int].codec));
                return (self.checkpoints[start].byte_offset, Some(cp.byte_offset));
            }
            k += 1;
        }
        (self.checkpoints[start].byte_offset, None)
    }

    fn bounds(&self, i0: usize, i1: usize) -> (ends: (usize, usize))
        ensures
            ends.0 == self.bounded(i0 as int),
            ends.1 == self.slice_end(i0 as int, i1 as int),
            ends.0 <= ends.1 <= self.count(),
    {
        let a: usize = if i0 < self.n_events {
            i0
        } else {
            self.n_events
        };
        let b: usize = if i1 < self.n_events {
            i1
        } else {
            self.n_events
        };
        if b < a {
            (a, a)
        } else {
            (a, b)
        }
    }

    /// Events `i0..i1`, as far as there are any, decoded from `window`: the recording's bytes from
    /// where [`index_window`](Self::index_window) says on.
    pub fn slice_index(&self, window: &[u8], i0: usize, i1: usize) -> (stream: EventStream)
        requires
            self.wf(),
        ensures
            stream.wf(),
            stream.in_bounds(),
            stream.width() == self.width(),
            stream.height() == self.height(),
            stream.scale() == MICROSECOND_SCALE,
            ({
                let cp = self.checkpoints()[self.index_place(i0 as int)];
                stream.events() == clip(
                    kept(
                        decoded(cp.codec, window@, word_count(cp.codec, window@)),
                        self.width(),
                        self.height(),
                    ),
                    self.bounded(i0 as int) - cp.event_index,
                    self.slice_end(i0 as int, i1 as int) - cp.event_index,
                )
            }),
    {
        let (i0, i1) = self.bounds(i0, i1);
        let place = self.place_for_index(i0);
        let cp = self.checkpoints[place];
        let w: usize = cp.codec.word_size();
        let n: usize = window.len() / w;
        let lo: usize = i0 - cp.event_index;
        let hi: usize = i1 - cp.event_index;
        let mut builder = EventStreamBuilder::new(self.width, self.height, MICROSECOND_SCALE);
        let mut codec = cp.codec;
        let mut buffer: Vec<RawEvent> = Vec::new();
        // Events on the sensor so far, as far as the slice needs them.
        let mut seen: usize = 0;
        let mut i: usize = 0;
        let ghost width = self.width();
        let ghost height = self.height();
        assert(clip(kept(decoded(cp.codec, window@, 0), width, height), lo as int, hi as int)
            =~= Seq::<RawEvent>::empty());
        while i < n && seen < hi
            invariant
                w == word_len(cp.codec),
                w == 2 || w == 4,
                n == window@.len() as int / w as int,
                window@.len() <= usize::MAX,
                i <= n,
                lo <= hi,
                seen <= hi,
                width == self.width,
                height == self.height,
                codec == after(cp.codec, window@, i as int),
                builder.wf(),
                builder.width() == width,
                builder.height() == height,
                builder.scale() == MICROSECOND_SCALE,
                seen == hi || seen == kept(
                    decoded(cp.codec, window@, i as int),
                    width,
                    height,
                ).len(),
                seen <= kept(decoded(cp.codec, window@, i as int), width, height).len(),
                builder.events() == clip(
                    kept(decoded(cp.codec, window@, i as int), width, height),
                    lo as int,
                    hi as int,
                ),
            decreases n - i,
        {
            buffer.clear();
            proof {
                after_same_encoding(cp.codec, window@, i as int);
                assert(w * (i + 1) <= window@.len()) by (nonlinear_arith)
                    requires
                        i + 1 <= n,
                        n == window@.len() as int / w as int,
                        w == 2 || w == 4,
                ;
                assert(w * i + w == w * (i + 1)) by (nonlinear_arith);
            }
            let ghost front = decoded(cp.codec, window@, i as int);
            let ghost word = word_events(codec, window@, w * i);
            codec.decode(window, w * i, &mut buffer);
            assert(buffer@ =~= word);
            let mut j: usize = 0;
            assert(front + word.take(0) =~= front);
            while j < buffer.len()
                invariant
                    j <= buffer@.len(),
                    buffer@ == word,
                    lo <= hi,
                    seen <= hi,
                    width == self.width,
                    height == self.height,
                    builder.wf(),
                    builder.width() == width,
                    builder.height() == height,
                    builder.scale() == MICROSECOND_SCALE,
                    seen == hi || seen == kept(
                        front + word.take(j as int),
                        width,
                        height,
                    ).len(),
                    seen <= kept(front + word.take(j as int), width, height).len(),
                    builder.events() == clip(
                        kept(front + word.take(j as int), width, height),
                        lo as int,
                        hi as int,
                    ),
                decreases buffer@.len() - j,
            {
                let e = buffer[j];
                let ghost before = kept(front + word.take(j as int), width, height);
                proof {
                    let events = front + word.take(j as int);
                    assert(events.push(e) =~= front + word.take(j + 1));
                    kept_push(events, e, width, height);
                }
                if (e.x as usize) < self.width && (e.y as usize) < self.height {
                    if seen < hi {
                        if seen >= lo {
                            builder.push(e.x, e.y, e.t, e.p);
                        }
                        seen += 1;
                    }
                    assert(builder.events() =~= clip(before.push(e), lo as int, hi as int));
                }
                j += 1;
            }
            assert(word.take(word.len() as int) =~= word);
            i += 1;
        }
        proof {
            let part = kept(decoded(cp.codec, window@, i as int), width, height);
            let all = kept(decoded(cp.codec, window@, n as int), width, height);
            assert(w * (i + (n - i)) <= window@.len()) by (nonlinear_arith)
                requires
                    i <= n,
                    n == window@.len() as int / w as int,
                    w == 2 || w == 4,
            ;
            decoded_split(cp.codec, window@, i as int, n - i);
            let rest = decoded(
                after(cp.codec, window@, i as int),
                window@.skip(w * i),
                n - i,
            );
            kept_concat(decoded(cp.codec, window@, i as int), rest, width, height);
            if i < n {
                assert(part.len() >= hi);
                assert(clip(all, lo as int, hi as int) =~= clip(part, lo as int, hi as int));
            }
        }
        builder.build()
    }

    /// Events with a timestamp in `t0..t1`, decoded from `window`: the recording's bytes from where
    /// [`time_window`](Self::time_window) says on. Decoding stops once the clock has reached `t1`.
    pub fn slice_time(&self, window: &[u8], t0: i64, t1: i64) -> (stream: EventStream)
        requires
            self.wf(),
        ensures
            stream.wf(),
            stream.in_bounds(),
            stream.width() == self.width(),
            stream.height() == self.height(),
            stream.scale() == MICROSECOND_SCALE,
            ({
                let c = self.checkpoints()[self.time_place(t0 as int)].codec;
                stream.events() == within(
                    kept(
                        decoded(
                            c,
                            window@,
                            words_until(c, window@, word_count(c, window@), t1 as int, 1),
                        ),
                        self.width(),
                        self.height(),
                    ),
                    t0 as int,
                    t1 as int,
                )
            }),
    {
        let place = self.place_for_time(t0);
        let start = self.checkpoints[place].codec;
        let w: usize = start.word_size();
        let n: usize = window.len() / w;
        let mut builder = EventStreamBuilder::new(self.width, self.height, MICROSECOND_SCALE);
        let mut codec = start;
        let mut buffer: Vec<RawEvent> = Vec::new();
        let mut i: usize = 0;
        let mut done: bool = false;
        let ghost width = self.width();
        let ghost height = self.height();
        let ghost stop = words_until(start, window@, n as int, t1 as int, 1);
        assert(within(kept(decoded(start, window@, 0), width, height), t0 as int, t1 as int)
            =~= Seq::<RawEvent>::empty());
        while i < n && !done
            invariant
                w == word_len(start),
                w == 2 || w == 4,
                n == window@.len() as int / w as int,
                window@.len() <= usize::MAX,
                i <= n,
                width == self.width,
                height == self.height,
                codec == after(start, window@, i as int),
                builder.wf(),
                builder.width() == width,
                builder.height() == height,
                builder.scale() == MICROSECOND_SCALE,
                stop == words_until(start, window@, n as int, t1 as int, 1),
                done ==> i == stop,
                !done ==> stop == words_until(start, window@, n as int, t1 as int, i + 1),
                builder.events() == within(
                    kept(decoded(start, window@, i as int), width, height),
                    t0 as int,
                    t1 as int,
                ),
            decreases n - i,
        {
            buffer.clear();
            proof {
                after_same_encoding(start, window@, i as int);
                assert(w * (i + 1) <= window@.len()) by (nonlinear_arith)
                    requires
                        i + 1 <= n,
                        n == window@.len() as int / w as int,
                        w == 2 || w == 4,
                ;
                assert(w * i + w == w * (i + 1)) by (nonlinear_arith);
            }
            let ghost front = decoded(start, window@, i as int);
            let ghost word = word_events(codec, window@, w * i);
            codec.decode(window, w * i, &mut buffer);
            assert(buffer@ =~= word);
            let mut j: usize = 0;
            assert(front + word.take(0) =~= front);
            while j < buffer.len()
                invariant
                    j <= buffer@.len(),
                    buffer@ == word,
                    width == self.width,
                    height == self.height,
                    builder.wf(),
                    builder.width() == width,
                    builder.height() == height,
                    builder.scale() == MICROSECOND_SCALE,
                    builder.events() == within(
                        kept(front + word.take(j as int), width, height),
                        t0 as int,
                        t1 as int,
                    ),
                decreases buffer@.len() - j,
            {
                let e = buffer[j];
                proof {
                    let events = front + word.take(j as int);
                    assert(events.push(e) =~= front + word.take(j + 1));
                    kept_push(events, e, width, height);
                    within_push(kept(events, width, height), e, t0 as int, t1 as int);
                }
                if e.t >= t0 && e.t < t1 {
                    builder.push(e.x, e.y, e.t, e.p);
                }
                j += 1;
            }
            assert(word.take(word.len() as int) =~= word);
            i += 1;
            if codec.initialised() && codec.time() >= t1 {
                done = true;
            }
        }
        builder.build()
    }
}

/// The extremes of a run of timestamps are timestamps.
proof fn time_range(events: Seq<RawEvent>)
    ensures
        i64::MIN <= earliest(events) <= i64::MAX,
        i64::MIN <= latest(events) <= i64::MAX,
    decreases events.len(),
{
    if events.len() > 0 {
        time_range(events.drop_last());
    }
}

/// The words of a part of a recording that starts at saved state `k` decode to what the recording
/// does there.
proof fn window_decodes(version: EvtVersion, d: Seq<u8>, k: int, hi: int)
    requires
        0 <= k,
        0x10_0000 * k <= hi <= d.len(),
    ensures
        ({
            let c = fresh(version);
            let w = word_len(c);
            let a = words_before(version, k);
            let mid = after(c, d, a);
            let window = d.subrange(0x10_0000 * k, hi);
            let m = word_count(mid, window);
            &&& word_len(mid) == w
            &&& w * a == 0x10_0000 * k
            &&& hi / w == a + m
            &&& 0 <= m
            &&& w * (a + m) <= d.len()
            &&& a + m <= all_words(version, d)
            &&& w * all_words(version, d) <= d.len()
            &&& hi == d.len() ==> a + m == all_words(version, d)
            &&& forall|i: int|
                0 <= i <= m ==> after(c, d, a + i) == #[trigger] after(mid, window, i)
            &&& forall|i: int|
                0 <= i <= m ==> decoded(c, d, a + i) == decoded(c, d, a) + #[trigger] decoded(
                    mid,
                    window,
                    i,
                )
        }),
{
    let c = fresh(version);
    let w = word_len(c);
    let a = words_before(version, k);
    let mid = after(c, d, a);
    let window = d.subrange(0x10_0000 * k, hi);
    let m = word_count(mid, window);
    let front = d.take(hi);
    after_same_encoding(c, d, a);
    assert(front + d.skip(hi) =~= d);
    assert(front.skip(0x10_0000 * k) =~= window);
    match version {
        EvtVersion::Evt2 => {
            assert(w == 4 && hi / w == a + m && 4 * (d.len() as int / 4) <= d.len());
        },
        EvtVersion::Evt3 => {
            assert(w == 2 && hi / w == a + m && 2 * (d.len() as int / 2) <= d.len());
        },
    }
    assert(0 <= a);
    decoded_prefix(c, front, d.skip(hi), a);
    assert forall|i: int| 0 <= i <= m implies after(c, d, a + i) == #[trigger] after(
        mid,
        window,
        i,
    ) by {
        assert(w * (a + i) <= front.len());
        decoded_prefix(c, front, d.skip(hi), a + i);
        decoded_split(c, front, a, i);
    }
    assert forall|i: int| 0 <= i <= m implies decoded(c, d, a + i) == decoded(c, d, a)
        + #[trigger] decoded(mid, window, i) by {
        assert(w * (a + i) <= front.len());
        decoded_prefix(c, front, d.skip(hi), a + i);
        decoded_split(c, front, a, i);
    }
}

/// The clock of a recording never runs backwards.
pub open spec fn clock_rises(version: EvtVersion, d: Seq<u8>) -> bool {
    forall|i: int, j: int|
        0 <= i <= j <= all_words(version, d) ==> time_of(#[trigger] after(fresh(version), d, i))
            <= time_of(#[trigger] after(fresh(version), d, j))
}

/// With a clock that never runs backwards, no event is later than the clock.
proof fn events_not_later(version: EvtVersion, d: Seq<u8>, n: int)
    requires
        clock_rises(version, d),
        0 <= n <= all_words(version, d),
    ensures
        forall|i: int|
            0 <= i < decoded(fresh(version), d, n).len() ==> (#[trigger] decoded(
                fresh(version),
                d,
                n,
            )[i]).t <= time_of(after(fresh(version), d, n)),
    decreases n,
{
    let c = fresh(version);
    if n > 0 {
        events_not_later(version, d, n - 1);
        word_events_bound(after(c, d, n - 1), d, word_len(c) * (n - 1));
        let front = decoded(c, d, n - 1);
        let word = word_events(after(c, d, n - 1), d, word_len(c) * (n - 1));
        assert forall|i: int| 0 <= i < decoded(c, d, n).len() implies (#[trigger] decoded(
            c,
            d,
            n,
        )[i]).t <= time_of(after(c, d, n)) by {
            if i < front.len() {
                assert(decoded(c, d, n)[i] == front[i]);
                assert(time_of(after(c, d, n - 1)) <= time_of(after(c, d, n)));
            } else {
                assert(decoded(c, d, n)[i] == word[i - front.len()]);
            }
        }
    }
}

/// With a clock that never runs backwards, no event after the first `a` words is earlier than the
/// clock there.
proof fn events_not_earlier(version: EvtVersion, d: Seq<u8>, a: int, n: int)
    requires
        clock_rises(version, d),
        0 <= a <= n <= all_words(version, d),
    ensures
        decoded(fresh(version), d, a).len() <= decoded(fresh(version), d, n).len(),
        decoded(fresh(version), d, n).take(decoded(fresh(version), d, a).len() as int) == decoded(
            fresh(version),
            d,
            a,
        ),
        forall|i: int|
            decoded(fresh(version), d, a).len() <= i < decoded(fresh(version), d, n).len() ==> (
            #[trigger] decoded(fresh(version), d, n)[i]).t >= time_of(after(fresh(version), d, a)),
    decreases n,
{
    let c = fresh(version);
    let first = decoded(c, d, a);
    let whole = decoded(c, d, n);
    if n == a {
        assert(whole.take(first.len() as int) =~= first);
    } else {
        events_not_earlier(version, d, a, n - 1);
        word_events_bound(after(c, d, n - 1), d, word_len(c) * (n - 1));
        let front = decoded(c, d, n - 1);
        let word = word_events(after(c, d, n - 1), d, word_len(c) * (n - 1));
        assert(whole == front + word);
        assert(whole.take(first.len() as int) =~= front.take(first.len() as int));
        assert forall|i: int| first.len() <= i < whole.len() implies (#[trigger] whole[i]).t
            >= time_of(after(c, d, a)) by {
            if i < front.len() {
                assert(whole[i] == front[i]);
            } else {
                assert(whole[i] == word[i - front.len()]);
                assert(time_of(after(c, d, a)) <= time_of(after(c, d, n)));
            }
        }
    }
}

proof fn words_until_stops(c: Codec, bytes: Seq<u8>, n: int, t1: int, j: int)
    requires
        0 <= j,
        0 <= n,
    ensures
        0 <= words_until(c, bytes, n, t1, j) <= n,
        words_until(c, bytes, n, t1, j) < n ==> time_of(
            after(c, bytes, words_until(c, bytes, n, t1, j)),
        ) >= t1,
    decreases n - j,
{
    if j < n && !(started(after(c, bytes, j)) && time_of(after(c, bytes, j)) >= t1) {
        words_until_stops(c, bytes, n, t1, j + 1);
    }
}

/// Nothing is kept inside a time window of events that lie outside it.
proof fn nothing_within(events: Seq<RawEvent>, width: int, height: int, t0: int, t1: int)
    requires
        forall|i: int| 0 <= i < events.len() ==> !(t0 <= (#[trigger] events[i]).t < t1),
    ensures
        within(kept(events, width, height), t0, t1) == Seq::<RawEvent>::empty(),
{
    let some = kept(events, width, height);
    assert forall|i: int| 0 <= i < some.len() implies !(t0 <= (#[trigger] some[i]).t < t1) by {
        kept_from(events, width, height, i);
        let j = choose|j: int| 0 <= j < events.len() && events[j] == some[i];
        assert(!(t0 <= events[j].t < t1));
    }
    within_none(some, t0, t1);
}

impl RawSliceSource {
    /// A saved state tells how many events precede it.
    pub proof fn checkpoint_counts(&self, d: Seq<u8>, k: int)
        requires
            self.indexes(d),
            0 <= k < self.checkpoints().len(),
        ensures
            self.checkpoints()[k].event_index == kept(
                decoded(fresh(self.version()), d, words_before(self.version(), k)),
                self.width(),
                self.height(),
            ).len(),
            self.checkpoints()[k].byte_offset == self.offset() + 0x10_0000 * k,
            self.checkpoints()[k].codec == after(
                fresh(self.version()),
                d,
                words_before(self.version(), k),
            ),
            self.checkpoints()[k].time == time_of(self.checkpoints()[k].codec),
            0x10_0000 * k <= d.len(),
    {
        assert(marks(
            self.checkpoints@[k],
            self.version,
            d,
            Some((self.width, self.height)),
            self.data_offset as int,
            k,
        ));
        words_within(self.version, d, k);
    }

    /// A slice by index is that part of the recording's events: for any end `hi` of the bytes at
    /// hand that is the end of the recording or leaves enough events before it.
    pub proof fn index_slice_exact(&self, d: Seq<u8>, hi: int, i0: int, i1: int)
        requires
            self.wf(),
            self.indexes(d),
            0 <= i0,
            0 <= i1,
            0x10_0000 * self.index_place(i0) <= hi <= d.len(),
            hi == d.len() || kept(
                decoded(fresh(self.version()), d, hi / word_len(fresh(self.version()))),
                self.width(),
                self.height(),
            ).len() >= self.slice_end(i0, i1),
        ensures
            ({
                let cp = self.checkpoints()[self.index_place(i0)];
                let window = d.subrange(0x10_0000 * self.index_place(i0), hi);
                clip(
                    kept(
                        decoded(cp.codec, window, word_count(cp.codec, window)),
                        self.width(),
                        self.height(),
                    ),
                    self.bounded(i0) - cp.event_index,
                    self.slice_end(i0, i1) - cp.event_index,
                ) == self.events_of(d).subrange(self.bounded(i0), self.slice_end(i0, i1))
            }),
    {
        self.index_totals(d);
        let from = self.bounded(i0);
        past_index_holds(self.checkpoints(), from, 0);
        let k = self.index_place(i0);
        self.checkpoint_counts(d, k);
        let cp = self.checkpoints()[k];
        let c = fresh(self.version);
        let w = word_len(c);
        let a = words_before(self.version, k);
        let n = all_words(self.version, d);
        let window = d.subrange(0x10_0000 * k, hi);
        window_decodes(self.version, d, k, hi);
        let m = word_count(cp.codec, window);
        let part = decoded(cp.codec, window, m);
        let width = self.width();
        let height = self.height();
        assert(decoded(c, d, a + m) == decoded(c, d, a) + part);
        kept_concat(decoded(c, d, a), part, width, height);
        assert(w * n <= d.len());
        decoded_split(c, d, a + m, n - (a + m));
        let rest = decoded(after(c, d, a + m), d.skip(w * (a + m)), n - (a + m));
        kept_concat(decoded(c, d, a + m), rest, width, height);
        let whole = self.events_of(d);
        let base = cp.event_index as int;
        let got = kept(part, width, height);
        assert(whole == kept(decoded(c, d, a), width, height) + got + kept(rest, width, height));
        if hi == d.len() {
            assert(a + m == n);
            assert(rest =~= Seq::<RawEvent>::empty());
        }
        assert(self.slice_end(i0, i1) - base <= got.len());
        assert(clip(got, from - base, self.slice_end(i0, i1) - base) =~= whole.subrange(
            from,
            self.slice_end(i0, i1),
        ));
    }

    /// A slice by time is every event of the recording in the window, when the clock never runs
    /// backwards, the replay starts before the window opens, and the bytes at hand end with the
    /// recording or once the clock has reached the end of the window.
    pub proof fn time_slice_exact(&self, d: Seq<u8>, hi: int, t0: int, t1: int)
        requires
            self.wf(),
            self.indexes(d),
            clock_rises(self.version(), d),
            self.time_place(t0) == 0 || self.checkpoints()[self.time_place(t0)].time < t0,
            0x10_0000 * self.time_place(t0) <= hi <= d.len(),
            hi == d.len() || time_of(
                after(fresh(self.version()), d, hi / word_len(fresh(self.version()))),
            ) >= t1,
        ensures
            ({
                let c = self.checkpoints()[self.time_place(t0)].codec;
                let window = d.subrange(0x10_0000 * self.time_place(t0), hi);
                within(
                    kept(
                        decoded(c, window, words_until(c, window, word_count(c, window), t1, 1)),
                        self.width(),
                        self.height(),
                    ),
                    t0,
                    t1,
                ) == within(self.events_of(d), t0, t1)
            }),
    {
        past_time_holds(self.checkpoints(), t0, 0);
        let k = self.time_place(t0);
        self.checkpoint_counts(d, k);
        let cp = self.checkpoints()[k];
        let c = fresh(self.version);
        let w = word_len(c);
        let a = words_before(self.version, k);
        let n = all_words(self.version, d);
        let window = d.subrange(0x10_0000 * k, hi);
        window_decodes(self.version, d, k, hi);
        let m = word_count(cp.codec, window);
        let stop = words_until(cp.codec, window, m, t1, 1);
        words_until_stops(cp.codec, window, m, t1, 1);
        let part = decoded(cp.codec, window, stop);
        let width = self.width();
        let height = self.height();
        let first = decoded(c, d, a);
        assert(decoded(c, d, a + stop) == first + part);
        assert(after(c, d, a + stop) == after(cp.codec, window, stop));
        let all = decoded(c, d, n);
        events_not_earlier(self.version, d, a + stop, n);
        let rest = all.skip((first + part).len() as int);
        assert(all =~= (first + part) + rest);
        if stop < m {
            assert(time_of(after(c, d, a + stop)) >= t1);
        } else if hi < d.len() {
            assert(a + stop == hi / w);
            assert(time_of(after(c, d, a + stop)) >= t1);
        } else {
            assert(a + m == n);
            assert(rest =~= Seq::<RawEvent>::empty());
        }
        assert forall|i: int| 0 <= i < rest.len() implies !(t0 <= (#[trigger] rest[i]).t < t1) by {
            assert(rest[i] == all[i + (first + part).len()]);
        }
        nothing_within(rest, width, height, t0, t1);
        if k == 0 {
            assert(first =~= Seq::<RawEvent>::empty());
        } else {
            events_not_later(self.version, d, a);
        }
        assert forall|i: int| 0 <= i < first.len() implies !(t0 <= (#[trigger] first[i]).t < t1) by {}
        nothing_within(first, width, height, t0, t1);
        kept_concat(first + part, rest, width, height);
        kept_concat(first, part, width, height);
        within_concat(kept(first + part, width, height), kept(rest, width, height), t0, t1);
        within_concat(kept(first, width, height), kept(part, width, height), t0, t1);
        let got = within(kept(part, width, height), t0, t1);
        assert(Seq::<RawEvent>::empty() + got =~= got);
        assert(got + Seq::<RawEvent>::empty() =~= got);
    }
}

proof fn past_index_holds(cps: Seq<Checkpoint>, index: int, k: int)
    requires
        0 <= k <= cps.len(),
        k > 0 ==> cps[k - 1].event_index <= index,
        k == 0 ==> cps.len() > 0 && cps[0].event_index <= index,
    ensures
        k <= past_index(cps, index, k) <= cps.len(),
        0 < past_index(cps, index, k),
        cps[past_index(cps, index, k) - 1].event_index <= index,
    decreases cps.len() - k,
{
    if k < cps.len() && cps[k].event_index <= index {
        past_index_holds(cps, index, k + 1);
    }
}

proof fn past_time_holds(cps: Seq<Checkpoint>, t: int, k: int)
    requires
        0 <= k <= cps.len(),
    ensures
        k <= past_time(cps, t, k) <= cps.len(),
    decreases cps.len() - k,
{
    if k < cps.len() && cps[k].time <= t {
        past_time_holds(cps, t, k + 1);
    }
}

/// What opening a recording gives, for its bytes after the header.
pub open spec fn opened(
    source: RawSliceSource,
    size: Option<(int, int)>,
    version: EvtVersion,
    d: Seq<u8>,
) -> bool {
    let events = decoded(fresh(version), d, all_words(version, d));
    &&& source.wf()
    &&& source.indexes(d)
    &&& source.version() == version
    &&& match size {
        Some((w, h)) => source.width() == w && source.height() == h,
        None => events.len() > 0 && source.width() == rightmost(events) + 1 && source.height()
            == lowest(events) + 1,
    }
}

/// Indexes a whole recording, header and words.
pub fn open_raw_slice(data: &[u8], sensor_size: Option<(usize, usize)>) -> (source: Result<
    RawSliceSource,
    IoError,
>)
    requires
        6 * data@.len() <= usize::MAX,
    ensures
        ({
            let fields = header_fields(data@);
            let d = data@.skip(data_start(data@));
            let size = chosen_size(sensor_size, fields);
            match declared_version(fields) {
                None => source matches Err(IoError::Unsupported(m)) && m@
                    == unknown_version_message(fields),
                Some(version) => if empty_size(size) {
                    source matches Err(IoError::InvalidSensorSize)
                } else if size is None && decoded(
                    fresh(version),
                    d,
                    all_words(version, d),
                ).len() == 0 {
                    source matches Err(IoError::InvalidSensorSize)
                } else {
                    source matches Ok(s) && opened(s, size, version, d) && s.offset()
                        == data_start(data@) && s.offset() <= data@.len()
                },
            }
        }),
{
    let (header, offset) = match parse_header(data, sensor_size) {
        Ok(parsed) => parsed,
        Err(error) => {
            return Err(error);
        },
    };
    let ghost d = data@.skip(offset as int);
    let mut indexer = RawIndexer::new(header, offset as u64);
    let ghost version = indexer.version();
    let n: usize = data.len();
    let mut at: usize = offset;
    assert(d.take(0) =~= Seq::<u8>::empty());
    while at < n
        invariant
            n == data@.len(),
            offset <= at <= n,
            6 * n <= usize::MAX,
            d == data@.skip(offset as int),
            indexer.version() == header.encoding,
            indexer.size() == header.sensor_size,
            indexer.offset() == offset,
            indexer.consumed() == at - offset,
            at < n ==> (at - offset) % 0x10_0000 == 0,
            indexer.covers(d.take(at - offset)),
        decreases n - at,
    {
        let end: usize = if n - at < 0x10_0000 {
            n
        } else {
            at + 0x10_0000
        };
        let chunk = slice_subrange(data, at, end);
        let ghost before = d.take(at - offset);
        indexer.add_chunk(chunk);
        assert(before + chunk@ =~= d.take(end - offset));
        at = end;
    }
    assert(d.take(n - offset) =~= d);
    assert(indexer.covers(d));
    indexer.finish()
}

/// What reading a whole recording comes to.
pub open spec fn raw_outcome(
    data: Seq<u8>,
    sensor_size: Option<(usize, usize)>,
    max_events: Option<usize>,
    stream: Result<EventStream, IoError>,
) -> bool {
    let fields = header_fields(data);
    let d = data.skip(data_start(data));
    let size = chosen_size(sensor_size, fields);
    match declared_version(fields) {
        None => stream matches Err(IoError::Unsupported(m)) && m@ == unknown_version_message(
            fields,
        ),
        Some(version) => {
            let events = decoded(fresh(version), d, all_words(version, d));
            if empty_size(size) || (size is None && events.len() == 0) {
                stream matches Err(IoError::InvalidSensorSize)
            } else {
                let (w, h) = match size {
                    Some(s) => s,
                    None => (rightmost(events) + 1, lowest(events) + 1),
                };
                let all = kept(events, w, h);
                stream matches Ok(s) && s.wf() && s.in_bounds() && s.width() == w && s.height()
                    == h && s.scale() == MICROSECOND_SCALE && s.events() == match max_events {
                    Some(limit) => clip(all, 0, limit as int),
                    None => all,
                }
            }
        },
    }
}

/// Reads a whole recording, or its first `max_events` events.
pub fn read_raw(data: &[u8], sensor_size: Option<(usize, usize)>, max_events: Option<usize>) -> (
    stream: Result<EventStream, IoError>)
    requires
        6 * data@.len() <= usize::MAX,
    ensures
        raw_outcome(data@, sensor_size, max_events, stream),
{
    let source = match open_raw_slice(data, sensor_size) {
        Ok(source) => source,
        Err(error) => {
            return Err(error);
        },
    };
    let limit: usize = match max_events {
        Some(limit) => limit,
        None => source.n_events(),
    };
    let (start, _) = source.index_window(0, limit);
    proof {
        let d = data@.skip(data_start(data@));
        source.index_totals(d);
        past_index_holds(source.checkpoints(), source.bounded(0), 0);
        source.checkpoint_counts(d, source.index_place(0));
        source.index_slice_exact(d, d.len() as int, 0, limit as int);
        assert(d.subrange(0x10_0000 * source.index_place(0), d.len() as int)
            =~= data@.subrange(start as int, data@.len() as int));
    }
    let window = slice_subrange(data, start as usize, data.len());
    let stream = source.slice_index(window, 0, limit);
    proof {
        let d = data@.skip(data_start(data@));
        let all = source.events_of(d);
        assert(all.subrange(0, source.slice_end(0, limit as int)) =~= clip(all, 0, limit as int));
        if max_events is None {
            assert(clip(all, 0, limit as int) =~= all);
        }
    }
    Ok(stream)
}

/// Decodes the words of a packet that carries no header, dropping events outside the sensor.
pub fn decode_words(bytes: &[u8], version: EvtVersion, width: usize, height: usize) -> (stream:
    EventStream)
    ensures
        stream.wf(),
        stream.in_bounds(),
        stream.width() == width,
        stream.height() == height,
        stream.scale() == MICROSECOND_SCALE,
        stream.events() == kept(
            decoded(fresh(version), bytes@, all_words(version, bytes@)),
            width as int,
            height as int,
        ),
{
    let start = Codec::new(version);
    let w: usize = start.word_size();
    let n: usize = bytes.len() / w;
    let mut codec = start;
    let mut builder = EventStreamBuilder::new(width, height, MICROSECOND_SCALE);
    let mut buffer: Vec<RawEvent> = Vec::new();
    let mut i: usize = 0;
    assert(kept(decoded(start, bytes@, 0), width as int, height as int)
        =~= Seq::<RawEvent>::empty());
    while i < n
        invariant
            w == word_len(start),
            w == 2 || w == 4,
            n == bytes@.len() as int / w as int,
            bytes@.len() <= usize::MAX,
            i <= n,
            codec == after(start, bytes@, i as int),
            builder.wf(),
            builder.width() == width,
            builder.height() == height,
            builder.scale() == MICROSECOND_SCALE,
            builder.events() == kept(
                decoded(start, bytes@, i as int),
                width as int,
                height as int,
            ),
        decreases n - i,
    {
        buffer.clear();
        proof {
            after_same_encoding(start, bytes@, i as int);
            assert(w * (i + 1) <= bytes@.len()) by (nonlinear_arith)
                requires
                    i + 1 <= n,
                    n == bytes@.len() as int / w as int,
                    w == 2 || w == 4,
            ;
            assert(w * i + w == w * (i + 1)) by (nonlinear_arith);
        }
        let ghost front = decoded(start, bytes@, i as int);
        let ghost word = word_events(codec, bytes@, w * i);
        codec.decode(bytes, w * i, &mut buffer);
        assert(buffer@ =~= word);
        let mut j: usize = 0;
        assert(front + word.take(0) =~= front);
        while j < buffer.len()
            invariant
                j <= buffer@.len(),
                buffer@ == word,
                builder.wf(),
                builder.width() == width,
                builder.height() == height,
                builder.scale() == MICROSECOND_SCALE,
                builder.events() == kept(
                    front + word.take(j as int),
                    width as int,
                    height as int,
                ),
            decreases buffer@.len() - j,
        {
            let e = buffer[j];
            proof {
                let events = front + word.take(j as int);
                assert(events.push(e) =~= front + word.take(j + 1));
                kept_push(events, e, width as int, height as int);
            }
            builder.push(e.x, e.y, e.t, e.p);
            j += 1;
        }
        assert(word.take(word.len() as int) =~= word);
        i += 1;
    }
    builder.build()
}

} // verus!
