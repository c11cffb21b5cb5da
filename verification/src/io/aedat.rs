//! Reading AEDAT 2 recordings.
//!
//! Records have a fixed length, so a byte offset is a record offset, and an index can be built
//! span by span: each span is scanned on its own, and the spans are then stitched together in
//! order, which is where the wraps of the counter are added up.

use vstd::prelude::*;
use vstd::slice::slice_subrange;

use crate::bytes::read_u32_be;
use crate::io::aedat_header::{
    check_version, chip_is, chip_size, header_texts, read_header, records_start, resolve_sensor,
    version_fault, version_ok,
};
use crate::io::aedat_records::{
    events_bounded, events_of, later, raw_time, record_at, raw_time_fits, record_count, rolls,
    time_of, to_event, wrap_at, Clock, Record, RECORD,
};
use crate::io::lines::texts;
use crate::io::IoError;
use crate::stream::{
    kept, kept_push, part, within, within_push, EventStream, EventStreamBuilder, RawEvent,
    MICROSECOND_SCALE,
};

verus! {

/// Bytes between saved states.
pub const CHECKPOINT_BYTES: usize = 0x10_0000;

/// Where a slice can start: a record, and the event count and the clock there.
#[derive(Clone, Copy, Debug, PartialEq, Eq, Structural)]
pub struct Checkpoint {
    pub byte_offset: u64,
    pub event_index: usize,
    /// The time of the record at `byte_offset`.
    pub time: i64,
    /// What the clock adds to the counter at `byte_offset`.
    pub wrap: i64,
}

/// What a scan of a span of records found. Times are relative to the start of the span.
#[derive(Clone, Copy, Debug, PartialEq, Eq)]
pub struct Span {
    pub events: usize,
    pub first_raw: u32,
    pub last_raw: u32,
    /// What the clock added to the counter within the span.
    pub wrap: i64,
    pub first_event: Option<i64>,
    pub last_event: Option<i64>,
}

/// The time of the first event.
pub open spec fn first_time(events: Seq<RawEvent>) -> Option<i64> {
    if events.len() == 0 {
        None
    } else {
        Some(events[0].t)
    }
}

/// The time of the last event.
pub open spec fn last_time(events: Seq<RawEvent>) -> Option<i64> {
    if events.len() == 0 {
        None
    } else {
        Some(events.last().t)
    }
}

/// What a scan of a span finds.
pub open spec fn scanned(d: Seq<u8>, width: int, height: int) -> Span {
    let n = record_count(d);
    let events = events_of(d, 0, n, width, height);
    Span {
        events: events.len() as usize,
        first_raw: raw_time(d, 0) as u32,
        last_raw: raw_time(d, n - 1) as u32,
        wrap: wrap_at(d, 0, n - 1),
        first_event: first_time(events),
        last_event: last_time(events),
    }
}

/// Scans one span of records, on its own.
pub fn scan_span(bytes: &[u8], width: usize, height: usize) -> (span: Span)
    requires
        bytes@.len() >= 8,
    ensures
        span == scanned(bytes@, width as int, height as int),
{
    let n: usize = bytes.len() / RECORD;
    let mut clock = Clock::new(0);
    let mut events: usize = 0;
    let mut first_event: Option<i64> = None;
    let mut last_event: Option<i64> = None;
    let ghost d = bytes@;
    assert(clock.before(d, 0, 0));
    for i in 0..n
        invariant
            d == bytes@,
            n == record_count(d),
            clock.before(d, 0, i as int),
            i > 0 ==> clock.wrap == wrap_at(d, 0, i - 1),
            events == events_of(d, 0, i as int, width as int, height as int).len(),
            events <= i,
            first_event == first_time(events_of(d, 0, i as int, width as int, height as int)),
            last_event == last_time(events_of(d, 0, i as int, width as int, height as int)),
    {
        let (record, t) = clock.read(bytes, i, Ghost(0));
        match to_event(record, t, width, height) {
            Some(_) => {
                events += 1;
                if first_event.is_none() {
                    first_event = Some(t);
                }
                last_event = Some(t);
            },
            None => {},
        }
    }
    assert(8 * n <= bytes.len());
    reveal(raw_time);
    Span {
        events,
        first_raw: read_u32_be(bytes, 4),
        last_raw: read_u32_be(bytes, (n - 1) * 8 + 4),
        wrap: clock.wrap,
        first_event,
        last_event,
    }
}

/// Stitches scanned spans into an index, in order.
#[derive(Debug)]
pub struct AedatIndexer {
    checkpoints: Vec<Checkpoint>,
    n_events: usize,
    wrap: i64,
    previous: Option<u32>,
    first: Option<i64>,
    last: Option<i64>,
}

/// The state of an indexer, as plain values.
pub ghost struct Stitched {
    pub checkpoints: Seq<Checkpoint>,
    pub n_events: int,
    pub wrap: i64,
    pub previous: Option<u32>,
    pub first: Option<i64>,
    pub last: Option<i64>,
}

/// Before the first span.
pub open spec fn unstitched() -> Stitched {
    Stitched {
        checkpoints: Seq::empty(),
        n_events: 0,
        wrap: 0,
        previous: None,
        first: None,
        last: None,
    }
}

/// What the clock adds at the start of a span.
pub open spec fn entered(s: Stitched, span: Span) -> i64 {
    if s.previous matches Some(p) && rolls(p as int, span.first_raw as int) {
        later(s.wrap)
    } else {
        s.wrap
    }
}

/// After one more span.
pub open spec fn stitch(s: Stitched, span: Span, byte_offset: u64) -> Stitched {
    let wrap = entered(s, span);
    Stitched {
        checkpoints: s.checkpoints.push(
            Checkpoint {
                byte_offset,
                event_index: s.n_events as usize,
                time: wrap.wrapping_add(span.first_raw as i64),
                wrap,
            },
        ),
        n_events: s.n_events + span.events,
        wrap: wrap.wrapping_add(span.wrap),
        previous: Some(span.last_raw),
        first: match s.first {
            Some(t) => Some(t),
            None => match span.first_event {
                Some(t) => Some(wrap.wrapping_add(t)),
                None => None,
            },
        },
        last: match span.last_event {
            Some(t) => Some(wrap.wrapping_add(t)),
            None => s.last,
        },
    }
}

impl AedatIndexer {
    pub closed spec fn state(&self) -> Stitched {
        Stitched {
            checkpoints: self.checkpoints@,
            n_events: self.n_events as int,
            wrap: self.wrap,
            previous: self.previous,
            first: self.first,
            last: self.last,
        }
    }

    pub fn new() -> (indexer: Self)
        ensures
            indexer.state() == unstitched(),
    {
        let indexer = AedatIndexer {
            checkpoints: Vec::new(),
            n_events: 0,
            wrap: 0,
            previous: None,
            first: None,
            last: None,
        };
        assert(indexer.checkpoints@ =~= Seq::<Checkpoint>::empty());
        indexer
    }

    /// Adds the next span, which starts at `byte_offset`.
    pub fn add_span(&mut self, span: &Span, byte_offset: u64)
        requires
            old(self).state().n_events + span.events <= usize::MAX,
        ensures
            final(self).state() == stitch(old(self).state(), *span, byte_offset),
    {
        if let Some(p) = self.previous {
            if p > span.first_raw && p - span.first_raw > 0x8000_0000 {
                self.wrap = self.wrap.wrapping_add(0x1_0000_0000);
            }
        }
        let wrap = self.wrap;
        self.checkpoints.push(
            Checkpoint {
                byte_offset,
                event_index: self.n_events,
                time: wrap.wrapping_add(span.first_raw as i64),
                wrap,
            },
        );
        if self.first.is_none() {
            if let Some(t) = span.first_event {
                self.first = Some(wrap.wrapping_add(t));
            }
        }
        if let Some(t) = span.last_event {
            self.last = Some(wrap.wrapping_add(t));
        }
        self.n_events += span.events;
        self.wrap = wrap.wrapping_add(span.wrap);
        self.previous = Some(span.last_raw);
    }

    /// The source over the stitched spans.
    pub fn finish(self, width: usize, height: usize, header: Vec<String>) -> (source:
        AedatSliceSource)
        ensures
            source.width() == width,
            source.height() == height,
            source.header() == texts(header@),
            source.checkpoints() == self.state().checkpoints,
            source.event_count() == self.state().n_events,
            source.span() == span_of(self.state()),
    {
        let time_span = match (self.first, self.last) {
            (Some(first), Some(last)) => (first, last),
            _ => (0, 0),
        };
        AedatSliceSource {
            width,
            height,
            checkpoints: self.checkpoints,
            n_events: self.n_events,
            time_span,
            header,
        }
    }
}

/// When the first and the last event happened.
pub open spec fn span_of(s: Stitched) -> (i64, i64) {
    match (s.first, s.last) {
        (Some(first), Some(last)) => (first, last),
        _ => (0i64, 0i64),
    }
}

/// Adding up wraps in two goes.
proof fn wrapping_assoc(a: i64, b: i64, c: i64)
    ensures
        a.wrapping_add(b).wrapping_add(c) == a.wrapping_add(b.wrapping_add(c)),
{
}

/// A clock that starts later is later throughout.
proof fn rebased(d: Seq<u8>, base: i64, i: int)
    ensures
        wrap_at(d, base, i) == base.wrapping_add(wrap_at(d, 0, i)),
        time_of(d, base, i) == base.wrapping_add(time_of(d, 0, i)),
    decreases i,
{
    if i > 0 {
        rebased(d, base, i - 1);
        wrapping_assoc(base, wrap_at(d, 0, i - 1), 0x1_0000_0000i64);
    }
    wrapping_assoc(base, wrap_at(d, 0, i), raw_time(d, i) as i64);
}

/// Events of a clock that starts later.
proof fn rebased_events(d: Seq<u8>, base: i64, n: int, width: int, height: int)
    ensures
        events_of(d, base, n, width, height).len() == events_of(d, 0, n, width, height).len(),
        forall|i: int|
            0 <= i < events_of(d, 0, n, width, height).len() ==> (#[trigger] events_of(
                d,
                base,
                n,
                width,
                height,
            )[i]).t == base.wrapping_add(events_of(d, 0, n, width, height)[i].t),
    decreases n,
{
    if n > 0 {
        rebased_events(d, base, n - 1, width, height);
        rebased(d, base, n - 1);
    }
}

/// The states saved before the first `k` spans of records.
pub open spec fn saved(d: Seq<u8>, start: int, k: int, width: int, height: int) -> Seq<Checkpoint> {
    Seq::new(
        k as nat,
        |j: int|
            Checkpoint {
                byte_offset: (start + 0x10_0000 * j) as u64,
                event_index: events_of(d, 0, 0x2_0000 * j, width, height).len() as usize,
                time: time_of(d, 0, 0x2_0000 * j),
                wrap: wrap_at(d, 0, 0x2_0000 * j),
            },
    )
}

/// An indexer has read the first `s` records, in `k` spans.
pub open spec fn covers(
    st: Stitched,
    d: Seq<u8>,
    start: int,
    k: int,
    s: int,
    width: int,
    height: int,
) -> bool {
    let events = events_of(d, 0, s, width, height);
    &&& st.checkpoints == saved(d, start, k, width, height)
    &&& st.n_events == events.len()
    &&& st.first == first_time(events)
    &&& st.last == last_time(events)
    &&& if s == 0 {
        st.wrap == 0 && st.previous is None
    } else {
        st.wrap == wrap_at(d, 0, s - 1) && st.previous == Some(raw_time(d, s - 1) as u32)
    }
}

/// Stitching the scan of the next span covers it: the index is the one that reading all records in
/// order gives.
pub proof fn stitching(
    st: Stitched,
    d: Seq<u8>,
    start: int,
    k: int,
    e: int,
    width: int,
    height: int,
)
    requires
        0 <= k,
        covers(st, d, start, k, 0x2_0000 * k, width, height),
        0x2_0000 * k < e <= record_count(d),
        st.n_events <= usize::MAX,
        d.len() <= usize::MAX,
    ensures
        covers(
            stitch(
                st,
                scanned(d.subrange(0x10_0000 * k, 8 * e), width, height),
                (start + 0x10_0000 * k) as u64,
            ),
            d,
            start,
            k + 1,
            e,
            width,
            height,
        ),
{
    let s = 0x2_0000 * k;
    let part = d.subrange(8 * s, 8 * e);
    let n = e - s;
    let span = scanned(part, width, height);
    assert(record_count(part) == n);
    span_resumes(d, s, e, n, width, height);
    let base = wrap_at(d, 0, s);
    // The clock at the start of the span is the sequential one.
    span_raw(d, s, e, 0);
    span_raw(d, s, e, n - 1);
    raw_time_fits(d, s);
    raw_time_fits(d, s - 1);
    raw_time_fits(d, e - 1);
    assert(entered(st, span) == base);
    rebased_events(part, base, n, width, height);
    rebased(part, base, 0);
    rebased(part, base, n - 1);
    let before = events_of(d, 0, s, width, height);
    let more = events_of(part, base, n, width, height);
    assert(events_of(d, 0, e, width, height) == before + more);
    events_bounded(part, 0, n, width, height);
    let next = stitch(st, span, (start + 0x10_0000 * k) as u64);
    assert(next.checkpoints =~= saved(d, start, k + 1, width, height));
    if more.len() > 0 {
        let plain = events_of(part, 0, n, width, height);
        assert(more[0].t == base.wrapping_add(plain[0].t));
        assert(more[more.len() - 1].t == base.wrapping_add(plain[plain.len() - 1].t));
    } else {
        assert(before + more =~= before);
    }
}

/// The records of a span are those of the recording.
proof fn span_raw(d: Seq<u8>, s: int, e: int, j: int)
    requires
        0 <= s < e <= record_count(d),
        0 <= j < e - s,
    ensures
        raw_time(d.subrange(8 * s, 8 * e), j) == raw_time(d, s + j),
        record_at(d.subrange(8 * s, 8 * e), j) == record_at(d, s + j),
{
    reveal(raw_time);
    reveal(record_at);
    let part = d.subrange(8 * s, 8 * e);
    assert(part[8 * j] == d[8 * (s + j)] && part[8 * j + 1] == d[8 * (s + j) + 1]);
    assert(part[8 * j + 2] == d[8 * (s + j) + 2] && part[8 * j + 3] == d[8 * (s + j) + 3]);
    assert(part[8 * j + 4] == d[8 * (s + j) + 4] && part[8 * j + 5] == d[8 * (s + j) + 5]);
    assert(part[8 * j + 6] == d[8 * (s + j) + 6] && part[8 * j + 7] == d[8 * (s + j) + 7]);
}

/// Reading on into a span gives the clock and the events that reading from the start gives.
proof fn span_resumes(d: Seq<u8>, s: int, e: int, n: int, width: int, height: int)
    requires
        0 <= s < e <= record_count(d),
        0 < n <= e - s,
    ensures
        wrap_at(d, 0, s + n - 1) == wrap_at(d.subrange(8 * s, 8 * e), wrap_at(d, 0, s), n - 1),
        events_of(d, 0, s + n, width, height) == events_of(d, 0, s, width, height) + events_of(
            d.subrange(8 * s, 8 * e),
            wrap_at(d, 0, s),
            n,
            width,
            height,
        ),
    decreases n,
{
    let part = d.subrange(8 * s, 8 * e);
    let base = wrap_at(d, 0, s);
    span_raw(d, s, e, n - 1);
    if n == 1 {
        reveal_with_fuel(events_of, 2);
        assert(events_of(d, 0, s + 1, width, height) =~= events_of(d, 0, s, width, height)
            + events_of(part, base, 1, width, height));
    } else {
        span_resumes(d, s, e, n - 1, width, height);
        span_raw(d, s, e, n - 2);
        assert(events_of(d, 0, s + n, width, height) =~= events_of(d, 0, s, width, height)
            + events_of(part, base, n, width, height));
    }
}

/// An indexed AEDAT 2 recording.
#[derive(Debug)]
pub struct AedatSliceSource {
    width: usize,
    height: usize,
    checkpoints: Vec<Checkpoint>,
    n_events: usize,
    time_span: (i64, i64),
    header: Vec<String>,
}

/// The first saved state from `k` on with more than `index` events before it, or their number.
pub open spec fn past_index(cps: Seq<Checkpoint>, index: int, k: int) -> int
    decreases cps.len() - k,
{
    if k >= cps.len() {
        cps.len() as int
    } else if cps[k].event_index > index {
        k
    } else {
        past_index(cps, index, k + 1)
    }
}

/// The first saved state from `k` on that is later than `t`, or their number.
pub open spec fn past_time(cps: Seq<Checkpoint>, t: int, k: int) -> int
    decreases cps.len() - k,
{
    if k >= cps.len() {
        cps.len() as int
    } else if cps[k].time > t {
        k
    } else {
        past_time(cps, t, k + 1)
    }
}

/// The state one before a position, if there is any.
pub open spec fn state_before(cps: Seq<Checkpoint>, position: int) -> Option<Checkpoint> {
    if cps.len() == 0 {
        None
    } else if position <= 1 {
        Some(cps[0])
    } else {
        Some(cps[position - 1])
    }
}

/// The index of the first event from `k` on that is not before `t1`, or the number of events.
pub open spec fn until(events: Seq<RawEvent>, t1: int, k: int) -> int
    decreases events.len() - k,
{
    if k >= events.len() {
        events.len() as int
    } else if events[k].t >= t1 {
        k
    } else {
        until(events, t1, k + 1)
    }
}

impl AedatSliceSource {
    pub closed spec fn width(&self) -> int {
        self.width as int
    }

    pub closed spec fn height(&self) -> int {
        self.height as int
    }

    pub closed spec fn checkpoints(&self) -> Seq<Checkpoint> {
        self.checkpoints@
    }

    pub closed spec fn event_count(&self) -> int {
        self.n_events as int
    }

    pub closed spec fn span(&self) -> (i64, i64) {
        self.time_span
    }

    /// The header lines.
    pub closed spec fn header(&self) -> Seq<Seq<char>> {
        texts(self.header@)
    }

    /// `(width, height)` of the sensor.
    pub fn sensor_size(&self) -> (size: (usize, usize))
        ensures
            size.0 == self.width(),
            size.1 == self.height(),
    {
        (self.width, self.height)
    }

    pub fn n_events(&self) -> (n: usize)
        ensures
            n == self.event_count(),
    {
        self.n_events
    }

    pub fn time_span(&self) -> (span: (i64, i64))
        ensures
            span == self.span(),
    {
        self.time_span
    }

    /// The header lines.
    pub fn header_lines(&self) -> (lines: &[String])
        ensures
            texts(lines@) == self.header(),
    {
        self.header.as_slice()
    }

    /// The state from which a slice that starts at event `index` is read.
    pub open spec fn index_state(&self, index: int) -> Option<Checkpoint> {
        state_before(self.checkpoints(), past_index(self.checkpoints(), index, 0))
    }

    /// The state from which a slice that starts at time `t` is read.
    pub open spec fn time_state(&self, t: int) -> Option<Checkpoint> {
        state_before(self.checkpoints(), past_time(self.checkpoints(), t, 0))
    }

    fn state_at(&self, position: usize) -> (state: Option<Checkpoint>)
        requires
            position <= self.checkpoints().len(),
        ensures
            state == state_before(self.checkpoints(), position as int),
    {
        if self.checkpoints.len() == 0 {
            None
        } else if position <= 1 {
            Some(self.checkpoints[0])
        } else {
            Some(self.checkpoints[position - 1])
        }
    }

    /// The state from which a slice that starts at event `index` is read. The bytes to read start
    /// at its byte offset.
    pub fn checkpoint_for_index(&self, index: usize) -> (state: Option<Checkpoint>)
        ensures
            state == self.index_state(index as int),
    {
        let n: usize = self.checkpoints.len();
        let mut k: usize = 0;
        while k < n && self.checkpoints[k].event_index <= index
            invariant
                k <= n,
                n == self.checkpoints().len(),
                past_index(self.checkpoints(), index as int, 0) == past_index(
                    self.checkpoints(),
                    index as int,
                    k as int,
                ),
            decreases n - k,
        {
            k += 1;
        }
        self.state_at(k)
    }

    /// The state from which a slice that starts at time `t` is read. The bytes to read start at
    /// its byte offset.
    pub fn checkpoint_for_time(&self, t: i64) -> (state: Option<Checkpoint>)
        ensures
            state == self.time_state(t as int),
    {
        let n: usize = self.checkpoints.len();
        let mut k: usize = 0;
        while k < n && self.checkpoints[k].time <= t
            invariant
                k <= n,
                n == self.checkpoints().len(),
                past_time(self.checkpoints(), t as int, 0) == past_time(
                    self.checkpoints(),
                    t as int,
                    k as int,
                ),
            decreases n - k,
        {
            k += 1;
        }
        self.state_at(k)
    }

    /// The first event of an index slice.
    pub open spec fn slice_start(&self, i0: int) -> int {
        if i0 < self.event_count() {
            i0
        } else {
            self.event_count()
        }
    }

    /// The end of an index slice.
    pub open spec fn slice_end(&self, i0: int, i1: int) -> int {
        if i1 < self.slice_start(i0) {
            self.slice_start(i0)
        } else if i1 > self.event_count() {
            self.event_count()
        } else {
            i1
        }
    }

    /// The events in the bytes from a saved state on.
    pub open spec fn events_from(&self, state: Option<Checkpoint>, tail: Seq<u8>) -> Seq<RawEvent> {
        match state {
            Some(cp) => events_of(
                tail,
                cp.wrap,
                record_count(tail),
                self.width(),
                self.height(),
            ),
            None => Seq::empty(),
        }
    }

    /// The events numbered from `i0` to before `i1`, given the bytes from
    /// [`checkpoint_for_index`](Self::checkpoint_for_index) on.
    pub fn slice_index(&self, tail: &[u8], i0: usize, i1: usize) -> (stream: EventStream)
        ensures
            stream.wf(),
            stream.width() == self.width(),
            stream.height() == self.height(),
            stream.scale() == MICROSECOND_SCALE,
            ({
                let a = self.slice_start(i0 as int);
                let b = self.slice_end(i0 as int, i1 as int);
                let state = self.index_state(a);
                let first = match state {
                    Some(cp) => cp.event_index as int,
                    None => 0,
                };
                stream.events() == kept(
                    part(self.events_from(state, tail@), a - first, b - first),
                    self.width(),
                    self.height(),
                )
            }),
    {
        let n: usize = self.n_events;
        let a: usize = if i0 < n {
            i0
        } else {
            n
        };
        let b: usize = if i1 < a {
            a
        } else if i1 > n {
            n
        } else {
            i1
        };
        let mut builder = EventStreamBuilder::new(self.width, self.height, MICROSECOND_SCALE);
        let cp = match self.checkpoint_for_index(a) {
            Some(cp) => cp,
            None => {
                assert(part(Seq::empty(), a as int, b as int) =~= Seq::<RawEvent>::empty());
                return builder.build();
            },
        };
        let ghost d = tail@;
        let ghost base = cp.wrap;
        let ghost w = self.width();
        let ghost h = self.height();
        let ghost lo = a - cp.event_index;
        let ghost hi = b - cp.event_index;
        let ghost all = events_of(d, base, record_count(d), w, h);
        let count: usize = tail.len() / RECORD;
        let mut clock = Clock::new(cp.wrap);
        assert(clock.before(d, base, 0));
        let mut index: usize = cp.event_index;
        let mut i: usize = 0;
        assert(part(Seq::empty(), lo, hi) =~= Seq::<RawEvent>::empty());
        assert(events_of(d, base, 0, w, h) =~= Seq::<RawEvent>::empty());
        while i < count
            invariant_except_break
                i <= count,
                count == record_count(d),
                d == tail@,
                base == cp.wrap,
                w == self.width(),
                h == self.height(),
                lo == a - cp.event_index,
                hi == b - cp.event_index,
                a <= b,
                all == events_of(d, base, count as int, w, h),
                clock.before(d, base, i as int),
                builder.wf(),
                builder.width() == w,
                builder.height() == h,
                builder.scale() == MICROSECOND_SCALE,
                index == cp.event_index + events_of(d, base, i as int, w, h).len(),
                builder.events() == kept(part(events_of(d, base, i as int, w, h), lo, hi), w, h),
            ensures
                builder.wf(),
                builder.width() == w,
                builder.height() == h,
                builder.scale() == MICROSECOND_SCALE,
                builder.events() == kept(part(all, lo, hi), w, h),
            decreases count - i,
        {
            let (record, t) = clock.read(tail, i, Ghost(base));
            let ghost before = events_of(d, base, i as int, w, h);
            match to_event(record, t, self.width, self.height) {
                Some(e) => {
                    if index >= b {
                        proof {
                            events_extend(d, base, i as int, count as int, w, h);
                            part_full(before, all, lo, hi);
                        }
                        break;
                    }
                    proof {
                        assert(events_of(d, base, i + 1, w, h) == before.push(e));
                        part_push(before, e, lo, hi);
                    }
                    if index >= a {
                        proof {
                            kept_push(part(before, lo, hi), e, w, h);
                        }
                        builder.push(e.x, e.y, e.t, e.p);
                    }
                    index += 1;
                },
                None => {},
            }
            i += 1;
        }
        builder.build()
    }

    /// The events timed from `t0` to before `t1`, given the bytes from
    /// [`checkpoint_for_time`](Self::checkpoint_for_time) on. Reading stops at the first event
    /// that is not before `t1`.
    pub fn slice_time(&self, tail: &[u8], t0: i64, t1: i64) -> (stream: EventStream)
        ensures
            stream.wf(),
            stream.width() == self.width(),
            stream.height() == self.height(),
            stream.scale() == MICROSECOND_SCALE,
            ({
                let all = self.events_from(self.time_state(t0 as int), tail@);
                stream.events() == kept(
                    within(all.take(until(all, t1 as int, 0)), t0 as int, t1 as int),
                    self.width(),
                    self.height(),
                )
            }),
    {
        let mut builder = EventStreamBuilder::new(self.width, self.height, MICROSECOND_SCALE);
        let cp = match self.checkpoint_for_time(t0) {
            Some(cp) => cp,
            None => {
                assert(Seq::<RawEvent>::empty().take(0) =~= Seq::<RawEvent>::empty());
                return builder.build();
            },
        };
        let ghost d = tail@;
        let ghost base = cp.wrap;
        let ghost w = self.width();
        let ghost h = self.height();
        let ghost all = events_of(d, base, record_count(d), w, h);
        let count: usize = tail.len() / RECORD;
        let mut clock = Clock::new(cp.wrap);
        assert(clock.before(d, base, 0));
        let mut i: usize = 0;
        assert(events_of(d, base, 0, w, h) =~= Seq::<RawEvent>::empty());
        assert(count == 0 ==> all.take(until(all, t1 as int, 0)) =~= all);
        while i < count
            invariant_except_break
                i <= count,
                count == record_count(d),
                d == tail@,
                base == cp.wrap,
                w == self.width(),
                h == self.height(),
                all == events_of(d, base, count as int, w, h),
                clock.before(d, base, i as int),
                builder.wf(),
                builder.width() == w,
                builder.height() == h,
                builder.scale() == MICROSECOND_SCALE,
                builder.events() == kept(
                    within(events_of(d, base, i as int, w, h), t0 as int, t1 as int),
                    w,
                    h,
                ),
                all_before(events_of(d, base, i as int, w, h), t1 as int),
                i == count ==> all.take(until(all, t1 as int, 0)) == all,
            ensures
                builder.wf(),
                builder.width() == w,
                builder.height() == h,
                builder.scale() == MICROSECOND_SCALE,
                builder.events() == kept(
                    within(all.take(until(all, t1 as int, 0)), t0 as int, t1 as int),
                    w,
                    h,
                ),
            decreases count - i,
        {
            let (record, t) = clock.read(tail, i, Ghost(base));
            let ghost before = events_of(d, base, i as int, w, h);
            match to_event(record, t, self.width, self.height) {
                Some(e) => {
                    assert(events_of(d, base, i + 1, w, h) == before.push(e));
                    if t >= t1 {
                        proof {
                            events_extend(d, base, i + 1, count as int, w, h);
                            let k = before.len() as int;
                            assert(all[k] == before.push(e)[k]);
                            assert forall|j: int| 0 <= j < k implies (#[trigger] all[j]).t < t1 by {
                                assert(all[j] == before.push(e)[j]);
                                assert(before[j].t < t1);
                            }
                            until_at(all, t1 as int, 0, k);
                            assert(all.take(k) =~= before);
                        }
                        break;
                    }
                    proof {
                        within_push(before, e, t0 as int, t1 as int);
                    }
                    if t >= t0 {
                        proof {
                            kept_push(within(before, t0 as int, t1 as int), e, w, h);
                        }
                        builder.push(e.x, e.y, e.t, e.p);
                    }
                },
                None => {},
            }
            i += 1;
            if i == count {
                proof {
                    until_at(all, t1 as int, 0, all.len() as int);
                    assert(all.take(all.len() as int) =~= all);
                }
            }
        }
        builder.build()
    }
}

/// Whether every event is before a time.
pub open spec fn all_before(events: Seq<RawEvent>, t1: int) -> bool {
    forall|i: int| 0 <= i < events.len() ==> (#[trigger] events[i]).t < t1
}

/// The first event that is not before a time.
proof fn until_at(events: Seq<RawEvent>, t1: int, a: int, k: int)
    requires
        0 <= a <= k <= events.len(),
        forall|i: int| a <= i < k ==> (#[trigger] events[i]).t < t1,
        k < events.len() ==> events[k].t >= t1,
    ensures
        until(events, t1, a) == k,
    decreases k - a,
{
    if a < k {
        until_at(events, t1, a + 1, k);
    }
}

/// The events of fewer records come first among those of more.
proof fn events_extend(d: Seq<u8>, base: i64, i: int, n: int, w: int, h: int)
    requires
        0 <= i <= n,
    ensures
        events_of(d, base, i, w, h).len() <= events_of(d, base, n, w, h).len(),
        events_of(d, base, n, w, h).take(events_of(d, base, i, w, h).len() as int) == events_of(
            d,
            base,
            i,
            w,
            h,
        ),
        forall|j: int|
            0 <= j < events_of(d, base, i, w, h).len() ==> events_of(d, base, n, w, h)[j]
                == #[trigger] events_of(d, base, i, w, h)[j],
    decreases n - i,
{
    if i < n {
        events_extend(d, base, i, n - 1, w, h);
        assert(events_of(d, base, n, w, h).take(events_of(d, base, i, w, h).len() as int)
            =~= events_of(d, base, i, w, h));
    } else {
        assert(events_of(d, base, n, w, h).take(events_of(d, base, i, w, h).len() as int)
            =~= events_of(d, base, i, w, h));
    }
}

proof fn part_push(s: Seq<RawEvent>, e: RawEvent, lo: int, hi: int)
    requires
        lo <= hi,
    ensures
        part(s.push(e), lo, hi) == if lo <= s.len() < hi {
            part(s, lo, hi).push(e)
        } else {
            part(s, lo, hi)
        },
{
    assert(part(s.push(e), lo, hi) =~= if lo <= s.len() < hi {
        part(s, lo, hi).push(e)
    } else {
        part(s, lo, hi)
    });
}

/// Nothing past the end of a part changes it.
proof fn part_full(s: Seq<RawEvent>, all: Seq<RawEvent>, lo: int, hi: int)
    requires
        s.len() <= all.len(),
        all.take(s.len() as int) == s,
        hi <= s.len(),
    ensures
        part(all, lo, hi) == part(s, lo, hi),
{
    assert forall|i: int| 0 <= i < s.len() implies #[trigger] all[i] == s[i] by {
        assert(all.take(s.len() as int)[i] == all[i]);
    }
    assert(part(all, lo, hi) =~= part(s, lo, hi));
}

/// The whole records of a recording.
pub open spec fn body_of(data: Seq<u8>) -> Seq<u8> {
    let start = records_start(data);
    let n = (data.len() - start) / 8;
    data.subrange(start, start + 8 * n)
}

/// How many spans cover `n` records.
pub open spec fn span_count(n: int) -> int {
    (n + 0x1_FFFF) / 0x2_0000
}

/// Why a recording cannot be opened.
pub open spec fn open_fault(data: Seq<u8>, asked: Option<(usize, usize)>, e: IoError) -> bool {
    let header = header_texts(data);
    if !version_ok(header) {
        version_fault(header, e)
    } else {
        asked is None && (e matches IoError::Unsupported(m) && if chip_is(
            header,
            "dvs128"@,
            "dvs 128"@,
        ) {
            m@
                == "this AEDAT 2.0 file is from a DVS128, whose address layout this reader does not decode; only the DAVIS family is supported"@
        } else {
            chip_size(header) is None && m@
                == "could not determine the DAVIS sensor geometry from the AEDAT header; pass sensor_size"@
        })
    }
}

/// The sensor size of a recording that can be opened.
pub open spec fn sensor_of(data: Seq<u8>, asked: Option<(usize, usize)>) -> Option<(usize, usize)> {
    let header = header_texts(data);
    if !version_ok(header) {
        None
    } else {
        match asked {
            Some(size) => Some(size),
            None => if chip_is(header, "dvs128"@, "dvs 128"@) {
                None
            } else {
                chip_size(header)
            },
        }
    }
}

/// What opening a recording gives.
pub open spec fn opens(data: Seq<u8>, size: (usize, usize), s: AedatSliceSource) -> bool {
    let d = body_of(data);
    let n = record_count(d);
    let w = size.0 as int;
    let h = size.1 as int;
    let events = events_of(d, 0, n, w, h);
    &&& s.width() == w
    &&& s.height() == h
    &&& s.header() == header_texts(data)
    &&& s.checkpoints() == saved(d, records_start(data), span_count(n), w, h)
    &&& s.event_count() == events.len()
    &&& s.span() == if events.len() == 0 {
        (0i64, 0i64)
    } else {
        (events[0].t, events.last().t)
    }
}

/// Scans the records of a recording span by span.
#[verifier::spinoff_prover]
#[verifier::rlimit(60)]
fn index_body(body: &[u8], start: usize, width: usize, height: usize) -> (indexer: AedatIndexer)
    requires
        body@.len() as int % 8 == 0,
        start + body@.len() <= usize::MAX,
    ensures
        covers(
            indexer.state(),
            body@,
            start as int,
            span_count(record_count(body@)),
            record_count(body@),
            width as int,
            height as int,
        ),
{
    let total: usize = body.len();
    let ghost d = body@;
    let ghost n = record_count(d);
    let ghost w = width as int;
    let ghost h = height as int;
    let mut indexer = AedatIndexer::new();
    let mut offset: usize = 0;
    let ghost mut k: int = 0;
    assert(saved(d, start as int, 0, w, h) =~= Seq::<Checkpoint>::empty());
    while offset < total
        invariant
            d == body@,
            total == d.len(),
            total as int % 8 == 0,
            n == record_count(d),
            w == width,
            h == height,
            start + total <= usize::MAX,
            0 <= k,
            offset == 0x10_0000 * k || offset == total,
            offset <= total,
            offset < total ==> k == span_count(offset as int / 8),
            offset == total ==> k == span_count(n),
            covers(indexer.state(), d, start as int, k, offset as int / 8, w, h),
            offset as int % 8 == 0,
        decreases total - offset,
    {
        let bytes: usize = if total - offset < CHECKPOINT_BYTES {
            total - offset
        } else {
            CHECKPOINT_BYTES
        };
        let piece = slice_subrange(body, offset, offset + bytes);
        let span = scan_span(piece, width, height);
        let ghost e = (offset + bytes) as int / 8;
        proof {
            assert(offset == 0x10_0000 * k);
            assert(piece@ == d.subrange(0x10_0000 * k, 8 * e));
            events_bounded(d, 0, offset as int / 8, w, h);
            events_bounded(piece@, 0, record_count(piece@), w, h);
            stitching(indexer.state(), d, start as int, k, e, w, h);
        }
        indexer.add_span(&span, (start + offset) as u64);
        offset += bytes;
        proof {
            k = k + 1;
        }
    }
    indexer
}

/// Opens an AEDAT 2 recording for random slicing.
pub fn open_aedat_slice(data: &[u8], sensor_size: Option<(usize, usize)>) -> (source: Result<
    AedatSliceSource,
    IoError,
>)
    ensures
        match source {
            Ok(s) => sensor_of(data@, sensor_size) is Some && opens(
                data@,
                sensor_of(data@, sensor_size)->0,
                s,
            ),
            Err(e) => sensor_of(data@, sensor_size) is None && open_fault(data@, sensor_size, e),
        },
{
    let (header, start) = read_header(data);
    match check_version(&header) {
        Ok(()) => {},
        Err(error) => {
            return Err(error);
        },
    }
    let (width, height) = match resolve_sensor(&header, sensor_size) {
        Ok(size) => size,
        Err(error) => {
            return Err(error);
        },
    };
    let length: usize = data.len() - start;
    let whole: usize = length - length % RECORD;
    let body = slice_subrange(data, start, start + whole);
    assert(body@ =~= body_of(data@));
    let indexer = index_body(body, start, width, height);
    Ok(indexer.finish(width, height, header))
}

/// Every event of a record on a sensor of a given height, whether or not it lies on it.
pub open spec fn any_event(r: Record, t: i64, height: int) -> Option<RawEvent> {
    match r {
        Record::Event { x, y, polarity } => Some(
            RawEvent {
                x,
                y: if y < height {
                    ((height - 1 - y) % 0x1_0000) as u16
                } else {
                    (height % 0x1_0000) as u16
                },
                t,
                p: polarity,
            },
        ),
        _ => None,
    }
}

/// Every event of the first `n` records.
pub open spec fn any_events(d: Seq<u8>, n: int, height: int) -> Seq<RawEvent>
    decreases n,
{
    if n <= 0 {
        Seq::empty()
    } else {
        let rest = any_events(d, n - 1, height);
        match any_event(record_at(d, n - 1), time_of(d, 0, n - 1), height) {
            Some(e) => rest.push(e),
            None => rest,
        }
    }
}

/// What reading a whole recording keeps is what an index over it counts, on a sensor whose rows
/// 16 bits can number.
pub proof fn whole_read_agrees(d: Seq<u8>, n: int, width: int, height: int)
    requires
        0 <= height < 0x1_0000,
    ensures
        kept(any_events(d, n, height), width, height) == events_of(d, 0, n, width, height),
    decreases n,
{
    if n > 0 {
        whole_read_agrees(d, n - 1, width, height);
        match any_event(record_at(d, n - 1), time_of(d, 0, n - 1), height) {
            Some(e) => {
                kept_push(any_events(d, n - 1, height), e, width, height);
            },
            None => {},
        }
    }
}

/// The first `max` events that are kept.
pub open spec fn capped(events: Seq<RawEvent>, max: Option<usize>) -> Seq<RawEvent> {
    match max {
        Some(n) => if n < events.len() {
            events.take(n as int)
        } else {
            events
        },
        None => events,
    }
}

/// Reads an AEDAT 2 recording, keeping at most `max_events` events.
pub fn read_aedat(data: &[u8], sensor_size: Option<(usize, usize)>, max_events: Option<usize>) -> (
    stream: Result<EventStream, IoError>)
    ensures
        match stream {
            Ok(s) => {
                &&& sensor_of(data@, sensor_size) is Some
                &&& s.wf()
                &&& s.width() == (sensor_of(data@, sensor_size)->0).0
                &&& s.height() == (sensor_of(data@, sensor_size)->0).1
                &&& s.scale() == MICROSECOND_SCALE
                &&& s.events() == capped(
                    kept(
                        any_events(body_of(data@), record_count(body_of(data@)), s.height()),
                        s.width(),
                        s.height(),
                    ),
                    max_events,
                )
            },
            Err(e) => sensor_of(data@, sensor_size) is None && open_fault(data@, sensor_size, e),
        },
{
    let (header, start) = read_header(data);
    match check_version(&header) {
        Ok(()) => {},
        Err(error) => {
            return Err(error);
        },
    }
    let (width, height) = match resolve_sensor(&header, sensor_size) {
        Ok(size) => size,
        Err(error) => {
            return Err(error);
        },
    };
    let length: usize = data.len() - start;
    let whole: usize = length - length % RECORD;
    let body = slice_subrange(data, start, start + whole);
    assert(body@ =~= body_of(data@));
    Ok(read_records(body, width, height, max_events))
}

/// Reads records in order, keeping at most `max_events` events.
fn read_records(body: &[u8], width: usize, height: usize, max_events: Option<usize>) -> (stream:
    EventStream)
    ensures
        stream.wf(),
        stream.width() == width,
        stream.height() == height,
        stream.scale() == MICROSECOND_SCALE,
        stream.events() == capped(
            kept(
                any_events(body@, record_count(body@), height as int),
                width as int,
                height as int,
            ),
            max_events,
        ),
{
    let ghost d = body@;
    let ghost w = width as int;
    let ghost h = height as int;
    let count: usize = body.len() / RECORD;
    let mut builder = EventStreamBuilder::new(width, height, MICROSECOND_SCALE);
    let mut clock = Clock::new(0);
    assert(clock.before(d, 0, 0));
    let ghost all = kept(any_events(d, count as int, h), w, h);
    assert(kept(Seq::empty(), w, h) =~= Seq::<RawEvent>::empty());
    let mut i: usize = 0;
    while i < count
        invariant_except_break
            i <= count,
            count == record_count(d),
            d == body@,
            w == width,
            h == height,
            all == kept(any_events(d, count as int, h), w, h),
            clock.before(d, 0, i as int),
            builder.wf(),
            builder.width() == w,
            builder.height() == h,
            builder.scale() == MICROSECOND_SCALE,
            builder.events() == kept(any_events(d, i as int, h), w, h),
            max_events matches Some(m) ==> builder.events().len() <= m,
        ensures
            builder.wf(),
            builder.width() == w,
            builder.height() == h,
            builder.scale() == MICROSECOND_SCALE,
            builder.events() == capped(all, max_events),
        decreases count - i,
    {
        if let Some(m) = max_events {
            if builder.len() >= m {
                proof {
                    any_extend(d, i as int, count as int, w, h);
                    assert(all.take(m as int) =~= builder.events());
                    assert(m >= all.len() ==> builder.events() =~= all);
                }
                break;
            }
        }
        let (record, t) = clock.read(body, i, Ghost(0));
        match record {
            Record::Event { x, y, polarity } => {
                let row: usize = if (y as usize) < height {
                    height - 1 - y as usize
                } else {
                    height
                };
                let y: u16 = (row % 0x1_0000) as u16;
                proof {
                    kept_push(
                        any_events(d, i as int, h),
                        RawEvent { x, y, t, p: polarity },
                        w,
                        h,
                    );
                }
                builder.push(x, y, t, polarity);
            },
            _ => {},
        }
        i += 1;
    }
    builder.build()
}

/// What fewer records give comes first in what more give.
proof fn any_extend(d: Seq<u8>, i: int, n: int, w: int, h: int)
    requires
        0 <= i <= n,
    ensures
        kept(any_events(d, i, h), w, h).len() <= kept(any_events(d, n, h), w, h).len(),
        kept(any_events(d, n, h), w, h).take(kept(any_events(d, i, h), w, h).len() as int) == kept(
            any_events(d, i, h),
            w,
            h,
        ),
    decreases n - i,
{
    if i < n {
        any_extend(d, i, n - 1, w, h);
        match any_event(record_at(d, n - 1), time_of(d, 0, n - 1), h) {
            Some(e) => {
                kept_push(any_events(d, n - 1, h), e, w, h);
            },
            None => {},
        }
    }
    assert(kept(any_events(d, n, h), w, h).take(kept(any_events(d, i, h), w, h).len() as int)
        =~= kept(any_events(d, i, h), w, h));
}

} // verus!
