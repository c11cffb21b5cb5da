//! Event recordings in HDF5 files.
//!
//! The caller reads and writes the datasets. Which rows are read, in what blocks, what is made of
//! them and when a file refuses what is appended is decided here.

use vstd::prelude::*;
use vstd::string::*;

use crate::bytes::unsigned64;
use crate::chars::{chars_of, join3, spells};
use crate::io::npz::names_in;
use crate::io::text_columns::TimeUnit;
use crate::io::IoError;
use crate::representation::{
    pixel_in_plane, tag_of, EventFrame, EventFrameData, RepresentationKind,
};
use crate::stream::{
    kept, kept_concat, kept_push, EventStream, EventStreamBuilder, RawEvent, MICROSECOND_SCALE,
};

verus! {

/// Events in a block of a read.
pub const BLOCK: usize = 1_000_000;

/// Events in a block of a read that looks for the end of a window.
pub const SCAN_BLOCK: usize = 65536;

/// Events in a chunk of a dataset.
pub const EVENT_CHUNK: usize = 65536;

/// Events that are counted at most before a recording is sampled.
pub const SCAN_BUDGET: usize = 32_000_000;

/// Events in a sample of a recording.
pub const SCAN_SEGMENT: usize = 100_000;

/// The columns of a block of events, as they are stored.
#[derive(Debug)]
pub struct EventBlock {
    pub xs: Vec<i64>,
    pub ys: Vec<i64>,
    pub ts: Vec<i64>,
    pub ps: Vec<bool>,
}

impl EventBlock {
    /// The columns have one length.
    pub open spec fn wf(&self) -> bool {
        &&& self.xs@.len() == self.ys@.len()
        &&& self.xs@.len() == self.ts@.len()
        &&& self.xs@.len() == self.ps@.len()
    }

    /// The events of a block. Coordinates are held in 16 bits, and times in microseconds.
    pub open spec fn rows(&self, unit: TimeUnit) -> Seq<RawEvent> {
        Seq::new(
            self.xs@.len(),
            |i: int|
                RawEvent {
                    x: (self.xs@[i] as int % 0x1_0000) as u16,
                    y: (self.ys@[i] as int % 0x1_0000) as u16,
                    t: unit.scaled(self.ts@[i] as int) as i64,
                    p: self.ps@[i],
                },
        )
    }
}

fn low16(value: i64) -> (low: u16)
    ensures
        low == value as int % 0x1_0000,
{
    (unsigned64(value) % 0x1_0000) as u16
}

/// Reads a range of events, block by block.
pub struct RangeReader {
    start: usize,
    end: usize,
    time_unit: TimeUnit,
    builder: EventStreamBuilder,
}

impl RangeReader {
    pub closed spec fn at(&self) -> int {
        self.start as int
    }

    pub closed spec fn end(&self) -> int {
        self.end as int
    }

    pub closed spec fn unit(&self) -> TimeUnit {
        self.time_unit
    }

    pub closed spec fn size(&self) -> (int, int) {
        (self.builder.width(), self.builder.height())
    }

    pub closed spec fn events(&self) -> Seq<RawEvent> {
        self.builder.events()
    }

    pub closed spec fn wf(&self) -> bool {
        self.builder.wf() && self.builder.scale() == MICROSECOND_SCALE
    }

    /// A reader of the events from `start` to `end`.
    pub fn new(start: usize, end: usize, width: usize, height: usize, time_unit: TimeUnit) -> (
        reader: Self)
        ensures
            reader.wf(),
            reader.at() == start,
            reader.end() == end,
            reader.unit() == time_unit,
            reader.size() == (width as int, height as int),
            reader.events() == Seq::<RawEvent>::empty(),
    {
        RangeReader {
            start,
            end,
            time_unit,
            builder: EventStreamBuilder::new(width, height, MICROSECOND_SCALE),
        }
    }

    /// The end of the block that starts at a place.
    pub open spec fn block_end(&self) -> int {
        if self.end() - self.at() > 1_000_000 {
            self.at() + 1_000_000
        } else {
            self.end()
        }
    }

    /// The next block; `None` when the range has been read.
    pub fn block(&self) -> (range: Option<(usize, usize)>)
        ensures
            match range {
                Some((a, b)) => self.at() < self.end() && a == self.at() && b == self.block_end(),
                None => self.at() >= self.end(),
            },
    {
        if self.start >= self.end {
            None
        } else if self.end - self.start > BLOCK {
            Some((self.start, self.start + BLOCK))
        } else {
            Some((self.start, self.end))
        }
    }

    /// Takes the events of the next block. Those off the sensor are dropped.
    pub fn take(&mut self, block: &EventBlock)
        requires
            old(self).wf(),
            block.wf(),
            old(self).at() < old(self).end(),
            block.xs@.len() == old(self).block_end() - old(self).at(),
        ensures
            final(self).wf(),
            final(self).at() == old(self).block_end(),
            final(self).end() == old(self).end(),
            final(self).unit() == old(self).unit(),
            final(self).size() == old(self).size(),
            final(self).events() == old(self).events() + kept(
                block.rows(old(self).unit()),
                old(self).size().0,
                old(self).size().1,
            ),
    {
        let n: usize = block.xs.len();
        let ghost all = block.rows(self.time_unit);
        let ghost before = self.builder.events();
        let ghost w = self.builder.width();
        let ghost h = self.builder.height();
        assert(all.take(0) =~= Seq::<RawEvent>::empty());
        assert(before + kept(Seq::empty(), w, h) =~= before);
        for i in 0..n
            invariant
                block.wf(),
                n == block.xs@.len(),
                all == block.rows(self.time_unit),
                self.wf(),
                self.start == old(self).start,
                self.end == old(self).end,
                self.time_unit == old(self).time_unit,
                self.builder.width() == w,
                self.builder.height() == h,
                self.builder.events() == before + kept(all.take(i as int), w, h),
        {
            proof {
                let so_far = all.take(i as int);
                kept_push(so_far, all[i as int], w, h);
                assert(all.take(i + 1) =~= so_far.push(all[i as int]));
                assert(before + kept(so_far, w, h).push(all[i as int]) =~= (before + kept(
                    so_far,
                    w,
                    h,
                )).push(all[i as int]));
            }
            let t = self.time_unit.microseconds_from_int(block.ts[i]);
            self.builder.push(low16(block.xs[i]), low16(block.ys[i]), t, block.ps[i]);
        }
        assert(all.take(n as int) =~= all);
        self.start = if self.end - self.start > BLOCK {
            self.start + BLOCK
        } else {
            self.end
        };
    }

    /// The events that were read.
    pub fn finish(self) -> (stream: EventStream)
        requires
            self.wf(),
        ensures
            stream.wf(),
            (stream.width(), stream.height()) == self.size(),
            stream.scale() == MICROSECOND_SCALE,
            stream.events() == self.events(),
    {
        self.builder.build()
    }
}

/// Reading events in two blocks keeps what reading them at once keeps.
pub proof fn blocks_join(a: Seq<RawEvent>, b: Seq<RawEvent>, width: int, height: int)
    ensures
        kept(a, width, height) + kept(b, width, height) == kept(a + b, width, height),
{
    kept_concat(a, b, width, height);
}

/// Where the first events are read, and the last, to find the extent of the sensor.
pub fn extent_ranges(total: usize) -> (ranges: ((usize, usize), (usize, usize)))
    ensures
        ranges.0 == (
            0usize,
            if total < BLOCK {
                total
            } else {
                BLOCK
            },
        ),
        ranges.1 == (
            if total < BLOCK {
                0usize
            } else {
                (total - BLOCK) as usize
            },
            total,
        ),
{
    if total < BLOCK {
        ((0, total), (0, total))
    } else {
        ((0, BLOCK), (total - BLOCK, total))
    }
}

/// The largest of some coordinates, zero if there are none; negative ones count as zero.
pub open spec fn top_of(values: Seq<i64>) -> int
    decreases values.len(),
{
    if values.len() == 0 {
        0
    } else if values.last() > top_of(values.drop_last()) {
        values.last() as int
    } else {
        top_of(values.drop_last())
    }
}

/// The largest of some coordinates, zero if there are none; negative ones count as zero.
pub fn column_max(values: &[i64]) -> (top: u64)
    ensures
        top == top_of(values@),
{
    let n: usize = values.len();
    let mut top: i64 = 0;
    assert(values@.take(0) =~= Seq::<i64>::empty());
    for i in 0..n
        invariant
            n == values@.len(),
            top >= 0,
            top == top_of(values@.take(i as int)),
    {
        assert(values@.take(i + 1).drop_last() =~= values@.take(i as int));
        if values[i] > top {
            top = values[i];
        }
    }
    assert(values@.take(n as int) =~= values@);
    top as u64
}

/// The sensor that holds the first events and the last, given the largest coordinates of each; one by
/// one if there are no events.
pub fn infer_sensor_size(total: usize, head: (usize, usize), tail: (usize, usize)) -> (size: (
    usize,
    usize,
))
    requires
        head.0 < usize::MAX,
        head.1 < usize::MAX,
        tail.0 < usize::MAX,
        tail.1 < usize::MAX,
    ensures
        total == 0 ==> size == (1usize, 1usize),
        total > 0 ==> size.0 == 1 + if head.0 > tail.0 {
            head.0
        } else {
            tail.0
        },
        total > 0 ==> size.1 == 1 + if head.1 > tail.1 {
            head.1
        } else {
            tail.1
        },
{
    if total == 0 {
        return (1, 1);
    }
    (
        if head.0 > tail.0 {
            head.0 + 1
        } else {
            tail.0 + 1
        },
        if head.1 > tail.1 {
            head.1 + 1
        } else {
            tail.1 + 1
        },
    )
}

/// The sensor size of a recording, as far as it need not be inferred from the events: that asked for,
/// or that which was saved, if all of it was.
pub fn known_sensor_size(
    asked: Option<(usize, usize)>,
    width: Option<u64>,
    height: Option<u64>,
) -> (size: Option<(usize, usize)>)
    ensures
        size == match (asked, width, height) {
            (Some(s), _, _) => Some(s),
            (None, Some(w), Some(h)) => Some((w as usize, h as usize)),
            _ => None,
        },
{
    match (asked, width, height) {
        (Some(size), _, _) => Some(size),
        (None, Some(w), Some(h)) => Some((w as usize, h as usize)),
        _ => None,
    }
}

/// How many events of a recording are read, given a limit.
pub fn events_read(total: usize, limit: Option<usize>) -> (n: usize)
    ensures
        n == match limit {
            Some(max) => if max < total {
                max
            } else {
                total
            },
            None => total,
        },
{
    match limit {
        Some(max) => if max < total {
            max
        } else {
            total
        },
        None => total,
    }
}

/// The unit of the times of a recording: that asked for, that of a scale that was saved, or that which
/// its span tells. Spans wrap as machine integers do.
pub fn resolve_time_unit(
    asked: Option<TimeUnit>,
    saved: Option<TimeUnit>,
    total: usize,
    first: i64,
    last: i64,
) -> (unit: TimeUnit)
    ensures
        unit == match (asked, saved) {
            (Some(u), _) => u,
            (None, Some(u)) => u,
            (None, None) => if total == 0 {
                TimeUnit::Microseconds
            } else {
                TimeUnit::inferred(last.wrapping_sub(first) as int)
            },
        },
{
    match (asked, saved) {
        (Some(unit), _) => unit,
        (None, Some(unit)) => unit,
        (None, None) => if total == 0 {
            TimeUnit::Microseconds
        } else {
            TimeUnit::infer_from_span(last.wrapping_sub(first))
        },
    }
}

/// Every how many events a time is looked at to see whether times are in order.
pub open spec fn sample_step(total: int) -> int {
    if total / 64 < 1 {
        1
    } else {
        total / 64
    }
}

/// Looks at the times of a recording here and there, to see whether they are in order.
#[derive(Debug)]
pub struct OrderCheck {
    total: usize,
    index: usize,
    previous: i64,
}

impl OrderCheck {
    pub closed spec fn at(&self) -> int {
        self.index as int
    }

    pub closed spec fn total(&self) -> int {
        self.total as int
    }

    pub closed spec fn last(&self) -> i64 {
        self.previous
    }

    pub fn new(total: usize) -> (check: Self)
        ensures
            check.total() == total,
            check.at() == 0,
            check.last() == i64::MIN,
    {
        OrderCheck { total, index: 0, previous: i64::MIN }
    }

    /// The event whose time is looked at next; `None` when that is enough. Fewer than two events are
    /// always in order.
    pub fn next(&self) -> (index: Option<usize>)
        ensures
            match index {
                Some(i) => self.total() >= 2 && self.at() < self.total() && i == self.at(),
                None => self.total() < 2 || self.at() >= self.total(),
            },
    {
        if self.total < 2 || self.index >= self.total {
            None
        } else {
            Some(self.index)
        }
    }

    /// Takes the time of the event that was asked for.
    pub fn take(&mut self, value: i64) -> (sorted: Result<(), IoError>)
        requires
            old(self).at() < old(self).total(),
        ensures
            final(self).total() == old(self).total(),
            match sorted {
                Ok(()) => {
                    &&& value >= old(self).last()
                    &&& final(self).last() == value
                    &&& final(self).at() == if old(self).total() - old(self).at() < sample_step(
                        old(self).total(),
                    ) {
                        old(self).total()
                    } else {
                        old(self).at() + sample_step(old(self).total())
                    }
                },
                Err(IoError::Format(m)) => value < old(self).last() && m@
                    == "HDF5 't' is not sorted; in-place time slicing requires a time-ordered timestamp column"@,
                Err(_) => false,
            },
    {
        if value < self.previous {
            return Err(
                IoError::Format(
                    "HDF5 't' is not sorted; in-place time slicing requires a time-ordered timestamp column".to_owned(),
                ),
            );
        }
        self.previous = value;
        let step: usize = if self.total / 64 < 1 {
            1
        } else {
            self.total / 64
        };
        self.index = if self.total - self.index < step {
            self.total
        } else {
            self.index + step
        };
        Ok(())
    }
}

/// A recording that can be sliced.
#[derive(Clone, Copy, Debug)]
pub struct Hdf5SliceSource {
    width: usize,
    height: usize,
    time_unit: TimeUnit,
    total: usize,
    span: (i64, i64),
}

/// A search for the first event that is not before a time, among times in order.
#[derive(Clone, Copy, Debug, PartialEq, Eq)]
pub struct TimeSearch {
    lo: usize,
    hi: usize,
    lo_t: i64,
    hi_t: i64,
    target: i64,
}

/// Whether times are in order.
pub open spec fn times_rise(ts: Seq<i64>) -> bool {
    forall|i: int, j: int| 0 <= i <= j < ts.len() ==> ts[i] <= ts[j]
}

impl TimeSearch {
    pub closed spec fn low(&self) -> int {
        self.lo as int
    }

    pub closed spec fn high(&self) -> int {
        self.hi as int
    }

    pub closed spec fn target(&self) -> i64 {
        self.target
    }

    /// The event lies between the bounds of the search.
    pub open spec fn brackets(&self, ts: Seq<i64>) -> bool {
        &&& 0 <= self.low() <= self.high() < ts.len()
        &&& forall|i: int| 0 <= i < self.low() ==> #[trigger] ts[i] < self.target()
        &&& ts[self.high()] >= self.target()
    }

    /// The event whose time is looked at next: where it would be if events came at an even rate; `None`
    /// when the search is over.
    pub fn probe(&self) -> (index: Option<usize>)
        ensures
            match index {
                Some(m) => self.low() <= m < self.high(),
                None => self.low() >= self.high(),
            },
    {
        if self.lo >= self.hi {
            return None;
        }
        let width: i128 = self.hi_t as i128 - self.lo_t as i128;
        let along: i128 = self.target as i128 - self.lo_t as i128;
        let room: usize = self.hi - self.lo;
        let guess: usize = if along <= 0 || width <= 0 {
            0
        } else if along >= width {
            room - 1
        } else {
            let a: u64 = along as u64;
            let w: u64 = width as u64;
            proof {
                assert(0 <= a * room <= 0xFFFF_FFFF_FFFF_FFFF * 0xFFFF_FFFF_FFFF_FFFF)
                    by (nonlinear_arith)
                    requires
                        0 <= a <= 0xFFFF_FFFF_FFFF_FFFF,
                        0 <= room <= 0xFFFF_FFFF_FFFF_FFFF,
                ;
            }
            let step: u128 = (a as u128) * (room as u128) / (w as u128);
            proof {
                let prod = (a * room) as int;
                assert(0 <= prod / (w as int) < room) by (nonlinear_arith)
                    requires
                        0 <= a < w,
                        0 < room,
                        prod == a * room,
                ;
            }
            step as usize
        };
        Some(self.lo + guess)
    }

    /// Takes the time of the event that was asked for.
    pub fn learn(&mut self, index: usize, t: i64)
        requires
            old(self).low() <= index < old(self).high(),
        ensures
            final(self).target() == old(self).target(),
            t < old(self).target() ==> final(self).low() == index + 1 && final(self).high() == old(
                self,
            ).high(),
            t >= old(self).target() ==> final(self).low() == old(self).low() && final(self).high()
                == index,
            forall|ts: Seq<i64>|
                times_rise(ts) && #[trigger] old(self).brackets(ts) && ts[index as int] == t
                    ==> final(self).brackets(ts),
    {
        let ghost before = *self;
        if t < self.target {
            self.lo = index + 1;
            self.lo_t = t;
        } else {
            self.hi = index;
            self.hi_t = t;
        }
    }

    /// What the search found.
    pub fn found(&self) -> (index: usize)
        requires
            self.low() >= self.high(),
        ensures
            index == self.low(),
            forall|ts: Seq<i64>|
                times_rise(ts) && #[trigger] self.brackets(ts) ==> is_first_at(
                    ts,
                    self.target() as int,
                    index as int,
                ),
    {
        self.lo
    }
}

/// Whether an event is the first that is not before a time.
pub open spec fn is_first_at(ts: Seq<i64>, t: int, i: int) -> bool {
    &&& 0 <= i <= ts.len()
    &&& forall|j: int| 0 <= j < i ==> #[trigger] ts[j] < t
    &&& forall|j: int| i <= j < ts.len() ==> #[trigger] ts[j] >= t
}

/// How a search begins.
#[derive(Clone, Copy, Debug)]
pub enum SearchStart {
    /// It is over: the span says where the event is.
    Found(usize),
    Search(TimeSearch),
}

impl Hdf5SliceSource {
    pub closed spec fn size(&self) -> (int, int) {
        (self.width as int, self.height as int)
    }

    pub closed spec fn unit(&self) -> TimeUnit {
        self.time_unit
    }

    pub closed spec fn event_count(&self) -> int {
        self.total as int
    }

    pub closed spec fn span(&self) -> (i64, i64) {
        self.span
    }

    /// A source over `total` events whose first and last times are given as they are stored.
    pub fn new(
        width: usize,
        height: usize,
        time_unit: TimeUnit,
        total: usize,
        first: i64,
        last: i64,
    ) -> (source: Self)
        ensures
            source.size() == (width as int, height as int),
            source.unit() == time_unit,
            source.event_count() == total,
            source.span() == if total == 0 {
                (0i64, 0i64)
            } else {
                (
                    time_unit.scaled(first as int) as i64,
                    time_unit.scaled(last as int) as i64,
                )
            },
    {
        let span = if total == 0 {
            (0, 0)
        } else {
            (
                time_unit.microseconds_from_int(first),
                time_unit.microseconds_from_int(last),
            )
        };
        Hdf5SliceSource { width, height, time_unit, total, span }
    }

    pub fn sensor_size(&self) -> (size: (usize, usize))
        ensures
            (size.0 as int, size.1 as int) == self.size(),
    {
        (self.width, self.height)
    }

    pub fn n_events(&self) -> (n: usize)
        ensures
            n == self.event_count(),
    {
        self.total
    }

    pub fn time_span(&self) -> (span: (i64, i64))
        ensures
            span == self.span(),
    {
        self.span
    }

    pub fn time_unit(&self) -> (unit: TimeUnit)
        ensures
            unit == self.unit(),
    {
        self.time_unit
    }

    /// Whether the times of the recording, in microseconds, are those that the source knows of.
    pub open spec fn over(&self, ts: Seq<i64>) -> bool {
        &&& ts.len() == self.event_count()
        &&& times_rise(ts)
        &&& ts.len() > 0 ==> self.span() == (ts[0], ts[ts.len() - 1])
    }

    /// Starts the search for the first event that is not before a time.
    pub fn lower_bound_time(&self, target_us: i64) -> (start: SearchStart)
        ensures
            match start {
                SearchStart::Found(i) => forall|ts: Seq<i64>| #[trigger]
                    self.over(ts) ==> is_first_at(ts, target_us as int, i as int),
                SearchStart::Search(s) => {
                    &&& s.target() == target_us
                    &&& s.low() == 0
                    &&& s.high() == self.event_count() - 1
                    &&& forall|ts: Seq<i64>| #[trigger] self.over(ts) ==> s.brackets(ts)
                },
            },
    {
        if self.total == 0 || target_us <= self.span.0 {
            return SearchStart::Found(0);
        }
        if target_us > self.span.1 {
            proof {
                assert forall|ts: Seq<i64>| #[trigger] self.over(ts) implies is_first_at(
                    ts,
                    target_us as int,
                    self.total as int,
                ) by {
                    assert forall|j: int| 0 <= j < ts.len() implies #[trigger] ts[j]
                        < target_us by {
                        assert(ts[j] <= ts[ts.len() - 1]);
                    }
                }
            }
            return SearchStart::Found(self.total);
        }
        SearchStart::Search(
            TimeSearch {
                lo: 0,
                hi: self.total - 1,
                lo_t: self.span.0,
                hi_t: self.span.1,
                target: target_us,
            },
        )
    }

    /// A reader of an index slice; the slice is clamped to the recording.
    pub fn slice_index(&self, i0: usize, i1: usize) -> (reader: RangeReader)
        ensures
            reader.wf(),
            reader.size() == self.size(),
            reader.unit() == self.unit(),
            reader.events() == Seq::<RawEvent>::empty(),
            reader.at() == if i0 < self.event_count() {
                i0 as int
            } else {
                self.event_count()
            },
            reader.end() == if i1 < reader.at() {
                reader.at()
            } else if i1 > self.event_count() {
                self.event_count()
            } else {
                i1 as int
            },
    {
        let a: usize = if i0 < self.total {
            i0
        } else {
            self.total
        };
        let b: usize = if i1 < a {
            a
        } else if i1 > self.total {
            self.total
        } else {
            i1
        };
        RangeReader::new(a, b, self.width, self.height, self.time_unit)
    }

    /// A reader of the events from one on, to a time.
    pub fn read_window(&self, start: usize, t1_us: i64) -> (reader: WindowReader)
        ensures
            reader.wf(),
            reader.at() == start,
            reader.end() == self.event_count(),
            reader.until() == t1_us,
            reader.unit() == self.unit(),
            reader.size() == self.size(),
            reader.events() == Seq::<RawEvent>::empty(),
            !reader.done(),
    {
        WindowReader {
            start,
            end: self.total,
            t1: t1_us,
            done: false,
            time_unit: self.time_unit,
            builder: EventStreamBuilder::new(self.width, self.height, MICROSECOND_SCALE),
        }
    }
}

/// Reads events to a time, block by block.
pub struct WindowReader {
    start: usize,
    end: usize,
    t1: i64,
    done: bool,
    time_unit: TimeUnit,
    builder: EventStreamBuilder,
}

/// The events before the first that is not before a time.
pub open spec fn before_time(rows: Seq<RawEvent>, t: int, i: int) -> int
    decreases rows.len() - i,
{
    if i >= rows.len() || rows[i].t >= t {
        i
    } else {
        before_time(rows, t, i + 1)
    }
}

impl WindowReader {
    pub closed spec fn at(&self) -> int {
        self.start as int
    }

    pub closed spec fn end(&self) -> int {
        self.end as int
    }

    pub closed spec fn until(&self) -> i64 {
        self.t1
    }

    /// Whether an event at or after the end of the window has been seen.
    pub closed spec fn done(&self) -> bool {
        self.done
    }

    pub closed spec fn unit(&self) -> TimeUnit {
        self.time_unit
    }

    pub closed spec fn size(&self) -> (int, int) {
        (self.builder.width(), self.builder.height())
    }

    pub closed spec fn events(&self) -> Seq<RawEvent> {
        self.builder.events()
    }

    pub closed spec fn wf(&self) -> bool {
        self.builder.wf() && self.builder.scale() == MICROSECOND_SCALE
    }

    pub open spec fn block_end(&self) -> int {
        if self.end() - self.at() > 65536 {
            self.at() + 65536
        } else {
            self.end()
        }
    }

    /// The next block; `None` when the window has been read.
    pub fn block(&self) -> (range: Option<(usize, usize)>)
        ensures
            match range {
                Some((a, b)) => !self.done() && self.at() < self.end() && a == self.at() && b
                    == self.block_end(),
                None => self.done() || self.at() >= self.end(),
            },
    {
        if self.done || self.start >= self.end {
            None
        } else if self.end - self.start > SCAN_BLOCK {
            Some((self.start, self.start + SCAN_BLOCK))
        } else {
            Some((self.start, self.end))
        }
    }

    /// Takes the events of the next block, up to the first that is not before the end of the window.
    pub fn take(&mut self, block: &EventBlock)
        requires
            old(self).wf(),
            block.wf(),
            !old(self).done(),
            old(self).at() < old(self).end(),
            block.xs@.len() == old(self).block_end() - old(self).at(),
        ensures
            final(self).wf(),
            final(self).at() == old(self).block_end(),
            final(self).end() == old(self).end(),
            final(self).until() == old(self).until(),
            final(self).unit() == old(self).unit(),
            final(self).size() == old(self).size(),
            ({
                let rows = block.rows(old(self).unit());
                let n = before_time(rows, old(self).until() as int, 0);
                &&& final(self).done() == (n < rows.len())
                &&& final(self).events() == old(self).events() + kept(
                    rows.take(n),
                    old(self).size().0,
                    old(self).size().1,
                )
            }),
    {
        let n: usize = block.xs.len();
        let ghost all = block.rows(self.time_unit);
        let ghost before = self.builder.events();
        let ghost w = self.builder.width();
        let ghost h = self.builder.height();
        let mut i: usize = 0;
        assert(all.take(0) =~= Seq::<RawEvent>::empty());
        assert(before + kept(Seq::empty(), w, h) =~= before);
        while i < n
            invariant
                i <= n,
                block.wf(),
                n == block.xs@.len(),
                all == block.rows(self.time_unit),
                self.wf(),
                !self.done,
                self.start == old(self).start,
                self.end == old(self).end,
                self.t1 == old(self).t1,
                self.time_unit == old(self).time_unit,
                self.builder.width() == w,
                self.builder.height() == h,
                before_time(all, self.t1 as int, 0) == before_time(all, self.t1 as int, i as int),
                self.builder.events() == before + kept(all.take(i as int), w, h),
            ensures
                i <= n,
                self.wf(),
                !self.done,
                self.start == old(self).start,
                self.end == old(self).end,
                self.t1 == old(self).t1,
                self.time_unit == old(self).time_unit,
                self.builder.width() == w,
                self.builder.height() == h,
                i == before_time(all, self.t1 as int, 0),
                self.builder.events() == before + kept(all.take(i as int), w, h),
            decreases n - i,
        {
            let t = self.time_unit.microseconds_from_int(block.ts[i]);
            if t >= self.t1 {
                break;
            }
            proof {
                let so_far = all.take(i as int);
                kept_push(so_far, all[i as int], w, h);
                assert(all.take(i + 1) =~= so_far.push(all[i as int]));
                assert(before + kept(so_far, w, h).push(all[i as int]) =~= (before + kept(
                    so_far,
                    w,
                    h,
                )).push(all[i as int]));
            }
            self.builder.push(low16(block.xs[i]), low16(block.ys[i]), t, block.ps[i]);
            i += 1;
        }
        self.done = i < n;
        self.start = if self.end - self.start > SCAN_BLOCK {
            self.start + SCAN_BLOCK
        } else {
            self.end
        };
    }

    /// The events of the window.
    pub fn finish(self) -> (stream: EventStream)
        requires
            self.wf(),
        ensures
            stream.wf(),
            (stream.width(), stream.height()) == self.size(),
            stream.scale() == MICROSECOND_SCALE,
            stream.events() == self.events(),
    {
        self.builder.build()
    }
}

/// The rows that are read to count the events of each pixel: all of them in blocks, or samples that
/// are spread evenly.
pub open spec fn scan_window(total: int, i: int) -> (int, int) {
    if total <= 32_000_000 {
        (
            i * 1_000_000,
            if total - i * 1_000_000 > 1_000_000 {
                (i + 1) * 1_000_000
            } else {
                total
            },
        )
    } else {
        (i * (total / 320), i * (total / 320) + 100_000)
    }
}

/// How many windows are read to count the events of each pixel.
pub open spec fn scan_count(total: int) -> int {
    if total <= 32_000_000 {
        (total + 999_999) / 1_000_000
    } else {
        320
    }
}

/// The rows that are read to count the events of each pixel.
pub fn scan_windows(total: usize) -> (windows: Vec<(usize, usize)>)
    ensures
        windows@.len() == scan_count(total as int),
        forall|i: int|
            0 <= i < windows@.len() ==> ((#[trigger] windows@[i]).0 as int, windows@[i].1 as int)
                == scan_window(total as int, i),
        forall|i: int| 0 <= i < windows@.len() ==> (#[trigger] windows@[i]).1 <= total,
{
    let mut windows: Vec<(usize, usize)> = Vec::new();
    if total <= SCAN_BUDGET {
        let mut start: usize = 0;
        while start < total
            invariant
                total <= 32_000_000,
                start == windows@.len() * 1_000_000 || start == total,
                start <= total,
                windows@.len() <= scan_count(total as int),
                start == total ==> windows@.len() == scan_count(total as int),
                start < total ==> start == windows@.len() * 1_000_000,
                forall|i: int|
                    0 <= i < windows@.len() ==> (
                        (#[trigger] windows@[i]).0 as int,
                        windows@[i].1 as int,
                    ) == scan_window(total as int, i),
                forall|i: int| 0 <= i < windows@.len() ==> (#[trigger] windows@[i]).1 <= total,
            decreases total - start,
        {
            let end: usize = if total - start > BLOCK {
                start + BLOCK
            } else {
                total
            };
            windows.push((start, end));
            start = end;
        }
    } else {
        let stride: usize = total / 320;
        for i in 0..320usize
            invariant
                total > 32_000_000,
                stride == total / 320,
                windows@.len() == i,
                forall|j: int|
                    0 <= j < i ==> (
                        (#[trigger] windows@[j]).0 as int,
                        windows@[j].1 as int,
                    ) == scan_window(total as int, j),
                forall|j: int| 0 <= j < i ==> (#[trigger] windows@[j]).1 <= total,
        {
            proof {
                assert(i * stride <= 319 * stride) by (nonlinear_arith)
                    requires
                        0 <= i <= 319,
                        0 <= stride,
                ;
                assert(0 <= i * stride) by (nonlinear_arith);
                assert(stride >= 100_000);
            }
            let start: usize = i * stride;
            windows.push((start, start + SCAN_SEGMENT));
        }
    }
    windows
}

/// Windows of a small recording follow each other and reach its end.
pub proof fn small_scan_is_whole(total: int, i: int)
    requires
        0 < total <= 32_000_000,
        0 <= i < scan_count(total),
    ensures
        scan_window(total, 0).0 == 0,
        i + 1 < scan_count(total) ==> scan_window(total, i).1 == scan_window(total, i + 1).0,
        i + 1 == scan_count(total) ==> scan_window(total, i).1 == total,
{
}

/// The count of a pixel after more events; counts wrap as machine integers do.
pub open spec fn pixel_count(
    start: u64,
    xs: Seq<usize>,
    ys: Seq<usize>,
    width: int,
    height: int,
    cell: int,
    n: int,
) -> u64
    decreases n,
{
    if n <= 0 {
        start
    } else {
        let before = pixel_count(start, xs, ys, width, height, cell, n - 1);
        if xs[n - 1] < width && ys[n - 1] < height && ys[n - 1] * width + xs[n - 1] == cell {
            before.wrapping_add(1)
        } else {
            before
        }
    }
}

/// Counts events at their pixels. Those off the sensor are not counted.
pub fn add_xy_counts(
    xs: &[usize],
    ys: &[usize],
    width: usize,
    height: usize,
    counts: &mut Vec<u64>,
)
    requires
        xs@.len() == ys@.len(),
        old(counts)@.len() == width * height,
        width * height <= usize::MAX,
    ensures
        final(counts)@ == Seq::new(
            old(counts)@.len(),
            |c: int|
                pixel_count(
                    old(counts)@[c],
                    xs@,
                    ys@,
                    width as int,
                    height as int,
                    c,
                    xs@.len() as int,
                ),
        ),
{
    let n: usize = xs.len();
    let ghost start = counts@;
    for i in 0..n
        invariant
            n == xs@.len(),
            n == ys@.len(),
            start.len() == width * height,
            width * height <= usize::MAX,
            counts@.len() == start.len(),
            forall|c: int|
                0 <= c < start.len() ==> #[trigger] counts@[c] == pixel_count(
                    start[c],
                    xs@,
                    ys@,
                    width as int,
                    height as int,
                    c,
                    i as int,
                ),
    {
        let x = xs[i];
        let y = ys[i];
        if x < width && y < height {
            proof {
                pixel_in_plane(x as int, y as int, width as int, height as int);
                assert(0 <= y * width) by (nonlinear_arith);
            }
            let cell: usize = y * width + x;
            counts.set(cell, counts[cell].wrapping_add(1));
        }
    }
    assert(counts@ =~= Seq::new(
        start.len(),
        |c: int|
            pixel_count(start[c], xs@, ys@, width as int, height as int, c, xs@.len() as int),
    ));
}

/// A stored coordinate as an index; negative ones lie off every sensor.
pub fn coordinate(value: i64) -> (index: usize)
    ensures
        index == if value < 0 || value > usize::MAX {
            usize::MAX as int
        } else {
            value as int
        },
{
    if value < 0 || value as u64 > usize::MAX as u64 {
        usize::MAX
    } else {
        value as usize
    }
}

/// How many events there are in a chunk of a column that is written at once.
pub fn chunk_len(len: usize) -> (chunk: usize)
    ensures
        chunk == if len < 1 {
            1
        } else if len < EVENT_CHUNK {
            len
        } else {
            EVENT_CHUNK
        },
{
    if len < 1 {
        1
    } else if len < EVENT_CHUNK {
        len
    } else {
        EVENT_CHUNK
    }
}

/// What is to be done for a window of events that is appended.
#[derive(Clone, Copy, Debug, PartialEq, Eq, Structural)]
pub struct AppendPlan {
    /// Whether the columns have to be created first.
    pub create: bool,
    /// The rows that the window fills.
    pub start: usize,
    pub end: usize,
}

/// Appends windows of events to the columns of a file.
#[derive(Debug)]
pub struct Hdf5EventSink {
    created: bool,
    count: usize,
}

impl Hdf5EventSink {
    pub closed spec fn begun(&self) -> bool {
        self.created
    }

    pub closed spec fn event_count(&self) -> int {
        self.count as int
    }

    pub fn open() -> (sink: Self)
        ensures
            !sink.begun(),
            sink.event_count() == 0,
    {
        Hdf5EventSink { created: false, count: 0 }
    }

    /// What is to be done for a window with `n` events; nothing for an empty one. It counts once it
    /// has been [`written`](Self::written).
    pub fn append(&self, n: usize) -> (plan: Option<AppendPlan>)
        requires
            self.event_count() + n <= usize::MAX,
        ensures
            match plan {
                Some(p) => {
                    &&& n > 0
                    &&& p.create == !self.begun()
                    &&& p.start == self.event_count()
                    &&& p.end == self.event_count() + n
                },
                None => n == 0,
            },
    {
        if n == 0 {
            return None;
        }
        Some(AppendPlan { create: !self.created, start: self.count, end: self.count + n })
    }

    /// The columns have been created.
    pub fn created(&mut self)
        ensures
            final(self).begun(),
            final(self).event_count() == old(self).event_count(),
    {
        self.created = true;
    }

    /// All columns of a window have been written.
    pub fn written(&mut self, plan: &AppendPlan)
        ensures
            final(self).begun() == old(self).begun(),
            final(self).event_count() == plan.end,
    {
        self.count = plan.end;
    }

    /// Events appended so far.
    pub fn n_events(&self) -> (n: usize)
        ensures
            n == self.event_count(),
    {
        self.count
    }
}

/// What a frame's samples are called.
pub open spec fn dtype_of(data: EventFrameData) -> Seq<char> {
    match data {
        EventFrameData::U8(_) => "u8"@,
        EventFrameData::U16(_) => "u16"@,
        EventFrameData::U64(_) => "u64"@,
        EventFrameData::F32(_) => "f32"@,
    }
}

/// What a frame's samples are called.
pub fn dtype_tag(data: &EventFrameData) -> (tag: &'static str)
    ensures
        tag@ == dtype_of(*data),
{
    match data {
        EventFrameData::U8(_) => "u8",
        EventFrameData::U16(_) => "u16",
        EventFrameData::U64(_) => "u64",
        EventFrameData::F32(_) => "f32",
    }
}

/// Appends frames to a stack. All frames have the shape and the samples of the first.
#[derive(Debug)]
pub struct Hdf5FrameSink {
    first: Option<(usize, usize, usize, u8)>,
    count: usize,
}

/// The shape of a frame and the type of its samples.
pub open spec fn form_of(frame: &EventFrame) -> (usize, usize, usize, u8) {
    (
        frame.names().len() as usize,
        frame.height() as usize,
        frame.width() as usize,
        crate::io::npz::code_of(frame.samples()),
    )
}

fn code_of_samples(data: &EventFrameData) -> (code: u8)
    ensures
        code == crate::io::npz::code_of(*data),
{
    match data {
        EventFrameData::U8(_) => 0,
        EventFrameData::U16(_) => 1,
        EventFrameData::U64(_) => 2,
        EventFrameData::F32(_) => 3,
    }
}

impl Hdf5FrameSink {
    /// The form of the first frame.
    pub closed spec fn form(&self) -> Option<(usize, usize, usize, u8)> {
        self.first
    }

    pub closed spec fn frame_count(&self) -> int {
        self.count as int
    }

    pub fn open() -> (sink: Self)
        ensures
            sink.form() is None,
            sink.frame_count() == 0,
    {
        Hdf5FrameSink { first: None, count: 0 }
    }

    /// The number of the next frame, and whether the stack has to be created first. A frame counts
    /// once it has been [`written`](Self::written).
    pub fn append(&self, frame: &EventFrame) -> (place: Result<(usize, bool), IoError>)
        ensures
            match place {
                Ok((n, create)) => {
                    &&& self.form() is None || self.form() == Some(form_of(frame))
                    &&& n == self.frame_count()
                    &&& create == (self.form() is None)
                },
                Err(IoError::Format(m)) => {
                    &&& self.form() is Some
                    &&& self.form() != Some(form_of(frame))
                    &&& m@ == "appended frame shape/dtype differs from the first frame"@
                },
                Err(_) => false,
            },
    {
        let (channels, height, width) = frame.shape();
        let code: u8 = code_of_samples(frame.data());
        let create = self.first.is_none();
        if let Some((c, h, w, k)) = self.first {
            if c != channels || h != height || w != width || k != code {
                return Err(
                    IoError::Format(
                        "appended frame shape/dtype differs from the first frame".to_owned(),
                    ),
                );
            }
        }
        Ok((self.count, create))
    }

    /// The stack has been created for the form of a frame.
    pub fn created(&mut self, frame: &EventFrame)
        ensures
            final(self).form() == Some(form_of(frame)),
            final(self).frame_count() == old(self).frame_count(),
    {
        let (channels, height, width) = frame.shape();
        self.first = Some((channels, height, width, code_of_samples(frame.data())));
    }

    /// The next frame has been written.
    pub fn written(&mut self)
        requires
            old(self).frame_count() < usize::MAX,
        ensures
            final(self).form() == old(self).form(),
            final(self).frame_count() == old(self).frame_count() + 1,
    {
        self.count = self.count + 1;
    }


    /// Frames appended so far.
    pub fn n_frames(&self) -> (n: usize)
        ensures
            n == self.frame_count(),
    {
        self.count
    }
}

/// The parts of a frame of a file: its shape, what it shows, the names of its channels and the type of
/// its samples.
#[derive(Debug)]
pub struct FrameParts {
    pub width: usize,
    pub height: usize,
    pub kind: RepresentationKind,
    pub channel_names: Vec<String>,
}

/// What is wrong with a frame of a file before its samples are read.
pub open spec fn frame_complaint(dimensions: int, kind: Seq<char>) -> Option<Seq<char>> {
    if dimensions != 3 {
        Some("frame dataset must be 3-D [C, H, W]"@)
    } else if forall|k: RepresentationKind| #[trigger] tag_of(k) != kind {
        Some("unknown representation kind '"@ + kind + "'"@)
    } else {
        None
    }
}

/// Reads the parts of a frame besides its samples.
pub fn frame_parts(shape: &[usize], kind: &str, names: &str) -> (parts: Result<FrameParts, IoError>)
    ensures
        match parts {
            Ok(p) => {
                &&& frame_complaint(shape@.len() as int, kind@) is None
                &&& p.height == shape@[1]
                &&& p.width == shape@[2]
                &&& tag_of(p.kind) == kind@
                &&& crate::representation::names_of(p.channel_names@) == names_in(names@)
            },
            Err(IoError::Format(m)) => frame_complaint(shape@.len() as int, kind@) == Some(m@),
            Err(_) => false,
        },
{
    if shape.len() != 3 {
        return Err(IoError::Format("frame dataset must be 3-D [C, H, W]".to_owned()));
    }
    match RepresentationKind::from_tag(kind) {
        Some(k) => {
            assert(tag_of(k) == kind@);
            Ok(
                FrameParts {
                    width: shape[2],
                    height: shape[1],
                    kind: k,
                    channel_names: crate::io::npz::split_names(&chars_of(names)),
                },
            )
        },
        None => Err(IoError::Format(join3("unknown representation kind '", kind, "'"))),
    }
}

/// The type of samples that a file says it has.
#[derive(Clone, Copy, Debug, PartialEq, Eq, Structural)]
pub enum SampleType {
    U8,
    U16,
    U64,
    F32,
}

/// The type that a tag stands for.
pub fn sample_type(tag: &str) -> (kind: Result<SampleType, IoError>)
    ensures
        match kind {
            Ok(SampleType::U8) => tag@ == "u8"@,
            Ok(SampleType::U16) => tag@ == "u16"@,
            Ok(SampleType::U64) => tag@ == "u64"@,
            Ok(SampleType::F32) => tag@ == "f32"@,
            Err(IoError::Format(m)) => {
                &&& tag@ != "u8"@ && tag@ != "u16"@ && tag@ != "u64"@ && tag@ != "f32"@
                &&& m@ == "unknown frame dtype '"@ + tag@ + "'"@
            },
            Err(_) => false,
        },
{
    let text = chars_of(tag);
    if spells(&text, "u8") {
        Ok(SampleType::U8)
    } else if spells(&text, "u16") {
        Ok(SampleType::U16)
    } else if spells(&text, "u64") {
        Ok(SampleType::U64)
    } else if spells(&text, "f32") {
        Ok(SampleType::F32)
    } else {
        Err(IoError::Format(join3("unknown frame dtype '", tag, "'")))
    }
}

} // verus!
