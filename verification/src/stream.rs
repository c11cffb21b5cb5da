//! The event container and the builder that fills it.

use vstd::prelude::*;

use crate::bytes::{bits64, signed, signed64, unsigned64};

verus! {

/// Values per row of the row-major form: `x`, `y`, `t`, `p`.
pub const COLUMN_COUNT: usize = 4;

/// One event as the readers and writers carry it.
#[derive(Clone, Copy, Debug, PartialEq, Eq, Structural)]
pub struct RawEvent {
    pub x: u16,
    pub y: u16,
    pub t: i64,
    pub p: bool,
}

/// One event as the frame computations read it.
#[derive(Clone, Copy, Debug, PartialEq, Eq, Structural)]
pub struct Event {
    pub x: usize,
    pub y: usize,
    pub timestamp: u64,
    pub polarity: bool,
}

/// A stream of events stored column-wise, with the sensor size and the timestamp scale.
///
/// The scale is the number of milliseconds per tick, held as the bit pattern of a double
/// precision number: nothing in this crate computes with it, every operation carries it along.
#[derive(Debug)]
pub struct EventStream {
    xs: Vec<u16>,
    ys: Vec<u16>,
    ts: Vec<i64>,
    ps: Vec<bool>,
    width: usize,
    height: usize,
    scale_bits: u64,
}

/// Builds an [`EventStream`] one event at a time, dropping events outside the sensor.
#[derive(Debug)]
pub struct EventStreamBuilder {
    xs: Vec<u16>,
    ys: Vec<u16>,
    ts: Vec<i64>,
    ps: Vec<bool>,
    width: usize,
    height: usize,
    scale_bits: u64,
}

/// The bit pattern of `0.001`, the scale of a stream in microseconds.
pub const MICROSECOND_SCALE: u64 = 0x3F50_624D_D2F1_A9FC;

/// Four columns read as one sequence of events.
pub open spec fn rows(xs: Seq<u16>, ys: Seq<u16>, ts: Seq<i64>, ps: Seq<bool>) -> Seq<RawEvent> {
    Seq::new(xs.len(), |i: int| RawEvent { x: xs[i], y: ys[i], t: ts[i], p: ps[i] })
}

/// Whether an event lies on a `width` by `height` sensor.
pub open spec fn on_sensor(e: RawEvent, width: int, height: int) -> bool {
    e.x < width && e.y < height
}

/// The events of `events` that lie on a `width` by `height` sensor, in order.
pub open spec fn kept(events: Seq<RawEvent>, width: int, height: int) -> Seq<RawEvent>
    decreases events.len(),
{
    if events.len() == 0 {
        Seq::empty()
    } else if on_sensor(events.last(), width, height) {
        kept(events.drop_last(), width, height).push(events.last())
    } else {
        kept(events.drop_last(), width, height)
    }
}

/// The events of `events` with a timestamp in `t0..t1`, in order.
pub open spec fn within(events: Seq<RawEvent>, t0: int, t1: int) -> Seq<RawEvent>
    decreases events.len(),
{
    if events.len() == 0 {
        Seq::empty()
    } else if t0 <= events.last().t < t1 {
        within(events.drop_last(), t0, t1).push(events.last())
    } else {
        within(events.drop_last(), t0, t1)
    }
}

/// A place kept within a sequence of `n`.
pub open spec fn within_len(v: int, n: int) -> int {
    if v < 0 {
        0
    } else if v > n {
        n
    } else {
        v
    }
}

/// The part of a sequence from place `a` to before place `b`, as far as there is one.
pub open spec fn part(s: Seq<RawEvent>, a: int, b: int) -> Seq<RawEvent> {
    let n = s.len() as int;
    if a < b {
        s.subrange(within_len(a, n), within_len(b, n))
    } else {
        Seq::empty()
    }
}

/// A part of two sequences is made of their parts.
pub proof fn part_concat(a: Seq<RawEvent>, b: Seq<RawEvent>, i: int, j: int)
    ensures
        part(a + b, i, j) == part(a, i, j) + part(b, i - a.len(), j - a.len()),
{
    assert(part(a + b, i, j) =~= part(a, i, j) + part(b, i - a.len(), j - a.len()));
}

/// An event as the frame computations see it.
pub open spec fn widened(e: RawEvent) -> Event {
    Event {
        x: e.x as usize,
        y: e.y as usize,
        timestamp: bits64(e.t as int) as u64,
        polarity: e.p,
    }
}

/// One event as a row of four unsigned values.
pub open spec fn row_of(e: RawEvent) -> Seq<u64> {
    seq![e.x as u64, e.y as u64, bits64(e.t as int) as u64, if e.p { 1u64 } else { 0u64 }]
}

/// The row-major form of a sequence of events.
pub open spec fn flattened(events: Seq<RawEvent>) -> Seq<u64> {
    Seq::new(events.len() * 4, |i: int| row_of(events[i / 4])[i % 4])
}

/// What is kept of a longer sequence is what is kept of its prefix, then of the last event.
pub proof fn kept_push(events: Seq<RawEvent>, e: RawEvent, width: int, height: int)
    ensures
        kept(events.push(e), width, height) == if on_sensor(e, width, height) {
            kept(events, width, height).push(e)
        } else {
            kept(events, width, height)
        },
{
    assert(events.push(e).drop_last() =~= events);
}

/// Dropping off-sensor events distributes over concatenation.
pub proof fn kept_concat(a: Seq<RawEvent>, b: Seq<RawEvent>, width: int, height: int)
    ensures
        kept(a + b, width, height) == kept(a, width, height) + kept(b, width, height),
    decreases b.len(),
{
    if b.len() == 0 {
        assert(a + b =~= a);
        assert(kept(a, width, height) + kept(b, width, height) =~= kept(a, width, height));
    } else {
        assert((a + b).drop_last() =~= a + b.drop_last());
        assert((a + b).last() == b.last());
        kept_concat(a, b.drop_last(), width, height);
        if on_sensor(b.last(), width, height) {
            assert(kept(a, width, height) + kept(b, width, height) =~= (kept(a, width, height)
                + kept(b.drop_last(), width, height)).push(b.last()));
        }
    }
}

/// A sequence whose events all lie on the sensor is kept whole.
pub proof fn kept_whole(events: Seq<RawEvent>, width: int, height: int)
    requires
        forall|i: int| 0 <= i < events.len() ==> on_sensor(#[trigger] events[i], width, height),
    ensures
        kept(events, width, height) == events,
    decreases events.len(),
{
    if events.len() > 0 {
        assert forall|i: int| 0 <= i < events.drop_last().len() implies on_sensor(
            #[trigger] events.drop_last()[i],
            width,
            height,
        ) by {
            assert(events.drop_last()[i] == events[i]);
        }
        kept_whole(events.drop_last(), width, height);
        assert(events.drop_last().push(events.last()) =~= events);
    }
}

/// What lies in a time window of a longer sequence is what lies in it of its prefix, then the last
/// event.
pub proof fn within_push(events: Seq<RawEvent>, e: RawEvent, t0: int, t1: int)
    ensures
        within(events.push(e), t0, t1) == if t0 <= e.t < t1 {
            within(events, t0, t1).push(e)
        } else {
            within(events, t0, t1)
        },
{
    assert(events.push(e).drop_last() =~= events);
}

/// Taking a time window distributes over concatenation.
pub proof fn within_concat(a: Seq<RawEvent>, b: Seq<RawEvent>, t0: int, t1: int)
    ensures
        within(a + b, t0, t1) == within(a, t0, t1) + within(b, t0, t1),
    decreases b.len(),
{
    if b.len() == 0 {
        assert(a + b =~= a);
        assert(within(a, t0, t1) + within(b, t0, t1) =~= within(a, t0, t1));
    } else {
        assert((a + b).drop_last() =~= a + b.drop_last());
        assert((a + b).last() == b.last());
        within_concat(a, b.drop_last(), t0, t1);
        if t0 <= b.last().t < t1 {
            assert(within(a, t0, t1) + within(b, t0, t1) =~= (within(a, t0, t1) + within(
                b.drop_last(),
                t0,
                t1,
            )).push(b.last()));
        }
    }
}

/// A sequence with no timestamp in the window has nothing in it.
pub proof fn within_none(events: Seq<RawEvent>, t0: int, t1: int)
    requires
        forall|i: int| 0 <= i < events.len() ==> !(t0 <= (#[trigger] events[i]).t < t1),
    ensures
        within(events, t0, t1) == Seq::<RawEvent>::empty(),
    decreases events.len(),
{
    if events.len() > 0 {
        assert forall|i: int| 0 <= i < events.drop_last().len() implies !(t0
            <= (#[trigger] events.drop_last()[i]).t < t1) by {
            assert(events.drop_last()[i] == events[i]);
        }
        within_none(events.drop_last(), t0, t1);
        assert(!(t0 <= events[events.len() - 1].t < t1));
    }
}

/// Every kept event is one of the sequence.
pub proof fn kept_from(events: Seq<RawEvent>, width: int, height: int, i: int)
    requires
        0 <= i < kept(events, width, height).len(),
    ensures
        events.contains(kept(events, width, height)[i]),
    decreases events.len(),
{
    let front = events.drop_last();
    if on_sensor(events.last(), width, height) && i == kept(front, width, height).len() {
        assert(events[events.len() - 1] == kept(events, width, height)[i]);
    } else {
        kept_from(front, width, height, i);
        let j = choose|j: int| 0 <= j < front.len() && front[j] == kept(front, width, height)[i];
        assert(events[j] == front[j]);
    }
}

/// Everything that is kept lies on the sensor, and nothing is kept twice over.
pub proof fn kept_on_sensor(events: Seq<RawEvent>, width: int, height: int)
    ensures
        kept(events, width, height).len() <= events.len(),
        forall|i: int|
            0 <= i < kept(events, width, height).len() ==> on_sensor(
                #[trigger] kept(events, width, height)[i],
                width,
                height,
            ),
    decreases events.len(),
{
    if events.len() > 0 {
        kept_on_sensor(events.drop_last(), width, height);
    }
}

impl EventStream {
    /// The events, in stream order.
    pub closed spec fn events(&self) -> Seq<RawEvent> {
        rows(self.xs@, self.ys@, self.ts@, self.ps@)
    }

    pub closed spec fn width(&self) -> int {
        self.width as int
    }

    pub closed spec fn height(&self) -> int {
        self.height as int
    }

    pub closed spec fn scale(&self) -> u64 {
        self.scale_bits
    }

    /// The four columns have one length.
    pub closed spec fn wf(&self) -> bool {
        &&& self.xs@.len() == self.ys@.len()
        &&& self.xs@.len() == self.ts@.len()
        &&& self.xs@.len() == self.ps@.len()
    }

    /// Every event lies on the sensor.
    pub open spec fn in_bounds(&self) -> bool {
        forall|i: int|
            0 <= i < self.events().len() ==> on_sensor(
                #[trigger] self.events()[i],
                self.width(),
                self.height(),
            )
    }

    /// A stream's width and height are machine integers.
    pub proof fn size_fits(&self)
        ensures
            0 <= self.width() <= usize::MAX,
            0 <= self.height() <= usize::MAX,
            self.events().len() <= usize::MAX,
    {
        assert(self.xs.len() <= usize::MAX);
    }

    /// The stream of four columns of one length. Events need not lie on the sensor.
    pub fn from_columns(
        xs: Vec<u16>,
        ys: Vec<u16>,
        ts: Vec<i64>,
        ps: Vec<bool>,
        width: usize,
        height: usize,
        scale_bits: u64,
    ) -> (stream: Self)
        requires
            xs@.len() == ys@.len(),
            xs@.len() == ts@.len(),
            xs@.len() == ps@.len(),
        ensures
            stream.wf(),
            stream.width() == width,
            stream.height() == height,
            stream.scale() == scale_bits,
            stream.events() == rows(xs@, ys@, ts@, ps@),
    {
        EventStream { xs, ys, ts, ps, width, height, scale_bits }
    }

    /// Number of events.
    pub fn len(&self) -> (n: usize)
        ensures
            n == self.events().len(),
    {
        self.xs.len()
    }

    pub fn is_empty(&self) -> (empty: bool)
        ensures
            empty == (self.events().len() == 0),
    {
        self.xs.len() == 0
    }

    /// `(width, height)` of the sensor.
    pub fn sensor_size(&self) -> (size: (usize, usize))
        ensures
            size.0 == self.width(),
            size.1 == self.height(),
    {
        (self.width, self.height)
    }

    /// The timestamp scale, as the bit pattern of a double precision number.
    pub fn timestamp_scale_bits(&self) -> (bits: u64)
        ensures
            bits == self.scale(),
    {
        self.scale_bits
    }

    pub fn xs(&self) -> (column: &[u16])
        ensures
            column@.len() == self.events().len(),
            forall|i: int|
                0 <= i < column@.len() ==> #[trigger] column@[i] == self.events()[i].x,
    {
        self.xs.as_slice()
    }

    pub fn ys(&self) -> (column: &[u16])
        requires
            self.wf(),
        ensures
            column@.len() == self.events().len(),
            forall|i: int|
                0 <= i < column@.len() ==> #[trigger] column@[i] == self.events()[i].y,
    {
        self.ys.as_slice()
    }

    pub fn ts(&self) -> (column: &[i64])
        requires
            self.wf(),
        ensures
            column@.len() == self.events().len(),
            forall|i: int|
                0 <= i < column@.len() ==> #[trigger] column@[i] == self.events()[i].t,
    {
        self.ts.as_slice()
    }

    pub fn ps(&self) -> (column: &[bool])
        requires
            self.wf(),
        ensures
            column@.len() == self.events().len(),
            forall|i: int|
                0 <= i < column@.len() ==> #[trigger] column@[i] == self.events()[i].p,
    {
        self.ps.as_slice()
    }

    /// The event at `index`.
    pub fn get(&self, index: usize) -> (e: RawEvent)
        requires
            self.wf(),
            index < self.events().len(),
        ensures
            e == self.events()[index as int],
    {
        RawEvent { x: self.xs[index], y: self.ys[index], t: self.ts[index], p: self.ps[index] }
    }

    /// The event at `index`, widened for indexing.
    pub fn event(&self, index: usize) -> (e: Event)
        requires
            self.wf(),
            index < self.events().len(),
        ensures
            e == widened(self.events()[index as int]),
    {
        Event {
            x: self.xs[index] as usize,
            y: self.ys[index] as usize,
            timestamp: unsigned64(self.ts[index]),
            polarity: self.ps[index],
        }
    }

    /// Every event in order, widened for indexing.
    pub fn iter(&self) -> (all: Vec<Event>)
        requires
            self.wf(),
        ensures
            all@ == Seq::new(self.events().len(), |i: int| widened(self.events()[i])),
    {
        let mut all: Vec<Event> = Vec::with_capacity(self.len());
        let n: usize = self.len();
        for i in 0..n
            invariant
                self.wf(),
                n == self.events().len(),
                all@.len() == i,
                forall|j: int| 0 <= j < i ==> #[trigger] all@[j] == widened(self.events()[j]),
        {
            all.push(self.event(i));
        }
        assert(all@ =~= Seq::new(self.events().len(), |i: int| widened(self.events()[i])));
        all
    }

    /// The row-major `[x, y, t, p]` values of every event.
    pub fn to_rows(&self) -> (values: Vec<u64>)
        requires
            self.wf(),
            self.events().len() * 4 <= usize::MAX,
        ensures
            values@ == flattened(self.events()),
    {
        let n: usize = self.len();
        let mut values: Vec<u64> = Vec::with_capacity(n * COLUMN_COUNT);
        for index in 0..n
            invariant
                self.wf(),
                n == self.events().len(),
                values@.len() == index * 4,
                forall|i: int|
                    0 <= i < index * 4 ==> #[trigger] values@[i] == row_of(
                        self.events()[i / 4],
                    )[i % 4],
        {
            let e = self.get(index);
            values.push(e.x as u64);
            values.push(e.y as u64);
            values.push(unsigned64(e.t));
            values.push(if e.p { 1u64 } else { 0u64 });
        }
        assert(values@ =~= flattened(self.events()));
        values
    }

    /// A stream from `[x, y, t, p]` rows. Every row is kept: the low 16 bits of a coordinate, the
    /// timestamp's bit pattern, and any non-zero polarity as positive.
    pub fn from_rows(rows: &[[u64; 4]], width: usize, height: usize, scale_bits: u64) -> (stream:
        Self)
        ensures
            stream.wf(),
            stream.width() == width,
            stream.height() == height,
            stream.scale() == scale_bits,
            stream.events() == Seq::new(
                rows@.len(),
                |i: int|
                    RawEvent {
                        x: (rows@[i]@[0] % 0x1_0000) as u16,
                        y: (rows@[i]@[1] % 0x1_0000) as u16,
                        t: signed(rows@[i]@[2] as int, 0x8000_0000_0000_0000) as i64,
                        p: rows@[i]@[3] != 0,
                    },
            ),
    {
        let mut xs: Vec<u16> = Vec::with_capacity(rows.len());
        let mut ys: Vec<u16> = Vec::with_capacity(rows.len());
        let mut ts: Vec<i64> = Vec::with_capacity(rows.len());
        let mut ps: Vec<bool> = Vec::with_capacity(rows.len());
        for i in 0..rows.len()
            invariant
                xs@.len() == i,
                ys@.len() == i,
                ts@.len() == i,
                ps@.len() == i,
                forall|j: int| 0 <= j < i ==> #[trigger] xs@[j] == rows@[j]@[0] % 0x1_0000,
                forall|j: int| 0 <= j < i ==> #[trigger] ys@[j] == rows@[j]@[1] % 0x1_0000,
                forall|j: int|
                    0 <= j < i ==> #[trigger] ts@[j] == signed(
                        rows@[j]@[2] as int,
                        0x8000_0000_0000_0000,
                    ),
                forall|j: int| 0 <= j < i ==> #[trigger] ps@[j] == (rows@[j]@[3] != 0),
        {
            let row = rows[i];
            xs.push((row[0] % 0x1_0000) as u16);
            ys.push((row[1] % 0x1_0000) as u16);
            ts.push(signed64(row[2]));
            ps.push(row[3] != 0);
        }
        let stream = EventStream { xs, ys, ts, ps, width, height, scale_bits };
        assert(stream.events() =~= Seq::new(
            rows@.len(),
            |i: int|
                RawEvent {
                    x: (rows@[i]@[0] % 0x1_0000) as u16,
                    y: (rows@[i]@[1] % 0x1_0000) as u16,
                    t: signed(rows@[i]@[2] as int, 0x8000_0000_0000_0000) as i64,
                    p: rows@[i]@[3] != 0,
                },
        ));
        stream
    }
}

impl Clone for EventStream {
    fn clone(&self) -> (copy: Self)
        ensures
            copy.wf() == self.wf(),
            copy.events() == self.events(),
            copy.width() == self.width(),
            copy.height() == self.height(),
            copy.scale() == self.scale(),
    {
        let copy = EventStream {
            xs: self.xs.clone(),
            ys: self.ys.clone(),
            ts: self.ts.clone(),
            ps: self.ps.clone(),
            width: self.width,
            height: self.height,
            scale_bits: self.scale_bits,
        };
        assert(copy.xs@ =~= self.xs@ && copy.ys@ =~= self.ys@);
        assert(copy.ts@ =~= self.ts@ && copy.ps@ =~= self.ps@);
        copy
    }
}

impl EventStreamBuilder {
    /// The events appended so far.
    pub closed spec fn events(&self) -> Seq<RawEvent> {
        rows(self.xs@, self.ys@, self.ts@, self.ps@)
    }

    pub closed spec fn width(&self) -> int {
        self.width as int
    }

    pub closed spec fn height(&self) -> int {
        self.height as int
    }

    pub closed spec fn scale(&self) -> u64 {
        self.scale_bits
    }

    /// The columns have one length and every event lies on the sensor.
    pub closed spec fn wf(&self) -> bool {
        &&& self.xs@.len() == self.ys@.len()
        &&& self.xs@.len() == self.ts@.len()
        &&& self.xs@.len() == self.ps@.len()
        &&& forall|i: int|
            0 <= i < self.xs@.len() ==> #[trigger] self.xs@[i] < self.width && self.ys@[i]
                < self.height
    }

    /// Two builders over the same sensor and scale.
    pub open spec fn same_grid(&self, other: &Self) -> bool {
        &&& self.width() == other.width()
        &&& self.height() == other.height()
        &&& self.scale() == other.scale()
    }

    /// An empty builder for a `width` by `height` sensor.
    pub fn new(width: usize, height: usize, scale_bits: u64) -> (builder: Self)
        ensures
            builder.wf(),
            builder.events() == Seq::<RawEvent>::empty(),
            builder.width() == width,
            builder.height() == height,
            builder.scale() == scale_bits,
    {
        Self::with_capacity(width, height, scale_bits, 0)
    }

    /// An empty builder with room for `capacity` events.
    pub fn with_capacity(width: usize, height: usize, scale_bits: u64, capacity: usize) -> (builder:
        Self)
        ensures
            builder.wf(),
            builder.events() == Seq::<RawEvent>::empty(),
            builder.width() == width,
            builder.height() == height,
            builder.scale() == scale_bits,
    {
        let builder = EventStreamBuilder {
            xs: Vec::with_capacity(capacity),
            ys: Vec::with_capacity(capacity),
            ts: Vec::with_capacity(capacity),
            ps: Vec::with_capacity(capacity),
            width,
            height,
            scale_bits,
        };
        assert(builder.events() =~= Seq::<RawEvent>::empty());
        builder
    }

    /// Whether a pixel lies on this builder's sensor.
    pub fn admits(&self, x: u16, y: u16) -> (yes: bool)
        ensures
            yes == (x < self.width() && y < self.height()),
    {
        (x as usize) < self.width && (y as usize) < self.height
    }

    /// Appends an event, returning `false` if it lies outside the sensor and was dropped.
    pub fn push(&mut self, x: u16, y: u16, timestamp: i64, polarity: bool) -> (pushed: bool)
        requires
            old(self).wf(),
        ensures
            final(self).wf(),
            final(self).same_grid(old(self)),
            pushed == (x < old(self).width() && y < old(self).height()),
            final(self).events() == if pushed {
                old(self).events().push(RawEvent { x, y, t: timestamp, p: polarity })
            } else {
                old(self).events()
            },
    {
        if x as usize >= self.width || y as usize >= self.height {
            return false;
        }
        self.push_in_bounds(x, y, timestamp, polarity);
        true
    }

    /// Appends an event already known to lie on this builder's sensor.
    pub fn push_in_bounds(&mut self, x: u16, y: u16, timestamp: i64, polarity: bool)
        requires
            old(self).wf(),
            x < old(self).width(),
            y < old(self).height(),
        ensures
            final(self).wf(),
            final(self).same_grid(old(self)),
            final(self).events() == old(self).events().push(
                RawEvent { x, y, t: timestamp, p: polarity },
            ),
    {
        self.xs.push(x);
        self.ys.push(y);
        self.ts.push(timestamp);
        self.ps.push(polarity);
        assert(self.events() =~= old(self).events().push(
            RawEvent { x, y, t: timestamp, p: polarity },
        ));
    }

    /// Appends every event of `stream`, dropping any that fall outside this builder's sensor.
    pub fn extend_from_stream(&mut self, stream: &EventStream)
        requires
            old(self).wf(),
            stream.wf(),
        ensures
            final(self).wf(),
            final(self).same_grid(old(self)),
            final(self).events() == old(self).events() + kept(
                stream.events(),
                old(self).width(),
                old(self).height(),
            ),
    {
        let n: usize = stream.len();
        let mut fits: bool = true;
        let mut index: usize = 0;
        while index < n && fits
            invariant
                stream.wf(),
                n == stream.events().len(),
                index <= n,
                fits ==> forall|i: int|
                    0 <= i < index ==> on_sensor(
                        #[trigger] stream.events()[i],
                        self.width(),
                        self.height(),
                    ),
            decreases n - index,
        {
            let e = stream.get(index);
            fits = (e.x as usize) < self.width && (e.y as usize) < self.height;
            index += 1;
        }
        if fits {
            proof {
                kept_whole(stream.events(), self.width(), self.height());
            }
            self.extend_from_columns(stream.xs(), stream.ys(), stream.ts(), stream.ps());
            assert(rows(stream.xs@, stream.ys@, stream.ts@, stream.ps@) =~= stream.events());
            return;
        }
        let ghost before = self.events();
        let mut at: usize = 0;
        assert(stream.events().take(0) =~= Seq::<RawEvent>::empty());
        assert(before + Seq::<RawEvent>::empty() =~= before);
        while at < n
            invariant
                stream.wf(),
                n == stream.events().len(),
                at <= n,
                self.wf(),
                self.same_grid(old(self)),
                self.events() == before + kept(
                    stream.events().take(at as int),
                    self.width(),
                    self.height(),
                ),
            decreases n - at,
        {
            let e = stream.get(at);
            self.push(e.x, e.y, e.t, e.p);
            proof {
                kept_push(stream.events().take(at as int), e, self.width(), self.height());
                assert(stream.events().take(at + 1) =~= stream.events().take(at as int).push(e));
                assert(self.events() =~= before + kept(
                    stream.events().take(at + 1),
                    self.width(),
                    self.height(),
                ));
            }
            at += 1;
        }
        assert(stream.events().take(n as int) =~= stream.events());
    }

    /// Appends events whose coordinates are already known to lie on this builder's sensor.
    pub fn extend_from_columns(&mut self, xs: &[u16], ys: &[u16], ts: &[i64], ps: &[bool])
        requires
            old(self).wf(),
            xs@.len() == ys@.len(),
            xs@.len() == ts@.len(),
            xs@.len() == ps@.len(),
            forall|i: int|
                0 <= i < xs@.len() ==> #[trigger] xs@[i] < old(self).width() && ys@[i] < old(
                    self,
                ).height(),
        ensures
            final(self).wf(),
            final(self).same_grid(old(self)),
            final(self).events() == old(self).events() + rows(xs@, ys@, ts@, ps@),
    {
        self.xs.extend_from_slice(xs);
        self.ys.extend_from_slice(ys);
        self.ts.extend_from_slice(ts);
        self.ps.extend_from_slice(ps);
        assert(self.xs@ =~= old(self).xs@ + xs@);
        assert(self.ys@ =~= old(self).ys@ + ys@);
        assert(self.ts@ =~= old(self).ts@ + ts@);
        assert(self.ps@ =~= old(self).ps@ + ps@);
        assert(self.events() =~= old(self).events() + rows(xs@, ys@, ts@, ps@));
    }

    /// Reserves room for `additional` more events across every column.
    pub fn reserve(&mut self, additional: usize)
        requires
            old(self).wf(),
        ensures
            final(self).wf(),
            final(self).same_grid(old(self)),
            final(self).events() == old(self).events(),
    {
        self.xs.reserve(additional);
        self.ys.reserve(additional);
        self.ts.reserve(additional);
        self.ps.reserve(additional);
    }

    pub fn len(&self) -> (n: usize)
        ensures
            n == self.events().len(),
    {
        self.xs.len()
    }

    pub fn is_empty(&self) -> (empty: bool)
        ensures
            empty == (self.events().len() == 0),
    {
        self.xs.len() == 0
    }

    /// The finished stream: every event lies on its sensor.
    pub fn build(self) -> (stream: EventStream)
        requires
            self.wf(),
        ensures
            stream.wf(),
            stream.in_bounds(),
            stream.events() == self.events(),
            stream.width() == self.width(),
            stream.height() == self.height(),
            stream.scale() == self.scale(),
    {
        let stream = EventStream {
            xs: self.xs,
            ys: self.ys,
            ts: self.ts,
            ps: self.ps,
            width: self.width,
            height: self.height,
            scale_bits: self.scale_bits,
        };
        assert forall|i: int| 0 <= i < stream.events().len() implies on_sensor(
            #[trigger] stream.events()[i],
            stream.width(),
            stream.height(),
        ) by {
            assert(stream.xs@[i] < stream.width && stream.ys@[i] < stream.height);
        }
        stream
    }
}

} // verus!
