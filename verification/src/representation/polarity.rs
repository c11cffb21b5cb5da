//! How many events of each polarity each cell saw.

use vstd::prelude::*;

use crate::representation::count::{count_data, count_samples};
use crate::representation::{
    event_index, first_outside, first_outside_prefix, frame_len, hits, histogram, histogram_push,
    outside_error, pixel_in_plane, EventFrame, Representation, RepresentationError,
    RepresentationKind,
};
use crate::stream::{EventStream, RawEvent};

verus! {

/// Two planes of event counts, the positive one first.
#[derive(Clone, Copy, Debug)]
pub struct Polarity {
    normalize: bool,
    downsample: usize,
}

impl Default for Polarity {
    fn default() -> (polarity: Self)
        ensures
            !polarity.normalizes(),
            polarity.factor() == 1,
            polarity.wf(),
    {
        Self::new(false)
    }
}

impl Polarity {
    pub closed spec fn normalizes(&self) -> bool {
        self.normalize
    }

    pub closed spec fn factor(&self) -> usize {
        self.downsample
    }

    /// The cells are at least one pixel wide.
    pub open spec fn wf(&self) -> bool {
        self.factor() >= 1
    }

    pub fn new(normalize: bool) -> (polarity: Self)
        ensures
            polarity.normalizes() == normalize,
            polarity.factor() == 1,
            polarity.wf(),
    {
        Polarity { normalize, downsample: 1 }
    }

    /// Bins `factor` by `factor` sensor pixels into one cell.
    pub fn with_downsample(self, factor: usize) -> (polarity: Self)
        ensures
            polarity.normalizes() == self.normalizes(),
            polarity.factor() == if factor == 0 {
                1
            } else {
                factor
            },
            polarity.wf(),
    {
        let downsample: usize = if factor == 0 {
            1
        } else {
            factor
        };
        Polarity { normalize: self.normalize, downsample }
    }

    pub fn is_normalized(&self) -> (yes: bool)
        ensures
            yes == self.normalizes(),
    {
        self.normalize
    }

    pub fn downsample(&self) -> (factor: usize)
        ensures
            factor == self.factor(),
    {
        self.downsample
    }
}

/// How many cells of `factor` pixels cover `n` pixels.
pub open spec fn cells_over(n: int, factor: int) -> int {
    if n % factor == 0 {
        n / factor
    } else {
        n / factor + 1
    }
}

/// The place of an event's cell: the positive plane first, row by row in each.
pub open spec fn polarity_cell(width: int, plane: int, factor: int) -> spec_fn(RawEvent) -> int {
    |e: RawEvent|
        (if e.p {
            0
        } else {
            plane
        }) + (e.y as int / factor) * width + e.x as int / factor
}

/// The two planes of counts of some events on a sensor.
pub open spec fn polarity_histogram(
    events: Seq<RawEvent>,
    width: int,
    height: int,
    factor: int,
) -> Seq<u64> {
    let w = cells_over(width, factor);
    let h = cells_over(height, factor);
    histogram(events, polarity_cell(w, w * h, factor), w * h * 2)
}

/// An event with both coordinates divided.
pub open spec fn divided(e: RawEvent, factor: int) -> RawEvent {
    RawEvent { x: (e.x as int / factor) as u16, y: (e.y as int / factor) as u16, t: e.t, p: e.p }
}

/// A binned count is the full-resolution count of the events with their coordinates divided.
pub proof fn binning_divides(
    events: Seq<RawEvent>,
    width: int,
    plane: int,
    factor: int,
    length: int,
)
    requires
        factor >= 1,
        length >= 0,
    ensures
        histogram(events, polarity_cell(width, plane, factor), length) == histogram(
            Seq::new(events.len(), |i: int| divided(events[i], factor)),
            polarity_cell(width, plane, 1),
            length,
        ),
{
    let others = Seq::new(events.len(), |i: int| divided(events[i], factor));
    assert forall|i: int| 0 <= i < length implies hits(
        events,
        polarity_cell(width, plane, factor),
        i,
    ) == hits(others, polarity_cell(width, plane, 1), i) by {
        binning_divides_at(events, width, plane, factor, i);
    }
    assert(histogram(events, polarity_cell(width, plane, factor), length) =~= histogram(
        others,
        polarity_cell(width, plane, 1),
        length,
    ));
}

proof fn quotient_fits(n: int, factor: int)
    requires
        0 <= n,
        factor >= 1,
    ensures
        0 <= n / factor <= n,
{
    assert(0 <= n / factor <= n) by (nonlinear_arith)
        requires
            0 <= n,
            factor >= 1,
    ;
}

proof fn binning_divides_at(
    events: Seq<RawEvent>,
    width: int,
    plane: int,
    factor: int,
    i: int,
)
    requires
        factor >= 1,
    ensures
        hits(events, polarity_cell(width, plane, factor), i) == hits(
            Seq::new(events.len(), |i: int| divided(events[i], factor)),
            polarity_cell(width, plane, 1),
            i,
        ),
    decreases events.len(),
{
    let others = Seq::new(events.len(), |i: int| divided(events[i], factor));
    if events.len() > 0 {
        let e = events.last();
        binning_divides_at(events.drop_last(), width, plane, factor, i);
        assert(others.drop_last() =~= Seq::new(
            events.drop_last().len(),
            |i: int| divided(events.drop_last()[i], factor),
        ));
        quotient_fits(e.x as int, factor);
        quotient_fits(e.y as int, factor);
        assert(others.last() == divided(e, factor));
        let d = divided(e, factor);
        assert(d.x == e.x as int / factor);
        assert(d.y == e.y as int / factor);
        assert(d.x as int / 1 == d.x && d.y as int / 1 == d.y);
        assert(polarity_cell(width, plane, factor)(e) == polarity_cell(width, plane, 1)(d));
    }
}

/// A cell of a binned grid lies in its plane.
proof fn cell_in_plane(x: int, n: int, factor: int)
    requires
        0 <= x < n,
        factor >= 1,
    ensures
        0 <= x / factor < cells_over(n, factor),
{
    assert(0 <= x / factor) by (nonlinear_arith)
        requires
            0 <= x,
            factor >= 1,
    ;
    assert(n % factor == 0 ==> x / factor < n / factor) by (nonlinear_arith)
        requires
            0 <= x < n,
            factor >= 1,
    ;
    assert(x / factor <= n / factor) by (nonlinear_arith)
        requires
            0 <= x < n,
            factor >= 1,
    ;
}

fn cover(n: usize, factor: usize) -> (cells: usize)
    requires
        factor >= 1,
    ensures
        cells == cells_over(n as int, factor as int),
        cells <= n,
{
    proof {
        quotient_fits(n as int, factor as int);
        if n % factor != 0 {
            assert(n as int / factor as int + 1 <= n) by (nonlinear_arith)
                requires
                    factor >= 1,
                    0 <= n,
                    n as int % factor as int != 0,
            ;
        }
    }
    if n % factor == 0 {
        n / factor
    } else {
        n / factor + 1
    }
}

/// Per-cell, per-polarity counts accumulated one event at a time.
#[derive(Debug)]
pub struct PolarityAccumulator {
    counts: Vec<u64>,
    width: usize,
    height: usize,
    plane: usize,
    factor: usize,
}

impl PolarityAccumulator {
    /// The counts so far, the positive plane first.
    pub closed spec fn counts(&self) -> Seq<u64> {
        self.counts@
    }

    /// The number of cells in a row.
    pub closed spec fn width(&self) -> int {
        self.width as int
    }

    /// The number of rows of cells.
    pub closed spec fn height(&self) -> int {
        self.height as int
    }

    pub closed spec fn factor(&self) -> int {
        self.factor as int
    }

    pub closed spec fn wf(&self) -> bool {
        &&& self.factor >= 1
        &&& self.plane == self.width * self.height
        &&& self.counts@.len() == self.plane * 2
        &&& self.plane * 2 <= usize::MAX
    }

    /// Where an event is counted.
    pub open spec fn cell(&self) -> spec_fn(RawEvent) -> int {
        polarity_cell(self.width(), self.width() * self.height(), self.factor())
    }

    /// Whether an event's cell is on the grid.
    pub open spec fn covers(&self, e: RawEvent) -> bool {
        &&& e.x as int / self.factor() < self.width()
        &&& e.y as int / self.factor() < self.height()
    }

    /// The counts are those of `events`.
    pub open spec fn holds(&self, events: Seq<RawEvent>) -> bool {
        self.counts() == histogram(events, self.cell(), self.width() * self.height() * 2)
    }

    /// An empty accumulator for a sensor binned by `factor`.
    pub fn new(sensor_width: usize, sensor_height: usize, factor: usize) -> (accumulator: Result<
        Self,
        RepresentationError,
    >)
        ensures
            ({
                let f = if factor == 0 {
                    1
                } else {
                    factor as int
                };
                let w = cells_over(sensor_width as int, f);
                let h = cells_over(sensor_height as int, f);
                match accumulator {
                    Ok(a) => {
                        &&& w * h * 2 <= usize::MAX
                        &&& a.wf()
                        &&& a.width() == w
                        &&& a.height() == h
                        &&& a.factor() == f
                        &&& a.holds(Seq::empty())
                    },
                    Err(e) => e == RepresentationError::SizeOverflow && w * h * 2 > usize::MAX,
                }
            }),
    {
        let factor: usize = if factor == 0 {
            1
        } else {
            factor
        };
        let width = cover(sensor_width, factor);
        let height = cover(sensor_height, factor);
        let plane = match width.checked_mul(height) {
            Some(plane) => plane,
            None => {
                return Err(RepresentationError::SizeOverflow);
            },
        };
        let length = match plane.checked_mul(2) {
            Some(length) => length,
            None => {
                return Err(RepresentationError::SizeOverflow);
            },
        };
        let mut counts: Vec<u64> = Vec::new();
        counts.resize(length, 0);
        let accumulator = PolarityAccumulator { counts, width, height, plane, factor };
        assert(accumulator.counts() =~= histogram(
            Seq::empty(),
            accumulator.cell(),
            accumulator.width() * accumulator.height() * 2,
        ));
        Ok(accumulator)
    }

    /// Zeroes the counts so that the buffer can take the next window.
    pub fn reset(&mut self)
        requires
            old(self).wf(),
        ensures
            final(self).wf(),
            final(self).width() == old(self).width(),
            final(self).height() == old(self).height(),
            final(self).factor() == old(self).factor(),
            final(self).holds(Seq::empty()),
    {
        let n: usize = self.counts.len();
        for i in 0..n
            invariant
                self.wf(),
                n == self.counts@.len(),
                self.width() == old(self).width(),
                self.height() == old(self).height(),
                self.factor() == old(self).factor(),
                forall|j: int| 0 <= j < i ==> #[trigger] self.counts@[j] == 0,
        {
            self.counts.set(i, 0);
        }
        assert(self.counts() =~= histogram(
            Seq::empty(),
            self.cell(),
            self.width() * self.height() * 2,
        ));
    }

    /// Counts one event.
    pub fn push(&mut self, x: u16, y: u16, t: i64, p: bool)
        requires
            old(self).wf(),
            old(self).covers(RawEvent { x, y, t, p }),
            old(self).counts()[old(self).cell()(RawEvent { x, y, t, p })] < u64::MAX,
        ensures
            final(self).wf(),
            final(self).width() == old(self).width(),
            final(self).height() == old(self).height(),
            final(self).factor() == old(self).factor(),
            0 <= old(self).cell()(RawEvent { x, y, t, p }) < old(self).counts().len(),
            final(self).counts() == old(self).counts().update(
                old(self).cell()(RawEvent { x, y, t, p }),
                (old(self).counts()[old(self).cell()(RawEvent { x, y, t, p })] + 1) as u64,
            ),
    {
        let cx: usize = x as usize / self.factor;
        let cy: usize = y as usize / self.factor;
        proof {
            quotient_fits(x as int, self.factor as int);
            quotient_fits(y as int, self.factor as int);
            pixel_in_plane(cx as int, cy as int, self.width as int, self.height as int);
            assert(0 <= cy * self.width) by (nonlinear_arith)
                requires
                    0 <= cy,
                    0 <= self.width,
            ;
        }
        let offset: usize = if p {
            0
        } else {
            self.plane
        };
        let index: usize = offset + cy * self.width + cx;
        self.counts.set(index, self.counts[index] + 1);
    }

    /// The accumulated frame: raw counts, or counts rescaled to the busiest cell.
    pub fn into_frame(self, normalize: bool) -> (frame: EventFrame)
        requires
            self.wf(),
        ensures
            count_samples(frame.samples(), self.counts(), normalize),
            frame.width() == self.width(),
            frame.height() == self.height(),
            frame.shown() == RepresentationKind::Polarity,
            frame.names() == seq!["positive"@, "negative"@],
            frame.wf(),
    {
        two_planes(self.counts, self.width, self.height, normalize)
    }
}

/// Pushing an event adds it to the counted ones.
pub proof fn accumulates(
    before: PolarityAccumulator,
    after: PolarityAccumulator,
    events: Seq<RawEvent>,
    e: RawEvent,
)
    requires
        before.wf(),
        before.holds(events),
        before.covers(e),
        after.width() == before.width(),
        after.height() == before.height(),
        after.factor() == before.factor(),
        0 <= before.cell()(e) < before.counts().len(),
        after.counts() == before.counts().update(
            before.cell()(e),
            (before.counts()[before.cell()(e)] + 1) as u64,
        ),
        events.len() < u64::MAX,
    ensures
        after.holds(events.push(e)),
{
    histogram_push(events, e, before.cell(), before.width() * before.height() * 2);
}

/// A frame of two planes of counts.
fn two_planes(counts: Vec<u64>, width: usize, height: usize, normalize: bool) -> (frame: EventFrame)
    requires
        counts@.len() == (width * height) * 2,
    ensures
        count_samples(frame.samples(), counts@, normalize),
        frame.width() == width,
        frame.height() == height,
        frame.shown() == RepresentationKind::Polarity,
        frame.names() == seq!["positive"@, "negative"@],
        frame.wf(),
{
    let mut names: Vec<String> = Vec::new();
    names.push("positive".to_owned());
    names.push("negative".to_owned());
    let frame = EventFrame::from_parts(
        count_data(counts, normalize),
        width,
        height,
        RepresentationKind::Polarity,
        names,
    );
    assert(frame.names() =~= seq!["positive"@, "negative"@]);
    assert((width * height) * 2 == 2 * (width * height)) by (nonlinear_arith);
    frame
}

/// Per-pixel event counts split into a positive plane and a negative one, row by row in each.
pub fn polarity_counts(stream: &EventStream) -> (planes: Result<
    (usize, usize, Vec<u64>),
    RepresentationError,
>)
    requires
        stream.wf(),
    ensures
        match planes {
            Ok((w, h, counts)) => {
                &&& w == stream.width()
                &&& h == stream.height()
                &&& stream.width() * stream.height() * 2 <= usize::MAX
                &&& first_outside(stream.events(), stream.width(), stream.height())
                    == stream.events().len()
                &&& counts@ == polarity_histogram(
                    stream.events(),
                    stream.width(),
                    stream.height(),
                    1,
                )
                &&& counts@.len() == stream.width() * stream.height() * 2
            },
            Err(RepresentationError::SizeOverflow) => stream.width() * stream.height() * 2
                > usize::MAX,
            Err(e) => {
                &&& stream.width() * stream.height() * 2 <= usize::MAX
                &&& first_outside(stream.events(), stream.width(), stream.height())
                    < stream.events().len()
                &&& e == outside_error(stream.events(), stream.width(), stream.height())
            },
        },
{
    proof {
        stream.size_fits();
        assert(0 <= stream.width() * stream.height()) by (nonlinear_arith)
            requires
                0 <= stream.width(),
                0 <= stream.height(),
        ;
    }
    let (width, height, length) = match frame_len(stream, 2) {
        Ok(sizes) => sizes,
        Err(error) => {
            return Err(error);
        },
    };
    let plane: usize = width * height;
    let mut counts: Vec<u64> = Vec::new();
    counts.resize(length, 0);
    let n: usize = stream.len();
    let ghost events = stream.events();
    let ghost cell = polarity_cell(width as int, plane as int, 1);
    assert(events.take(0) =~= Seq::<RawEvent>::empty());
    assert(counts@ =~= histogram(events.take(0), cell, length as int));
    for i in 0..n
        invariant
            stream.wf(),
            events == stream.events(),
            n == events.len(),
            width == stream.width(),
            height == stream.height(),
            plane == width * height,
            length == plane * 2,
            cell == polarity_cell(width as int, plane as int, 1),
            counts@ == histogram(events.take(i as int), cell, length as int),
            first_outside(events.take(i as int), width as int, height as int) == i,
    {
        let ghost before = events.take(i as int);
        let ghost after = events.take(i + 1);
        assert(after.drop_last() =~= before);
        assert(after =~= before.push(events[i as int]));
        let event = stream.event(i);
        match event_index(event, width, height) {
            Ok(index) => {
                let offset: usize = if event.polarity {
                    0
                } else {
                    plane
                };
                proof {
                    let e = events[i as int];
                    assert(e.x as int / 1 == e.x && e.y as int / 1 == e.y);
                    assert(cell(e) == offset + index);
                    histogram_push(before, e, cell, length as int);
                }
                counts.set(offset + index, counts[offset + index] + 1);
                assert(counts@ =~= histogram(after, cell, length as int));
            },
            Err(error) => {
                proof {
                    first_outside_prefix(events, i as int, width as int, height as int);
                }
                return Err(error);
            },
        }
    }
    assert(events.take(n as int) =~= events);
    assert(width as int / 1 == width && height as int / 1 == height);
    assert(width as int % 1 == 0 && height as int % 1 == 0);
    Ok((width, height, counts))
}

impl Polarity {
    /// Counts every event of a stream into an accumulator over its sensor.
    fn fill(&self, stream: &EventStream, accumulator: &mut PolarityAccumulator) -> (outcome: Result<
        (),
        RepresentationError,
    >)
        requires
            stream.wf(),
            self.wf(),
            old(accumulator).wf(),
            old(accumulator).holds(Seq::empty()),
            old(accumulator).factor() == self.factor(),
            old(accumulator).width() == cells_over(stream.width(), self.factor() as int),
            old(accumulator).height() == cells_over(stream.height(), self.factor() as int),
        ensures
            final(accumulator).wf(),
            final(accumulator).factor() == old(accumulator).factor(),
            final(accumulator).width() == old(accumulator).width(),
            final(accumulator).height() == old(accumulator).height(),
            match outcome {
                Ok(()) => {
                    &&& first_outside(stream.events(), stream.width(), stream.height())
                        == stream.events().len()
                    &&& final(accumulator).holds(stream.events())
                },
                Err(e) => {
                    &&& first_outside(stream.events(), stream.width(), stream.height())
                        < stream.events().len()
                    &&& e == outside_error(stream.events(), stream.width(), stream.height())
                },
            },
    {
        let (width, height) = stream.sensor_size();
        let n: usize = stream.len();
        let ghost events = stream.events();
        assert(events.take(0) =~= Seq::<RawEvent>::empty());
        for i in 0..n
            invariant
                stream.wf(),
                self.wf(),
                events == stream.events(),
                n == events.len(),
                width == stream.width(),
                height == stream.height(),
                accumulator.wf(),
                accumulator.factor() == self.factor(),
                accumulator.factor() == old(accumulator).factor(),
                accumulator.width() == old(accumulator).width(),
                accumulator.height() == old(accumulator).height(),
                accumulator.width() == cells_over(width as int, self.factor() as int),
                accumulator.height() == cells_over(height as int, self.factor() as int),
                accumulator.holds(events.take(i as int)),
                first_outside(events.take(i as int), width as int, height as int) == i,
        {
            let ghost before = events.take(i as int);
            let ghost after = events.take(i + 1);
            assert(after.drop_last() =~= before);
            assert(after =~= before.push(events[i as int]));
            let e = stream.get(i);
            if e.x as usize >= width || e.y as usize >= height {
                proof {
                    first_outside_prefix(events, i as int, width as int, height as int);
                }
                return Err(
                    RepresentationError::EventOutOfBounds {
                        x: e.x as usize,
                        y: e.y as usize,
                        width,
                        height,
                    },
                );
            }
            let ghost earlier = *accumulator;
            proof {
                cell_in_plane(e.x as int, width as int, self.factor() as int);
                cell_in_plane(e.y as int, height as int, self.factor() as int);
                earlier.room(before, e);
            }
            accumulator.push(e.x, e.y, e.t, e.p);
            proof {
                assert(RawEvent { x: e.x, y: e.y, t: e.t, p: e.p } == e);
                accumulates(earlier, *accumulator, before, e);
            }
        }
        assert(events.take(n as int) =~= events);
        Ok(())
    }
}

impl PolarityAccumulator {
    /// A counter that holds fewer events than there are numbers has room for one more.
    proof fn room(&self, events: Seq<RawEvent>, e: RawEvent)
        requires
            self.wf(),
            self.holds(events),
            self.covers(e),
            events.len() < u64::MAX,
        ensures
            self.counts()[self.cell()(e)] < u64::MAX,
    {
        quotient_fits(e.x as int, self.factor as int);
        quotient_fits(e.y as int, self.factor as int);
        pixel_in_plane(
            e.x as int / self.factor(),
            e.y as int / self.factor(),
            self.width(),
            self.height(),
        );
        histogram_push(events, e, self.cell(), self.width() * self.height() * 2);
    }
}

impl Representation for Polarity {
    type Output = EventFrame;

    fn generate(&self, stream: &EventStream) -> (frame: Result<EventFrame, RepresentationError>)
        ensures
            self.wf() ==> ({
                let f = self.factor() as int;
                let w = cells_over(stream.width(), f);
                let h = cells_over(stream.height(), f);
                match frame {
                    Ok(frame) => {
                        &&& w * h * 2 <= usize::MAX
                        &&& first_outside(stream.events(), stream.width(), stream.height())
                            == stream.events().len()
                        &&& count_samples(
                            frame.samples(),
                            polarity_histogram(
                                stream.events(),
                                stream.width(),
                                stream.height(),
                                f,
                            ),
                            self.normalizes(),
                        )
                        &&& frame.width() == w
                        &&& frame.height() == h
                        &&& frame.shown() == RepresentationKind::Polarity
                        &&& frame.names() == seq!["positive"@, "negative"@]
                        &&& frame.wf()
                    },
                    Err(RepresentationError::SizeOverflow) => w * h * 2 > usize::MAX,
                    Err(e) => {
                        &&& w * h * 2 <= usize::MAX
                        &&& first_outside(stream.events(), stream.width(), stream.height())
                            < stream.events().len()
                        &&& e == outside_error(stream.events(), stream.width(), stream.height())
                    },
                }
            }),
    {
        let (width, height) = stream.sensor_size();
        if self.downsample > 1 {
            let mut accumulator = match PolarityAccumulator::new(width, height, self.downsample) {
                Ok(accumulator) => accumulator,
                Err(error) => {
                    return Err(error);
                },
            };
            return match self.fill(stream, &mut accumulator) {
                Ok(()) => Ok(accumulator.into_frame(self.normalize)),
                Err(error) => Err(error),
            };
        }
        proof {
            assert(width as int / 1 == width && height as int / 1 == height);
            assert(width as int % 1 == 0 && height as int % 1 == 0);
        }
        match polarity_counts(stream) {
            Ok((width, height, counts)) => Ok(two_planes(counts, width, height, self.normalize)),
            Err(error) => Err(error),
        }
    }
}

} // verus!
