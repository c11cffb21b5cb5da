//! Surfaces of event ages: how long ago each pixel was hit.
//!
//! Ages are counted in ticks. The exponential decay that makes a surface of them is applied by the
//! caller, and comes back as the bit patterns of single precision numbers.

use vstd::prelude::*;

use crate::floats::{finite, is_finite, order};
use crate::representation::{
    age, event_index, first_outside, first_outside_prefix, frame_len, hits, histogram,
    histogram_push, latest_time, outside_error, reference_time, EventFrame, EventFrameData,
    RepresentationError, RepresentationKind,
};
use crate::stream::{widened, EventStream, RawEvent};

verus! {

/// Whether a double precision number is finite and positive.
pub open spec fn is_positive(bits: u64) -> bool {
    is_finite(bits) && order(bits) > 0
}

/// Accepts a parameter that is finite and positive, given by its bit pattern.
pub fn validate_positive(bits: u64, name: &'static str) -> (valid: Result<(), RepresentationError>)
    ensures
        match valid {
            Ok(()) => is_positive(bits),
            Err(e) => !is_positive(bits) && e == RepresentationError::InvalidParameter(name),
        },
{
    if finite(bits) && bits > 0 && bits < 0x8000_0000_0000_0000 {
        Ok(())
    } else {
        Err(RepresentationError::InvalidParameter(name))
    }
}

/// The cells of events: positive ones in the first plane, negative ones in the second.
pub open spec fn split_cell(width: int, height: int) -> spec_fn(RawEvent) -> int {
    |e: RawEvent|
        e.y * width + e.x + if e.p {
            0int
        } else {
            width * height
        }
}

/// The cell of every event.
pub open spec fn cells_of(events: Seq<RawEvent>, cell: spec_fn(RawEvent) -> int) -> Seq<usize> {
    Seq::new(events.len(), |i: int| cell(events[i]) as usize)
}

/// Whether a stream has a cell for every event, in `channels` planes; the error if not.
pub open spec fn cell_fault(stream: &EventStream, channels: int) -> Option<RepresentationError> {
    if stream.width() * stream.height() > usize::MAX || stream.width() * stream.height() * channels
        > usize::MAX {
        Some(RepresentationError::SizeOverflow)
    } else if first_outside(stream.events(), stream.width(), stream.height())
        < stream.events().len() {
        Some(outside_error(stream.events(), stream.width(), stream.height()))
    } else {
        None
    }
}

/// The cells of the events of a stream, and how many there are.
struct Cells {
    width: usize,
    height: usize,
    length: usize,
    cells: Vec<usize>,
}

fn split_cells(stream: &EventStream) -> (cells: Result<Cells, RepresentationError>)
    requires
        stream.wf(),
    ensures
        match cells {
            Ok(c) => {
                &&& cell_fault(stream, 2) is None
                &&& c.width == stream.width()
                &&& c.height == stream.height()
                &&& c.length == stream.width() * stream.height() * 2
                &&& c.cells@ == cells_of(
                    stream.events(),
                    split_cell(stream.width(), stream.height()),
                )
                &&& forall|i: int|
                    0 <= i < c.cells@.len() ==> #[trigger] c.cells@[i] < c.length && c.cells@[i]
                        == split_cell(stream.width(), stream.height())(stream.events()[i])
            },
            Err(e) => cell_fault(stream, 2) == Some(e),
        },
{
    proof {
        stream.size_fits();
        assert(0 <= stream.width() * stream.height()) by (nonlinear_arith)
            requires
                0 <= stream.width(),
                0 <= stream.height(),
        ;
    }
    let (width, height, length) = match frame_len(stream, 2) {
        Ok(sizes) => sizes,
        Err(error) => {
            return Err(error);
        },
    };
    let plane: usize = width * height;
    let n: usize = stream.len();
    let ghost events = stream.events();
    let ghost cell = split_cell(width as int, height as int);
    let mut cells: Vec<usize> = Vec::with_capacity(n);
    assert(events.take(0) =~= Seq::<RawEvent>::empty());
    for i in 0..n
        invariant
            stream.wf(),
            events == stream.events(),
            n == events.len(),
            width == stream.width(),
            height == stream.height(),
            plane == width * height,
            length == plane * 2,
            stream.width() * stream.height() <= usize::MAX,
            stream.width() * stream.height() * 2 <= usize::MAX,
            cell == split_cell(width as int, height as int),
            first_outside(events.take(i as int), width as int, height as int) == i,
            cells@.len() == i,
            forall|j: int|
                0 <= j < i ==> #[trigger] cells@[j] < length && cells@[j] == cell(events[j]),
    {
        assert(events.take(i + 1).drop_last() =~= events.take(i as int));
        let event = stream.event(i);
        match event_index(event, width, height) {
            Ok(index) => {
                cells.push(
                    if event.polarity {
                        index
                    } else {
                        index + plane
                    },
                );
            },
            Err(error) => {
                proof {
                    first_outside_prefix(events, i as int, width as int, height as int);
                }
                return Err(error);
            },
        }
    }
    assert(events.take(n as int) =~= events);
    assert(cells@ =~= cells_of(events, cell));
    Ok(Cells { width, height, length, cells })
}

/// The latest time of the events in cell `i`, if there are any.
pub open spec fn newest(events: Seq<RawEvent>, cell: spec_fn(RawEvent) -> int, i: int) -> Option<u64>
    decreases events.len(),
{
    if events.len() == 0 {
        None
    } else {
        let before = newest(events.drop_last(), cell, i);
        let t = widened(events.last()).timestamp;
        if cell(events.last()) != i {
            before
        } else {
            match before {
                Some(m) if m >= t => before,
                _ => Some(t),
            }
        }
    }
}

/// No event in a cell is later than its latest, which is one of them.
pub proof fn newest_is_latest(
    events: Seq<RawEvent>,
    cell: spec_fn(RawEvent) -> int,
    i: int,
)
    ensures
        newest(events, cell, i) is None <==> hits(events, cell, i) == 0,
        newest(events, cell, i) is None ==> forall|k: int|
            0 <= k < events.len() ==> cell(#[trigger] events[k]) != i,
        newest(events, cell, i) matches Some(m) ==> exists|k: int|
            0 <= k < events.len() && cell(#[trigger] events[k]) == i && widened(
                events[k],
            ).timestamp == m,
        newest(events, cell, i) matches Some(m) ==> forall|k: int|
            0 <= k < events.len() && cell(#[trigger] events[k]) == i ==> widened(
                events[k],
            ).timestamp <= m,
    decreases events.len(),
{
    if events.len() > 0 {
        let rest = events.drop_last();
        newest_is_latest(rest, cell, i);
        let now = newest(events, cell, i);
        let before = newest(rest, cell, i);
        assert forall|k: int| 0 <= k < rest.len() implies #[trigger] events[k] == rest[k] by {}
        if now is Some {
            if before == now {
                let k = choose|k: int|
                    0 <= k < rest.len() && cell(#[trigger] rest[k]) == i && widened(
                        rest[k],
                    ).timestamp == now->0;
                assert(events[k] == rest[k]);
            } else {
                assert(cell(events[events.len() - 1]) == i);
            }
            assert forall|k: int|
                0 <= k < events.len() && cell(#[trigger] events[k]) == i implies widened(
                events[k],
            ).timestamp <= now->0 by {
                if k < rest.len() {
                    assert(events[k] == rest[k]);
                }
            }
        }
    }
}

/// The age of each cell of a surface, in ticks; `None` where nothing happened.
#[derive(Debug)]
pub struct AgeSurface {
    pub width: usize,
    pub height: usize,
    pub ages: Vec<Option<u64>>,
}

/// The ages of the cells of a stream, measured from its latest event.
pub open spec fn surface_ages(stream: &EventStream) -> Seq<Option<u64>> {
    let cell = split_cell(stream.width(), stream.height());
    Seq::new(
        (stream.width() * stream.height() * 2) as nat,
        |i: int|
            match newest(stream.events(), cell, i) {
                Some(t) => Some(age(latest_time(stream.events())->0, t)),
                None => None,
            },
    )
}

/// An exponentially decaying surface of the latest event at each pixel, one plane per polarity.
#[derive(Clone, Copy, Debug)]
pub struct TimeSurface {
    /// The bit pattern of the decay time in milliseconds.
    tau_bits: u64,
}

impl TimeSurface {
    pub closed spec fn tau(&self) -> u64 {
        self.tau_bits
    }

    /// A surface with a decay time in milliseconds, given by its bit pattern.
    pub fn new(tau_bits: u64) -> (surface: Self)
        ensures
            surface.tau() == tau_bits,
    {
        TimeSurface { tau_bits }
    }

    /// The age of the latest event in each cell.
    pub fn ages(&self, stream: &EventStream) -> (surface: Result<AgeSurface, RepresentationError>)
        requires
            stream.wf(),
        ensures
            match surface {
                Ok(s) => {
                    &&& is_positive(self.tau())
                    &&& cell_fault(stream, 2) is None
                    &&& s.width == stream.width()
                    &&& s.height == stream.height()
                    &&& s.ages@ == surface_ages(stream)
                },
                Err(e) => if !is_positive(self.tau()) {
                    e == RepresentationError::InvalidParameter("tau_ms")
                } else {
                    cell_fault(stream, 2) == Some(e)
                },
            },
    {
        match validate_positive(self.tau_bits, "tau_ms") {
            Ok(()) => {},
            Err(error) => {
                return Err(error);
            },
        }
        let places = match split_cells(stream) {
            Ok(places) => places,
            Err(error) => {
                return Err(error);
            },
        };
        let length = places.length;
        let mut latest: Vec<Option<u64>> = Vec::new();
        latest.resize(length, None);
        let n: usize = stream.len();
        let ghost events = stream.events();
        let ghost cell = split_cell(stream.width(), stream.height());
        assert(events.take(0) =~= Seq::<RawEvent>::empty());
        for i in 0..n
            invariant
                stream.wf(),
                events == stream.events(),
                n == events.len(),
                n == places.cells@.len(),
                latest@.len() == length,
                forall|j: int|
                    0 <= j < n ==> #[trigger] places.cells@[j] < length && places.cells@[j] == cell(
                        events[j],
                    ),
                forall|j: int|
                    0 <= j < length ==> #[trigger] latest@[j] == newest(
                        events.take(i as int),
                        cell,
                        j,
                    ),
        {
            assert(events.take(i + 1).drop_last() =~= events.take(i as int));
            assert(events.take(i + 1).last() == events[i as int]);
            let index = places.cells[i];
            let t = stream.event(i).timestamp;
            let later = match latest[index] {
                Some(m) => t > m,
                None => true,
            };
            if later {
                latest.set(index, Some(t));
            }
        }
        assert(events.take(n as int) =~= events);
        let mut ages: Vec<Option<u64>> = Vec::with_capacity(length);
        let reference = reference_time(stream);
        for i in 0..length
            invariant
                length == latest@.len(),
                ages@.len() == i,
                reference == latest_time(stream.events()),
                forall|j: int|
                    0 <= j < i ==> #[trigger] ages@[j] == match latest@[j] {
                        Some(t) => Some(age(reference->0, t)),
                        None => None::<u64>,
                    },
                n == 0 || reference is Some,
                n == 0 ==> forall|j: int| 0 <= j < length ==> #[trigger] latest@[j] is None,
        {
            match latest[i] {
                Some(t) => {
                    let r = match reference {
                        Some(r) => r,
                        None => t,
                    };
                    ages.push(
                        Some(
                            if r >= t {
                                r - t
                            } else {
                                0
                            },
                        ),
                    );
                },
                None => {
                    ages.push(None);
                },
            }
        }
        assert(ages@ =~= surface_ages(stream));
        Ok(AgeSurface { width: places.width, height: places.height, ages })
    }

    /// The frame of a surface, given the decayed value of each cell.
    pub fn frame(&self, surface: &AgeSurface, values: Vec<u32>) -> (frame: EventFrame)
        requires
            values@.len() == surface.ages@.len(),
        ensures
            is_surface(
                frame,
                surface.width,
                surface.height,
                values@,
                RepresentationKind::TimeSurface,
            ),
    {
        surface_frame(surface.width, surface.height, values, RepresentationKind::TimeSurface)
    }
}

/// A frame of two planes, one per polarity.
pub open spec fn is_surface(
    frame: EventFrame,
    width: usize,
    height: usize,
    values: Seq<u32>,
    kind: RepresentationKind,
) -> bool {
    &&& frame.samples() matches EventFrameData::F32(v) && v@ == values
    &&& frame.width() == width
    &&& frame.height() == height
    &&& frame.shown() == kind
    &&& frame.names() == seq!["positive"@, "negative"@]
}

fn surface_frame(width: usize, height: usize, values: Vec<u32>, kind: RepresentationKind) -> (frame:
    EventFrame)
    ensures
        is_surface(frame, width, height, values@, kind),
{
    let mut names: Vec<String> = Vec::new();
    names.push("positive".to_owned());
    names.push("negative".to_owned());
    let ghost all = crate::representation::names_of(names@);
    assert(all =~= seq!["positive"@, "negative"@]);
    EventFrame::from_parts(EventFrameData::F32(values), width, height, kind, names)
}

/// The cells that some events hit, in the order in which they were first hit.
pub open spec fn first_hits(cells: Seq<usize>) -> Seq<usize>
    decreases cells.len(),
{
    if cells.len() == 0 {
        Seq::empty()
    } else {
        let before = first_hits(cells.drop_last());
        if cells.drop_last().contains(cells.last()) {
            before
        } else {
            before.push(cells.last())
        }
    }
}

/// What is averaged at each pixel: the cell and the age of every event, in order, and how many
/// events each cell saw.
#[derive(Debug)]
pub struct AveragePlan {
    pub width: usize,
    pub height: usize,
    pub cells: Vec<usize>,
    pub ages: Vec<u64>,
    pub counts: Vec<u64>,
    /// The cells with events, in the order of their first event, if events are few.
    pub touched: Option<Vec<usize>>,
}

/// The mean response of all events at each pixel, one plane per polarity.
#[derive(Clone, Copy, Debug)]
pub struct AveragedTimeSurface {
    /// The bit pattern of the decay time in milliseconds.
    tau_bits: u64,
}

impl AveragedTimeSurface {
    pub closed spec fn tau(&self) -> u64 {
        self.tau_bits
    }

    /// A surface with a decay time in milliseconds, given by its bit pattern.
    pub fn new(tau_bits: u64) -> (surface: Self)
        ensures
            surface.tau() == tau_bits,
    {
        AveragedTimeSurface { tau_bits }
    }

    /// What is averaged at each pixel.
    pub fn plan(&self, stream: &EventStream) -> (plan: Result<AveragePlan, RepresentationError>)
        requires
            stream.wf(),
        ensures
            match plan {
                Ok(p) => {
                    let cell = split_cell(stream.width(), stream.height());
                    let length = stream.width() * stream.height() * 2;
                    &&& is_positive(self.tau())
                    &&& cell_fault(stream, 2) is None
                    &&& p.width == stream.width()
                    &&& p.height == stream.height()
                    &&& p.cells@ == cells_of(stream.events(), cell)
                    &&& p.ages@ == Seq::new(
                        stream.events().len(),
                        |i: int|
                            age(
                                latest_time(stream.events())->0,
                                widened(stream.events()[i]).timestamp,
                            ),
                    )
                    &&& p.counts@ == histogram(stream.events(), cell, length)
                    &&& p.touched is Some <==> stream.events().len() * 4 <= length
                    &&& p.touched matches Some(t) ==> t@ == first_hits(
                        cells_of(stream.events(), cell),
                    )
                },
                Err(e) => if !is_positive(self.tau()) {
                    e == RepresentationError::InvalidParameter("tau_ms")
                } else {
                    cell_fault(stream, 2) == Some(e)
                },
            },
    {
        match validate_positive(self.tau_bits, "tau_ms") {
            Ok(()) => {},
            Err(error) => {
                return Err(error);
            },
        }
        let places = match split_cells(stream) {
            Ok(places) => places,
            Err(error) => {
                return Err(error);
            },
        };
        let length = places.length;
        let n: usize = stream.len();
        let few: bool = n <= length / 4;
        let mut counts: Vec<u64> = Vec::new();
        counts.resize(length, 0);
        let mut ages: Vec<u64> = Vec::with_capacity(n);
        let mut touched: Vec<usize> = Vec::new();
        let reference = reference_time(stream);
        let ghost events = stream.events();
        let ghost cell = split_cell(stream.width(), stream.height());
        let ghost cells = cells_of(events, cell);
        assert(events.take(0) =~= Seq::<RawEvent>::empty());
        assert(cells.take(0) =~= Seq::<usize>::empty());
        assert(counts@ =~= histogram(events.take(0), cell, length as int));
        for i in 0..n
            invariant
                stream.wf(),
                events == stream.events(),
                n == events.len(),
                n == places.cells@.len(),
                reference == latest_time(events),
                length == places.length,
                cells == places.cells@,
                forall|j: int|
                    0 <= j < n ==> #[trigger] places.cells@[j] < length && places.cells@[j] == cell(
                        events[j],
                    ),
                counts@ == histogram(events.take(i as int), cell, length as int),
                forall|j: int|
                    0 <= j < length ==> (#[trigger] counts@[j] > 0) == cells.take(
                        i as int,
                    ).contains(j as usize),
                ages@.len() == i,
                forall|j: int|
                    0 <= j < i ==> #[trigger] ages@[j] == age(
                        reference->0,
                        widened(events[j]).timestamp,
                    ),
                few ==> touched@ == first_hits(cells.take(i as int)),
        {
            let index = places.cells[i];
            let ghost before = events.take(i as int);
            let ghost seen = cells.take(i as int);
            let ghost counted = counts@;
            let t = stream.event(i).timestamp;
            proof {
                assert(cells.take(i + 1).drop_last() =~= seen);
                assert(cells.take(i + 1).last() == index);
                assert(events.take(i + 1) =~= before.push(events[i as int]));
                histogram_push(before, events[i as int], cell, length as int);
                latest_is_some(events);
            }
            let r = match reference {
                Some(r) => r,
                None => t,
            };
            ages.push(
                if r >= t {
                    r - t
                } else {
                    0
                },
            );
            if few && counts[index] == 0 {
                touched.push(index);
            }
            counts.set(index, counts[index] + 1);
            proof {
                assert(counts@ =~= histogram(events.take(i + 1), cell, length as int));
                assert forall|j: int| 0 <= j < length implies (#[trigger] counts@[j] > 0)
                    == cells.take(i + 1).contains(j as usize) by {
                    assert((counted[j] > 0) == seen.contains(j as usize));
                    if seen.contains(j as usize) {
                        let k = choose|k: int| 0 <= k < seen.len() && seen[k] == j as usize;
                        assert(cells.take(i + 1)[k] == j as usize);
                    }
                    if j == index {
                        assert(cells.take(i + 1)[i as int] == j as usize);
                    } else if cells.take(i + 1).contains(j as usize) {
                        let now = cells.take(i + 1);
                        let k = choose|k: int| 0 <= k < now.len() && now[k] == j as usize;
                        assert(seen[k] == j as usize);
                    }
                }
            }
        }
        assert(events.take(n as int) =~= events);
        assert(cells.take(n as int) =~= cells);
        assert(ages@ =~= Seq::new(
            events.len(),
            |i: int| age(latest_time(events)->0, widened(events[i]).timestamp),
        ));
        let touched: Option<Vec<usize>> = if few {
            Some(touched)
        } else {
            None
        };
        Ok(
            AveragePlan {
                width: places.width,
                height: places.height,
                cells: places.cells,
                ages,
                counts,
                touched,
            },
        )
    }

    /// The frame of a surface, given the mean of each cell.
    pub fn frame(&self, plan: &AveragePlan, values: Vec<u32>) -> (frame: EventFrame)
        requires
            values@.len() == plan.counts@.len(),
        ensures
            is_surface(
                frame,
                plan.width,
                plan.height,
                values@,
                RepresentationKind::AveragedTimeSurface,
            ),
    {
        surface_frame(plan.width, plan.height, values, RepresentationKind::AveragedTimeSurface)
    }
}

/// Some event is the latest.
pub proof fn latest_is_some(events: Seq<RawEvent>)
    ensures
        latest_time(events) is Some <==> events.len() > 0,
{
}

} // verus!
