//! Events as points in a unit cube.

use vstd::prelude::*;
use vstd::string::*;

use crate::representation::{
    first_outside, first_outside_prefix, latest_time, outside_error, reference_time, Representation,
    RepresentationError,
};
use crate::stream::{on_sensor, widened, EventStream, RawEvent};

verus! {

/// The events of a stream as points, in their order.
#[derive(Clone, Copy, Debug, Default)]
pub struct PointSet;

/// A fraction; over zero it stands for zero.
#[derive(Clone, Copy, Debug, PartialEq, Eq, Structural)]
pub struct Fraction {
    pub part: u64,
    pub whole: u64,
}

/// A point: how far along the columns, the rows and the time of a stream an event lies, and whether
/// it is positive.
#[derive(Clone, Copy, Debug, PartialEq, Eq, Structural)]
pub struct Point {
    pub x: Fraction,
    pub y: Fraction,
    pub t: Fraction,
    pub p: bool,
}

/// Points in a unit cube.
#[derive(Clone, Debug)]
pub struct EventPointSet {
    points: Vec<Point>,
}

/// How far along a side a coordinate lies.
pub open spec fn along(coordinate: int, length: int) -> Fraction {
    if length <= 1 {
        Fraction { part: 0, whole: 0 }
    } else {
        Fraction { part: coordinate as u64, whole: (length - 1) as u64 }
    }
}

/// The earliest timestamp of some events, read as unsigned.
pub open spec fn earliest_time(events: Seq<RawEvent>) -> Option<u64>
    decreases events.len(),
{
    if events.len() == 0 {
        None
    } else {
        let t = widened(events.last()).timestamp;
        match earliest_time(events.drop_last()) {
            Some(m) if m < t => Some(m),
            _ => Some(t),
        }
    }
}

/// No event is earlier than the earliest or later than the latest.
pub proof fn times_between(events: Seq<RawEvent>, i: int)
    requires
        0 <= i < events.len(),
    ensures
        earliest_time(events) is Some,
        latest_time(events) is Some,
        earliest_time(events)->0 <= widened(events[i]).timestamp <= latest_time(events)->0,
    decreases events.len(),
{
    let rest = events.drop_last();
    if rest.len() > 0 {
        if i < rest.len() {
            times_between(rest, i);
        } else {
            times_between(rest, 0);
        }
    }
}

/// The point of an event.
pub open spec fn point_of(events: Seq<RawEvent>, width: int, height: int, i: int) -> Point {
    let first = earliest_time(events)->0;
    let last = latest_time(events)->0;
    Point {
        x: along(events[i].x as int, width),
        y: along(events[i].y as int, height),
        t: if first == last {
            Fraction { part: 0, whole: 0 }
        } else {
            Fraction {
                part: (widened(events[i]).timestamp - first) as u64,
                whole: (last - first) as u64,
            }
        },
        p: events[i].p,
    }
}

impl EventPointSet {
    pub closed spec fn all(&self) -> Seq<Point> {
        self.points@
    }

    /// The points, one per event.
    pub fn points(&self) -> (points: &[Point])
        ensures
            points@ == self.all(),
    {
        self.points.as_slice()
    }

    /// The number of points and of their coordinates.
    pub fn shape(&self) -> (shape: (usize, usize))
        ensures
            shape.0 == self.all().len(),
            shape.1 == 4,
    {
        (self.points.len(), 4)
    }

    /// The names of the coordinates.
    pub fn columns(&self) -> (names: (&'static str, &'static str, &'static str, &'static str))
        ensures
            names.0@ == "x"@,
            names.1@ == "y"@,
            names.2@ == "t"@,
            names.3@ == "p"@,
    {
        ("x", "y", "t", "p")
    }
}

fn position(coordinate: usize, length: usize) -> (fraction: Fraction)
    ensures
        fraction == along(coordinate as int, length as int),
{
    if length <= 1 {
        Fraction { part: 0, whole: 0 }
    } else {
        Fraction { part: coordinate as u64, whole: (length - 1) as u64 }
    }
}

fn first_time(stream: &EventStream) -> (first: Option<u64>)
    requires
        stream.wf(),
    ensures
        first == earliest_time(stream.events()),
{
    let mut first: Option<u64> = None;
    let n: usize = stream.len();
    let ghost events = stream.events();
    assert(events.take(0) =~= Seq::<RawEvent>::empty());
    for i in 0..n
        invariant
            stream.wf(),
            events == stream.events(),
            n == events.len(),
            first == earliest_time(events.take(i as int)),
    {
        assert(events.take(i + 1).drop_last() =~= events.take(i as int));
        let t = stream.event(i).timestamp;
        match first {
            Some(m) if m < t => {},
            _ => {
                first = Some(t);
            },
        }
    }
    assert(events.take(n as int) =~= events);
    first
}

impl Representation for PointSet {
    type Output = EventPointSet;

    fn generate(&self, stream: &EventStream) -> (points: Result<EventPointSet, RepresentationError>)
        ensures
            match points {
                Ok(p) => {
                    &&& stream.events().len() * 4 <= usize::MAX
                    &&& first_outside(stream.events(), stream.width(), stream.height())
                        == stream.events().len()
                    &&& p.all() == Seq::new(
                        stream.events().len(),
                        |i: int| point_of(stream.events(), stream.width(), stream.height(), i),
                    )
                },
                Err(RepresentationError::SizeOverflow) => stream.events().len() * 4 > usize::MAX,
                Err(e) => {
                    &&& stream.events().len() * 4 <= usize::MAX
                    &&& first_outside(stream.events(), stream.width(), stream.height())
                        < stream.events().len()
                    &&& e == outside_error(stream.events(), stream.width(), stream.height())
                },
            },
    {
        let (width, height) = stream.sensor_size();
        let n: usize = stream.len();
        if n.checked_mul(4).is_none() {
            return Err(RepresentationError::SizeOverflow);
        }
        let first = match first_time(stream) {
            Some(t) => t,
            None => 0,
        };
        let last = match reference_time(stream) {
            Some(t) => t,
            None => 0,
        };
        let mut points: Vec<Point> = Vec::with_capacity(n);
        let ghost events = stream.events();
        let ghost w = width as int;
        let ghost h = height as int;
        assert(events.take(0) =~= Seq::<RawEvent>::empty());
        for i in 0..n
            invariant
                stream.wf(),
                events == stream.events(),
                n == events.len(),
                n * 4 <= usize::MAX,
                w == width,
                h == height,
                w == stream.width(),
                h == stream.height(),
                n > 0 ==> earliest_time(events) == Some(first) && latest_time(events) == Some(last),
                first_outside(events.take(i as int), w, h) == i,
                points@.len() == i,
                forall|j: int| 0 <= j < i ==> #[trigger] points@[j] == point_of(events, w, h, j),
        {
            proof {
                assert(events.take(i + 1).drop_last() =~= events.take(i as int));
                times_between(events, i as int);
            }
            let event = stream.event(i);
            if event.x >= width || event.y >= height {
                proof {
                    first_outside_prefix(events, i as int, w, h);
                }
                return Err(
                    RepresentationError::EventOutOfBounds {
                        x: event.x,
                        y: event.y,
                        width,
                        height,
                    },
                );
            }
            let t = if first == last {
                Fraction { part: 0, whole: 0 }
            } else {
                Fraction { part: event.timestamp - first, whole: last - first }
            };
            points.push(
                Point {
                    x: position(event.x, width),
                    y: position(event.y, height),
                    t,
                    p: event.polarity,
                },
            );
        }
        proof {
            assert(events.take(n as int) =~= events);
            assert(points@ =~= Seq::new(events.len(), |i: int| point_of(events, w, h, i)));
        }
        Ok(EventPointSet { points })
    }
}

/// Every coordinate of a point lies between zero and one.
pub proof fn points_in_cube(events: Seq<RawEvent>, width: int, height: int, i: int)
    requires
        0 <= i < events.len(),
        on_sensor(events[i], width, height),
        width <= usize::MAX,
        height <= usize::MAX,
    ensures
        ({
            let point = point_of(events, width, height, i);
            &&& point.x.part <= point.x.whole
            &&& point.y.part <= point.y.whole
            &&& point.t.part <= point.t.whole
        }),
{
    times_between(events, i);
}

} // verus!
