//! Frames to events: the parts of a pixel simulator that do not depend on intensities.
//!
//! Contrast, thresholds and noise are numbers with a fraction, and belong to the caller. What
//! happens to the crossings it finds is decided here: whether a pixel may fire, where it lies, in
//! what order events come out, and how finely an interval is divided.

use rayon::prelude::ParallelSliceMut;
use vstd::prelude::*;
use vstd::relations::{sorted_by, total_ordering};
use vstd::seq_lib::lemma_sorted_unique;

use crate::stream::{kept, kept_push, EventStream, EventStreamBuilder, RawEvent, MICROSECOND_SCALE};

verus! {

/// Pixels in a block of work. Each block has its own noise, so the size is fixed.
pub const PIXEL_BLOCK: usize = 8192;

/// How many sub-intervals an interval is divided into at most, if nothing else is said.
pub const MAX_UPSAMPLE: usize = 64;

/// How many sub-intervals an interval can ever be divided into.
pub const MAX_UPSAMPLE_CEILING: usize = 4096;

/// The number of events from which an interval is sorted in parallel.
pub const PARALLEL_SORT_THRESHOLD: usize = 65536;

/// How finely the interval between two frames is divided.
#[derive(Clone, Copy, Debug, PartialEq, Eq, Structural)]
pub enum Upsample {
    /// Not at all.
    Off,
    /// Always into so many sub-intervals.
    Fixed(usize),
    /// Into as many as the contrast of the busiest pixel asks for.
    Adaptive { wanted: usize },
}

/// A number held between one and a ceiling.
pub open spec fn held(n: int, ceiling: int) -> int {
    if n < 1 {
        1
    } else if n > ceiling {
        ceiling
    } else {
        n
    }
}

/// How many sub-intervals an interval of `span_us` is divided into.
pub open spec fn steps_of(upsample: Upsample, max_upsample: int, span_us: int) -> int {
    let ceiling = held(max_upsample, 4096);
    if span_us <= 0 {
        1
    } else {
        match upsample {
            Upsample::Off => 1,
            Upsample::Fixed(n) => held(n as int, ceiling),
            Upsample::Adaptive { wanted } => held(wanted as int, ceiling),
        }
    }
}

fn hold(n: usize, ceiling: usize) -> (m: usize)
    ensures
        m == held(n as int, ceiling as int),
{
    if n < 1 {
        1
    } else if n > ceiling {
        ceiling
    } else {
        n
    }
}

/// How many sub-intervals an interval of `span_us` is divided into.
pub fn upsample_steps(upsample: Upsample, max_upsample: usize, span_us: i64) -> (steps: usize)
    ensures
        steps == steps_of(upsample, max_upsample as int, span_us as int),
        1 <= steps <= MAX_UPSAMPLE_CEILING,
{
    if span_us <= 0 {
        return 1;
    }
    let ceiling = hold(max_upsample, MAX_UPSAMPLE_CEILING);
    match upsample {
        Upsample::Off => 1,
        Upsample::Fixed(n) => hold(n, ceiling),
        Upsample::Adaptive { wanted } => hold(wanted, ceiling),
    }
}

/// Mixes a number so that neighbours look unrelated.
pub open spec fn mixed(z: u64) -> u64 {
    let a = (z ^ (z >> 30u64)).wrapping_mul(0xBF58_476D_1CE4_E5B9);
    let b = (a ^ (a >> 27u64)).wrapping_mul(0x94D0_49BB_1331_11EB);
    b ^ (b >> 31u64)
}

/// The seed of the noise of a block in a frame: a function of the seed, the frame and the block
/// alone.
pub fn block_seed(seed: u64, frame: u64, block: usize) -> (own: u64)
    ensures
        own == mixed(
            seed.wrapping_mul(0x9E37_79B9_7F4A_7C15).wrapping_add(
                frame.wrapping_mul(0xBF58_476D_1CE4_E5B9),
            ).wrapping_add((block as u64).wrapping_mul(0x94D0_49BB_1331_11EB)),
        ),
{
    let z = seed.wrapping_mul(0x9E37_79B9_7F4A_7C15).wrapping_add(
        frame.wrapping_mul(0xBF58_476D_1CE4_E5B9),
    ).wrapping_add((block as u64).wrapping_mul(0x94D0_49BB_1331_11EB));
    let a = (z ^ (z >> 30u64)).wrapping_mul(0xBF58_476D_1CE4_E5B9);
    let b = (a ^ (a >> 27u64)).wrapping_mul(0x94D0_49BB_1331_11EB);
    b ^ (b >> 31u64)
}

/// An event of the simulator: time, row, column and polarity, in the order by which events are
/// sorted.
pub type SimEvent = (i64, u16, u16, bool);

/// Whether one event comes before another or is the same: by time, then row, column and polarity,
/// negative first.
pub open spec fn in_order(a: SimEvent, b: SimEvent) -> bool {
    if a.0 != b.0 {
        a.0 < b.0
    } else if a.1 != b.1 {
        a.1 < b.1
    } else if a.2 != b.2 {
        a.2 < b.2
    } else {
        !a.3 || b.3
    }
}

/// The order of events, as a relation.
pub open spec fn event_order() -> spec_fn(SimEvent, SimEvent) -> bool {
    |a: SimEvent, b: SimEvent| in_order(a, b)
}

/// The events of blocks, one block after the other.
pub open spec fn joined(blocks: Seq<Vec<SimEvent>>) -> Seq<SimEvent>
    decreases blocks.len(),
{
    if blocks.len() == 0 {
        Seq::empty()
    } else {
        joined(blocks.drop_last()) + blocks.last()@
    }
}

/// Sorts events in parallel: `par_sort_unstable` of rayon, which documents to put elements in the
/// order of `Ord`, for tuples that of their fields one after the other. They are the same events.
#[verifier::external_body]
fn sort_in_parallel(events: &mut Vec<SimEvent>)
    ensures
        sorted_by(final(events)@, event_order()),
        final(events)@.to_multiset() == old(events)@.to_multiset(),
{
    events.par_sort_unstable();
}

/// Sorts events: `sort_unstable` of slices, which documents to put elements in the order of `Ord`,
/// for tuples that of their fields one after the other. They are the same events.
#[verifier::external_body]
fn sort_in_place(events: &mut Vec<SimEvent>)
    ensures
        sorted_by(final(events)@, event_order()),
        final(events)@.to_multiset() == old(events)@.to_multiset(),
{
    events.sort_unstable();
}

/// The event of a simulated event.
pub open spec fn raw_of(e: SimEvent) -> RawEvent {
    RawEvent { x: e.2, y: e.1, t: e.0, p: e.3 }
}

/// The events of simulated events.
pub open spec fn raws_of(events: Seq<SimEvent>) -> Seq<RawEvent> {
    Seq::new(events.len(), |i: int| raw_of(events[i]))
}

/// The order of events is total.
pub proof fn order_is_total()
    ensures
        total_ordering(event_order()),
{
    let r = event_order();
    assert(vstd::relations::reflexive(r));
    assert(vstd::relations::antisymmetric(r));
    assert(vstd::relations::transitive(r));
    assert(vstd::relations::strongly_connected(r));
}

/// The order in which events come out depends on the events alone: two arrangements of the same
/// events that are both in order are the same.
pub proof fn arrangement_is_unique(a: Seq<SimEvent>, b: Seq<SimEvent>)
    requires
        sorted_by(a, event_order()),
        sorted_by(b, event_order()),
        a.to_multiset() == b.to_multiset(),
    ensures
        a == b,
{
    order_is_total();
    lemma_sorted_unique(a, b, event_order());
}

/// Puts the events of all blocks in order. Events off the sensor are dropped.
pub fn collect_interval(blocks: &[Vec<SimEvent>], width: usize, height: usize) -> (stream:
    EventStream)
    ensures
        stream.wf(),
        stream.width() == width,
        stream.height() == height,
        stream.scale() == MICROSECOND_SCALE,
        exists|sorted: Seq<SimEvent>|
            {
                &&& #[trigger] sorted_by(sorted, event_order())
                &&& sorted.to_multiset() == joined(blocks@).to_multiset()
                &&& stream.events() == kept(raws_of(sorted), width as int, height as int)
            },
{
    let mut events: Vec<SimEvent> = Vec::new();
    let n: usize = blocks.len();
    assert(blocks@.take(0) =~= Seq::<Vec<SimEvent>>::empty());
    for i in 0..n
        invariant
            n == blocks@.len(),
            events@ == joined(blocks@.take(i as int)),
    {
        assert(blocks@.take(i + 1).drop_last() =~= blocks@.take(i as int));
        let block = &blocks[i];
        let m: usize = block.len();
        let ghost before = events@;
        assert(before + block@.take(0) =~= before);
        for j in 0..m
            invariant
                m == block@.len(),
                events@ == before + block@.take(j as int),
        {
            events.push(block[j]);
            assert(events@ =~= before + block@.take(j + 1));
        }
        assert(block@.take(m as int) =~= block@);
    }
    assert(blocks@.take(n as int) =~= blocks@);
    if events.len() >= PARALLEL_SORT_THRESHOLD {
        sort_in_parallel(&mut events);
    } else {
        sort_in_place(&mut events);
    }
    let ghost sorted = events@;
    assert(sorted_by(sorted, event_order()));
    let count: usize = events.len();
    let mut builder = EventStreamBuilder::with_capacity(width, height, MICROSECOND_SCALE, count);
    let ghost all = raws_of(sorted);
    assert(all.take(0) =~= Seq::<RawEvent>::empty());
    for i in 0..count
        invariant
            count == sorted.len(),
            sorted == events@,
            all == raws_of(sorted),
            builder.wf(),
            builder.width() == width,
            builder.height() == height,
            builder.scale() == MICROSECOND_SCALE,
            builder.events() == kept(all.take(i as int), width as int, height as int),
    {
        let (t, y, x, p) = events[i];
        proof {
            kept_push(all.take(i as int), all[i as int], width as int, height as int);
            assert(all.take(i + 1) =~= all.take(i as int).push(all[i as int]));
        }
        builder.push(x, y, t, p);
    }
    assert(all.take(count as int) =~= all);
    builder.build()
}

/// What is kept of events in order of time is in order of time.
pub proof fn kept_in_time(events: Seq<RawEvent>, width: int, height: int)
    requires
        forall|i: int, j: int|
            0 <= i <= j < events.len() ==> (#[trigger] events[i]).t <= (#[trigger] events[j]).t,
    ensures
        forall|i: int, j: int|
            0 <= i <= j < kept(events, width, height).len() ==> (#[trigger] kept(
                events,
                width,
                height,
            )[i]).t <= (#[trigger] kept(events, width, height)[j]).t,
        kept(events, width, height).len() > 0 ==> kept(events, width, height).last().t
            <= events.last().t,
    decreases events.len(),
{
    if events.len() > 0 {
        let rest = events.drop_last();
        assert forall|i: int, j: int| 0 <= i <= j < rest.len() implies (#[trigger] rest[i]).t <= (
        #[trigger] rest[j]).t by {
            assert(rest[i] == events[i] && rest[j] == events[j]);
        }
        kept_in_time(rest, width, height);
        let before = kept(rest, width, height);
        let now = kept(events, width, height);
        if rest.len() > 0 {
            assert(events[rest.len() - 1].t <= events[rest.len() as int].t);
        }
        assert forall|i: int, j: int| 0 <= i <= j < now.len() implies (#[trigger] now[i]).t <= (
        #[trigger] now[j]).t by {
            if i < before.len() {
                assert(now[i] == before[i]);
                assert(before[i].t <= before[before.len() - 1].t);
            }
            if j < before.len() {
                assert(now[j] == before[j]);
            }
        }
    }
}

/// The events of an interval come out in order of time.
pub proof fn interval_in_time(sorted: Seq<SimEvent>, width: int, height: int)
    requires
        sorted_by(sorted, event_order()),
    ensures
        forall|i: int, j: int|
            0 <= i <= j < kept(raws_of(sorted), width, height).len() ==> (#[trigger] kept(
                raws_of(sorted),
                width,
                height,
            )[i]).t <= (#[trigger] kept(raws_of(sorted), width, height)[j]).t,
{
    let all = raws_of(sorted);
    assert forall|i: int, j: int| 0 <= i <= j < all.len() implies (#[trigger] all[i]).t <= (
    #[trigger] all[j]).t by {
        if i < j {
            assert(event_order()(sorted[i], sorted[j]));
        }
    }
    kept_in_time(all, width, height);
}

/// The place of a pixel of a block on the sensor.
pub fn block_pixel(block: usize, offset: usize, width: usize, height: usize) -> (place: (u16, u16))
    requires
        0 < width <= 0x1_0000,
        height <= 0x1_0000,
        block * 8192 + offset < width * height,
        width * height <= usize::MAX,
    ensures
        place.0 == (block * 8192 + offset) % (width as int),
        place.1 == (block * 8192 + offset) / (width as int),
{
    let index: usize = block * PIXEL_BLOCK + offset;
    proof {
        assert(0 <= index % width < width && 0 <= index / width < height) by (nonlinear_arith)
            requires
                0 <= index < width * height,
                0 < width,
        ;
    }
    ((index % width) as u16, (index / width) as u16)
}

/// Whether a pixel that last fired at one time may fire at another.
pub open spec fn may_fire(last: i64, t: i64, refractory_us: i64) -> bool {
    t - last >= refractory_us
}

/// Fires a pixel unless it fired too recently; gives the time of its last event. Events do not happen
/// before zero.
pub fn fire(
    last: i64,
    t: i64,
    x: u16,
    y: u16,
    positive: bool,
    refractory_us: i64,
    events: &mut Vec<SimEvent>,
) -> (now: i64)
    ensures
        now == if may_fire(last, t, refractory_us) {
            t
        } else {
            last
        },
        final(events)@ == if may_fire(last, t, refractory_us) {
            old(events)@.push(
                (
                    if t < 0 {
                        0
                    } else {
                        t
                    },
                    y,
                    x,
                    positive,
                ),
            )
        } else {
            old(events)@
        },
{
    if (t as i128 - last as i128) < refractory_us as i128 {
        return last;
    }
    events.push(
        (
            if t < 0 {
                0
            } else {
                t
            },
            y,
            x,
            positive,
        ),
    );
    t
}

/// The events of a pixel that may fire at some times, and when it last fired.
pub open spec fn fired(
    last: i64,
    times: Seq<i64>,
    refractory_us: i64,
) -> (Seq<i64>, i64)
    decreases times.len(),
{
    if times.len() == 0 {
        (Seq::empty(), last)
    } else {
        let (before, at) = fired(last, times.drop_last(), refractory_us);
        if may_fire(at, times.last(), refractory_us) {
            (before.push(times.last()), times.last())
        } else {
            (before, at)
        }
    }
}

/// Two events of one pixel are never closer than the refractory period.
pub proof fn refractory_is_kept(last: i64, times: Seq<i64>, refractory_us: i64)
    ensures
        ({
            let (at, now) = fired(last, times, refractory_us);
            &&& at.len() > 0 ==> at.last() == now && at[0] - last >= refractory_us
            &&& at.len() == 0 ==> now == last
            &&& forall|i: int| 0 < i < at.len() ==> (#[trigger] at[i]) - at[i - 1] >= refractory_us
        }),
    decreases times.len(),
{
    if times.len() > 0 {
        refractory_is_kept(last, times.drop_last(), refractory_us);
        let (before, was) = fired(last, times.drop_last(), refractory_us);
        let (at, now) = fired(last, times, refractory_us);
        assert forall|i: int| 0 < i < at.len() implies (#[trigger] at[i]) - at[i - 1]
            >= refractory_us by {
            if i < before.len() {
                assert(at[i] == before[i]);
                assert(at[i - 1] == before[i - 1]);
            } else {
                assert(at[i - 1] == before.last());
            }
        }
    }
}

/// What has to be simulated when a frame arrives.
#[derive(Clone, Copy, Debug, PartialEq, Eq, Structural)]
pub enum Arrival {
    /// Nothing yet: the first frame only sets the pixels.
    First,
    /// The interval since the frame before, and the number of that frame.
    Interval { t_previous: i64, span: i64, frame: u64 },
}

/// When frames arrived.
#[derive(Clone, Copy, Debug, PartialEq, Eq, Structural)]
pub struct FrameClock {
    pub t_previous: Option<i64>,
    /// Frames so far; the count wraps as machine integers do.
    pub frame: u64,
}

impl FrameClock {
    pub fn new() -> (clock: Self)
        ensures
            clock == (FrameClock { t_previous: None, frame: 0 }),
    {
        FrameClock { t_previous: None, frame: 0 }
    }

    /// Takes the time of a frame. Time that goes backwards gives an interval without length.
    pub fn arrive(&mut self, t_us: i64) -> (arrival: Arrival)
        requires
            old(self).t_previous matches Some(t) ==> t_us - t <= i64::MAX,
        ensures
            *final(self) == (FrameClock {
                t_previous: Some(t_us),
                frame: old(self).frame.wrapping_add(1),
            }),
            arrival == match old(self).t_previous {
                None => Arrival::First,
                Some(t) => Arrival::Interval {
                    t_previous: t,
                    span: if t_us > t {
                        (t_us - t) as i64
                    } else {
                        0
                    },
                    frame: old(self).frame,
                },
            },
    {
        let arrival = match self.t_previous {
            None => Arrival::First,
            Some(t) => Arrival::Interval {
                t_previous: t,
                span: if t_us > t {
                    t_us - t
                } else {
                    0
                },
                frame: self.frame,
            },
        };
        self.t_previous = Some(t_us);
        self.frame = self.frame.wrapping_add(1);
        arrival
    }
}

/// How far a simulation has got.
#[derive(Clone, Copy, Debug, PartialEq, Eq, Structural)]
pub struct SimulateProgress {
    pub frames: usize,
    /// Frames that are expected, if that is known.
    pub total_frames: Option<usize>,
    pub events: usize,
}

/// Whether another frame is simulated after some, given a limit.
pub fn simulates_more(done: usize, limit: Option<usize>) -> (yes: bool)
    ensures
        yes == !(limit matches Some(n) && done >= n),
{
    match limit {
        Some(n) => done < n,
        None => true,
    }
}

/// How many frames are expected, given what a source says of its length and a limit.
pub fn total_frames(total: Option<usize>, limit: Option<usize>) -> (frames: Option<usize>)
    ensures
        frames == match (total, limit) {
            (Some(t), Some(l)) => if t < l {
                Some(t)
            } else {
                Some(l)
            },
            (Some(t), None) => Some(t),
            (None, l) => l,
        },
{
    match (total, limit) {
        (Some(t), Some(l)) => if t < l {
            Some(t)
        } else {
            Some(l)
        },
        (Some(t), None) => Some(t),
        (None, l) => l,
    }
}

} // verus!
