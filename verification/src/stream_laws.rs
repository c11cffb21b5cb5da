//! What the operations on streams keep, in terms of the events they start from.

use vstd::prelude::*;

use crate::mask::{clamped, covered, spans_grid};
use crate::places::{are_items, are_places, places_agree, places_push};
use crate::simulate::{event_order, fired, raws_of, steps_of, SimEvent, Upsample};
use crate::stream::{flattened, kept, rows, widened, within, RawEvent};
use crate::transform::{remapped, Moved};

verus! {

/// The events of a sensor are exactly those whose column and row lie on it, in their order.
pub proof fn kept_events(events: Seq<RawEvent>, width: int, height: int) -> (places: Seq<int>)
    ensures
        are_places(
            places,
            events.len() as int,
            |i: int| events[i].x < width && events[i].y < height,
        ),
        are_items(kept(events, width, height), events, places),
    decreases events.len(),
{
    let holds = |i: int| events[i].x < width && events[i].y < height;
    if events.len() == 0 {
        Seq::empty()
    } else {
        let rest = events.drop_last();
        let n = rest.len() as int;
        let before = kept_events(rest, width, height);
        places_agree(before, n, |i: int| rest[i].x < width && rest[i].y < height, holds);
        places_push(before, n, holds);
        assert(events.last() == events[n]);
        if holds(n) {
            before.push(n)
        } else {
            before
        }
    }
}

/// The events of a time window are exactly those not before its beginning and before its end, in
/// their order.
pub proof fn window_events(events: Seq<RawEvent>, t0: int, t1: int) -> (places: Seq<int>)
    ensures
        are_places(places, events.len() as int, |i: int| t0 <= events[i].t && events[i].t < t1),
        are_items(within(events, t0, t1), events, places),
    decreases events.len(),
{
    let holds = |i: int| t0 <= events[i].t && events[i].t < t1;
    if events.len() == 0 {
        Seq::empty()
    } else {
        let rest = events.drop_last();
        let n = rest.len() as int;
        let before = window_events(rest, t0, t1);
        places_agree(before, n, |i: int| t0 <= rest[i].t && rest[i].t < t1, holds);
        places_push(before, n, holds);
        assert(events.last() == events[n]);
        if holds(n) {
            before.push(n)
        } else {
            before
        }
    }
}

/// The flat form of a stream lists, event by event, the column, the row, the time and the polarity.
pub proof fn flat_rows(events: Seq<RawEvent>, i: int)
    requires
        0 <= i < events.len(),
        events[i].t >= 0,
    ensures
        flattened(events).len() == 4 * events.len(),
        flattened(events)[4 * i] == events[i].x,
        flattened(events)[4 * i + 1] == events[i].y,
        flattened(events)[4 * i + 2] == events[i].t,
        flattened(events)[4 * i + 3] == (if events[i].p {
            1u64
        } else {
            0
        }),
{
    assert((4 * i) / 4 == i && (4 * i) % 4 == 0);
    assert((4 * i + 1) / 4 == i && (4 * i + 1) % 4 == 1);
    assert((4 * i + 2) / 4 == i && (4 * i + 2) % 4 == 2);
    assert((4 * i + 3) / 4 == i && (4 * i + 3) % 4 == 3);
}

/// Moved events stay in their order: those that are not dropped and land on the grid, each at the
/// column, the row and the time it was moved to, with its polarity.
pub proof fn moved_events(moves: Seq<Option<Moved>>, width: int, height: int) -> (places: Seq<int>)
    requires
        width <= 0x1_0000,
        height <= 0x1_0000,
    ensures
        are_places(
            places,
            moves.len() as int,
            |i: int|
                moves[i] is Some && 0 <= (moves[i]->0).0 && (moves[i]->0).0 < width && 0 <= (
                moves[i]->0).1 && (moves[i]->0).1 < height,
        ),
        remapped(moves, width, height).len() == places.len(),
        forall|k: int|
            0 <= k < places.len() ==> {
                let e = #[trigger] remapped(moves, width, height)[k];
                let m = moves[places[k]]->0;
                &&& e.x == m.0
                &&& e.y == m.1
                &&& e.t == m.2
                &&& e.p == m.3
            },
    decreases moves.len(),
{
    let holds = |i: int|
        moves[i] is Some && 0 <= (moves[i]->0).0 && (moves[i]->0).0 < width && 0 <= (moves[i]->0).1
            && (moves[i]->0).1 < height;
    if moves.len() == 0 {
        Seq::empty()
    } else {
        let rest = moves.drop_last();
        let n = rest.len() as int;
        let before = moved_events(rest, width, height);
        let held = |i: int|
            rest[i] is Some && 0 <= (rest[i]->0).0 && (rest[i]->0).0 < width && 0 <= (rest[i]->0).1
                && (rest[i]->0).1 < height;
        places_agree(before, n, held, holds);
        places_push(before, n, holds);
        assert(moves.last() == moves[n]);
        if holds(n) {
            let now = before.push(n);
            let out = remapped(moves, width, height);
            assert(out.len() == now.len());
            assert forall|k: int| 0 <= k < now.len() implies {
                let e = #[trigger] out[k];
                let m = moves[now[k]]->0;
                &&& e.x == m.0
                &&& e.y == m.1
                &&& e.t == m.2
                &&& e.p == m.3
            } by {
                if k < before.len() {
                    assert(out[k] == remapped(rest, width, height)[k]);
                    assert(rest[before[k]] == moves[before[k]]);
                }
            }
            now
        } else {
            before
        }
    }
}

/// A pixel is kept if and only if a span of its row holds it.
pub proof fn mask_by_pixel(
    width: int,
    height: int,
    rows: Seq<Vec<(usize, usize)>>,
    x: int,
    y: int,
)
    requires
        0 <= x < width,
        0 <= y < height,
        rows.len() == height,
    ensures
        spans_grid(width, height, rows, y * width + x) <==> exists|k: int|
            0 <= k < rows[y]@.len() && (#[trigger] rows[y]@[k]).0 <= x < rows[y]@[k].1,
{
    vstd::arithmetic::div_mod::lemma_fundamental_div_mod_converse(y * width + x, width, y, x);
    covered_by_one(rows[y]@, x, rows[y]@.len() as int);
}

proof fn covered_by_one(spans: Seq<(usize, usize)>, x: int, n: int)
    requires
        0 <= n <= spans.len(),
    ensures
        covered(spans, x, n) <==> exists|k: int|
            0 <= k < n && (#[trigger] spans[k]).0 <= x < spans[k].1,
    decreases n,
{
    if n > 0 {
        covered_by_one(spans, x, n - 1);
        if covered(spans, x, n - 1) {
            let k = choose|k: int| 0 <= k < n - 1 && (#[trigger] spans[k]).0 <= x < spans[k].1;
            assert(spans[k].0 <= x < spans[k].1);
        } else if spans[n - 1].0 <= x < spans[n - 1].1 {
            assert(0 <= n - 1 < n);
        }
    }
}

/// A clamped span holds the pixels that the span holds below the limit.
pub proof fn clamped_pixels(start: int, end: int, limit: int, x: int)
    ensures
        clamped(start, end, limit).0 <= x < clamped(start, end, limit).1 <==> start <= x < end && x
            < limit,
        clamped(start, end, limit).1 <= limit,
{
}

/// An interval is divided as often as asked, at least once and at most as often as the ceiling
/// says, which is itself between once and 4096 times; without time to divide it is not divided.
pub proof fn steps_are_held(max_upsample: int, span_us: int, n: usize)
    requires
        0 <= max_upsample,
    ensures
        steps_of(Upsample::Off, max_upsample, span_us) == 1,
        span_us <= 0 ==> steps_of(Upsample::Fixed(n), max_upsample, span_us) == 1,
        span_us <= 0 ==> steps_of(Upsample::Adaptive { wanted: n }, max_upsample, span_us) == 1,
        steps_of(Upsample::Fixed(n), max_upsample, span_us) == steps_of(
            Upsample::Adaptive { wanted: n },
            max_upsample,
            span_us,
        ),
        1 <= steps_of(Upsample::Fixed(n), max_upsample, span_us) <= 4096,
        span_us > 0 && 1 <= n <= max_upsample && n <= 4096 ==> steps_of(
            Upsample::Fixed(n),
            max_upsample,
            span_us,
        ) == n,
        span_us > 0 && 1 <= max_upsample <= n && max_upsample <= 4096 ==> steps_of(
            Upsample::Fixed(n),
            max_upsample,
            span_us,
        ) == max_upsample,
        span_us > 0 && n >= 4096 && max_upsample >= 4096 ==> steps_of(
            Upsample::Fixed(n),
            max_upsample,
            span_us,
        ) == 4096,
{
}

/// Whether `k` is the last of rising places before `i`.
pub open spec fn comes_before(places: Seq<int>, k: int, i: int) -> bool {
    0 <= k < places.len() && places[k] < i && (k + 1 < places.len() ==> places[k + 1] >= i)
}

/// Whether a time comes before the refractory period since the last one kept is over.
pub open spec fn too_soon(
    last: i64,
    times: Seq<i64>,
    places: Seq<int>,
    refractory_us: i64,
    i: int,
) -> bool {
    ||| exists|k: int| #[trigger]
        comes_before(places, k, i) && times[i] - times[places[k]] < refractory_us
    ||| (forall|k: int| 0 <= k < places.len() ==> #[trigger] places[k] >= i) && times[i] - last
        < refractory_us
}

/// A pixel fires as soon as it may: of the times at which it would, those are left out that come
/// before the refractory period since the last one kept is over, and no others.
#[verifier::spinoff_prover]
#[verifier::rlimit(40)]
pub proof fn fires_when_it_may(last: i64, times: Seq<i64>, refractory_us: i64) -> (places: Seq<int>)
    ensures
        are_items(fired(last, times, refractory_us).0, times, places),
        forall|k: int, l: int|
            0 <= k < l < places.len() ==> (#[trigger] places[k]) < #[trigger] places[l],
        forall|k: int| 0 <= k < places.len() ==> 0 <= (#[trigger] places[k]) < times.len(),
        forall|i: int|
            0 <= i < times.len() ==> #[trigger] places.contains(i) || too_soon(
                last,
                times,
                places,
                refractory_us,
                i,
            ),
    decreases times.len(),
{
    if times.len() == 0 {
        Seq::empty()
    } else {
        let rest = times.drop_last();
        let n = rest.len() as int;
        let before = fires_when_it_may(last, rest, refractory_us);
        crate::simulate::refractory_is_kept(last, rest, refractory_us);
        let (at, now) = fired(last, rest, refractory_us);
        let fires = times[n] - now >= refractory_us;
        let places = if fires {
            before.push(n)
        } else {
            before
        };
        assert(times.last() == times[n]);
        let out = fired(last, times, refractory_us).0;
        assert forall|k: int| 0 <= k < out.len() implies #[trigger] out[k] == times[places[k]] by {
            if k < before.len() {
                assert(out[k] == at[k]);
                assert(rest[before[k]] == times[before[k]]);
            }
        }
        assert forall|i: int| 0 <= i < times.len() implies #[trigger] places.contains(i) || too_soon(
            last,
            times,
            places,
            refractory_us,
            i,
        ) by {
            if i < n {
                assert(rest[i] == times[i]);
                if before.contains(i) {
                    let k = choose|k: int| 0 <= k < before.len() && before[k] == i;
                    assert(places[k] == i);
                } else {
                    assert(too_soon(last, rest, before, refractory_us, i));
                    if exists|k: int| #[trigger]
                        comes_before(before, k, i) && rest[i] - rest[before[k]] < refractory_us {
                        let k = choose|k: int| #[trigger]
                            comes_before(before, k, i) && rest[i] - rest[before[k]] < refractory_us;
                        assert(comes_before(places, k, i));
                        assert(times[places[k]] == rest[before[k]]);
                    } else {
                        assert forall|k: int| 0 <= k < places.len() implies #[trigger] places[k]
                            >= i by {
                            if k < before.len() {
                                assert(before[k] >= i);
                            }
                        }
                    }
                }
            } else if fires {
                assert(places[before.len() as int] == n);
            } else if at.len() > 0 {
                let k = at.len() - 1;
                assert(comes_before(places, k, n));
                assert(times[places[k]] == now);
            }
        }
        places
    }
}

/// A simulated event is a time, a row, a column and a polarity.
pub proof fn simulated_fields(events: Seq<SimEvent>, i: int)
    requires
        0 <= i < events.len(),
    ensures
        raws_of(events).len() == events.len(),
        raws_of(events)[i].t == events[i].0,
        raws_of(events)[i].y == events[i].1,
        raws_of(events)[i].x == events[i].2,
        raws_of(events)[i].p == events[i].3,
{
}

/// Simulated events come in order of time, those of one time row by row, those of one row column by
/// column, and at one pixel a negative one first.
pub proof fn simulated_order(events: Seq<SimEvent>, i: int, j: int)
    requires
        vstd::relations::sorted_by(events, event_order()),
        0 <= i < j < events.len(),
    ensures
        ({
            let a = raws_of(events)[i];
            let b = raws_of(events)[j];
            &&& a.t <= b.t
            &&& a.t == b.t ==> a.y <= b.y
            &&& a.t == b.t && a.y == b.y ==> a.x <= b.x
            &&& a.t == b.t && a.y == b.y && a.x == b.x && a.p ==> b.p
        }),
{
    assert(event_order()(events[i], events[j]));
}

/// Columns make events row by row, and an event is seen as it is stored.
pub proof fn columns_make_events(
    xs: Seq<u16>,
    ys: Seq<u16>,
    ts: Seq<i64>,
    ps: Seq<bool>,
    i: int,
)
    requires
        0 <= i < xs.len(),
        ts[i] >= 0,
    ensures
        ({
            let e = rows(xs, ys, ts, ps)[i];
            &&& rows(xs, ys, ts, ps).len() == xs.len()
            &&& e.x == xs[i] && e.y == ys[i] && e.t == ts[i] && e.p == ps[i]
            &&& widened(e).x == xs[i] && widened(e).y == ys[i] && widened(e).timestamp == ts[i]
                && widened(e).polarity == ps[i]
        }),
{
}

} // verus!
