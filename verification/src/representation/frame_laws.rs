//! What the frames of a stream show, pixel by pixel.

use vstd::prelude::*;

use crate::places::{are_places, places_agree, places_push};
use crate::representation::binary::{occupancy, pixel};
use crate::representation::masks::{nonzero_of, CountMask, RedBlue};
use crate::representation::point_set::{earliest_time, point_of};
use crate::representation::polarity::{cells_over, polarity_histogram};
use crate::representation::surfaces::{cells_of, first_hits, split_cell, surface_ages};
use crate::representation::window_laws::latest_found;
use crate::representation::{busiest, hits, hits_bounded, histogram, pixel_in_plane, rescaled};
use crate::stream::{on_sensor, EventStream, RawEvent};

verus! {

/// Different pixels of a plane have different places.
pub proof fn pixel_place(x: int, y: int, x2: int, y2: int, width: int)
    requires
        0 <= x < width,
        0 <= x2 < width,
    ensures
        y * width + x == y2 * width + x2 <==> x == x2 && y == y2,
{
    if y * width + x == y2 * width + x2 {
        assert(y == y2) by (nonlinear_arith)
            requires
                0 <= x < width,
                0 <= x2 < width,
                y * width + x == y2 * width + x2,
        ;
    }
}

/// Different pixels of different planes have different places.
pub proof fn plane_place(
    c: int,
    x: int,
    y: int,
    c2: int,
    x2: int,
    y2: int,
    width: int,
    height: int,
)
    requires
        0 <= x < width,
        0 <= x2 < width,
        0 <= y < height,
        0 <= y2 < height,
    ensures
        c * (width * height) + y * width + x == c2 * (width * height) + y2 * width + x2 <==> c == c2
            && x == x2 && y == y2,
{
    pixel_in_plane(x, y, width, height);
    pixel_in_plane(x2, y2, width, height);
    pixel_place(y * width + x, c, y2 * width + x2, c2, width * height);
    pixel_place(x, y, x2, y2, width);
}

/// A cell holds as many events as there are places with an event in it.
pub proof fn hits_counted(
    events: Seq<RawEvent>,
    cell: spec_fn(RawEvent) -> int,
    i: int,
) -> (places: Seq<int>)
    ensures
        are_places(places, events.len() as int, |j: int| cell(events[j]) == i),
        hits(events, cell, i) == places.len(),
    decreases events.len(),
{
    let holds = |j: int| cell(events[j]) == i;
    if events.len() == 0 {
        Seq::empty()
    } else {
        let rest = events.drop_last();
        let before = hits_counted(rest, cell, i);
        places_agree(before, rest.len() as int, |j: int| cell(rest[j]) == i, holds);
        places_push(before, rest.len() as int, holds);
        assert(events.last() == events[events.len() - 1]);
        if holds(rest.len() as int) {
            before.push(rest.len() as int)
        } else {
            before
        }
    }
}

/// A sample of an event count is the number of events at its pixel.
pub proof fn counted_by_pixel(events: Seq<RawEvent>, width: int, height: int, x: int, y: int) -> (places:
    Seq<int>)
    requires
        0 <= x < width,
        0 <= y < height,
        events.len() <= u64::MAX,
        forall|i: int| 0 <= i < events.len() ==> on_sensor(#[trigger] events[i], width, height),
    ensures
        are_places(
            places,
            events.len() as int,
            |j: int| events[j].x == x && events[j].y == y,
        ),
        histogram(events, pixel(width), width * height)[y * width + x] == places.len(),
        occupancy(events, width, width * height)[y * width + x] == (if places.len() > 0 {
            1u8
        } else {
            0
        }),
{
    let i = y * width + x;
    pixel_in_plane(x, y, width, height);
    let places = hits_counted(events, pixel(width), i);
    let held = |j: int| pixel(width)(events[j]) == i;
    let holds = |j: int| events[j].x == x && events[j].y == y;
    assert forall|j: int| 0 <= j < events.len() implies #[trigger] holds(j) == held(j) by {
        assert(on_sensor(events[j], width, height));
        pixel_place(events[j].x as int, events[j].y as int, x, y, width);
    }
    places_agree(places, events.len() as int, held, holds);
    hits_bounded(events, pixel(width), i);
    places
}

/// Cells of `factor` pixels cover a side: the last begins on it.
pub proof fn cells_cover(n: int, factor: int)
    requires
        0 <= n,
        factor >= 1,
    ensures
        n <= cells_over(n, factor) * factor,
        n > 0 ==> (cells_over(n, factor) - 1) * factor < n,
        n == 0 ==> cells_over(n, factor) == 0,
{
    let q = n / factor;
    let r = n % factor;
    vstd::arithmetic::div_mod::lemma_fundamental_div_mod(n, factor);
    assert(factor * q == q * factor) by (nonlinear_arith);
    assert((q + 1) * factor == q * factor + factor) by (nonlinear_arith);
    assert((q - 1) * factor == q * factor - factor) by (nonlinear_arith);
    assert(0 <= r < factor) by (nonlinear_arith)
        requires
            r == n % factor,
            factor >= 1,
    ;
    if n == 0 {
        assert(0int / factor == 0 && 0int % factor == 0) by (nonlinear_arith)
            requires
                factor >= 1,
        ;
    }
}

proof fn cell_covers(x: int, n: int, factor: int)
    requires
        0 <= x < n,
        factor >= 1,
    ensures
        0 <= x / factor < cells_over(n, factor),
{
    cells_cover(n, factor);
    let c = cells_over(n, factor);
    let q = x / factor;
    assert(0 <= q && q * factor <= x) by (nonlinear_arith)
        requires
            q == x / factor,
            factor >= 1,
            0 <= x,
    ;
    assert(q < c) by (nonlinear_arith)
        requires
            q * factor <= x,
            x < n,
            n <= c * factor,
            factor >= 1,
    ;
}

/// A sample of the two planes of counts is the number of events of its polarity at the pixels of its
/// cell, which are those whose coordinates lie in `factor` times the cell's and less than `factor`
/// above. The plane of positive events comes first.
#[verifier::spinoff_prover]
#[verifier::rlimit(40)]
pub proof fn counted_by_polarity(
    events: Seq<RawEvent>,
    width: int,
    height: int,
    factor: int,
    p: bool,
    cx: int,
    cy: int,
) -> (places: Seq<int>)
    requires
        factor >= 1,
        0 <= width,
        0 <= height,
        0 <= cx < cells_over(width, factor),
        0 <= cy < cells_over(height, factor),
        events.len() <= u64::MAX,
        forall|i: int| 0 <= i < events.len() ==> on_sensor(#[trigger] events[i], width, height),
    ensures
        are_places(
            places,
            events.len() as int,
            |j: int|
                {
                    &&& events[j].p == p
                    &&& cx * factor <= events[j].x < (cx + 1) * factor
                    &&& cy * factor <= events[j].y < (cy + 1) * factor
                },
        ),
        ({
            let w = cells_over(width, factor);
            let h = cells_over(height, factor);
            let counts = polarity_histogram(events, width, height, factor);
            &&& counts.len() == 2 * (w * h)
            &&& p ==> counts[cy * w + cx] == places.len()
            &&& !p ==> counts[w * h + cy * w + cx] == places.len()
        }),
{
    let w = cells_over(width, factor);
    let h = cells_over(height, factor);
    let cell = crate::representation::polarity::polarity_cell(w, w * h, factor);
    pixel_in_plane(cx, cy, w, h);
    let i = (if p {
        0
    } else {
        w * h
    }) + cy * w + cx;
    let places = hits_counted(events, cell, i);
    let held = |j: int| cell(events[j]) == i;
    let holds = |j: int|
        {
            &&& events[j].p == p
            &&& cx * factor <= events[j].x < (cx + 1) * factor
            &&& cy * factor <= events[j].y < (cy + 1) * factor
        };
    assert forall|j: int| 0 <= j < events.len() implies #[trigger] holds(j) == held(j) by {
        let e = events[j];
        assert(on_sensor(e, width, height));
        cell_covers(e.x as int, width, factor);
        cell_covers(e.y as int, height, factor);
        pixel_in_plane(e.x as int / factor, e.y as int / factor, w, h);
        pixel_place(e.x as int / factor, e.y as int / factor, cx, cy, w);
        in_cell(e.x as int, cx, factor);
        in_cell(e.y as int, cy, factor);
    }
    places_agree(places, events.len() as int, held, holds);
    hits_bounded(events, cell, i);
    places
}

proof fn in_cell(x: int, c: int, factor: int)
    requires
        0 <= x,
        0 <= c,
        factor >= 1,
    ensures
        x / factor == c <==> c * factor <= x < (c + 1) * factor,
{
    let q = x / factor;
    vstd::arithmetic::div_mod::lemma_fundamental_div_mod(x, factor);
    assert(0 <= x % factor < factor) by (nonlinear_arith)
        requires
            factor >= 1,
    ;
    assert(q == c <==> c * factor <= x < (c + 1) * factor) by (nonlinear_arith)
        requires
            x == factor * q + x % factor,
            0 <= x % factor < factor,
            factor >= 1,
    ;
}

/// A level is its count's share of full scale, rounded to the nearest, a half up; the busiest count
/// is one of the counts and the largest.
pub proof fn level_is_nearest(counts: Seq<u64>, i: int)
    requires
        0 <= i < counts.len(),
    ensures
        ({
            let m = busiest(counts);
            let level = crate::representation::normalized(counts)[i];
            &&& counts.contains(m)
            &&& forall|j: int| 0 <= j < counts.len() ==> #[trigger] counts[j] <= m
            &&& m == 0 ==> level == 0
            &&& m > 0 ==> 2 * (level * m) <= 2 * (counts[i] * 255) + m < 2 * (level * m) + 2 * m
        }),
{
    let m = busiest(counts);
    let c = counts[i];
    busiest_held(counts);
    assert forall|j: int| 0 <= j < counts.len() implies #[trigger] counts[j] <= m by {
        crate::representation::busiest_bounds(counts, j);
    }
    if m > 0 {
        let d = m as int;
        let h = d / 2;
        let whole = c * 255 + h;
        let q = whole / d;
        assert(0 <= q <= 255) by (nonlinear_arith)
            requires
                q == whole / d,
                whole == c * 255 + h,
                0 <= c <= d,
                0 <= h,
                2 * h <= d,
                d > 0,
        ;
        assert(q * d <= whole < q * d + d) by (nonlinear_arith)
            requires
                q == whole / d,
                d > 0,
        ;
        assert(rescaled(c, m) == q);
    }
}

proof fn busiest_held(counts: Seq<u64>)
    requires
        counts.len() > 0,
    ensures
        counts.contains(busiest(counts)),
    decreases counts.len(),
{
    let rest = counts.drop_last();
    assert(counts.last() == counts[counts.len() - 1]);
    if counts.last() > busiest(rest) {
    } else if rest.len() > 0 {
        busiest_held(rest);
        let k = choose|k: int| 0 <= k < rest.len() && rest[k] == busiest(rest);
        assert(counts[k] == busiest(counts));
    }
}

/// Whether the event at `i` has a polarity and lies at a pixel.
pub open spec fn is_at(events: Seq<RawEvent>, p: bool, x: int, y: int, i: int) -> bool {
    0 <= i < events.len() && events[i].p == p && events[i].x == x && events[i].y == y
}

/// A cell of a surface holds the age of the latest event of its polarity at its pixel, counted back
/// from the latest event of all, and nothing where there was none. The plane of positive events
/// comes first.
#[verifier::spinoff_prover]
#[verifier::rlimit(40)]
pub proof fn surface_by_pixel(stream: &EventStream, p: bool, x: int, y: int)
    requires
        0 <= x < stream.width(),
        0 <= y < stream.height(),
        forall|i: int| 0 <= i < stream.events().len() ==> (#[trigger] stream.events()[i]).t >= 0,
        forall|i: int|
            0 <= i < stream.events().len() ==> on_sensor(
                #[trigger] stream.events()[i],
                stream.width(),
                stream.height(),
            ),
    ensures
        ({
            let events = stream.events();
            let plane = stream.width() * stream.height();
            let place = y * stream.width() + x + if p {
                0
            } else {
                plane
            };
            &&& 0 <= place < surface_ages(stream).len()
            &&& match surface_ages(stream)[place] {
                None => forall|i: int| !#[trigger] is_at(events, p, x, y, i),
                Some(age) => exists|i: int, latest: int|
                    {
                        &&& #[trigger] is_at(events, p, x, y, i)
                        &&& forall|j: int| #[trigger]
                            is_at(events, p, x, y, j) ==> events[j].t <= events[i].t
                        &&& 0 <= latest < events.len()
                        &&& forall|j: int|
                            0 <= j < events.len() ==> (#[trigger] events[j]).t <= (
                            #[trigger] events[latest]).t
                        &&& age == events[latest].t - events[i].t
                    },
            }
        }),
{
    let events = stream.events();
    let width = stream.width();
    let height = stream.height();
    let cell = split_cell(width, height);
    let place = y * width + x + if p {
        0
    } else {
        width * height
    };
    pixel_in_plane(x, y, width, height);
    assert forall|i: int| 0 <= i < events.len() implies (cell(#[trigger] events[i]) == place)
        == is_at(events, p, x, y, i) by {
        split_place(events[i], p, x, y, width, height);
    }
    crate::representation::surfaces::newest_is_latest(events, cell, place);
    match crate::representation::surfaces::newest(events, cell, place) {
        None => {
            assert forall|i: int| !#[trigger] is_at(events, p, x, y, i) by {
                if 0 <= i < events.len() {
                    assert(cell(events[i]) != place);
                }
            }
        },
        Some(t) => {
            let i = choose|k: int|
                0 <= k < events.len() && cell(#[trigger] events[k]) == place
                    && crate::stream::widened(events[k]).timestamp == t;
            let latest = latest_found(events);
            assert(events[i].t <= events[latest].t);
            assert(is_at(events, p, x, y, i));
            assert forall|j: int| #[trigger] is_at(events, p, x, y, j) implies events[j].t
                <= events[i].t by {
                assert(cell(events[j]) == place);
                assert(crate::stream::widened(events[j]).timestamp <= t);
            }
        },
    }
}

/// The place of an event's cell is that of a polarity and a pixel only if they are its own.
pub proof fn split_place(e: RawEvent, p: bool, x: int, y: int, width: int, height: int)
    requires
        0 <= x < width,
        0 <= y < height,
        on_sensor(e, width, height),
    ensures
        split_cell(width, height)(e) == y * width + x + (if p {
            0
        } else {
            width * height
        }) <==> e.p == p && e.x == x && e.y == y,
        0 <= split_cell(width, height)(e) < 2 * (width * height),
{
    pixel_in_plane(x, y, width, height);
    pixel_in_plane(e.x as int, e.y as int, width, height);
    pixel_place(e.x as int, e.y as int, x, y, width);
}

/// The cells that some events hit are listed once each, in the order of their first event, and all
/// of them are.
pub proof fn first_hits_listed(cells: Seq<usize>) -> (firsts: Seq<int>)
    ensures
        are_places(
            firsts,
            cells.len() as int,
            |i: int| forall|j: int| 0 <= j < i ==> #[trigger] cells[j] != cells[i],
        ),
        crate::places::are_items(first_hits(cells), cells, firsts),
    decreases cells.len(),
{
    let holds = |i: int| forall|j: int| 0 <= j < i ==> #[trigger] cells[j] != cells[i];
    if cells.len() == 0 {
        Seq::empty()
    } else {
        let rest = cells.drop_last();
        let n = rest.len() as int;
        let before = first_hits_listed(rest);
        let held = |i: int| forall|j: int| 0 <= j < i ==> #[trigger] rest[j] != rest[i];
        assert forall|i: int| 0 <= i < n implies #[trigger] holds(i) == held(i) by {
            if holds(i) {
                assert forall|j: int| 0 <= j < i implies #[trigger] rest[j] != rest[i] by {
                    assert(cells[j] != cells[i]);
                }
            } else {
                let j = choose|j: int| 0 <= j < i && !(#[trigger] cells[j] != cells[i]);
                assert(rest[j] == rest[i]);
            }
        }
        places_agree(before, n, held, holds);
        places_push(before, n, holds);
        assert(cells.last() == cells[n]);
        if rest.contains(cells.last()) {
            let j = choose|j: int| 0 <= j < rest.len() && rest[j] == cells.last();
            assert(cells[j] == cells[n]);
            assert(!holds(n));
            before
        } else {
            assert forall|j: int| 0 <= j < n implies #[trigger] cells[j] != cells[n] by {
                assert(rest[j] == cells[j]);
            }
            before.push(n)
        }
    }
}

/// The cell of an event lies at its pixel, in the first plane if it is positive and in the second if
/// not.
pub proof fn cell_of_event(events: Seq<RawEvent>, width: int, height: int, i: int)
    requires
        0 <= i < events.len(),
        on_sensor(events[i], width, height),
        2 * (width * height) <= usize::MAX,
    ensures
        ({
            let c = cells_of(events, split_cell(width, height))[i];
            let e = events[i];
            &&& e.p ==> c == e.y * width + e.x
            &&& !e.p ==> c == width * height + e.y * width + e.x
        }),
{
    let e = events[i];
    pixel_in_plane(e.x as int, e.y as int, width, height);
}

/// The values that are not zero, in their order.
pub proof fn nonzero_listed(values: Seq<u64>) -> (places: Seq<int>)
    ensures
        are_places(places, values.len() as int, |i: int| values[i] != 0),
        crate::places::are_items(nonzero_of(values), values, places),
    decreases values.len(),
{
    let holds = |i: int| values[i] != 0;
    if values.len() == 0 {
        Seq::empty()
    } else {
        let rest = values.drop_last();
        let n = rest.len() as int;
        let before = nonzero_listed(rest);
        places_agree(before, n, |i: int| rest[i] != 0, holds);
        places_push(before, n, holds);
        if holds(n) {
            before.push(n)
        } else {
            before
        }
    }
}

/// In a count mask, red is the level of the positive count, blue that of the negative one, and green
/// is full exactly where there was an event; on white, exactly where there was none.
pub proof fn mask_by_pixel(mask: CountMask, counts: Seq<u64>, levels: Seq<u8>, i: int)
    requires
        counts.len() % 2 == 0,
        levels.len() == counts.len(),
        0 <= i < counts.len() / 2,
    ensures
        ({
            let plane = (counts.len() / 2) as int;
            let s = mask.samples(counts, levels);
            let active = counts[i] > 0 || counts[plane + i] > 0;
            &&& s.len() == 3 * plane
            &&& s[i] == levels[i]
            &&& s[2 * plane + i] == levels[plane + i]
            &&& s[plane + i] == 255 || s[plane + i] == 0
            &&& !mask.white() ==> (s[plane + i] == 255 <==> active)
            &&& mask.white() ==> (s[plane + i] == 255 <==> !active)
        }),
{
    let plane = (counts.len() / 2) as int;
    assert(plane + i - plane == i);
}

/// A pixel is red where the positive count is at least as strong as the negative one, and blue
/// otherwise: that colour is full, and the other two are faded by the stronger count.
pub proof fn red_or_blue(strengths: Seq<u32>, faded: Seq<u8>, i: int)
    requires
        strengths.len() % 2 == 0,
        faded.len() == strengths.len(),
        0 <= i < strengths.len() / 2,
    ensures
        ({
            let plane = (strengths.len() / 2) as int;
            let s = RedBlue::samples(strengths, faded);
            &&& s.len() == 3 * plane
            &&& strengths[i] >= strengths[plane + i] ==> s[i] == 255 && s[plane + i] == faded[i] && s[2
                * plane + i] == faded[i]
            &&& strengths[i] < strengths[plane + i] ==> s[2 * plane + i] == 255 && s[plane + i]
                == faded[plane + i] && s[i] == faded[plane + i]
        }),
{
    let plane = (strengths.len() / 2) as int;
    assert(plane + i - plane == i);
    assert(2 * plane + i - 2 * plane == i);
}

/// A point is an event's share of the columns, the rows and the time from the earliest event to the
/// latest, with its polarity.
pub proof fn point_shares(events: Seq<RawEvent>, width: int, height: int, i: int) -> (ends: (
    int,
    int,
))
    requires
        0 <= i < events.len(),
        on_sensor(events[i], width, height),
        width <= usize::MAX,
        height <= usize::MAX,
        forall|j: int| 0 <= j < events.len() ==> (#[trigger] events[j]).t >= 0,
    ensures
        0 <= ends.0 < events.len(),
        0 <= ends.1 < events.len(),
        forall|j: int|
            0 <= j < events.len() ==> events[ends.0].t <= (#[trigger] events[j]).t
                <= events[ends.1].t,
        ({
            let point = point_of(events, width, height, i);
            let e = events[i];
            &&& point.p == e.p
            &&& width > 1 ==> point.x.part == e.x && point.x.whole == width - 1
            &&& width == 1 ==> point.x.part == 0 && point.x.whole == 0
            &&& height > 1 ==> point.y.part == e.y && point.y.whole == height - 1
            &&& height == 1 ==> point.y.part == 0 && point.y.whole == 0
            &&& point.t.part == e.t - events[ends.0].t
            &&& point.t.whole == events[ends.1].t - events[ends.0].t
        }),
{
    let first = earliest_found(events);
    let last = latest_found(events);
    assert(events[first].t <= events[i].t <= events[last].t);
    (first, last)
}

proof fn earliest_found(events: Seq<RawEvent>) -> (at: int)
    requires
        events.len() > 0,
        forall|j: int| 0 <= j < events.len() ==> (#[trigger] events[j]).t >= 0,
    ensures
        0 <= at < events.len(),
        earliest_time(events) matches Some(t) && t == events[at].t,
        forall|j: int| 0 <= j < events.len() ==> (#[trigger] events[j]).t >= events[at].t,
    decreases events.len(),
{
    let n = events.len() - 1;
    let rest = events.drop_last();
    assert(events.last() == events[n]);
    if rest.len() == 0 {
        assert(earliest_time(rest) is None);
        n
    } else {
        assert forall|j: int| 0 <= j < rest.len() implies (#[trigger] rest[j]).t >= 0 by {
            assert(rest[j] == events[j]);
        }
        let before = earliest_found(rest);
        assert forall|j: int| 0 <= j < n implies (#[trigger] events[j]).t >= events[before].t by {
            assert(rest[j] == events[j]);
        }
        assert(rest[before] == events[before]);
        if events[before].t < events[n].t {
            before
        } else {
            n
        }
    }
}

/// What is said of an event outside the sensor is said of the first one: where it is, and how large
/// the sensor is.
pub proof fn outside_is_reported(events: Seq<RawEvent>, width: usize, height: usize, i: int)
    requires
        0 <= i < events.len(),
        events[i].x >= width || events[i].y >= height,
        forall|j: int|
            0 <= j < i ==> (#[trigger] events[j]).x < width && events[j].y < height,
    ensures
        crate::representation::first_outside(events, width as int, height as int) == i,
        crate::representation::outside_error(events, width as int, height as int) == (
        crate::representation::RepresentationError::EventOutOfBounds {
            x: events[i].x as usize,
            y: events[i].y as usize,
            width,
            height,
        }),
        crate::representation::windows::stray_error(events[i], width as int, height as int)
            == crate::representation::outside_error(events, width as int, height as int),
{
    crate::representation::first_outside_found(events, width as int, height as int);
    let f = crate::representation::first_outside(events, width as int, height as int);
    if f < i {
        assert(events[f].x < width && events[f].y < height);
    }
    if f > i {
        assert(events[i].x < width && events[i].y < height);
    }
}

} // verus!
