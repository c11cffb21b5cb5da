//! What the frames of a time window show, pixel by pixel.

use vstd::prelude::*;

use crate::places::{are_places, places_push};
use crate::representation::frame_laws::{pixel_place, plane_place};
use crate::representation::windows::{
    ages_of, first_stray, heaviest, mcts_cell, voxel_steps, windowed_pixels, winner, winners_of,
    Tencode,
};
use crate::representation::latest_time;
use crate::stream::{on_sensor, EventStream, RawEvent};

verus! {

/// A weight of an event, at a pixel, of a polarity, in a window: the weights are listed event by
/// event, one for each of `count` windows.
pub open spec fn weighs(
    events: Seq<RawEvent>,
    weights: Seq<Option<u32>>,
    count: int,
    p: bool,
    k: int,
    x: int,
    y: int,
    i: int,
    w: u32,
) -> bool {
    &&& 0 <= i < events.len()
    &&& events[i].x == x
    &&& events[i].y == y
    &&& events[i].p == p
    &&& weights[i * count + k] == Some(w)
}

/// Each sample of the surfaces is the largest weight that the events at its pixel, of its polarity,
/// have in its window, and zero if they have none. The windows of negative events come first.
#[verifier::spinoff_prover]
#[verifier::rlimit(40)]
pub proof fn surfaces_take_the_largest(
    events: Seq<RawEvent>,
    weights: Seq<Option<u32>>,
    count: int,
    width: int,
    height: int,
    p: bool,
    k: int,
    x: int,
    y: int,
    sample: u32,
)
    requires
        0 <= k < count,
        0 <= x < width,
        0 <= y < height,
        weights.len() == events.len() * count,
        forall|i: int| 0 <= i < events.len() ==> on_sensor(#[trigger] events[i], width, height),
        sample == heaviest(
            events,
            weights,
            count,
            width,
            width * height,
            (if p {
                count + k
            } else {
                k
            }) * (width * height) + y * width + x,
            weights.len() as int,
        ),
    ensures
        forall|i: int, w: u32| #[trigger]
            weighs(events, weights, count, p, k, x, y, i, w) ==> w <= sample,
        sample == 0 || exists|i: int| #[trigger]
            weighs(events, weights, count, p, k, x, y, i, sample),
{
    let channel = if p {
        count + k
    } else {
        k
    };
    let plane = width * height;
    let cell = channel * plane + y * width + x;
    let n = weights.len() as int;
    assert forall|i: int, w: u32| #[trigger]
        weighs(events, weights, count, p, k, x, y, i, w) implies w <= sample by {
        let s = i * count + k;
        weight_listed(i, k, count, events.len() as int);
        assert(mcts_cell(events, count, width, plane, s) == cell);
        heaviest_bounds(events, weights, count, width, plane, cell, n, s);
    }
    if sample != 0 {
        let s = heaviest_found(events, weights, count, width, plane, cell, n);
        let i = s / count;
        assert(0 <= i < events.len() && s == i * count + s % count && 0 <= s % count < count)
            by (nonlinear_arith)
            requires
                0 <= s < events.len() * count,
                count > 0,
                i == s / count,
        ;
        let e = events[i];
        let own = (if e.p {
            count
        } else {
            0
        }) + s % count;
        assert(on_sensor(e, width, height));
        plane_place(own, e.x as int, e.y as int, channel, x, y, width, height);
        assert(weighs(events, weights, count, p, k, x, y, i, sample));
    }
}

proof fn weight_listed(i: int, k: int, count: int, n: int)
    requires
        0 <= i < n,
        0 <= k < count,
    ensures
        0 <= i * count + k < n * count,
        (i * count + k) / count == i,
        (i * count + k) % count == k,
{
    assert(0 <= i * count + k < n * count) by (nonlinear_arith)
        requires
            0 <= i < n,
            0 <= k < count,
    ;
    vstd::arithmetic::div_mod::lemma_fundamental_div_mod_converse(i * count + k, count, i, k);
}

proof fn heaviest_bounds(
    events: Seq<RawEvent>,
    weights: Seq<Option<u32>>,
    count: int,
    width: int,
    plane: int,
    cell: int,
    n: int,
    s: int,
)
    requires
        0 <= s < n,
        mcts_cell(events, count, width, plane, s) == cell,
        weights[s] is Some,
    ensures
        weights[s]->0 <= heaviest(events, weights, count, width, plane, cell, n),
    decreases n,
{
    if s < n - 1 {
        heaviest_bounds(events, weights, count, width, plane, cell, n - 1, s);
    }
}

proof fn heaviest_found(
    events: Seq<RawEvent>,
    weights: Seq<Option<u32>>,
    count: int,
    width: int,
    plane: int,
    cell: int,
    n: int,
) -> (s: int)
    requires
        heaviest(events, weights, count, width, plane, cell, n) != 0,
    ensures
        0 <= s < n,
        mcts_cell(events, count, width, plane, s) == cell,
        weights[s] == Some(heaviest(events, weights, count, width, plane, cell, n)),
    decreases n,
{
    if n <= 0 {
        0
    } else if mcts_cell(events, count, width, plane, n - 1) == cell && weights[n - 1] is Some
        && weights[n - 1]->0 > heaviest(events, weights, count, width, plane, cell, n - 1) {
        n - 1
    } else {
        heaviest_found(events, weights, count, width, plane, cell, n - 1)
    }
}

/// A voxel grid takes in exactly the events in the window, in their order, each with its pixel and
/// its polarity.
pub proof fn grid_takes_in(
    events: Seq<RawEvent>,
    inside: Seq<bool>,
    width: int,
    height: int,
    n: int,
) -> (places: Seq<int>)
    requires
        0 <= n <= events.len() <= usize::MAX,
        0 <= width,
        width * height <= usize::MAX,
        forall|i: int|
            0 <= i < n && inside[i] ==> on_sensor(#[trigger] events[i], width, height),
    ensures
        are_places(places, n, |i: int| inside[i]),
        voxel_steps(events, inside, width, n).len() == places.len(),
        forall|k: int|
            0 <= k < places.len() ==> {
                let step = #[trigger] voxel_steps(events, inside, width, n)[k];
                let e = events[places[k]];
                &&& step.event == places[k]
                &&& step.pixel == e.y * width + e.x
                &&& step.polarity == e.p
            },
    decreases n,
{
    let holds = |i: int| inside[i];
    if n == 0 {
        Seq::empty()
    } else {
        let before = grid_takes_in(events, inside, width, height, n - 1);
        places_push(before, n - 1, holds);
        if holds(n - 1) {
            let e = events[n - 1];
            crate::representation::pixel_in_plane(e.x as int, e.y as int, width, height);
            before.push(n - 1)
        } else {
            before
        }
    }
}

/// The event that is refused is the first that lies in the window and outside the sensor.
pub proof fn stray_comes_first(
    events: Seq<RawEvent>,
    inside: Seq<bool>,
    width: int,
    height: int,
    i: int,
)
    requires
        0 <= i <= events.len(),
    ensures
        ({
            let stray = first_stray(events, inside, width, height, i);
            &&& i <= stray <= events.len()
            &&& stray < events.len() ==> inside[stray] && (events[stray].x >= width
                || events[stray].y >= height)
            &&& forall|j: int|
                i <= j < stray && inside[j] ==> (#[trigger] events[j]).x < width && events[j].y
                    < height
        }),
    decreases events.len() - i,
{
    if !(i >= events.len() || (inside[i] && !(events[i].x < width && events[i].y < height))) {
        stray_comes_first(events, inside, width, height, i + 1);
    }
}

/// The ages of events are counted back from the latest of them.
pub proof fn ages_from_the_latest(events: Seq<RawEvent>, i: int) -> (latest: int)
    requires
        0 <= i < events.len(),
        forall|j: int| 0 <= j < events.len() ==> (#[trigger] events[j]).t >= 0,
    ensures
        0 <= latest < events.len(),
        forall|j: int| 0 <= j < events.len() ==> (#[trigger] events[j]).t <= events[latest].t,
        ages_of(events)[i] == events[latest].t - events[i].t,
{
    let latest = latest_found(events);
    assert(events[i].t <= events[latest].t);
    latest
}

/// The latest time of some events is that of one of them, and none is later.
pub proof fn latest_found(events: Seq<RawEvent>) -> (at: int)
    requires
        events.len() > 0,
        forall|j: int| 0 <= j < events.len() ==> (#[trigger] events[j]).t >= 0,
    ensures
        0 <= at < events.len(),
        latest_time(events) matches Some(t) && t == events[at].t,
        forall|j: int| 0 <= j < events.len() ==> (#[trigger] events[j]).t <= events[at].t,
    decreases events.len(),
{
    let n = events.len() - 1;
    let rest = events.drop_last();
    assert(events.last() == events[n]);
    if rest.len() == 0 {
        assert(latest_time(rest) is None);
        n
    } else {
        assert forall|j: int| 0 <= j < rest.len() implies (#[trigger] rest[j]).t >= 0 by {
            assert(rest[j] == events[j]);
        }
        let before = latest_found(rest);
        assert forall|j: int| 0 <= j < n implies (#[trigger] events[j]).t <= events[before].t by {
            assert(rest[j] == events[j]);
        }
        assert(rest[before] == events[before]);
        if events[before].t > events[n].t {
            before
        } else {
            n
        }
    }
}

/// Whether the event at `i` lies in a window and at a pixel.
pub open spec fn hits_pixel(
    events: Seq<RawEvent>,
    inside: Seq<bool>,
    x: int,
    y: int,
    i: int,
) -> bool {
    0 <= i < events.len() && inside[i] && events[i].x == x && events[i].y == y
}

/// A pixel of the encoding shows the latest event there in the window, and of equally late ones the
/// last: its polarity, and its age before the latest event of all. Without one it is empty.
#[verifier::spinoff_prover]
#[verifier::rlimit(40)]
pub proof fn latest_event_wins(stream: &EventStream, inside: Seq<bool>, x: int, y: int)
    requires
        stream.events().len() == inside.len(),
        stream.width() * stream.height() <= usize::MAX,
        0 <= x < stream.width(),
        0 <= y < stream.height(),
        forall|i: int| 0 <= i < stream.events().len() ==> (#[trigger] stream.events()[i]).t >= 0,
        forall|i: int|
            0 <= i < stream.events().len() && inside[i] ==> on_sensor(
                #[trigger] stream.events()[i],
                stream.width(),
                stream.height(),
            ),
    ensures
        ({
            let events = stream.events();
            match winners_of(stream, inside)[y * stream.width() + x] {
                None => forall|i: int| !#[trigger] hits_pixel(events, inside, x, y, i),
                Some((p, age)) => exists|i: int, latest: int|
                    {
                        &&& #[trigger] hits_pixel(events, inside, x, y, i)
                        &&& forall|j: int| #[trigger]
                            hits_pixel(events, inside, x, y, j) ==> events[j].t < events[i].t || (
                            events[j].t == events[i].t && j <= i)
                        &&& 0 <= latest < events.len()
                        &&& forall|j: int|
                            0 <= j < events.len() ==> (#[trigger] events[j]).t <= (
                            #[trigger] events[latest]).t
                        &&& p == events[i].p
                        &&& age == events[latest].t - events[i].t
                    },
            }
        }),
{
    let events = stream.events();
    let width = stream.width();
    let height = stream.height();
    let n = events.len() as int;
    let pixels = windowed_pixels(events, inside, width);
    crate::representation::pixel_in_plane(x, y, width, height);
    let pixel = y * width + x;
    assert forall|i: int| 0 <= i < n implies (#[trigger] pixels[i] == Some(pixel as usize))
        == hits_pixel(events, inside, x, y, i) by {
        if inside[i] {
            let e = events[i];
            crate::representation::pixel_in_plane(e.x as int, e.y as int, width, height);
            pixel_place(e.x as int, e.y as int, x, y, width);
        }
    }
    let won = winner(events, pixels, pixel, n);
    let i = winner_found(events, pixels, pixel as usize, n);
    if won is Some {
        let latest = latest_found(events);
        assert(pixels[i] == Some(pixel as usize));
        assert(hits_pixel(events, inside, x, y, i));
        assert forall|j: int| #[trigger] hits_pixel(events, inside, x, y, j) implies events[j].t
            < events[i].t || (events[j].t == events[i].t && j <= i) by {
            assert(pixels[j] == Some(pixel as usize));
        }
        assert(events[i].t <= events[latest].t);
    } else {
        assert forall|j: int| !#[trigger] hits_pixel(events, inside, x, y, j) by {
            if 0 <= j < n {
                assert(pixels[j] != Some(pixel as usize));
            }
        }
    }
}

proof fn winner_found(
    events: Seq<RawEvent>,
    pixels: Seq<Option<usize>>,
    pixel: usize,
    n: int,
) -> (i: int)
    requires
        0 <= n <= events.len(),
        forall|j: int| 0 <= j < events.len() ==> (#[trigger] events[j]).t >= 0,
    ensures
        winner(events, pixels, pixel as int, n) is None ==> forall|j: int|
            0 <= j < n ==> #[trigger] pixels[j] != Some(pixel),
        winner(events, pixels, pixel as int, n) is Some ==> {
            &&& 0 <= i < n
            &&& pixels[i] == Some(pixel)
            &&& winner(events, pixels, pixel as int, n) == Some(events[i])
            &&& forall|j: int|
                0 <= j < n && #[trigger] pixels[j] == Some(pixel) ==> events[j].t < events[i].t || (
                events[j].t == events[i].t && j <= i)
        },
    decreases n,
{
    if n == 0 {
        0
    } else {
        let before = winner_found(events, pixels, pixel, n - 1);
        let won = winner(events, pixels, pixel as int, n - 1);
        assert(events[n - 1].t >= 0);
        if pixels[n - 1] == Some(pixel) && !(won is Some && events[n - 1].t < events[before].t) {
            n - 1
        } else {
            before
        }
    }
}

/// Where the latest event at a pixel is positive the first plane is full, where it is negative the
/// third; the second holds the level of its age. A pixel without one is black.
pub proof fn encoding_by_pixel(winners: Seq<Option<(bool, u64)>>, levels: Seq<u8>, i: int)
    requires
        0 <= i < winners.len(),
        winners.len() == levels.len(),
    ensures
        ({
            let s = Tencode::samples(winners, levels);
            let plane = winners.len();
            &&& s.len() == 3 * plane
            &&& winners[i] is None ==> s[i] == 0 && s[plane + i] == 0 && s[2 * plane + i] == 0
            &&& winners[i] is Some && (winners[i]->0).0 ==> s[i] == 255 && s[plane + i] == levels[i]
                && s[2 * plane + i] == 0
            &&& winners[i] is Some && !(winners[i]->0).0 ==> s[i] == 0 && s[plane + i] == levels[i]
                && s[2 * plane + i] == 255
        }),
{
}

} // verus!
