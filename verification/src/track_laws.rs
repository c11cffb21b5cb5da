//! What tracking does: which blob continues which track, what becomes of every track, and what the
//! measures of a blob are.

use vstd::prelude::*;

use crate::places::{are_places, places_push};
use crate::track::{
    beginning, blobs_up_to, by_distance, by_distance_keeps, continuation, greedy, grown,
    has_blob, has_track, measured, surviving, top_label, Blob, Candidate, Motion, Spotted, Track,
};

verus! {

/// A choice of candidates: no two share a track or a blob, and a candidate is passed over only for
/// one that is no farther and takes its track or its blob.
pub open spec fn is_closest_first(chosen: Seq<Candidate>, candidates: Seq<Candidate>) -> bool {
    &&& forall|i: int| 0 <= i < chosen.len() ==> candidates.contains(#[trigger] chosen[i])
    &&& forall|i: int, j: int|
        0 <= i < j < chosen.len() ==> (#[trigger] chosen[i]).track != (#[trigger] chosen[j]).track
            && chosen[i].blob != chosen[j].blob
    &&& forall|k: int|
        0 <= k < candidates.len() ==> exists|i: int|
            0 <= i < chosen.len() && (#[trigger] chosen[i]).distance <= (
            #[trigger] candidates[k]).distance && (chosen[i].track == candidates[k].track
                || chosen[i].blob == candidates[k].blob)
}

/// Every candidate is in the sorted ones.
proof fn sorted_holds(candidates: Seq<Candidate>, k: int)
    requires
        0 <= k < candidates.len(),
    ensures
        by_distance(candidates).contains(candidates[k]),
    decreases candidates.len(),
{
    let rest = candidates.drop_last();
    let sorted = by_distance(rest);
    let c = candidates.last();
    let at = crate::track::candidate_slot(sorted, c);
    crate::track::slot_in_range(sorted, c);
    let out = by_distance(candidates);
    assert(out == sorted.insert(at, c));
    if k == rest.len() {
        assert(out[at] == c);
    } else {
        sorted_holds(rest, k);
        let m = choose|m: int| 0 <= m < sorted.len() && sorted[m] == rest[k];
        if m < at {
            assert(out[m] == candidates[k]);
        } else {
            assert(out[m + 1] == candidates[k]);
        }
    }
}

/// A candidate of those in order is passed over only for one before it.
proof fn greedy_covers(sorted: Seq<Candidate>, k: int)
    requires
        0 <= k < sorted.len(),
    ensures
        exists|i: int, j: int|
            0 <= i < greedy(sorted).len() && 0 <= j <= k && #[trigger] greedy(sorted)[i]
                == #[trigger] sorted[j] && (sorted[j].track == sorted[k].track || sorted[j].blob
                == sorted[k].blob),
    decreases sorted.len(),
{
    let rest = sorted.drop_last();
    let before = greedy(rest);
    let now = greedy(sorted);
    let c = sorted.last();
    if k < rest.len() {
        greedy_covers(rest, k);
        let (i, j) = choose|i: int, j: int|
            0 <= i < before.len() && 0 <= j <= k && #[trigger] before[i] == #[trigger] rest[j] && (
            rest[j].track == rest[k].track || rest[j].blob == rest[k].blob);
        assert(now[i] == before[i] && sorted[j] == rest[j] && sorted[k] == rest[k]);
    } else if has_track(before, c.track) || has_blob(before, c.blob) {
        let i = if has_track(before, c.track) {
            choose|i: int| 0 <= i < before.len() && (#[trigger] before[i]).track == c.track
        } else {
            choose|i: int| 0 <= i < before.len() && (#[trigger] before[i]).blob == c.blob
        };
        crate::track::greedy_within(rest);
        let j = choose|j: int| 0 <= j < rest.len() && rest[j] == before[i];
        assert(now[i] == sorted[j] && sorted[k] == c);
    } else {
        assert(now[now.len() - 1] == sorted[k]);
    }
}

proof fn chosen_closest_first(candidates: Seq<Candidate>)
    ensures
        is_closest_first(greedy(by_distance(candidates)), candidates),
{
    let sorted = by_distance(candidates);
    let chosen = greedy(sorted);
    by_distance_keeps(candidates);
    crate::track::greedy_within(sorted);
    crate::track::greedy_is_matching(sorted);
    assert forall|i: int| 0 <= i < chosen.len() implies candidates.contains(
        #[trigger] chosen[i],
    ) by {
        let k = choose|k: int| 0 <= k < sorted.len() && sorted[k] == chosen[i];
        assert(candidates.contains(sorted[k]));
    }
    assert forall|k: int| 0 <= k < candidates.len() implies exists|i: int|
        0 <= i < chosen.len() && (#[trigger] chosen[i]).distance <= (
        #[trigger] candidates[k]).distance && (chosen[i].track == candidates[k].track
            || chosen[i].blob == candidates[k].blob) by {
        sorted_holds(candidates, k);
        let m = choose|m: int| 0 <= m < sorted.len() && sorted[m] == candidates[k];
        greedy_covers(sorted, m);
        let (i, j) = choose|i: int, j: int|
            0 <= i < chosen.len() && 0 <= j <= m && #[trigger] chosen[i] == #[trigger] sorted[j] && (
            sorted[j].track == sorted[m].track || sorted[j].blob == sorted[m].blob);
        assert(sorted[j].distance <= sorted[m].distance);
    }
}

/// Whether a chosen candidate continues a track.
pub open spec fn continues(c: Candidate, chosen: Seq<Candidate>, track: int) -> bool {
    chosen.contains(c) && c.track == track
}

/// What becomes of a track: the blob of the candidate that continues it sets its area, the
/// candidate its motion, and it has missed no frame; without one it moves on, and has missed one
/// more. It stays who it is, and is a frame older.
pub open spec fn becomes(
    then: Track,
    now: Track,
    i: int,
    chosen: Seq<Candidate>,
    blobs: Seq<Spotted>,
    coasted: Seq<Motion>,
) -> bool {
    &&& now.id == then.id
    &&& now.age == then.age + 1
    &&& forall|c: Candidate| #[trigger]
        continues(c, chosen, i) ==> now.missed == 0 && now.area == blobs[c.blob as int].area
            && now.motion == c.motion
    &&& (forall|c: Candidate| !#[trigger] continues(c, chosen, i)) ==> now.missed == then.missed + 1
        && now.area == then.area && now.motion == coasted[i]
}

/// Whether a track stays alive: it is continued, or may miss another frame.
pub open spec fn stays(
    tracks: Seq<Track>,
    chosen: Seq<Candidate>,
    max_missed: int,
) -> spec_fn(int) -> bool {
    |i: int|
        (exists|c: Candidate| #[trigger] continues(c, chosen, i)) || tracks[i].missed < max_missed
}

/// Whether a blob continues no track.
pub open spec fn is_new(chosen: Seq<Candidate>) -> spec_fn(int) -> bool {
    |b: int| forall|i: int| 0 <= i < chosen.len() ==> (#[trigger] chosen[i]).blob != b
}

proof fn survivors(
    tracks: Seq<Track>,
    chosen: Seq<Candidate>,
    blobs: Seq<Spotted>,
    coasted: Seq<Motion>,
    max_missed: int,
    n: int,
) -> (kept: Seq<int>)
    requires
        0 <= n <= tracks.len() <= usize::MAX,
        max_missed >= 0,
        forall|i: int, j: int|
            0 <= i < j < chosen.len() ==> (#[trigger] chosen[i]).track != (
            #[trigger] chosen[j]).track,
        forall|i: int|
            0 <= i < tracks.len() ==> (#[trigger] tracks[i]).age < usize::MAX && tracks[i].missed
                < usize::MAX,
    ensures
        are_places(kept, n, stays(tracks, chosen, max_missed)),
        surviving(tracks, chosen, blobs, coasted, max_missed, n).len() == kept.len(),
        forall|k: int|
            0 <= k < kept.len() ==> becomes(
                tracks[kept[k]],
                #[trigger] surviving(tracks, chosen, blobs, coasted, max_missed, n)[k],
                kept[k],
                chosen,
                blobs,
                coasted,
            ),
    decreases n,
{
    let holds = stays(tracks, chosen, max_missed);
    if n == 0 {
        assert(are_places(Seq::<int>::empty(), 0, holds));
        Seq::empty()
    } else {
        let kept = survivors(tracks, chosen, blobs, coasted, max_missed, n - 1);
        let before = surviving(tracks, chosen, blobs, coasted, max_missed, n - 1);
        let now = surviving(tracks, chosen, blobs, coasted, max_missed, n);
        let i = n - 1;
        let t = crate::track::stepped(tracks[i], continuation(chosen, i), blobs, coasted[i]);
        crate::track::continuation_found(chosen, i as usize);
        assert(tracks[i].age < usize::MAX);
        assert(becomes(tracks[i], t, i, chosen, blobs, coasted)) by {
            only_one_continues(chosen, i);
        }
        assert(holds(i) == (t.missed <= max_missed)) by {
            only_one_continues(chosen, i);
        }
        places_push(kept, i, holds);
        if t.missed <= max_missed {
            assert(now == before.push(t));
            let more = kept.push(i);
            assert forall|k: int| 0 <= k < more.len() implies becomes(
                tracks[more[k]],
                #[trigger] now[k],
                more[k],
                chosen,
                blobs,
                coasted,
            ) by {
                if k < kept.len() {
                    assert(now[k] == before[k]);
                }
            }
            more
        } else {
            kept
        }
    }
}

/// The candidate that is found for a track is the only one chosen for it.
proof fn only_one_continues(chosen: Seq<Candidate>, i: int)
    requires
        0 <= i <= usize::MAX,
        forall|a: int, b: int|
            0 <= a < b < chosen.len() ==> (#[trigger] chosen[a]).track != (
            #[trigger] chosen[b]).track,
    ensures
        match continuation(chosen, i) {
            Some(c) => continues(c, chosen, i) && forall|d: Candidate| #[trigger]
                continues(d, chosen, i) ==> d == c,
            None => forall|d: Candidate| !#[trigger] continues(d, chosen, i),
        },
{
    crate::track::continuation_found(chosen, i as usize);
    assert forall|d: Candidate| #[trigger] continues(d, chosen, i) implies continuation(chosen, i)
        == Some(d) by {
        let a = choose|a: int| 0 <= a < chosen.len() && chosen[a] == d;
        assert(chosen[a].track == i as usize);
        assert(has_track(chosen, i as usize));
        let c = continuation(chosen, i)->0;
        let b = choose|b: int| 0 <= b < chosen.len() && chosen[b] == c;
        if a < b {
            assert(chosen[a].track != chosen[b].track);
        } else if b < a {
            assert(chosen[b].track != chosen[a].track);
        }
    }
}

proof fn beginners(chosen: Seq<Candidate>, blobs: Seq<Spotted>, next_id: int, n: int) -> (begun: Seq<
    int,
>)
    requires
        0 <= n <= blobs.len() <= usize::MAX,
        0 <= next_id,
        next_id + blobs.len() <= u64::MAX,
    ensures
        are_places(begun, n, is_new(chosen)),
        begun.len() <= n,
        beginning(chosen, blobs, next_id, n).len() == begun.len(),
        forall|k: int|
            0 <= k < begun.len() ==> #[trigger] beginning(chosen, blobs, next_id, n)[k] == (Track {
                id: (next_id + k) as u64,
                motion: blobs[begun[k]].motion,
                area: blobs[begun[k]].area,
                age: 0,
                missed: 0,
            }),
    decreases n,
{
    let holds = is_new(chosen);
    if n == 0 {
        assert(are_places(Seq::<int>::empty(), 0, holds));
        Seq::empty()
    } else {
        let begun = beginners(chosen, blobs, next_id, n - 1);
        let before = beginning(chosen, blobs, next_id, n - 1);
        let now = beginning(chosen, blobs, next_id, n);
        let b = (n - 1) as usize;
        assert(holds(n - 1) == !has_blob(chosen, b)) by {
            if !holds(n - 1) {
                let i = choose|i: int|
                    0 <= i < chosen.len() && (#[trigger] chosen[i]).blob == n - 1;
                assert(chosen[i].blob == b);
            }
        }
        places_push(begun, n - 1, holds);
        if has_blob(chosen, b) {
            begun
        } else {
            let more = begun.push(n - 1);
            assert forall|k: int| 0 <= k < more.len() implies #[trigger] now[k] == (Track {
                id: (next_id + k) as u64,
                motion: blobs[more[k]].motion,
                area: blobs[more[k]].area,
                age: 0,
                missed: 0,
            }) by {
                if k < begun.len() {
                    assert(now[k] == before[k]);
                }
            }
            more
        }
    }
}

/// A frame is tracked like this. Candidates are chosen closest first. The tracks that are continued
/// or may miss another frame stay alive, in order, and become what `becomes` says: one that is
/// continued has missed no frame. A track ends only if no candidate continues it and it has missed
/// as many frames in a row as it may. Then a track begins at every blob that continues none, in
/// order, with the next identities.
pub proof fn frame_is_tracked(
    tracks: Seq<Track>,
    candidates: Seq<Candidate>,
    blobs: Seq<Spotted>,
    coasted: Seq<Motion>,
    max_missed: int,
    next_id: int,
    alive: Seq<Track>,
) -> (lists: (Seq<Candidate>, Seq<int>, Seq<int>))
    requires
        tracks.len() <= usize::MAX,
        blobs.len() <= usize::MAX,
        max_missed >= 0,
        0 <= next_id,
        next_id + blobs.len() <= u64::MAX,
        forall|i: int|
            0 <= i < tracks.len() ==> (#[trigger] tracks[i]).age < usize::MAX && tracks[i].missed
                < usize::MAX,
        ({
            let chosen = greedy(by_distance(candidates));
            alive == surviving(
                tracks,
                chosen,
                blobs,
                coasted,
                max_missed,
                tracks.len() as int,
            ) + beginning(chosen, blobs, next_id, blobs.len() as int)
        }),
    ensures
        ({
            let (chosen, kept, begun) = lists;
            &&& is_closest_first(chosen, candidates)
            &&& are_places(kept, tracks.len() as int, stays(tracks, chosen, max_missed))
            &&& are_places(begun, blobs.len() as int, is_new(chosen))
            &&& alive.len() == kept.len() + begun.len()
            &&& forall|k: int|
                0 <= k < kept.len() ==> becomes(
                    tracks[kept[k]],
                    #[trigger] alive[k],
                    kept[k],
                    chosen,
                    blobs,
                    coasted,
                )
            &&& forall|k: int|
                0 <= k < begun.len() ==> #[trigger] alive[kept.len() + k] == (Track {
                    id: (next_id + k) as u64,
                    motion: blobs[begun[k]].motion,
                    area: blobs[begun[k]].area,
                    age: 0,
                    missed: 0,
                })
        }),
{
    let chosen = greedy(by_distance(candidates));
    chosen_closest_first(candidates);
    let kept = survivors(tracks, chosen, blobs, coasted, max_missed, tracks.len() as int);
    let begun = beginners(chosen, blobs, next_id, blobs.len() as int);
    let first = surviving(tracks, chosen, blobs, coasted, max_missed, tracks.len() as int);
    let then = beginning(chosen, blobs, next_id, blobs.len() as int);
    assert forall|k: int| 0 <= k < kept.len() implies becomes(
        tracks[kept[k]],
        #[trigger] alive[k],
        kept[k],
        chosen,
        blobs,
        coasted,
    ) by {
        assert(alive[k] == first[k]);
    }
    assert forall|k: int| 0 <= k < begun.len() implies #[trigger] alive[kept.len() + k] == (Track {
        id: (next_id + k) as u64,
        motion: blobs[begun[k]].motion,
        area: blobs[begun[k]].area,
        age: 0,
        missed: 0,
    }) by {
        assert(alive[kept.len() + k] == then[k]);
    }
    (chosen, kept, begun)
}

/// A track that a chosen candidate continues is alive afterwards, and has missed no frame.
pub proof fn a_continued_track_lives(
    tracks: Seq<Track>,
    candidates: Seq<Candidate>,
    blobs: Seq<Spotted>,
    coasted: Seq<Motion>,
    max_missed: int,
    i: int,
)
    requires
        0 <= i < tracks.len() <= usize::MAX,
        max_missed >= 0,
        forall|j: int|
            0 <= j < tracks.len() ==> (#[trigger] tracks[j]).age < usize::MAX && tracks[j].missed
                < usize::MAX,
        exists|c: Candidate| #[trigger] continues(c, greedy(by_distance(candidates)), i),
    ensures
        ({
            let alive = surviving(
                tracks,
                greedy(by_distance(candidates)),
                blobs,
                coasted,
                max_missed,
                tracks.len() as int,
            );
            exists|k: int|
                0 <= k < alive.len() && (#[trigger] alive[k]).id == tracks[i].id && alive[k].missed
                    == 0
        }),
{
    let chosen = greedy(by_distance(candidates));
    chosen_closest_first(candidates);
    let kept = survivors(tracks, chosen, blobs, coasted, max_missed, tracks.len() as int);
    let alive = surviving(tracks, chosen, blobs, coasted, max_missed, tracks.len() as int);
    assert(stays(tracks, chosen, max_missed)(i));
    let k = choose|k: int| 0 <= k < kept.len() && kept[k] == i;
    assert(becomes(tracks[kept[k]], alive[k], kept[k], chosen, blobs, coasted));
    let c = choose|c: Candidate| #[trigger] continues(c, chosen, i);
    assert(continues(c, chosen, kept[k]));
}

/// The pixels of a label among the first `n`.
pub open spec fn pixels_of(labels: Seq<u64>, label: u64, n: int) -> Set<int> {
    Set::new(|i: int| 0 <= i < n && labels[i] == label)
}

/// The sum of a coordinate over the pixels of a label among the first `n`.
pub open spec fn sum_of(
    labels: Seq<u64>,
    label: u64,
    coordinate: spec_fn(int) -> int,
    n: int,
) -> int
    decreases n,
{
    if n <= 0 {
        0
    } else {
        sum_of(labels, label, coordinate, n - 1) + if labels[n - 1] == label {
            coordinate(n - 1)
        } else {
            0
        }
    }
}

/// What the measure of a label is: how many pixels it has among the first `n` of a frame that is
/// `width` wide, the sums of their columns and of their rows, and the smallest box around them.
pub open spec fn is_measure(b: Blob, labels: Seq<u64>, width: int, n: int) -> bool {
    let pixels = pixels_of(labels, b.label, n);
    &&& pixels.finite()
    &&& b.area == pixels.len()
    &&& b.sum_x == sum_of(labels, b.label, |i: int| i % width, n)
    &&& b.sum_y == sum_of(labels, b.label, |i: int| i / width, n)
    &&& forall|i: int| #[trigger]
        pixels.contains(i) ==> b.x_min <= i % width <= b.x_max && b.y_min <= i / width <= b.y_max
    &&& b.area > 0 ==> {
        &&& exists|i: int| #[trigger] pixels.contains(i) && i % width == b.x_min
        &&& exists|i: int| #[trigger] pixels.contains(i) && i % width == b.x_max
        &&& exists|i: int| #[trigger] pixels.contains(i) && i / width == b.y_min
        &&& exists|i: int| #[trigger] pixels.contains(i) && i / width == b.y_max
    }
}

/// The side of a frame fits its pixels, and the sums of coordinates fit a machine word.
pub open spec fn is_frame(labels: Seq<u64>, width: int, height: int) -> bool {
    &&& labels.len() == width * height
    &&& labels.len() <= usize::MAX
    &&& 0 < width <= usize::MAX
    &&& 0 < height <= usize::MAX
    &&& labels.len() * width <= u64::MAX
    &&& labels.len() * height <= u64::MAX
}

proof fn measured_is_measure(labels: Seq<u64>, width: int, height: int, label: u64, n: int)
    requires
        is_frame(labels, width, height),
        0 <= n <= labels.len(),
    ensures
        measured(labels, width, label, n).label == label,
        is_measure(measured(labels, width, label, n), labels, width, n),
        measured(labels, width, label, n).area == 0 ==> measured(labels, width, label, n).x_max == 0
            && measured(labels, width, label, n).y_max == 0 && measured(
            labels,
            width,
            label,
            n,
        ).x_min == usize::MAX && measured(labels, width, label, n).y_min == usize::MAX,
    decreases n,
{
    let b = measured(labels, width, label, n);
    let pixels = pixels_of(labels, label, n);
    if n == 0 {
        assert(pixels =~= Set::<int>::empty());
    } else {
        measured_is_measure(labels, width, height, label, n - 1);
        crate::track::measured_small(labels, width, height, label, n - 1);
        crate::track::measured_small(labels, width, height, label, n);
        crate::track::pixel_place(n - 1, width, height);
        let a = measured(labels, width, label, n - 1);
        let before = pixels_of(labels, label, n - 1);
        let (x, y) = ((n - 1) % width, (n - 1) / width);
        if labels[n - 1] == label {
            assert(pixels =~= before.insert(n - 1));
            assert(b == grown(a, x as usize, y as usize));
            sums_fit(labels, width, height, label, n);
            assert(pixels.contains(n - 1));
            assert forall|i: int| #[trigger] pixels.contains(i) implies b.x_min <= i % width
                <= b.x_max && b.y_min <= i / width <= b.y_max by {
                if i != n - 1 {
                    assert(before.contains(i));
                }
            }
            if a.area > 0 {
                let (p, q, r, t) = (
                    choose|i: int| #[trigger] before.contains(i) && i % width == a.x_min,
                    choose|i: int| #[trigger] before.contains(i) && i % width == a.x_max,
                    choose|i: int| #[trigger] before.contains(i) && i / width == a.y_min,
                    choose|i: int| #[trigger] before.contains(i) && i / width == a.y_max,
                );
                assert(pixels.contains(p) && pixels.contains(q) && pixels.contains(r)
                    && pixels.contains(t));
            }
        } else {
            assert(pixels =~= before);
        }
    }
}

proof fn sums_fit(labels: Seq<u64>, width: int, height: int, label: u64, n: int)
    requires
        is_frame(labels, width, height),
        0 < n <= labels.len(),
        labels[n - 1] == label,
    ensures
        ({
            let a = measured(labels, width, label, n - 1);
            &&& a.sum_x + (n - 1) % width <= u64::MAX
            &&& a.sum_y + (n - 1) / width <= u64::MAX
            &&& a.area + 1 <= usize::MAX
        }),
{
    let k = n - 1;
    crate::track::measured_small(labels, width, height, label, k);
    crate::track::pixel_place(k, width, height);
    let all = labels.len() as int;
    assert(k * width + width <= all * width && k * height + height <= all * height)
        by (nonlinear_arith)
        requires
            k + 1 <= all,
            0 < width,
            0 < height,
    ;
}

/// The blobs of a frame of labels are the measures of its labels, the background aside, that have at
/// least `min_area` pixels and at least one, in rising order.
pub proof fn blobs_are_measures(
    labels: Seq<u64>,
    width: int,
    height: int,
    min_area: int,
    blobs: Seq<Blob>,
)
    requires
        is_frame(labels, width, height),
        blobs == blobs_up_to(labels, width, min_area, top_label(labels) as int),
    ensures
        forall|i: int|
            0 <= i < blobs.len() ==> {
                let b = #[trigger] blobs[i];
                &&& b.label > 0
                &&& b.area >= 1
                &&& b.area >= min_area
                &&& is_measure(b, labels, width, labels.len() as int)
            },
        forall|i: int, j: int|
            0 <= i < j < blobs.len() ==> (#[trigger] blobs[i]).label < (#[trigger] blobs[j]).label,
        forall|label: u64|
            label > 0 && (#[trigger] pixels_of(labels, label, labels.len() as int)).len() >= 1
                && pixels_of(labels, label, labels.len() as int).len() >= min_area ==> exists|i: int|
                0 <= i < blobs.len() && (#[trigger] blobs[i]).label == label,
{
    let top = top_label(labels) as int;
    let n = labels.len() as int;
    blobs_listed(labels, width, height, min_area, top);
    assert forall|label: u64|
        label > 0 && (#[trigger] pixels_of(labels, label, n)).len() >= 1 && pixels_of(
            labels,
            label,
            n,
        ).len() >= min_area implies exists|i: int|
        0 <= i < blobs.len() && (#[trigger] blobs[i]).label == label by {
        let pixels = pixels_of(labels, label, n);
        measured_is_measure(labels, width, height, label, n);
        if label > top {
            crate::track::labels_below_top(labels);
            assert(pixels =~= Set::<int>::empty()) by {
                assert forall|i: int| !pixels.contains(i) by {}
            }
        }
        assert(listed(blobs, label));
    }
}

spec fn listed(blobs: Seq<Blob>, label: u64) -> bool {
    exists|i: int| 0 <= i < blobs.len() && (#[trigger] blobs[i]).label == label
}

proof fn blobs_listed(labels: Seq<u64>, width: int, height: int, min_area: int, k: int)
    requires
        is_frame(labels, width, height),
        0 <= k <= u64::MAX,
    ensures
        ({
            let blobs = blobs_up_to(labels, width, min_area, k);
            &&& forall|i: int|
                0 <= i < blobs.len() ==> {
                    let b = #[trigger] blobs[i];
                    &&& 0 < b.label <= k
                    &&& b.area >= 1
                    &&& b.area >= min_area
                    &&& is_measure(b, labels, width, labels.len() as int)
                }
            &&& forall|i: int, j: int|
                0 <= i < j < blobs.len() ==> (#[trigger] blobs[i]).label < (
                #[trigger] blobs[j]).label
            &&& forall|label: u64|
                0 < label <= k && (#[trigger] measured(
                    labels,
                    width,
                    label,
                    labels.len() as int,
                )).area >= 1 && measured(labels, width, label, labels.len() as int).area >= min_area
                    ==> listed(blobs, label)
        }),
    decreases k,
{
    if k > 0 {
        let n = labels.len() as int;
        blobs_listed(labels, width, height, min_area, k - 1);
        let before = blobs_up_to(labels, width, min_area, k - 1);
        let now = blobs_up_to(labels, width, min_area, k);
        let b = measured(labels, width, k as u64, n);
        measured_is_measure(labels, width, height, k as u64, n);
        assert forall|label: u64|
            0 < label <= k && (#[trigger] measured(labels, width, label, n)).area >= 1 && measured(
                labels,
                width,
                label,
                n,
            ).area >= min_area implies listed(now, label) by {
            if label == k {
                assert(now[before.len() as int].label == label);
            } else {
                assert(listed(before, label));
                let i = choose|i: int| 0 <= i < before.len() && (#[trigger] before[i]).label == label;
                assert(now[i] == before[i]);
            }
        }
        if b.area >= min_area && b.area >= 1 {
            assert forall|i: int, j: int| 0 <= i < j < now.len() implies (#[trigger] now[i]).label
                < (#[trigger] now[j]).label by {
                assert(now[i] == before[i]);
                if j < before.len() {
                    assert(now[j] == before[j]);
                }
            }
        }
    }
}

} // verus!
