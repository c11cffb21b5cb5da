//! Following connected components across frames.
//!
//! Positions have a fraction. The caller computes them, and the distances between tracks and blobs;
//! which blob continues which track is decided here.

use vstd::prelude::*;


verus! {

/// A connected component, measured.
#[derive(Clone, Copy, Debug, PartialEq, Eq, Structural)]
pub struct Blob {
    /// The label of the component in its frame.
    pub label: u64,
    /// The sum of the columns of its pixels; over the area it is the centre of mass.
    pub sum_x: u64,
    /// The sum of the rows of its pixels.
    pub sum_y: u64,
    pub x_min: usize,
    pub y_min: usize,
    pub x_max: usize,
    pub y_max: usize,
    /// The number of its pixels.
    pub area: usize,
}

impl Blob {
    /// The longest side of the bounding box, in pixels.
    pub fn extent(&self) -> (side: usize)
        requires
            self.x_min <= self.x_max < usize::MAX,
            self.y_min <= self.y_max < usize::MAX,
        ensures
            side == if self.x_max - self.x_min > self.y_max - self.y_min {
                self.x_max - self.x_min + 1
            } else {
                self.y_max - self.y_min + 1
            },
    {
        let wide: usize = self.x_max - self.x_min;
        let tall: usize = self.y_max - self.y_min;
        if wide > tall {
            wide + 1
        } else {
            tall + 1
        }
    }
}

/// The measure of a label over the first `n` pixels of a frame.
pub open spec fn measured(labels: Seq<u64>, width: int, label: u64, n: int) -> Blob
    decreases n,
{
    if n <= 0 {
        Blob {
            label,
            sum_x: 0,
            sum_y: 0,
            x_min: usize::MAX,
            y_min: usize::MAX,
            x_max: 0,
            y_max: 0,
            area: 0,
        }
    } else {
        let b = measured(labels, width, label, n - 1);
        if labels[n - 1] == label {
            grown(b, ((n - 1) % width) as usize, ((n - 1) / width) as usize)
        } else {
            b
        }
    }
}

/// A blob with one more pixel.
pub open spec fn grown(b: Blob, x: usize, y: usize) -> Blob {
    Blob {
        label: b.label,
        sum_x: (b.sum_x + x) as u64,
        sum_y: (b.sum_y + y) as u64,
        x_min: if x < b.x_min {
            x
        } else {
            b.x_min
        },
        y_min: if y < b.y_min {
            y
        } else {
            b.y_min
        },
        x_max: if x > b.x_max {
            x
        } else {
            b.x_max
        },
        y_max: if y > b.y_max {
            y
        } else {
            b.y_max
        },
        area: (b.area + 1) as usize,
    }
}

/// The number of pixels of a label is its area, and its sums are small.
pub proof fn measured_small(labels: Seq<u64>, width: int, height: int, label: u64, n: int)
    requires
        0 <= n <= labels.len(),
        labels.len() == width * height,
        labels.len() <= usize::MAX,
        0 < width <= usize::MAX,
        0 < height <= usize::MAX,
        labels.len() * width <= u64::MAX,
        labels.len() * height <= u64::MAX,
    ensures
        0 <= measured(labels, width, label, n).area <= n,
        measured(labels, width, label, n).sum_x <= n * width <= labels.len() * width,
        measured(labels, width, label, n).sum_y <= n * height <= labels.len() * height,
    decreases n,
{
    let area = labels.len() as int;
    assert(n * width <= area * width && n * height <= area * height) by (nonlinear_arith)
        requires
            n <= area,
            0 < width,
            0 < height,
    ;
    if n > 0 {
        measured_small(labels, width, height, label, n - 1);
        pixel_place(n - 1, width, height);
        assert((n - 1) * width + width == n * width) by (nonlinear_arith);
        assert((n - 1) * height + height == n * height) by (nonlinear_arith);
    } else {
        assert(n * width == 0 && n * height == 0) by (nonlinear_arith)
            requires
                n == 0,
        ;
    }
}

pub proof fn pixel_place(i: int, width: int, height: int)
    requires
        0 <= i < width * height,
        0 < width,
        0 < height,
    ensures
        0 <= i % width < width,
        0 <= i / width < height,
{
    assert(0 <= i % width < width && 0 <= i / width < height) by (nonlinear_arith)
        requires
            0 <= i < width * height,
            0 < width,
    ;
}

/// The blobs with at least `min_area` pixels among the labels from 1 to `k`.
pub open spec fn blobs_up_to(
    labels: Seq<u64>,
    width: int,
    min_area: int,
    k: int,
) -> Seq<Blob>
    decreases k,
{
    if k <= 0 {
        Seq::empty()
    } else {
        let before = blobs_up_to(labels, width, min_area, k - 1);
        let b = measured(labels, width, k as u64, labels.len() as int);
        if b.area >= min_area && b.area >= 1 {
            before.push(b)
        } else {
            before
        }
    }
}

/// The largest label.
pub open spec fn top_label(labels: Seq<u64>) -> u64
    decreases labels.len(),
{
    if labels.len() == 0 {
        0
    } else if labels.last() > top_label(labels.drop_last()) {
        labels.last()
    } else {
        top_label(labels.drop_last())
    }
}

/// Measures every component of at least `min_area` pixels in a frame of labels, where zero is the
/// background.
pub fn blobs_of(labels: &[u64], width: usize, height: usize, min_area: usize) -> (blobs: Vec<Blob>)
    requires
        labels@.len() == width * height,
        labels@.len() * width <= u64::MAX,
        labels@.len() * height <= u64::MAX,
        forall|i: int| 0 <= i < labels@.len() ==> #[trigger] labels@[i] <= labels@.len(),
    ensures
        blobs@ == blobs_up_to(
            labels@,
            width as int,
            min_area as int,
            top_label(labels@) as int,
        ),
{
    let n: usize = labels.len();
    let mut top: u64 = 0;
    assert(labels@.take(0) =~= Seq::<u64>::empty());
    for i in 0..n
        invariant
            n == labels@.len(),
            top == top_label(labels@.take(i as int)),
            top <= n,
            forall|j: int| 0 <= j < n ==> #[trigger] labels@[j] <= n,
    {
        assert(labels@.take(i + 1).drop_last() =~= labels@.take(i as int));
        if labels[i] > top {
            top = labels[i];
        }
    }
    assert(labels@.take(n as int) =~= labels@);
    let mut blobs: Vec<Blob> = Vec::new();
    if n == 0 {
        return blobs;
    }
    proof {
        assert(width > 0 && height > 0) by (nonlinear_arith)
            requires
                0 < width * height,
                width >= 0,
                height >= 0,
        ;
    }
    // One pass over the pixels, with a measure per label.
    let mut sums: Vec<Blob> = Vec::new();
    let count: usize = top as usize;
    for k in 0..count
        invariant
            count <= n,
            count == top,
            sums@.len() == k,
            forall|j: int|
                0 <= j < k ==> #[trigger] sums@[j] == measured(
                    labels@,
                    width as int,
                    (j + 1) as u64,
                    0,
                ),
    {
        sums.push(
            Blob {
                label: k as u64 + 1,
                sum_x: 0,
                sum_y: 0,
                x_min: usize::MAX,
                y_min: usize::MAX,
                x_max: 0,
                y_max: 0,
                area: 0,
            },
        );
    }
    let ghost all = labels@;
    proof {
        labels_below_top(all);
    }
    for i in 0..n
        invariant
            n == labels@.len(),
            all == labels@,
            n == width * height,
            0 < width,
            0 < height,
            n * width <= u64::MAX,
            n * height <= u64::MAX,
            count == top_label(all),
            sums@.len() == count,
            forall|j: int| 0 <= j < n ==> #[trigger] all[j] <= count,
            forall|j: int|
                0 <= j < count ==> #[trigger] sums@[j] == measured(
                    all,
                    width as int,
                    (j + 1) as u64,
                    i as int,
                ),
    {
        proof {
            pixel_place(i as int, width as int, height as int);
        }
        let label = labels[i] as usize;
        if label != 0 {
            let x: usize = i % width;
            let y: usize = i / width;
            let b = sums[label - 1];
            proof {
                measured_small(all, width as int, height as int, label as u64, i as int);
            }
            proof {
                let (k, n, w, h) = (i as int, n as int, width as int, height as int);
                assert(k * w + w <= n * w && k * h + h <= n * h) by (nonlinear_arith)
                    requires
                        k + 1 <= n,
                        0 < w,
                        0 < h,
                ;
            }
            let more = Blob {
                label: b.label,
                sum_x: b.sum_x + x as u64,
                sum_y: b.sum_y + y as u64,
                x_min: if x < b.x_min {
                    x
                } else {
                    b.x_min
                },
                y_min: if y < b.y_min {
                    y
                } else {
                    b.y_min
                },
                x_max: if x > b.x_max {
                    x
                } else {
                    b.x_max
                },
                y_max: if y > b.y_max {
                    y
                } else {
                    b.y_max
                },
                area: b.area + 1,
            };
            assert(more == grown(b, x, y));
            sums.set(label - 1, more);
        }
    }
    for k in 0..count
        invariant
            count <= n,
            n == all.len(),
            sums@.len() == count,
            forall|j: int|
                0 <= j < count ==> #[trigger] sums@[j] == measured(
                    all,
                    width as int,
                    (j + 1) as u64,
                    n as int,
                ),
            blobs@ == blobs_up_to(all, width as int, min_area as int, k as int),
    {
        let b = sums[k];
        if b.area >= min_area && b.area >= 1 {
            blobs.push(b);
        }
    }
    blobs
}

pub proof fn labels_below_top(labels: Seq<u64>)
    ensures
        forall|i: int| 0 <= i < labels.len() ==> #[trigger] labels[i] <= top_label(labels),
    decreases labels.len(),
{
    if labels.len() > 0 {
        labels_below_top(labels.drop_last());
        assert forall|i: int| 0 <= i < labels.len() implies #[trigger] labels[i] <= top_label(
            labels,
        ) by {
            if i < labels.len() - 1 {
                assert(labels[i] == labels.drop_last()[i]);
            }
        }
    }
}

/// Where something is and how it moves, as the bit patterns of double precision numbers.
#[derive(Clone, Copy, Debug, PartialEq, Eq, Structural)]
pub struct Motion {
    pub x: u64,
    pub y: u64,
    pub dx: u64,
    pub dy: u64,
}

/// An object that is followed across frames.
#[derive(Clone, Copy, Debug, PartialEq, Eq, Structural)]
pub struct Track {
    /// The identity of the object. It is never used again.
    pub id: u64,
    pub motion: Motion,
    pub area: usize,
    /// Frames since the track began.
    pub age: usize,
    /// Frames in a row without a blob.
    pub missed: usize,
}

/// A blob that was found in a frame: its area, and where a track that begins there is.
#[derive(Clone, Copy, Debug, PartialEq, Eq, Structural)]
pub struct Spotted {
    pub area: usize,
    pub motion: Motion,
}

/// A blob that may continue a track: how far it is from where the track was expected, and how the
/// track moves if it does. The distance is the bit pattern of a number that is not negative, which
/// is ordered as the number is.
#[derive(Clone, Copy, Debug, PartialEq, Eq, Structural)]
pub struct Candidate {
    pub distance: u64,
    pub track: usize,
    pub blob: usize,
    pub motion: Motion,
}

/// Where a candidate goes among candidates in order of distance: after those that are no farther.
pub open spec fn candidate_slot(sorted: Seq<Candidate>, c: Candidate) -> int
    decreases sorted.len(),
{
    if sorted.len() == 0 {
        0
    } else if sorted.last().distance > c.distance {
        candidate_slot(sorted.drop_last(), c)
    } else {
        sorted.len() as int
    }
}

/// Candidates in order of distance; equally far ones stay in order.
pub open spec fn by_distance(candidates: Seq<Candidate>) -> Seq<Candidate>
    decreases candidates.len(),
{
    if candidates.len() == 0 {
        Seq::empty()
    } else {
        let sorted = by_distance(candidates.drop_last());
        sorted.insert(candidate_slot(sorted, candidates.last()), candidates.last())
    }
}

/// The blobs that were given to tracks, closest candidates first: for each track the candidate that
/// continues it.
pub open spec fn greedy(sorted: Seq<Candidate>) -> Seq<Candidate>
    decreases sorted.len(),
{
    if sorted.len() == 0 {
        Seq::empty()
    } else {
        let chosen = greedy(sorted.drop_last());
        let c = sorted.last();
        if has_track(chosen, c.track) || has_blob(chosen, c.blob) {
            chosen
        } else {
            chosen.push(c)
        }
    }
}

/// Whether a track is continued.
pub open spec fn has_track(chosen: Seq<Candidate>, track: usize) -> bool {
    exists|i: int| 0 <= i < chosen.len() && (#[trigger] chosen[i]).track == track
}

/// Whether a blob continues a track.
pub open spec fn has_blob(chosen: Seq<Candidate>, blob: usize) -> bool {
    exists|i: int| 0 <= i < chosen.len() && (#[trigger] chosen[i]).blob == blob
}

/// No two candidates that are chosen share a track or a blob.
pub proof fn greedy_is_matching(sorted: Seq<Candidate>)
    ensures
        forall|i: int, j: int|
            0 <= i < j < greedy(sorted).len() ==> (#[trigger] greedy(sorted)[i]).track != (
            #[trigger] greedy(sorted)[j]).track && greedy(sorted)[i].blob != greedy(sorted)[j].blob,
    decreases sorted.len(),
{
    if sorted.len() > 0 {
        greedy_is_matching(sorted.drop_last());
        let before = greedy(sorted.drop_last());
        let now = greedy(sorted);
        if now != before {
            assert forall|i: int, j: int| 0 <= i < j < now.len() implies (
            #[trigger] now[i]).track != (#[trigger] now[j]).track && now[i].blob
                != now[j].blob by {
                assert(now[i] == before[i]);
                if j < before.len() {
                    assert(now[j] == before[j]);
                }
            }
        }
    }
}

pub proof fn greedy_within(sorted: Seq<Candidate>)
    ensures
        forall|i: int|
            0 <= i < greedy(sorted).len() ==> sorted.contains(#[trigger] greedy(sorted)[i]),
    decreases sorted.len(),
{
    if sorted.len() > 0 {
        let rest = sorted.drop_last();
        greedy_within(rest);
        let before = greedy(rest);
        let now = greedy(sorted);
        assert forall|i: int| 0 <= i < now.len() implies sorted.contains(#[trigger] now[i]) by {
            if i < before.len() {
                assert(now[i] == before[i]);
                let k = choose|k: int| 0 <= k < rest.len() && rest[k] == before[i];
                assert(sorted[k] == now[i]);
            } else {
                assert(sorted[sorted.len() - 1] == now[i]);
            }
        }
    }
}

/// The candidate that continues a track.
pub open spec fn continuation(chosen: Seq<Candidate>, track: int) -> Option<Candidate>
    decreases chosen.len(),
{
    if chosen.len() == 0 {
        None
    } else if chosen.last().track == track {
        Some(chosen.last())
    } else {
        continuation(chosen.drop_last(), track)
    }
}

pub proof fn continuation_found(chosen: Seq<Candidate>, track: usize)
    ensures
        continuation(chosen, track as int) is Some <==> has_track(chosen, track),
        continuation(chosen, track as int) matches Some(c) ==> chosen.contains(c) && c.track
            == track,
    decreases chosen.len(),
{
    if chosen.len() > 0 {
        let rest = chosen.drop_last();
        continuation_found(rest, track);
        if chosen.last().track == track {
            assert(chosen[chosen.len() - 1].track == track);
        } else {
            if has_track(rest, track) {
                let i = choose|i: int| 0 <= i < rest.len() && (#[trigger] rest[i]).track == track;
                assert(chosen[i] == rest[i]);
            }
            if has_track(chosen, track) {
                let i = choose|i: int|
                    0 <= i < chosen.len() && (#[trigger] chosen[i]).track == track;
                assert(rest[i] == chosen[i]);
            }
            if continuation(rest, track as int) is Some {
                let c = continuation(rest, track as int)->0;
                let k = choose|k: int| 0 <= k < rest.len() && rest[k] == c;
                assert(chosen[k] == c);
            }
        }
    }
}

/// A track after a frame: continued by a blob, or coasting.
pub open spec fn stepped(
    track: Track,
    continued: Option<Candidate>,
    blobs: Seq<Spotted>,
    coasted: Motion,
) -> Track {
    match continued {
        Some(c) => Track {
            id: track.id,
            motion: c.motion,
            area: blobs[c.blob as int].area,
            age: (track.age + 1) as usize,
            missed: 0,
        },
        None => Track {
            id: track.id,
            motion: coasted,
            area: track.area,
            age: (track.age + 1) as usize,
            missed: (track.missed + 1) as usize,
        },
    }
}

/// The first `n` tracks after a frame, without those that have been missed for too long.
pub open spec fn surviving(
    tracks: Seq<Track>,
    chosen: Seq<Candidate>,
    blobs: Seq<Spotted>,
    coasted: Seq<Motion>,
    max_missed: int,
    n: int,
) -> Seq<Track>
    decreases n,
{
    if n <= 0 {
        Seq::empty()
    } else {
        let before = surviving(tracks, chosen, blobs, coasted, max_missed, n - 1);
        let t = stepped(
            tracks[n - 1],
            continuation(chosen, n - 1),
            blobs,
            coasted[n - 1],
        );
        if t.missed <= max_missed {
            before.push(t)
        } else {
            before
        }
    }
}

/// The tracks that begin at the first `n` blobs that continue none.
pub open spec fn beginning(
    chosen: Seq<Candidate>,
    blobs: Seq<Spotted>,
    next_id: int,
    n: int,
) -> Seq<Track>
    decreases n,
{
    if n <= 0 {
        Seq::empty()
    } else {
        let before = beginning(chosen, blobs, next_id, n - 1);
        if has_blob(chosen, (n - 1) as usize) {
            before
        } else {
            before.push(
                Track {
                    id: (next_id + before.len()) as u64,
                    motion: blobs[n - 1].motion,
                    area: blobs[n - 1].area,
                    age: 0,
                    missed: 0,
                },
            )
        }
    }
}

/// Follows blobs across frames and keeps their identities.
#[derive(Debug)]
pub struct Tracker {
    max_missed: usize,
    tracks: Vec<Track>,
    next_id: u64,
}

/// Identities rise: each is larger than those before it, and the next is larger than all.
pub open spec fn ids_rise(tracks: Seq<Track>, next_id: int) -> bool {
    &&& forall|i: int, j: int|
        0 <= i < j < tracks.len() ==> (#[trigger] tracks[i]).id < (#[trigger] tracks[j]).id
    &&& forall|i: int| 0 <= i < tracks.len() ==> 1 <= (#[trigger] tracks[i]).id < next_id
}

impl Tracker {
    /// The tracks that are alive, in the order of their identities.
    pub closed spec fn alive(&self) -> Seq<Track> {
        self.tracks@
    }

    /// The identity of the next track.
    pub closed spec fn next(&self) -> u64 {
        self.next_id
    }

    /// How many frames in a row a track may miss.
    pub closed spec fn patience(&self) -> int {
        self.max_missed as int
    }

    /// No identity is used twice, and the next one is new.
    pub open spec fn wf(&self) -> bool {
        self.next() >= 1 && ids_rise(self.alive(), self.next() as int)
    }

    pub fn new(max_missed: usize) -> (tracker: Self)
        ensures
            tracker.wf(),
            tracker.alive() == Seq::<Track>::empty(),
            tracker.next() == 1,
            tracker.patience() == max_missed,
    {
        Tracker { max_missed, tracks: Vec::new(), next_id: 1 }
    }

    /// The tracks that are alive.
    pub fn tracks(&self) -> (tracks: &[Track])
        ensures
            tracks@ == self.alive(),
    {
        self.tracks.as_slice()
    }

    /// Forgets every track. Identities go on from where they were.
    pub fn reset(&mut self)
        requires
            old(self).wf(),
        ensures
            final(self).wf(),
            final(self).alive() == Seq::<Track>::empty(),
            final(self).next() == old(self).next(),
            final(self).patience() == old(self).patience(),
    {
        self.tracks = Vec::new();
    }

    /// Matches the blobs of a frame to the tracks: the closest candidates first, each track and each
    /// blob at most once. Tracks without a blob move on as expected and end when they have missed too
    /// many frames; blobs without a track begin one.
    pub fn associate(&mut self, candidates: &[Candidate], blobs: &[Spotted], coasted: &[Motion])
        requires
            old(self).wf(),
            coasted@.len() == old(self).alive().len(),
            forall|i: int|
                0 <= i < candidates@.len() ==> (#[trigger] candidates@[i]).track < old(
                    self,
                ).alive().len() && candidates@[i].blob < blobs@.len(),
            old(self).next() + blobs@.len() <= u64::MAX,
            forall|i: int|
                0 <= i < old(self).alive().len() ==> (#[trigger] old(self).alive()[i]).age
                    < usize::MAX && old(self).alive()[i].missed < usize::MAX,
        ensures
            final(self).wf(),
            final(self).patience() == old(self).patience(),
            ({
                let chosen = greedy(by_distance(candidates@));
                let begun = beginning(
                    chosen,
                    blobs@,
                    old(self).next() as int,
                    blobs@.len() as int,
                );
                &&& final(self).alive() == surviving(
                    old(self).alive(),
                    chosen,
                    blobs@,
                    coasted@,
                    old(self).patience(),
                    old(self).alive().len() as int,
                ) + begun
                &&& final(self).next() == old(self).next() + begun.len()
            }),
    {
        let sorted = sort_candidates(candidates);
        let ghost chosen = greedy(sorted@);
        proof {
            by_distance_keeps(candidates@);
            assert forall|i: int| 0 <= i < sorted@.len() implies (#[trigger] sorted@[i]).track
                < self.tracks@.len() && sorted@[i].blob < blobs@.len() by {
                assert(candidates@.contains(sorted@[i]));
            }
        }
        let (continued, blob_taken) = match_candidates(&sorted, self.tracks.len(), blobs.len());
        proof {
            greedy_within(sorted@);
            assert forall|i: int| 0 <= i < chosen.len() implies (#[trigger] chosen[i]).blob
                < blobs@.len() by {
                let k = choose|k: int| 0 <= k < sorted@.len() && sorted@[k] == chosen[i];
            }
        }
        let mut kept = step_tracks(
            &self.tracks,
            &continued,
            blobs,
            coasted,
            self.max_missed,
            Ghost(chosen),
            Ghost(self.next_id as int),
        );
        self.next_id = begin_tracks(&mut kept, &blob_taken, blobs, self.next_id, Ghost(chosen));
        self.tracks = kept;
    }
}

/// Chooses candidates in their order: for each track the one that continues it, and for each blob
/// whether it is taken.
fn match_candidates(sorted: &Vec<Candidate>, count: usize, found: usize) -> (matched: (
    Vec<Option<Candidate>>,
    Vec<bool>,
))
    requires
        forall|j: int|
            0 <= j < sorted@.len() ==> (#[trigger] sorted@[j]).track < count && sorted@[j].blob
                < found,
    ensures
        matched.0@.len() == count,
        matched.1@.len() == found,
        forall|t: int|
            0 <= t < count ==> #[trigger] matched.0@[t] == continuation(greedy(sorted@), t),
        forall|b: int|
            0 <= b < found ==> #[trigger] matched.1@[b] == has_blob(greedy(sorted@), b as usize),
{
    let mut continued: Vec<Option<Candidate>> = Vec::new();
    continued.resize(count, None);
    let mut blob_taken: Vec<bool> = Vec::new();
    blob_taken.resize(found, false);
    let n: usize = sorted.len();
    let ghost order = sorted@;
    assert(order.take(0) =~= Seq::<Candidate>::empty());
    for i in 0..n
        invariant
            n == order.len(),
            order == sorted@,
            continued@.len() == count,
            blob_taken@.len() == found,
            forall|j: int|
                0 <= j < n ==> (#[trigger] order[j]).track < count && order[j].blob < found,
            forall|t: int|
                0 <= t < count ==> #[trigger] continued@[t] == continuation(
                    greedy(order.take(i as int)),
                    t,
                ),
            forall|b: int|
                0 <= b < found ==> #[trigger] blob_taken@[b] == has_blob(
                    greedy(order.take(i as int)),
                    b as usize,
                ),
    {
        let c = sorted[i];
        let ghost before = greedy(order.take(i as int));
        proof {
            assert(order.take(i + 1).drop_last() =~= order.take(i as int));
            continuation_found(before, c.track);
        }
        if continued[c.track].is_none() && !blob_taken[c.blob] {
            let ghost now = before.push(c);
            assert(greedy(order.take(i + 1)) == now);
            continued.set(c.track, Some(c));
            let ghost taken = blob_taken@;
            blob_taken.set(c.blob, true);
            proof {
                assert(now.drop_last() =~= before);
                assert forall|b: int| 0 <= b < found implies #[trigger] blob_taken@[b] == has_blob(
                    now,
                    b as usize,
                ) by {
                    assert(taken[b] == has_blob(before, b as usize));
                    if has_blob(before, b as usize) {
                        let k = choose|k: int|
                            0 <= k < before.len() && (#[trigger] before[k]).blob == b as usize;
                        assert(now[k] == before[k]);
                    }
                    if b == c.blob {
                        assert(now[now.len() - 1].blob == b as usize);
                    } else if has_blob(now, b as usize) {
                        let k = choose|k: int|
                            0 <= k < now.len() && (#[trigger] now[k]).blob == b as usize;
                        assert(before[k] == now[k]);
                    }
                }
            }
        }
    }
    assert(order.take(n as int) =~= order);
    (continued, blob_taken)
}

/// The tracks after a frame, without those that have been missed for too long.
fn step_tracks(
    tracks: &Vec<Track>,
    continued: &Vec<Option<Candidate>>,
    blobs: &[Spotted],
    coasted: &[Motion],
    max_missed: usize,
    Ghost(chosen): Ghost<Seq<Candidate>>,
    Ghost(next_id): Ghost<int>,
) -> (kept: Vec<Track>)
    requires
        continued@.len() == tracks@.len(),
        coasted@.len() == tracks@.len(),
        forall|t: int|
            0 <= t < tracks@.len() ==> #[trigger] continued@[t] == continuation(chosen, t),
        forall|i: int| 0 <= i < chosen.len() ==> (#[trigger] chosen[i]).blob < blobs@.len(),
        forall|i: int|
            0 <= i < tracks@.len() ==> (#[trigger] tracks@[i]).age < usize::MAX && tracks@[i].missed
                < usize::MAX,
        ids_rise(tracks@, next_id),
    ensures
        kept@ == surviving(
            tracks@,
            chosen,
            blobs@,
            coasted@,
            max_missed as int,
            tracks@.len() as int,
        ),
        ids_rise(kept@, next_id),
{
    let count: usize = tracks.len();
    let ghost all = tracks@;
    let mut kept: Vec<Track> = Vec::new();
    for i in 0..count
        invariant
            count == all.len(),
            all == tracks@,
            count == coasted@.len(),
            continued@.len() == count,
            forall|j: int| 0 <= j < chosen.len() ==> (#[trigger] chosen[j]).blob < blobs@.len(),
            forall|t: int| 0 <= t < count ==> #[trigger] continued@[t] == continuation(chosen, t),
            forall|j: int|
                0 <= j < count ==> (#[trigger] all[j]).age < usize::MAX && all[j].missed
                    < usize::MAX,
            ids_rise(all, next_id),
            kept@ == surviving(all, chosen, blobs@, coasted@, max_missed as int, i as int),
            ids_rise(kept@, next_id),
            forall|j: int|
                0 <= j < kept@.len() ==> i > 0 && (#[trigger] kept@[j]).id <= all[i - 1].id,
    {
        let track = tracks[i];
        let ghost before = kept@;
        let next = match continued[i] {
            Some(c) => {
                proof {
                    continuation_found(chosen, i);
                    let k = choose|k: int| 0 <= k < chosen.len() && chosen[k] == c;
                    assert(chosen[k].blob < blobs@.len());
                }
                Track {
                    id: track.id,
                    motion: c.motion,
                    area: blobs[c.blob].area,
                    age: track.age + 1,
                    missed: 0,
                }
            },
            None => Track {
                id: track.id,
                motion: coasted[i],
                area: track.area,
                age: track.age + 1,
                missed: track.missed + 1,
            },
        };
        if next.missed <= max_missed {
            kept.push(next);
        }
        proof {
            assert forall|j: int| 0 <= j < before.len() implies kept@[j] == #[trigger] before[j]
                && before[j].id < all[i as int].id by {
                assert(before[j].id <= all[i - 1].id);
                assert(all[i - 1].id < all[i as int].id);
            }
        }
    }
    kept
}

/// Begins a track at every blob that is not taken; gives the next identity.
fn begin_tracks(
    kept: &mut Vec<Track>,
    blob_taken: &Vec<bool>,
    blobs: &[Spotted],
    first_id: u64,
    Ghost(chosen): Ghost<Seq<Candidate>>,
) -> (next_id: u64)
    requires
        first_id >= 1,
        first_id + blobs@.len() <= u64::MAX,
        blob_taken@.len() == blobs@.len(),
        forall|b: int|
            0 <= b < blobs@.len() ==> #[trigger] blob_taken@[b] == has_blob(chosen, b as usize),
        ids_rise(old(kept)@, first_id as int),
    ensures
        final(kept)@ == old(kept)@ + beginning(
            chosen,
            blobs@,
            first_id as int,
            blobs@.len() as int,
        ),
        next_id == first_id + beginning(
            chosen,
            blobs@,
            first_id as int,
            blobs@.len() as int,
        ).len(),
        ids_rise(final(kept)@, next_id as int),
{
    let found: usize = blobs.len();
    let ghost survivors = kept@;
    let mut next_id: u64 = first_id;
    assert(survivors + beginning(chosen, blobs@, first_id as int, 0) =~= survivors);
    for i in 0..found
        invariant
            found == blobs@.len(),
            blob_taken@.len() == found,
            1 <= first_id,
            first_id + found <= u64::MAX,
            next_id == first_id + beginning(chosen, blobs@, first_id as int, i as int).len(),
            beginning(chosen, blobs@, first_id as int, i as int).len() <= i,
            forall|b: int|
                0 <= b < found ==> #[trigger] blob_taken@[b] == has_blob(chosen, b as usize),
            kept@ == survivors + beginning(chosen, blobs@, first_id as int, i as int),
            ids_rise(kept@, next_id as int),
    {
        if !blob_taken[i] {
            kept.push(
                Track {
                    id: next_id,
                    motion: blobs[i].motion,
                    area: blobs[i].area,
                    age: 0,
                    missed: 0,
                },
            );
            next_id += 1;
            assert(kept@ =~= survivors + beginning(chosen, blobs@, first_id as int, i + 1));
        }
    }
    next_id
}

fn sort_candidates(candidates: &[Candidate]) -> (sorted: Vec<Candidate>)
    ensures
        sorted@ == by_distance(candidates@),
{
    let n: usize = candidates.len();
    let mut sorted: Vec<Candidate> = Vec::new();
    assert(candidates@.take(0) =~= Seq::<Candidate>::empty());
    for i in 0..n
        invariant
            n == candidates@.len(),
            sorted@ == by_distance(candidates@.take(i as int)),
    {
        assert(candidates@.take(i + 1).drop_last() =~= candidates@.take(i as int));
        let c = candidates[i];
        let mut at: usize = sorted.len();
        let ghost before = sorted@;
        assert(before.take(at as int) =~= before);
        while at > 0 && sorted[at - 1].distance > c.distance
            invariant
                at <= before.len(),
                sorted@ == before,
                candidate_slot(before, c) == candidate_slot(before.take(at as int), c),
            decreases at,
        {
            assert(before.take(at as int).drop_last() =~= before.take(at - 1));
            at -= 1;
        }
        sorted.insert(at, c);
    }
    assert(candidates@.take(n as int) =~= candidates@);
    sorted
}

pub proof fn slot_in_range(sorted: Seq<Candidate>, c: Candidate)
    ensures
        0 <= candidate_slot(sorted, c) <= sorted.len(),
        candidate_slot(sorted, c) > 0 ==> sorted[candidate_slot(sorted, c) - 1].distance
            <= c.distance,
        forall|i: int|
            candidate_slot(sorted, c) <= i < sorted.len() ==> (#[trigger] sorted[i]).distance
                > c.distance,
    decreases sorted.len(),
{
    if sorted.len() > 0 && sorted.last().distance > c.distance {
        let rest = sorted.drop_last();
        slot_in_range(rest, c);
        assert forall|i: int| candidate_slot(sorted, c) <= i < sorted.len() implies (
        #[trigger] sorted[i]).distance > c.distance by {
            if i < rest.len() {
                assert(sorted[i] == rest[i]);
            }
        }
    }
}

/// Sorting candidates keeps them, and puts no closer one after a farther one.
pub proof fn by_distance_keeps(candidates: Seq<Candidate>)
    ensures
        by_distance(candidates).len() == candidates.len(),
        forall|i: int|
            0 <= i < candidates.len() ==> candidates.contains(#[trigger] by_distance(candidates)[i]),
        forall|i: int, j: int|
            0 <= i <= j < candidates.len() ==> (#[trigger] by_distance(candidates)[i]).distance <= (
            #[trigger] by_distance(candidates)[j]).distance,
    decreases candidates.len(),
{
    if candidates.len() > 0 {
        let rest = candidates.drop_last();
        let c = candidates.last();
        by_distance_keeps(rest);
        let sorted = by_distance(rest);
        slot_in_range(sorted, c);
        let k = candidate_slot(sorted, c);
        let out = by_distance(candidates);
        assert(out == sorted.insert(k, c));
        assert forall|i: int| 0 <= i < candidates.len() implies candidates.contains(
            #[trigger] out[i],
        ) by {
            if i == k {
                assert(candidates[candidates.len() - 1] == out[i]);
            } else {
                let a = if i < k {
                    i
                } else {
                    i - 1
                };
                assert(out[i] == sorted[a]);
                let m = choose|m: int| 0 <= m < rest.len() && rest[m] == sorted[a];
                assert(candidates[m] == out[i]);
            }
        }
        assert forall|i: int, j: int| 0 <= i <= j < candidates.len() implies (
        #[trigger] out[i]).distance <= (#[trigger] out[j]).distance by {
            let a = if i < k {
                i
            } else {
                i - 1
            };
            let b = if j < k {
                j
            } else {
                j - 1
            };
            if i != k {
                assert(out[i] == sorted[a]);
            }
            if j != k {
                assert(out[j] == sorted[b]);
            }
            if i < k && k > 0 {
                assert(sorted[a].distance <= sorted[k - 1].distance);
            }
        }
    }
}

/// Identities are never used again: a track that begins has an identity that no track alive before
/// has, nor any that was used earlier.
pub proof fn ids_are_new(chosen: Seq<Candidate>, blobs: Seq<Spotted>, next_id: int, n: int, i: int)
    requires
        0 <= n <= blobs.len(),
        0 <= next_id,
        next_id + blobs.len() <= u64::MAX,
        0 <= i < beginning(chosen, blobs, next_id, n).len(),
    ensures
        beginning(chosen, blobs, next_id, n)[i].id == next_id + i,
    decreases n,
{
    begun_len(chosen, blobs, next_id, n);
    if i < beginning(chosen, blobs, next_id, n - 1).len() {
        ids_are_new(chosen, blobs, next_id, n - 1, i);
    } else {
        begun_len(chosen, blobs, next_id, n - 1);
    }
}

proof fn begun_len(chosen: Seq<Candidate>, blobs: Seq<Spotted>, next_id: int, n: int)
    requires
        0 <= n,
    ensures
        beginning(chosen, blobs, next_id, n).len() <= n,
    decreases n,
{
    if n > 0 {
        begun_len(chosen, blobs, next_id, n - 1);
    }
}

/// Why a frame could not be tracked.
#[derive(Debug, PartialEq, Eq)]
pub enum TrackError {
    /// The frame could not be divided into components; the reason is given.
    Cluster(String),
}

impl TrackError {
    /// The sentence describing the error.
    pub fn message(&self) -> (text: String)
        ensures
            match self {
                TrackError::Cluster(reason) => text@ == reason@,
            },
    {
        match self {
            TrackError::Cluster(reason) => reason.as_str().to_owned(),
        }
    }
}

} // verus!
