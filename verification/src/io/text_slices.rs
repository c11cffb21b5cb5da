//! A slice of a text recording is a part of the whole recording.

use vstd::prelude::*;

use crate::floats::{at_least, exponent, fraction, is_nan, larger, smaller, INFINITY, NEG_INFINITY};
use crate::io::text::{
    entries_before, entries_until, guess_of, kept_rows, reach, row_kept, rows_loaded, scan_meaning,
    scan_rows, RawRow, Scan, TextIndexEntry, TextSliceSource,
};
use crate::stream::{kept, kept_concat, on_sensor, part, part_concat, within, within_concat, RawEvent};

verus! {

/// Whether events are those of rows: an event lies on the sensor if its row was counted.
pub open spec fn rows_agree(
    sensor: Option<(usize, usize)>,
    rows: Seq<RawRow>,
    events: Seq<RawEvent>,
    width: int,
    height: int,
) -> bool {
    &&& events.len() == rows.len()
    &&& forall|i: int|
        0 <= i < rows.len() ==> on_sensor(#[trigger] events[i], width, height) == row_kept(
            sensor,
            rows[i],
        )
}

/// Whether lines start one after another.
pub open spec fn starts_rise(starts: Seq<u64>) -> bool {
    forall|i: int, j: int| 0 <= i < j < starts.len() ==> starts[i] < starts[j]
}

/// Whether a source was made from a scan of rows.
pub open spec fn indexes(
    source: TextSliceSource,
    sensor: Option<(usize, usize)>,
    starts: Seq<u64>,
    rows: Seq<RawRow>,
) -> bool {
    let s = scan_rows(sensor, starts, rows);
    &&& source.event_count() == s.kept
    &&& source.entries().len() == s.samples.len()
    &&& forall|k: int|
        0 <= k < s.samples.len() ==> (#[trigger] source.entries()[k]).offset == s.samples[k].0
            && source.entries()[k].count == s.samples[k].1
}

proof fn counts_agree(
    sensor: Option<(usize, usize)>,
    rows: Seq<RawRow>,
    events: Seq<RawEvent>,
    width: int,
    height: int,
    r: int,
)
    requires
        rows_agree(sensor, rows, events, width, height),
        0 <= r <= rows.len(),
    ensures
        kept(events.take(r), width, height).len() == kept_rows(sensor, rows.take(r)).len(),
    decreases r,
{
    if r > 0 {
        counts_agree(sensor, rows, events, width, height, r - 1);
        assert(events.take(r).drop_last() =~= events.take(r - 1));
        assert(rows.take(r).drop_last() =~= rows.take(r - 1));
        assert(on_sensor(events[r - 1], width, height) == row_kept(sensor, rows[r - 1]));
    }
}

/// A sample is of a row on the sensor: where it starts, and how many came before it.
proof fn sample_row(
    sensor: Option<(usize, usize)>,
    starts: Seq<u64>,
    rows: Seq<RawRow>,
    k: int,
) -> (r: int)
    requires
        starts.len() == rows.len(),
        rows.len() <= usize::MAX,
        0 <= k < scan_rows(sensor, starts, rows).samples.len(),
    ensures
        0 <= r < rows.len(),
        starts[r] == scan_rows(sensor, starts, rows).samples[k].0,
        kept_rows(sensor, rows.take(r)).len() == scan_rows(sensor, starts, rows).samples[k].1,
        rows[r].t == scan_rows(sensor, starts, rows).samples[k].2,
        row_kept(sensor, rows[r]),
    decreases rows.len(),
{
    let b = starts.drop_last();
    let front = rows.drop_last();
    let before = scan_rows(sensor, b, front);
    scan_meaning(sensor, b, front);
    scan_meaning(sensor, starts, rows);
    if k < before.samples.len() {
        let r = sample_row(sensor, b, front, k);
        assert(front.take(r) =~= rows.take(r));
        r
    } else {
        let r = rows.len() - 1;
        assert(rows.take(r) =~= front);
        r
    }
}

proof fn until_counts(entries: Seq<TextIndexEntry>, count: int, k: int)
    requires
        0 <= k <= entries.len(),
    ensures
        k <= entries_until(entries, count, k) <= entries.len(),
        forall|j: int|
            k <= j < entries_until(entries, count, k) ==> (#[trigger] entries[j]).count <= count,
    decreases entries.len() - k,
{
    if k < entries.len() && entries[k].count <= count {
        until_counts(entries, count, k + 1);
    }
}

proof fn before_times(entries: Seq<TextIndexEntry>, t: int, k: int)
    requires
        0 <= k <= entries.len(),
    ensures
        k <= entries_before(entries, t, k) <= entries.len(),
        forall|j: int|
            k <= j < entries_before(entries, t, k) ==> (#[trigger] entries[j]).t_us < t,
    decreases entries.len() - k,
{
    if k < entries.len() && entries[k].t_us < t {
        before_times(entries, t, k + 1);
    }
}

/// An index slice of a text is the part of its events on the sensor between the two numbers. It is
/// read from row `r`, where the entry of the slice leads, up to row `n`, the last or one at which
/// enough events have been collected.
pub proof fn text_index_slice(
    source: TextSliceSource,
    sensor: Option<(usize, usize)>,
    starts: Seq<u64>,
    rows: Seq<RawRow>,
    events: Seq<RawEvent>,
    i0: int,
    i1: int,
    r: int,
    n: int,
)
    requires
        starts.len() == rows.len(),
        rows.len() <= usize::MAX,
        starts_rise(starts),
        rows_agree(sensor, rows, events, source.width(), source.height()),
        indexes(source, sensor, starts, rows),
        0 <= i0,
        0 <= i1,
        source.index_entry(i0, i1) matches Some(entry) ==> {
            &&& 0 <= r <= n <= rows.len()
            &&& r < rows.len()
            &&& starts[r] == entry.offset
            &&& n == rows.len() || entry.count + kept(
                events.subrange(r, n),
                source.width(),
                source.height(),
            ).len() >= source.slice_end(i0, i1)
        },
    ensures
        source.event_count() == kept(events, source.width(), source.height()).len(),
        match source.index_entry(i0, i1) {
            Some(entry) => part(
                kept(events.subrange(r, n), source.width(), source.height()),
                source.slice_start(i0) - entry.count,
                source.slice_end(i0, i1) - entry.count,
            ),
            None => Seq::empty(),
        } == part(
            kept(events, source.width(), source.height()),
            source.slice_start(i0),
            source.slice_end(i0, i1),
        ),
{
    let (w, h) = (source.width(), source.height());
    let (a, b) = (source.slice_start(i0), source.slice_end(i0, i1));
    let all = kept(events, w, h);
    scan_meaning(sensor, starts, rows);
    counts_agree(sensor, rows, events, w, h, rows.len() as int);
    assert(events.take(rows.len() as int) =~= events);
    assert(rows.take(rows.len() as int) =~= rows);
    let entries = source.entries();
    let k = entries_until(entries, a, 0);
    until_counts(entries, a, 0);
    match source.index_entry(i0, i1) {
        Some(entry) => {
            let at = if k == 0 {
                0
            } else {
                k - 1
            };
            assert(entry == entries[at]);
            let found = sample_row(sensor, starts, rows, at);
            assert(found == r);
            counts_agree(sensor, rows, events, w, h, r);
            assert(entry.count <= a);
            let front = kept(events.take(r), w, h);
            let mid = kept(events.subrange(r, n), w, h);
            let back = kept(events.skip(n), w, h);
            assert(events.take(r) + events.subrange(r, n) =~= events.take(n));
            assert(events.take(n) + events.skip(n) =~= events);
            kept_concat(events.take(r), events.subrange(r, n), w, h);
            kept_concat(events.take(n), events.skip(n), w, h);
            part_concat(front + mid, back, a, b);
            part_concat(front, mid, a, b);
            assert(part(front, a, b) =~= Seq::<RawEvent>::empty());
            if n == rows.len() {
                assert(events.skip(n) =~= Seq::<RawEvent>::empty());
            }
            assert(part(back, a - (front + mid).len(), b - (front + mid).len()) =~= Seq::<
                RawEvent,
            >::empty());
        },
        None => {
            assert(part(all, a, b) =~= Seq::<RawEvent>::empty());
        },
    }
}

/// Whether the events on the sensor are in order of time.
pub open spec fn kept_in_order(events: Seq<RawEvent>, width: int, height: int) -> bool {
    forall|i: int, j: int|
        0 <= i < j < events.len() && on_sensor(#[trigger] events[i], width, height) && on_sensor(
            #[trigger] events[j],
            width,
            height,
        ) ==> events[i].t <= events[j].t
}

/// Whether an entry has the time of the event whose row it leads to.
pub open spec fn entries_timed(
    source: TextSliceSource,
    starts: Seq<u64>,
    events: Seq<RawEvent>,
) -> bool {
    forall|k: int, i: int|
        0 <= k < source.entries().len() && 0 <= i < events.len() && #[trigger] starts[i] == (
        #[trigger] source.entries()[k]).offset ==> source.entries()[k].t_us == events[i].t
}

/// Whether a time slice that ends at `t1` and is read from row `r` stops at row `m`: the first
/// whose event is not before the end.
pub open spec fn stops_at(events: Seq<RawEvent>, t1: int, r: int, m: int) -> bool {
    &&& r <= m <= events.len()
    &&& forall|i: int| r <= i < m ==> (#[trigger] events[i]).t < t1
    &&& m < events.len() ==> events[m].t >= t1
}

proof fn none_within(events: Seq<RawEvent>, t0: int, t1: int, width: int, height: int)
    requires
        forall|i: int|
            0 <= i < events.len() && on_sensor(#[trigger] events[i], width, height) ==> !(t0
                <= events[i].t < t1),
    ensures
        kept(within(events, t0, t1), width, height) == Seq::<RawEvent>::empty(),
    decreases events.len(),
{
    if events.len() > 0 {
        let front = events.drop_last();
        assert forall|i: int| 0 <= i < front.len() && on_sensor(
            #[trigger] front[i],
            width,
            height,
        ) implies !(t0 <= front[i].t < t1) by {
            assert(front[i] == events[i]);
        }
        none_within(front, t0, t1, width, height);
        assert(events.last() == events[events.len() - 1]);
        if t0 <= events.last().t < t1 {
            let w = within(front, t0, t1);
            assert(w.push(events.last()).drop_last() =~= w);
        }
    }
}

proof fn none_kept(events: Seq<RawEvent>, width: int, height: int, i: int)
    requires
        kept(events, width, height).len() == 0,
        0 <= i < events.len(),
    ensures
        !on_sensor(events[i], width, height),
    decreases events.len(),
{
    if i < events.len() - 1 {
        none_kept(events.drop_last(), width, height, i);
    }
}

/// A time slice of a text whose events on the sensor are in order of time is those of them in the
/// window. It is read from row `r`, where the entry of the slice leads, and stops at row `m`. Where
/// it stops at an event beside the sensor, none that follows on the sensor is before the end.
pub proof fn text_time_slice(
    source: TextSliceSource,
    sensor: Option<(usize, usize)>,
    starts: Seq<u64>,
    rows: Seq<RawRow>,
    events: Seq<RawEvent>,
    t0: int,
    t1: int,
    r: int,
    m: int,
)
    requires
        starts.len() == rows.len(),
        rows.len() <= usize::MAX,
        starts_rise(starts),
        rows_agree(sensor, rows, events, source.width(), source.height()),
        indexes(source, sensor, starts, rows),
        kept_in_order(events, source.width(), source.height()),
        entries_timed(source, starts, events),
        source.time_entry(t0) matches Some(entry) ==> {
            &&& 0 <= r < rows.len()
            &&& starts[r] == entry.offset
            &&& stops_at(events, t1, r, m)
            &&& m < events.len() && !on_sensor(events[m], source.width(), source.height())
                ==> forall|j: int|
                m < j < events.len() && on_sensor(
                    #[trigger] events[j],
                    source.width(),
                    source.height(),
                ) ==> events[j].t >= t1
        },
    ensures
        match source.time_entry(t0) {
            Some(_) => kept(
                within(events.subrange(r, m), t0, t1),
                source.width(),
                source.height(),
            ),
            None => Seq::empty(),
        } == kept(within(events, t0, t1), source.width(), source.height()),
{
    let (w, h) = (source.width(), source.height());
    scan_meaning(sensor, starts, rows);
    counts_agree(sensor, rows, events, w, h, rows.len() as int);
    assert(events.take(rows.len() as int) =~= events);
    assert(rows.take(rows.len() as int) =~= rows);
    let entries = source.entries();
    let k = entries_before(entries, t0, 0);
    before_times(entries, t0, 0);
    match source.time_entry(t0) {
        Some(entry) => {
            let at = if k == 0 {
                0
            } else {
                k - 1
            };
            assert(entry == entries[at]);
            let found = sample_row(sensor, starts, rows, at);
            assert(found == r);
            counts_agree(sensor, rows, events, w, h, r);
            assert(on_sensor(events[r], w, h));
            assert(starts[r] == entries[at].offset);
            let front = events.take(r);
            let mid = events.subrange(r, m);
            let back = events.skip(m);
            assert(front + mid =~= events.take(m));
            assert(events.take(m) + back =~= events);
            assert forall|i: int| 0 <= i < front.len() && on_sensor(
                #[trigger] front[i],
                w,
                h,
            ) implies !(t0 <= front[i].t < t1) by {
                assert(front[i] == events[i]);
                if k == 0 {
                    none_kept(front, w, h, i);
                }
            }
            none_within(front, t0, t1, w, h);
            assert forall|i: int| 0 <= i < back.len() && on_sensor(
                #[trigger] back[i],
                w,
                h,
            ) implies !(t0 <= back[i].t < t1) by {
                assert(back[i] == events[m + i]);
            }
            none_within(back, t0, t1, w, h);
            within_concat(front, mid, t0, t1);
            within_concat(events.take(m), back, t0, t1);
            kept_concat(within(front, t0, t1), within(mid, t0, t1), w, h);
            kept_concat(within(events.take(m), t0, t1), within(back, t0, t1), w, h);
        },
        None => {
            assert forall|i: int| 0 <= i < events.len() && on_sensor(
                #[trigger] events[i],
                w,
                h,
            ) implies !(t0 <= events[i].t < t1) by {
                none_kept(events, w, h, i);
            }
            none_within(events, t0, t1, w, h);
        },
    }
}

/// The unit that opening a text infers is the one that loading it infers, from all its rows.
pub proof fn opening_infers_the_unit(
    sensor: Option<(usize, usize)>,
    starts: Seq<u64>,
    rows: Seq<RawRow>,
)
    requires
        starts.len() == rows.len(),
    ensures
        guess_of(scan_rows(sensor, starts, rows)) == guess_of(
            scan_rows(None, Seq::new(rows.len(), |i: int| 0u64), rows),
        ),
{
    same_times(sensor, starts, None, Seq::new(rows.len(), |i: int| 0u64), rows);
}

/// What a scan finds of all rows does not depend on the sensor, nor on where they start.
proof fn same_times(
    a: Option<(usize, usize)>,
    a_starts: Seq<u64>,
    b: Option<(usize, usize)>,
    b_starts: Seq<u64>,
    rows: Seq<RawRow>,
)
    requires
        a_starts.len() == rows.len(),
        b_starts.len() == rows.len(),
    ensures
        ({
            let (s, t) = (scan_rows(a, a_starts, rows), scan_rows(b, b_starts, rows));
            s.all_min == t.all_min && s.all_max == t.all_max && s.fractional == t.fractional
        }),
    decreases rows.len(),
{
    if rows.len() > 0 {
        same_times(a, a_starts.drop_last(), b, b_starts.drop_last(), rows.drop_last());
    }
}

/// Whether a conversion of times keeps their order.
pub open spec fn keeps_time_order(micros: spec_fn(u64) -> i64) -> bool {
    forall|a: u64, b: u64| #[trigger] at_least(a, b) ==> micros(a) >= micros(b)
}

/// The events of rows, their times converted.
pub open spec fn timed_rows(rows: Seq<RawRow>, micros: spec_fn(u64) -> i64) -> Seq<RawEvent> {
    Seq::new(
        rows.len(),
        |i: int| RawEvent { x: rows[i].x, y: rows[i].y, t: micros(rows[i].t), p: rows[i].p },
    )
}

/// The sensor that a text is opened for: the one asked for, or the smallest that holds every row.
pub open spec fn opened_size(sensor: Option<(usize, usize)>, scan: Scan) -> (int, int) {
    match sensor {
        Some((w, h)) => (w as int, h as int),
        None => (scan.max_x + 1, scan.max_y + 1),
    }
}

/// Whether a source is what opening a text with these rows gives, its times converted.
pub open spec fn opened(
    source: TextSliceSource,
    sensor: Option<(usize, usize)>,
    starts: Seq<u64>,
    rows: Seq<RawRow>,
    micros: spec_fn(u64) -> i64,
) -> bool {
    let scan = scan_rows(sensor, starts, rows);
    &&& starts.len() == rows.len()
    &&& rows.len() <= usize::MAX
    &&& starts_rise(starts)
    &&& scan.sorted
    &&& indexes(source, sensor, starts, rows)
    &&& (source.width(), source.height()) == opened_size(sensor, scan)
    &&& source.span() == if scan.kept == 0 {
        (0i64, 0i64)
    } else {
        (micros(scan.min_t), micros(scan.max_t))
    }
    &&& forall|k: int|
        0 <= k < scan.samples.len() ==> (#[trigger] source.entries()[k]).t_us == micros(
            scan.samples[k].2,
        )
}

/// A scan that is sorted has seen no time fall, and its extremes are those of the rows on the
/// sensor.
#[verifier::rlimit(40)]
proof fn sorted_scan(sensor: Option<(usize, usize)>, starts: Seq<u64>, rows: Seq<RawRow>)
    requires
        starts.len() == rows.len(),
        scan_rows(sensor, starts, rows).sorted,
    ensures
        ({
            let s = scan_rows(sensor, starts, rows);
            &&& forall|i: int|
                0 <= i < rows.len() && row_kept(sensor, #[trigger] rows[i]) ==> at_least(
                    s.previous,
                    rows[i].t,
                ) && at_least(rows[i].t, s.min_t) && at_least(s.max_t, rows[i].t)
            &&& forall|i: int, j: int|
                0 <= i < j < rows.len() && row_kept(sensor, #[trigger] rows[i]) && row_kept(
                    sensor,
                    #[trigger] rows[j],
                ) ==> at_least(rows[j].t, rows[i].t)
            &&& s.kept >= 0
            &&& s.kept > 0 ==> {
                &&& exists|i: int|
                    0 <= i < rows.len() && row_kept(sensor, #[trigger] rows[i]) && rows[i].t
                        == s.min_t
                &&& exists|i: int|
                    0 <= i < rows.len() && row_kept(sensor, #[trigger] rows[i]) && rows[i].t
                        == s.max_t
            }
            &&& s.kept == 0 ==> s.min_t == INFINITY && s.max_t == NEG_INFINITY && forall|i: int|
                0 <= i < rows.len() ==> !row_kept(sensor, #[trigger] rows[i])
        }),
    decreases rows.len(),
{
    if rows.len() > 0 {
        let front = rows.drop_last();
        let n = front.len() as int;
        let row = rows.last();
        let before = scan_rows(sensor, starts.drop_last(), front);
        let s = scan_rows(sensor, starts, rows);
        sorted_scan(sensor, starts.drop_last(), front);
        assert(rows[n] == row);
        assert forall|i: int| 0 <= i < n implies #[trigger] rows[i] == front[i] by {}
        if row_kept(sensor, row) {
            infinite_ends(row.t);
            if before.kept > 0 {
                let a = choose|i: int|
                    0 <= i < front.len() && row_kept(sensor, #[trigger] front[i]) && front[i].t
                        == before.min_t;
                let b = choose|i: int|
                    0 <= i < front.len() && row_kept(sensor, #[trigger] front[i]) && front[i].t
                        == before.max_t;
                assert(at_least(front[a].t, before.min_t) && at_least(before.max_t, front[b].t));
                assert(rows[a] == front[a] && rows[b] == front[b]);
            }
            assert(row_kept(sensor, rows[n]));
            assert(s.min_t == row.t || s.min_t == before.min_t);
            assert(s.max_t == row.t || s.max_t == before.max_t);
            assert forall|i: int|
                0 <= i < rows.len() && row_kept(sensor, #[trigger] rows[i]) implies at_least(
                s.previous,
                rows[i].t,
            ) && at_least(rows[i].t, s.min_t) && at_least(s.max_t, rows[i].t) by {
                if i < n {
                    assert(row_kept(sensor, front[i]));
                }
            }
            assert forall|i: int, j: int|
                0 <= i < j < rows.len() && row_kept(sensor, #[trigger] rows[i]) && row_kept(
                    sensor,
                    #[trigger] rows[j],
                ) implies at_least(rows[j].t, rows[i].t) by {
                assert(row_kept(sensor, front[i]));
                if j < n {
                    assert(row_kept(sensor, front[j]));
                }
            }
        } else {
            if before.kept > 0 {
                let a = choose|i: int|
                    0 <= i < front.len() && row_kept(sensor, #[trigger] front[i]) && front[i].t
                        == before.min_t;
                let b = choose|i: int|
                    0 <= i < front.len() && row_kept(sensor, #[trigger] front[i]) && front[i].t
                        == before.max_t;
                assert(rows[a] == front[a] && rows[b] == front[b]);
            }
            assert forall|i: int|
                0 <= i < rows.len() && row_kept(sensor, #[trigger] rows[i]) implies at_least(
                s.previous,
                rows[i].t,
            ) && at_least(rows[i].t, s.min_t) && at_least(s.max_t, rows[i].t) by {
                assert(row_kept(sensor, front[i]));
            }
        }
    }
}

/// Every number lies between the infinities.
proof fn infinite_ends(t: u64)
    ensures
        !is_nan(t) ==> smaller(INFINITY, t) == t && larger(NEG_INFINITY, t) == t,
{
    let (e, f) = (exponent(t), fraction(t));
    let sign = t as int / 0x8000_0000_0000_0000;
    assert(t == sign * 0x8000_0000_0000_0000 + e * 0x10_0000_0000_0000 + f);
}

/// An event lies on the sensor that a text was opened for if its row was counted.
proof fn opened_agrees(
    sensor: Option<(usize, usize)>,
    starts: Seq<u64>,
    rows: Seq<RawRow>,
    micros: spec_fn(u64) -> i64,
)
    requires
        starts.len() == rows.len(),
    ensures
        ({
            let (w, h) = opened_size(sensor, scan_rows(sensor, starts, rows));
            rows_agree(sensor, rows, timed_rows(rows, micros), w, h)
        }),
{
    if sensor is None {
        reaches_all(starts, rows);
    }
}

proof fn reaches_all(starts: Seq<u64>, rows: Seq<RawRow>)
    requires
        starts.len() == rows.len(),
    ensures
        ({
            let s = scan_rows(None, starts, rows);
            &&& forall|i: int|
                0 <= i < rows.len() ==> (#[trigger] rows[i]).x <= s.max_x && rows[i].y <= s.max_y
            &&& rows.len() == 0 ==> s.max_x == 0 && s.max_y == 0
            &&& rows.len() > 0 ==> reach(rows) == (s.max_x as int, s.max_y as int)
        }),
    decreases rows.len(),
{
    if rows.len() > 0 {
        let front = rows.drop_last();
        reaches_all(starts.drop_last(), front);
        if front.len() == 0 {
            assert(reach(front) == (-1int, -1int));
        }
        assert forall|i: int| 0 <= i < rows.len() implies (#[trigger] rows[i]).x <= scan_rows(
            None,
            starts,
            rows,
        ).max_x && rows[i].y <= scan_rows(None, starts, rows).max_y by {
            if i < front.len() {
                assert(rows[i] == front[i]);
            }
        }
    }
}

/// Loading without a limit keeps every event on the sensor.
proof fn loads_all(events: Seq<RawEvent>, width: int, height: int, n: int)
    requires
        0 <= n <= events.len(),
    ensures
        rows_loaded(events, width, height, None, n) == kept(events.take(n), width, height),
    decreases n,
{
    if n > 0 {
        loads_all(events, width, height, n - 1);
        assert(events.take(n).drop_last() =~= events.take(n - 1));
    }
}

/// An event that is kept is an event on the sensor.
proof fn kept_from(events: Seq<RawEvent>, width: int, height: int, k: int) -> (i: int)
    requires
        0 <= k < kept(events, width, height).len(),
    ensures
        0 <= i < events.len(),
        on_sensor(events[i], width, height),
        events[i] == kept(events, width, height)[k],
    decreases events.len(),
{
    let front = events.drop_last();
    if k < kept(front, width, height).len() {
        kept_from(front, width, height, k)
    } else {
        events.len() - 1
    }
}

/// An event on the sensor is kept.
proof fn kept_to(events: Seq<RawEvent>, width: int, height: int, i: int) -> (k: int)
    requires
        0 <= i < events.len(),
        on_sensor(events[i], width, height),
    ensures
        0 <= k < kept(events, width, height).len(),
        kept(events, width, height)[k] == events[i],
    decreases events.len(),
{
    let front = events.drop_last();
    if i < front.len() {
        kept_to(front, width, height, i)
    } else {
        kept(events, width, height).len() - 1
    }
}

/// Opening a text and loading it agree, without a limit on the events: on the sensor, on the number
/// of events, and on the first and the last time.
pub proof fn opening_is_loading(
    source: TextSliceSource,
    sensor: Option<(usize, usize)>,
    starts: Seq<u64>,
    rows: Seq<RawRow>,
    micros: spec_fn(u64) -> i64,
)
    requires
        opened(source, sensor, starts, rows, micros),
        keeps_time_order(micros),
    ensures
        sensor is None ==> (source.width(), source.height()) == if rows.len() == 0 {
            (1int, 1int)
        } else {
            (reach(rows).0 + 1, reach(rows).1 + 1)
        },
        sensor matches Some(size) ==> (source.width(), source.height()) == (
            size.0 as int,
            size.1 as int,
        ),
        ({
            let loaded = rows_loaded(
                timed_rows(rows, micros),
                source.width(),
                source.height(),
                None,
                rows.len() as int,
            );
            let (first, last) = source.span();
            &&& source.event_count() == loaded.len()
            &&& loaded.len() == 0 ==> (first, last) == (0i64, 0i64)
            &&& forall|k: int|
                0 <= k < loaded.len() ==> first <= (#[trigger] loaded[k]).t <= last
            &&& loaded.len() > 0 ==> {
                &&& exists|k: int| 0 <= k < loaded.len() && (#[trigger] loaded[k]).t == first
                &&& exists|k: int| 0 <= k < loaded.len() && (#[trigger] loaded[k]).t == last
            }
        }),
{
    let (w, h) = (source.width(), source.height());
    let n = rows.len() as int;
    let events = timed_rows(rows, micros);
    let scan = scan_rows(sensor, starts, rows);
    if sensor is None {
        reaches_all(starts, rows);
    }
    opened_agrees(sensor, starts, rows, micros);
    assert(scan.kept == kept_rows(sensor, rows).len()) by {
        scan_meaning(sensor, starts, rows);
    }
    counts_agree(sensor, rows, events, w, h, n);
    assert(events.take(n) =~= events);
    assert(rows.take(n) =~= rows);
    loads_all(events, w, h, n);
    sorted_scan(sensor, starts, rows);
    let loaded = kept(events, w, h);
    let (first, last) = source.span();
    assert forall|k: int| 0 <= k < loaded.len() implies first <= (#[trigger] loaded[k]).t
        <= last by {
        let i = kept_from(events, w, h, k);
        assert(row_kept(sensor, rows[i]));
        assert(at_least(rows[i].t, scan.min_t) && at_least(scan.max_t, rows[i].t));
    }
    if loaded.len() > 0 {
        let a = choose|i: int|
            0 <= i < rows.len() && row_kept(sensor, #[trigger] rows[i]) && rows[i].t == scan.min_t;
        let b = choose|i: int|
            0 <= i < rows.len() && row_kept(sensor, #[trigger] rows[i]) && rows[i].t == scan.max_t;
        assert(on_sensor(events[a], w, h) && on_sensor(events[b], w, h));
        let k = kept_to(events, w, h, a);
        assert(loaded[k].t == first);
        let l = kept_to(events, w, h, b);
        assert(loaded[l].t == last);
    }
}

/// Whether a time slice is read from row `r` up to row `m`: from where its entry leads to, up to the
/// first row whose event is not before the end. Where that lies beside the sensor, none that follows
/// on the sensor is before the end.
pub open spec fn reads_window(
    source: TextSliceSource,
    starts: Seq<u64>,
    events: Seq<RawEvent>,
    t0: int,
    t1: int,
    r: int,
    m: int,
) -> bool {
    source.time_entry(t0) matches Some(entry) ==> {
        &&& 0 <= r < starts.len()
        &&& starts[r] == entry.offset
        &&& stops_at(events, t1, r, m)
        &&& m < events.len() && !on_sensor(events[m], source.width(), source.height())
            ==> forall|j: int|
            m < j < events.len() && on_sensor(
                #[trigger] events[j],
                source.width(),
                source.height(),
            ) ==> events[j].t >= t1
    }
}

/// What a time slice that is read from row `r` up to row `m` holds.
pub open spec fn window_read(
    source: TextSliceSource,
    events: Seq<RawEvent>,
    t0: int,
    t1: int,
    r: int,
    m: int,
) -> Seq<RawEvent> {
    match source.time_entry(t0) {
        Some(_) => kept(within(events.subrange(r, m), t0, t1), source.width(), source.height()),
        None => Seq::empty(),
    }
}

/// Picking events by time and by place can be done in either order.
proof fn kept_within(events: Seq<RawEvent>, t0: int, t1: int, width: int, height: int)
    ensures
        kept(within(events, t0, t1), width, height) == within(kept(events, width, height), t0, t1),
    decreases events.len(),
{
    if events.len() > 0 {
        let front = events.drop_last();
        let e = events.last();
        kept_within(front, t0, t1, width, height);
        let (w, k) = (within(front, t0, t1), kept(front, width, height));
        assert(w.push(e).drop_last() =~= w);
        assert(k.push(e).drop_last() =~= k);
    }
}

/// Two adjoining windows of events in order of time make the wide one.
proof fn within_joins(events: Seq<RawEvent>, t0: int, tm: int, t1: int)
    requires
        t0 <= tm <= t1,
        forall|i: int, j: int|
            0 <= i < j < events.len() ==> (#[trigger] events[i]).t <= (#[trigger] events[j]).t,
    ensures
        within(events, t0, t1) == within(events, t0, tm) + within(events, tm, t1),
        events.len() > 0 && events.last().t < tm ==> within(events, tm, t1).len() == 0,
    decreases events.len(),
{
    if events.len() > 0 {
        let front = events.drop_last();
        let e = events.last();
        assert forall|i: int, j: int| 0 <= i < j < front.len() implies (#[trigger] front[i]).t <= (
        #[trigger] front[j]).t by {
            assert(front[i] == events[i] && front[j] == events[j]);
        }
        within_joins(front, t0, tm, t1);
        if front.len() > 0 {
            assert(events[front.len() - 1].t <= events[front.len() as int].t);
            assert(front.last() == events[front.len() - 1]);
        }
        let (a, b) = (within(front, t0, tm), within(front, tm, t1));
        if t0 <= e.t < tm {
            assert(b =~= Seq::<RawEvent>::empty());
            assert((a + b).push(e) =~= a.push(e) + b);
        } else if tm <= e.t < t1 {
            assert((a + b).push(e) =~= a + b.push(e));
        }
        assert(within(events, t0, t1) =~= within(events, t0, tm) + within(events, tm, t1));
    } else {
        assert(within(events, t0, t1) =~= within(events, t0, tm) + within(events, tm, t1));
    }
}

/// Events in order of time on the sensor stay so when only those are kept.
proof fn kept_ordered(events: Seq<RawEvent>, width: int, height: int)
    requires
        kept_in_order(events, width, height),
    ensures
        forall|i: int, j: int|
            0 <= i < j < kept(events, width, height).len() ==> (#[trigger] kept(
                events,
                width,
                height,
            )[i]).t <= (#[trigger] kept(events, width, height)[j]).t,
    decreases events.len(),
{
    if events.len() > 0 {
        let front = events.drop_last();
        assert forall|i: int, j: int|
            0 <= i < j < front.len() && on_sensor(
                #[trigger] front[i],
                width,
                height,
            ) && on_sensor(#[trigger] front[j], width, height) implies front[i].t
            <= front[j].t by {
            assert(front[i] == events[i] && front[j] == events[j]);
        }
        kept_ordered(front, width, height);
        let before = kept(front, width, height);
        let all = kept(events, width, height);
        assert forall|i: int, j: int| 0 <= i < j < all.len() implies (#[trigger] all[i]).t <= (
        #[trigger] all[j]).t by {
            assert(all[i] == before[i]);
            if j < before.len() {
                assert(all[j] == before[j]);
            } else {
                let k = kept_from(front, width, height, i);
                assert(front[k] == events[k]);
                assert(all[j] == events[events.len() - 1]);
            }
        }
    }
}

/// A time slice of an opened text is the window of the events on its sensor.
proof fn window_is_part(
    source: TextSliceSource,
    sensor: Option<(usize, usize)>,
    starts: Seq<u64>,
    rows: Seq<RawRow>,
    micros: spec_fn(u64) -> i64,
    t0: int,
    t1: int,
    r: int,
    m: int,
)
    requires
        opened(source, sensor, starts, rows, micros),
        keeps_time_order(micros),
        reads_window(source, starts, timed_rows(rows, micros), t0, t1, r, m),
    ensures
        kept_in_order(timed_rows(rows, micros), source.width(), source.height()),
        window_read(source, timed_rows(rows, micros), t0, t1, r, m) == within(
            kept(timed_rows(rows, micros), source.width(), source.height()),
            t0,
            t1,
        ),
{
    let (w, h) = (source.width(), source.height());
    let events = timed_rows(rows, micros);
    let scan = scan_rows(sensor, starts, rows);
    opened_agrees(sensor, starts, rows, micros);
    sorted_scan(sensor, starts, rows);
    assert forall|i: int, j: int|
        0 <= i < j < events.len() && on_sensor(#[trigger] events[i], w, h) && on_sensor(
            #[trigger] events[j],
            w,
            h,
        ) implies events[i].t <= events[j].t by {
        assert(row_kept(sensor, rows[i]) && row_kept(sensor, rows[j]));
        assert(at_least(rows[j].t, rows[i].t));
    }
    assert forall|k: int, i: int|
        0 <= k < source.entries().len() && 0 <= i < events.len() && #[trigger] starts[i] == (
        #[trigger] source.entries()[k]).offset implies source.entries()[k].t_us == events[i].t by {
        let found = sample_row(sensor, starts, rows, k);
        assert(starts[found] == source.entries()[k].offset);
        assert(found == i);
    }
    text_time_slice(source, sensor, starts, rows, events, t0, t1, r, m);
    kept_within(events, t0, t1, w, h);
}

/// Two adjoining time slices of an opened text make the wide one, which holds the events of the
/// whole text in its window, in order: none is dropped or repeated, however many share a time.
pub proof fn adjoining_windows_join(
    source: TextSliceSource,
    sensor: Option<(usize, usize)>,
    starts: Seq<u64>,
    rows: Seq<RawRow>,
    micros: spec_fn(u64) -> i64,
    t0: int,
    tm: int,
    t1: int,
    early: (int, int),
    late: (int, int),
    wide: (int, int),
)
    requires
        t0 <= tm <= t1,
        opened(source, sensor, starts, rows, micros),
        keeps_time_order(micros),
        reads_window(source, starts, timed_rows(rows, micros), t0, tm, early.0, early.1),
        reads_window(source, starts, timed_rows(rows, micros), tm, t1, late.0, late.1),
        reads_window(source, starts, timed_rows(rows, micros), t0, t1, wide.0, wide.1),
    ensures
        ({
            let events = timed_rows(rows, micros);
            let whole = window_read(source, events, t0, t1, wide.0, wide.1);
            &&& whole == window_read(source, events, t0, tm, early.0, early.1) + window_read(
                source,
                events,
                tm,
                t1,
                late.0,
                late.1,
            )
            &&& whole == within(kept(events, source.width(), source.height()), t0, t1)
        }),
{
    let (w, h) = (source.width(), source.height());
    let events = timed_rows(rows, micros);
    window_is_part(source, sensor, starts, rows, micros, t0, tm, early.0, early.1);
    window_is_part(source, sensor, starts, rows, micros, tm, t1, late.0, late.1);
    window_is_part(source, sensor, starts, rows, micros, t0, t1, wide.0, wide.1);
    kept_ordered(events, w, h);
    within_joins(kept(events, w, h), t0, tm, t1);
}

} // verus!
