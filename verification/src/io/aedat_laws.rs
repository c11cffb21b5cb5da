//! What slicing an AEDAT 2 recording gives.

use vstd::prelude::*;

use crate::io::aedat::{body_of, opens, past_index, past_time, until, AedatSliceSource, Checkpoint};
use crate::io::aedat_header::records_start;
use crate::io::aedat_records::{
    events_bounded, events_of, events_resume, raw_time, record_at, record_count, time_of, wrap_at,
};
use crate::stream::{part, part_concat, within, within_concat, within_none, RawEvent};

verus! {

/// The events of two recordings that begin with the same records.
proof fn same_events(a: Seq<u8>, b: Seq<u8>, base: i64, n: int, w: int, h: int)
    requires
        0 <= n,
        8 * n <= a.len(),
        8 * n <= b.len(),
        a.take(8 * n) == b.take(8 * n),
    ensures
        events_of(a, base, n, w, h) == events_of(b, base, n, w, h),
        n > 0 ==> wrap_at(a, base, n - 1) == wrap_at(b, base, n - 1),
    decreases n,
{
    if n > 0 {
        assert(a.take(8 * n - 8) =~= a.take(8 * n).take(8 * n - 8));
        assert(b.take(8 * n - 8) =~= b.take(8 * n).take(8 * n - 8));
        same_events(a, b, base, n - 1, w, h);
        same_record(a, b, n, n - 1);
        if n > 1 {
            same_record(a, b, n, n - 2);
        }
    }
}

proof fn same_record(a: Seq<u8>, b: Seq<u8>, n: int, i: int)
    requires
        0 <= i < n,
        8 * n <= a.len(),
        8 * n <= b.len(),
        a.take(8 * n) == b.take(8 * n),
    ensures
        record_at(a, i) == record_at(b, i),
        raw_time(a, i) == raw_time(b, i),
{
    reveal(raw_time);
    reveal(record_at);
    assert forall|j: int| 0 <= j < 8 * n implies #[trigger] a[j] == b[j] by {
        assert(a.take(8 * n)[j] == a[j]);
        assert(b.take(8 * n)[j] == b[j]);
    }
}

/// The bytes of a recording from a saved state on.
pub open spec fn tail_of(data: Seq<u8>, cp: Checkpoint) -> Seq<u8> {
    data.skip(cp.byte_offset as int)
}

/// The events of a recording.
pub open spec fn all_events(data: Seq<u8>, size: (usize, usize)) -> Seq<RawEvent> {
    events_of(
        body_of(data),
        0,
        record_count(body_of(data)),
        size.0 as int,
        size.1 as int,
    )
}

/// The events from a saved state on are those of the recording from there on.
proof fn state_resumes(data: Seq<u8>, size: (usize, usize), s: AedatSliceSource, k: int)
    requires
        opens(data, size, s),
        data.len() <= usize::MAX,
        0 <= records_start(data) <= data.len(),
        0 <= k < s.checkpoints().len(),
    ensures
        ({
            let d = body_of(data);
            let cp = s.checkpoints()[k];
            let w = size.0 as int;
            let h = size.1 as int;
            &&& cp.event_index == events_of(d, 0, 0x2_0000 * k, w, h).len()
            &&& all_events(data, size) == events_of(d, 0, 0x2_0000 * k, w, h) + s.events_from(
                Some(cp),
                tail_of(data, cp),
            )
            &&& 0x2_0000 * k < record_count(d)
        }),
{
    let d = body_of(data);
    let n = record_count(d);
    let start = records_start(data);
    let w = size.0 as int;
    let h = size.1 as int;
    let cp = s.checkpoints()[k];
    let r = 0x2_0000 * k;
    let rest = d.skip(8 * r);
    let tail = tail_of(data, cp);
    assert(d.len() == 8 * n);
    assert(cp.byte_offset == start + 8 * r);
    assert(record_count(tail) == n - r);
    assert(tail.take(8 * (n - r)) =~= rest.take(8 * (n - r)));
    same_events(tail, rest, cp.wrap, n - r, w, h);
    events_resume(d, 0, r, n, w, h);
    events_bounded(d, 0, r, w, h);
}

/// Every state before the one past an index has no more events before it.
proof fn states_before(cps: Seq<Checkpoint>, index: int, k: int)
    requires
        0 <= k <= cps.len(),
    ensures
        k <= past_index(cps, index, k) <= cps.len(),
        forall|j: int| k <= j < past_index(cps, index, k) ==> (#[trigger] cps[j]).event_index
            <= index,
    decreases cps.len() - k,
{
    if k < cps.len() && cps[k].event_index <= index {
        states_before(cps, index, k + 1);
    }
}

/// Every state before the one past a time is no later.
proof fn states_earlier(cps: Seq<Checkpoint>, t: int, k: int)
    requires
        0 <= k <= cps.len(),
    ensures
        k <= past_time(cps, t, k) <= cps.len(),
        forall|j: int| k <= j < past_time(cps, t, k) ==> (#[trigger] cps[j]).time <= t,
    decreases cps.len() - k,
{
    if k < cps.len() && cps[k].time <= t {
        states_earlier(cps, t, k + 1);
    }
}

/// A recording without a saved state has no events.
proof fn no_states(data: Seq<u8>, size: (usize, usize), s: AedatSliceSource)
    requires
        opens(data, size, s),
        s.checkpoints().len() == 0,
    ensures
        all_events(data, size).len() == 0,
{
    assert(record_count(body_of(data)) == 0);
}

/// An index slice is the part of the whole recording from `a` to before `b`: starting at a saved
/// state changes nothing.
pub proof fn index_slice_exact(
    data: Seq<u8>,
    size: (usize, usize),
    s: AedatSliceSource,
    a: int,
    b: int,
)
    requires
        opens(data, size, s),
        data.len() <= usize::MAX,
        0 <= records_start(data) <= data.len(),
        0 <= a,
    ensures
        match s.index_state(a) {
            Some(cp) => part(
                s.events_from(Some(cp), tail_of(data, cp)),
                a - cp.event_index,
                b - cp.event_index,
            ) == part(all_events(data, size), a, b),
            None => part(all_events(data, size), a, b).len() == 0,
        },
{
    let cps = s.checkpoints();
    if cps.len() == 0 {
        no_states(data, size, s);
    } else {
        states_before(cps, a, 0);
        let position = past_index(cps, a, 0);
        let k = if position <= 1 {
            0
        } else {
            position - 1
        };
        let cp = cps[k];
        state_resumes(data, size, s, k);
        let before = events_of(body_of(data), 0, 0x2_0000 * k, size.0 as int, size.1 as int);
        let rest = s.events_from(Some(cp), tail_of(data, cp));
        part_concat(before, rest, a, b);
        assert(cp.event_index <= a);
        assert(part(before, a, b) =~= Seq::<RawEvent>::empty());
        assert(Seq::<RawEvent>::empty() + part(rest, a - before.len(), b - before.len()) =~= part(
            rest,
            a - before.len(),
            b - before.len(),
        ));
    }
}

/// The clock of a recording never runs backwards, and moves on at every saved state.
pub open spec fn clock_rises(d: Seq<u8>) -> bool {
    &&& forall|i: int, j: int|
        0 <= i <= j < record_count(d) ==> #[trigger] time_of(d, 0, i) <= #[trigger] time_of(d, 0, j)
    &&& forall|k: int|
        0 < k && 0x2_0000 * k < record_count(d) ==> time_of(d, 0, 0x2_0000 * k - 1)
            < #[trigger] time_of(d, 0, 0x2_0000 * k)
}

/// Every event has the time of its record, and they are in order.
proof fn events_timed(d: Seq<u8>, n: int, w: int, h: int)
    requires
        clock_rises(d),
        0 <= n <= record_count(d),
    ensures
        forall|i: int|
            0 <= i < events_of(d, 0, n, w, h).len() ==> (#[trigger] events_of(d, 0, n, w, h)[i]).t
                <= time_of(d, 0, n - 1),
        forall|i: int, j: int|
            0 <= i <= j < events_of(d, 0, n, w, h).len() ==> (#[trigger] events_of(
                d,
                0,
                n,
                w,
                h,
            )[i]).t <= (#[trigger] events_of(d, 0, n, w, h)[j]).t,
    decreases n,
{
    if n > 0 {
        events_timed(d, n - 1, w, h);
        let before = events_of(d, 0, n - 1, w, h);
        let now = events_of(d, 0, n, w, h);
        let t = time_of(d, 0, n - 1);
        if n > 1 {
            assert(time_of(d, 0, n - 2) <= t);
        }
        assert forall|i: int| 0 <= i < before.len() implies (#[trigger] before[i]).t <= t by {
            assert(n > 1);
        }
        assert forall|i: int| 0 <= i < now.len() implies (#[trigger] now[i]).t <= t by {
            if i < before.len() {
                assert(now[i] == before[i]);
            }
        }
        assert forall|i: int, j: int| 0 <= i <= j < now.len() implies (#[trigger] now[i]).t <= (
        #[trigger] now[j]).t by {
            if j < before.len() {
                assert(now[i] == before[i] && now[j] == before[j]);
            } else {
                assert(now[j].t == t);
            }
        }
    }
}

/// Events in order from the first one not before a time on are not before it.
proof fn until_splits(events: Seq<RawEvent>, t1: int, k: int)
    requires
        0 <= k <= events.len(),
    ensures
        k <= until(events, t1, k) <= events.len(),
        forall|i: int| k <= i < until(events, t1, k) ==> (#[trigger] events[i]).t < t1,
        until(events, t1, k) < events.len() ==> events[until(events, t1, k)].t >= t1,
    decreases events.len() - k,
{
    if k < events.len() && events[k].t < t1 {
        until_splits(events, t1, k + 1);
    }
}

/// Stopping at the first event not before the end of a window loses nothing of events in order.
proof fn stopping_is_safe(events: Seq<RawEvent>, t0: int, t1: int)
    requires
        forall|i: int, j: int|
            0 <= i <= j < events.len() ==> (#[trigger] events[i]).t <= (#[trigger] events[j]).t,
    ensures
        within(events.take(until(events, t1, 0)), t0, t1) == within(events, t0, t1),
{
    until_splits(events, t1, 0);
    let k = until(events, t1, 0);
    let rest = events.skip(k);
    assert(events.take(k) + rest =~= events);
    within_concat(events.take(k), rest, t0, t1);
    assert forall|i: int| 0 <= i < rest.len() implies !(t0 <= (#[trigger] rest[i]).t < t1) by {
        assert(rest[i] == events[i + k]);
        assert(events[k].t <= events[i + k].t);
    }
    within_none(rest, t0, t1);
    assert(within(events.take(k), t0, t1) + within(rest, t0, t1) =~= within(
        events.take(k),
        t0,
        t1,
    ));
}

/// A time slice holds the events of the whole recording in its window, if the clock never runs
/// backwards and moves on at every saved state.
pub proof fn time_slice_exact(
    data: Seq<u8>,
    size: (usize, usize),
    s: AedatSliceSource,
    t0: int,
    t1: int,
)
    requires
        opens(data, size, s),
        data.len() <= usize::MAX,
        0 <= records_start(data) <= data.len(),
        clock_rises(body_of(data)),
    ensures
        ({
            let found = match s.time_state(t0) {
                Some(cp) => s.events_from(Some(cp), tail_of(data, cp)),
                None => Seq::empty(),
            };
            within(found.take(until(found, t1, 0)), t0, t1) == within(
                all_events(data, size),
                t0,
                t1,
            )
        }),
{
    let d = body_of(data);
    let w = size.0 as int;
    let h = size.1 as int;
    let cps = s.checkpoints();
    let all = all_events(data, size);
    if cps.len() == 0 {
        no_states(data, size, s);
        assert(Seq::<RawEvent>::empty().take(0) =~= all);
    } else {
        states_earlier(cps, t0, 0);
        let position = past_time(cps, t0, 0);
        let k = if position <= 1 {
            0
        } else {
            position - 1
        };
        let cp = cps[k];
        let r = 0x2_0000 * k;
        state_resumes(data, size, s, k);
        let before = events_of(d, 0, r, w, h);
        let rest = s.events_from(Some(cp), tail_of(data, cp));
        events_timed(d, record_count(d), w, h);
        assert forall|i: int, j: int| 0 <= i <= j < rest.len() implies (#[trigger] rest[i]).t <= (
        #[trigger] rest[j]).t by {
            assert(rest[i] == all[i + before.len()]);
            assert(rest[j] == all[j + before.len()]);
        }
        stopping_is_safe(rest, t0, t1);
        within_concat(before, rest, t0, t1);
        if k == 0 {
            assert(before =~= Seq::<RawEvent>::empty());
        } else {
            events_timed(d, r, w, h);
            assert(time_of(d, 0, 0x2_0000 * k - 1) < time_of(d, 0, 0x2_0000 * k));
            assert forall|i: int| 0 <= i < before.len() implies !(t0 <= (#[trigger] before[i]).t
                < t1) by {
                assert(cp.time <= t0);
            }
        }
        within_none(before, t0, t1);
        assert(within(before, t0, t1) + within(rest, t0, t1) =~= within(rest, t0, t1));
    }
}

} // verus!
