//! What written lines and columns hold, and what a limit or a window leaves of rows.

use vstd::prelude::*;

use crate::bytes::{bits64, le16, le16_bytes, le64, le64_bytes};
use crate::chars::{decimal, decimal_round_trip, is_digit, signed_decimal};
use crate::io::e2vid::{e2vid_line, e2vid_lines, header_line};
use crate::io::h5::{before_time, is_first_at};
use crate::io::npz::{place_bytes, time_bytes};
use crate::io::text::{event_line, rows_loaded};
use crate::io::text_columns::{field_end, fields, fields_from, separates};
use crate::stream::{kept, within, RawEvent};

verus! {

/// A text without separators.
pub open spec fn is_word(s: Seq<char>) -> bool {
    s.len() > 0 && forall|i: int| 0 <= i < s.len() ==> !separates(#[trigger] s[i])
}

proof fn word_ends(s: Seq<char>, at: int, end: int)
    requires
        0 <= at <= end < s.len(),
        forall|i: int| at <= i < end ==> !separates(#[trigger] s[i]),
        separates(s[end]),
    ensures
        field_end(s, at) == end,
    decreases end - at,
{
    if at < end {
        word_ends(s, at + 1, end);
    }
}

proof fn next_word(s: Seq<char>, at: int, word: Seq<char>)
    requires
        is_word(word),
        0 <= at,
        at + word.len() < s.len(),
        s.subrange(at, at + word.len()) == word,
        separates(s[at + word.len()]),
    ensures
        fields_from(s, at) == seq![word] + fields_from(s, at + word.len() + 1),
{
    let end = at + word.len();
    assert forall|i: int| at <= i < end implies !separates(#[trigger] s[i]) by {
        assert(s.subrange(at, end)[i - at] == s[i]);
        assert(!separates(word[i - at]));
    }
    word_ends(s, at, end);
    assert(!separates(s[at]));
    assert(fields_from(s, end) == fields_from(s, end + 1));
}

#[verifier::spinoff_prover]
#[verifier::rlimit(40)]
proof fn four_words(a: Seq<char>, b: Seq<char>, c: Seq<char>, d: Seq<char>)
    requires
        is_word(a),
        is_word(b),
        is_word(c),
        is_word(d),
    ensures
        fields(a + seq![' '] + b + seq![' '] + c + seq![' '] + d + seq!['\n']) == seq![a, b, c, d],
{
    let s = a + seq![' '] + b + seq![' '] + c + seq![' '] + d + seq!['\n'];
    let p1 = (a.len() + 1) as int;
    let p2 = p1 + b.len() + 1;
    let p3 = p2 + c.len() + 1;
    assert(s.subrange(0, a.len() as int) =~= a);
    assert(s.subrange(p1, p1 + b.len()) =~= b);
    assert(s.subrange(p2, p2 + c.len()) =~= c);
    assert(s.subrange(p3, p3 + d.len()) =~= d);
    assert(separates(' ') && separates('\n'));
    next_word(s, 0, a);
    next_word(s, p1, b);
    next_word(s, p2, c);
    next_word(s, p3, d);
    assert(fields_from(s, p3 + d.len() + 1) =~= Seq::<Seq<char>>::empty());
    assert(fields(s) =~= seq![a, b, c, d]);
}

proof fn numbers_are_words(n: int)
    ensures
        is_word(signed_decimal(n)),
        n >= 0 ==> is_word(decimal(n as nat)),
{
    let m = if n < 0 {
        (-n) as nat
    } else {
        n as nat
    };
    decimal_round_trip(m);
    let d = decimal(m);
    assert forall|i: int| 0 <= i < d.len() implies !separates(#[trigger] d[i]) by {
        assert(is_digit(d[i]));
    }
    if n < 0 {
        let s = signed_decimal(n);
        assert forall|i: int| 0 <= i < s.len() implies !separates(#[trigger] s[i]) by {
            if i > 0 {
                assert(s[i] == d[i - 1]);
            }
        }
    }
}

/// The line of an event holds four fields: its time, its column, its row, and one if it is positive
/// or zero if not. In an E2VID file the time is in seconds.
#[verifier::spinoff_prover]
#[verifier::rlimit(40)]
pub proof fn lines_hold_events(e: RawEvent, seconds: Seq<char>)
    requires
        is_word(seconds),
    ensures
        fields(event_line(e)) == seq![
            signed_decimal(e.t as int),
            decimal(e.x as nat),
            decimal(e.y as nat),
            (if e.p {
                seq!['1']
            } else {
                seq!['0']
            }),
        ],
        fields(e2vid_line(e, seconds)) == seq![
            seconds,
            decimal(e.x as nat),
            decimal(e.y as nat),
            (if e.p {
                seq!['1']
            } else {
                seq!['0']
            }),
        ],
{
    reveal_strlit(" ");
    reveal_strlit("1\n");
    reveal_strlit("0\n");
    assert(" "@ =~= seq![' ']);
    assert("1\n"@ =~= seq!['1', '\n']);
    assert("0\n"@ =~= seq!['0', '\n']);
    let t = signed_decimal(e.t as int);
    let x = decimal(e.x as nat);
    let y = decimal(e.y as nat);
    let p = if e.p {
        seq!['1']
    } else {
        seq!['0']
    };
    numbers_are_words(e.t as int);
    numbers_are_words(e.x as int);
    numbers_are_words(e.y as int);
    assert(is_word(p));
    four_words(t, x, y, p);
    four_words(seconds, x, y, p);
    assert(event_line(e) =~= t + seq![' '] + x + seq![' '] + y + seq![' '] + p + seq!['\n']);
    assert(e2vid_line(e, seconds) =~= seconds + seq![' '] + x + seq![' '] + y + seq![' '] + p
        + seq!['\n']);
}

/// The first line of an E2VID file is the width and the height of the sensor.
pub proof fn first_line_is_the_sensor(width: nat, height: nat)
    ensures
        fields(header_line(width as int, height as int)) == seq![decimal(width), decimal(height)],
{
    reveal_strlit(" ");
    reveal_strlit("\n");
    assert(" "@ =~= seq![' ']);
    assert("\n"@ =~= seq!['\n']);
    let a = decimal(width);
    let b = decimal(height);
    numbers_are_words(width as int);
    numbers_are_words(height as int);
    let s = a + seq![' '] + b + seq!['\n'];
    assert(header_line(width as int, height as int) =~= s);
    assert(separates(' ') && separates('\n'));
    let at = (a.len() + 1) as int;
    assert(s.subrange(0, a.len() as int) =~= a);
    assert(s.subrange(at, at + b.len()) =~= b);
    next_word(s, 0, a);
    next_word(s, at, b);
    assert(fields_from(s, s.len() as int) =~= Seq::<Seq<char>>::empty());
    assert(fields(s) =~= seq![a, b]);
}

/// Lines are written in the order of the events.
pub proof fn lines_in_order(events: Seq<RawEvent>, seconds: Seq<Seq<char>>, n: int)
    requires
        0 <= n,
    ensures
        e2vid_lines(events, seconds, 0) == Seq::<char>::empty(),
        e2vid_lines(events, seconds, n + 1) == e2vid_lines(events, seconds, n) + e2vid_line(
            events[n],
            seconds[n],
        ),
{
}

/// A column of an archive holds, event by event, the column, the row or the time, the least
/// significant byte first.
#[verifier::spinoff_prover]
#[verifier::rlimit(40)]
pub proof fn columns_hold_events(events: Seq<RawEvent>, i: int)
    requires
        0 <= i < events.len(),
    ensures
        place_bytes(events, false).len() == 2 * events.len(),
        place_bytes(events, true).len() == 2 * events.len(),
        time_bytes(events).len() == 8 * events.len(),
        le16(place_bytes(events, false), 2 * i) == events[i].x,
        le16(place_bytes(events, true), 2 * i) == events[i].y,
        le64(time_bytes(events), 8 * i) == bits64(events[i].t as int),
    decreases events.len(),
{
    let rest = events.drop_last();
    let n = rest.len() as int;
    let e = events[n];
    assert(events.last() == e);
    columns_len(rest);
    columns_len(events);
    let x = le16_bytes(e.x as int);
    let y = le16_bytes(e.y as int);
    let t = le64_bytes(bits64(e.t as int));
    crate::bytes::le16_round_trip(e.x as int);
    crate::bytes::le16_round_trip(e.y as int);
    crate::bytes::le64_round_trip(bits64(e.t as int));
    let a = place_bytes(events, false);
    let b = place_bytes(events, true);
    let c = time_bytes(events);
    let a0 = place_bytes(rest, false);
    let b0 = place_bytes(rest, true);
    let c0 = time_bytes(rest);
    assert(a == a0 + x && b == b0 + y && c == c0 + t);
    if i == n {
        assert(a[2 * n] == x[0] && a[2 * n + 1] == x[1]);
        assert(b[2 * n] == y[0] && b[2 * n + 1] == y[1]);
        assert(t.len() == 8);
        assert(c[8 * n] == t[0] && c[8 * n + 1] == t[1] && c[8 * n + 2] == t[2] && c[8 * n + 3]
            == t[3]);
        assert(c[8 * n + 4] == t[4] && c[8 * n + 5] == t[5] && c[8 * n + 6] == t[6] && c[8 * n + 7]
            == t[7]);
    } else {
        columns_hold_events(rest, i);
        assert(rest[i] == events[i]);
        assert(a[2 * i] == a0[2 * i] && a[2 * i + 1] == a0[2 * i + 1]);
        assert(b[2 * i] == b0[2 * i] && b[2 * i + 1] == b0[2 * i + 1]);
        assert(c[8 * i] == c0[8 * i] && c[8 * i + 1] == c0[8 * i + 1] && c[8 * i + 2] == c0[8 * i
            + 2] && c[8 * i + 3] == c0[8 * i + 3]);
        assert(c[8 * i + 4] == c0[8 * i + 4] && c[8 * i + 5] == c0[8 * i + 5] && c[8 * i + 6]
            == c0[8 * i + 6] && c[8 * i + 7] == c0[8 * i + 7]);
    }
}

proof fn columns_len(events: Seq<RawEvent>)
    ensures
        place_bytes(events, false).len() == 2 * events.len(),
        place_bytes(events, true).len() == 2 * events.len(),
        time_bytes(events).len() == 8 * events.len(),
    decreases events.len(),
{
    if events.len() > 0 {
        columns_len(events.drop_last());
    }
}

/// Loading rows keeps those on the sensor, and with a limit the first so many of them.
pub proof fn limit_on_rows(
    events: Seq<RawEvent>,
    width: int,
    height: int,
    max: Option<usize>,
    n: int,
)
    requires
        0 <= n <= events.len(),
        max matches Some(m) ==> m > 0,
    ensures
        ({
            let all = kept(events.take(n), width, height);
            rows_loaded(events, width, height, max, n) == if max is Some && all.len() > max->0 {
                all.take(max->0 as int)
            } else {
                all
            }
        }),
    decreases n,
{
    if n == 0 {
        assert(events.take(0) =~= Seq::<RawEvent>::empty());
    } else {
        limit_on_rows(events, width, height, max, n - 1);
        let e = events[n - 1];
        let then = kept(events.take(n - 1), width, height);
        let all = kept(events.take(n), width, height);
        assert(events.take(n) =~= events.take(n - 1).push(e));
        crate::stream::kept_push(events.take(n - 1), e, width, height);
        if let Some(m) = max {
            if then.len() >= m {
                assert(all.take(m as int) =~= then.take(m as int));
                assert(then.len() == m ==> then.take(m as int) =~= then);
                if all.len() == m {
                    assert(all.take(m as int) =~= all);
                }
            }
        }
    }
}

/// In a recording in order of time, the rows from the first not before a window's beginning up to the
/// first not before its end are exactly the rows of the window.
pub proof fn sorted_window_is_exact(rows: Seq<RawEvent>, ts: Seq<i64>, t0: int, t1: int, i: int)
    requires
        ts == Seq::new(rows.len(), |k: int| rows[k].t),
        forall|a: int, b: int|
            0 <= a <= b < rows.len() ==> (#[trigger] rows[a]).t <= (#[trigger] rows[b]).t,
        is_first_at(ts, t0, i),
    ensures
        rows.subrange(i, before_time(rows, t1, i)) == within(rows, t0, t1),
{
    crate::io::column_laws::window_ends_there(rows, t1, i);
    let n = before_time(rows, t1, i);
    let head = rows.subrange(0, i);
    let mid = rows.subrange(i, n);
    let tail = rows.subrange(n, rows.len() as int);
    assert(rows =~= head + (mid + tail));
    crate::stream::within_concat(head, mid + tail, t0, t1);
    crate::stream::within_concat(mid, tail, t0, t1);
    assert forall|k: int| 0 <= k < head.len() implies (#[trigger] head[k]).t < t0 by {
        assert(ts[k] < t0);
    }
    assert forall|k: int| 0 <= k < mid.len() implies t0 <= (#[trigger] mid[k]).t < t1 by {
        assert(ts[i + k] >= t0);
        assert(mid[k] == rows[i + k]);
    }
    assert forall|k: int| 0 <= k < tail.len() implies (#[trigger] tail[k]).t >= t1 by {
        assert(rows[n].t <= rows[n + k].t);
    }
    none_within(head, t0, t1, true);
    none_within(tail, t0, t1, false);
    all_within(mid, t0, t1);
    assert(Seq::<RawEvent>::empty() + (mid + Seq::<RawEvent>::empty()) =~= mid);
}

proof fn none_within(events: Seq<RawEvent>, t0: int, t1: int, early: bool)
    requires
        forall|k: int|
            0 <= k < events.len() ==> (early && (#[trigger] events[k]).t < t0) || (!early
                && events[k].t >= t1),
    ensures
        within(events, t0, t1) == Seq::<RawEvent>::empty(),
    decreases events.len(),
{
    if events.len() > 0 {
        let rest = events.drop_last();
        assert forall|k: int| 0 <= k < rest.len() implies (early && (#[trigger] rest[k]).t < t0) || (
        !early && rest[k].t >= t1) by {
            assert(rest[k] == events[k]);
        }
        none_within(rest, t0, t1, early);
        assert(events.last() == events[events.len() - 1]);
    }
}

proof fn all_within(events: Seq<RawEvent>, t0: int, t1: int)
    requires
        forall|k: int| 0 <= k < events.len() ==> t0 <= (#[trigger] events[k]).t < t1,
    ensures
        within(events, t0, t1) == events,
    decreases events.len(),
{
    if events.len() > 0 {
        let rest = events.drop_last();
        assert forall|k: int| 0 <= k < rest.len() implies t0 <= (#[trigger] rest[k]).t < t1 by {
            assert(rest[k] == events[k]);
        }
        all_within(rest, t0, t1);
        assert(events.last() == events[events.len() - 1]);
        assert(rest.push(events.last()) =~= events);
    }
}

} // verus!
