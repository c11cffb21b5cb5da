//! Which datasets, fields and arrays of a recording are read, and what a scan of events finds.

use vstd::prelude::*;

use crate::chars::lowered;
use crate::io::codec::{after, decoded, step, word_events, Codec};
use crate::io::e2vid::{first_fall, time_before};
use crate::io::evt::{evt2_step, evt2_word_events, evt3_step, evt3_word_events};
use crate::io::h5::EventBlock;
use crate::io::h5_layout::{
    base_of, best_column, best_field, best_group, column_rank, field_called, group_columns, last_slash,
    parent_of, slashes, DatasetInfo, FieldInfo,
};
use crate::io::npz::{content, events_of_records, native_rows, NImageNetEvent, NativeArrays};
use crate::io::prophesee_raw::{earliest, latest, lowest, rightmost};
use crate::io::text_columns::{fit, Role, TimeUnit};
use crate::stream::RawEvent;

verus! {

/// The extent and the span of events are no larger than they must be: there is an event at each of
/// their ends.
pub proof fn extent_is_tight(events: Seq<RawEvent>)
    requires
        events.len() > 0,
    ensures
        exists|i: int| 0 <= i < events.len() && (#[trigger] events[i]).x == rightmost(events),
        exists|i: int| 0 <= i < events.len() && (#[trigger] events[i]).y == lowest(events),
        exists|i: int| 0 <= i < events.len() && (#[trigger] events[i]).t == earliest(events),
        exists|i: int| 0 <= i < events.len() && (#[trigger] events[i]).t == latest(events),
    decreases events.len(),
{
    let rest = events.drop_last();
    let n = rest.len() as int;
    let e = events[n];
    assert(events.last() == e);
    if rest.len() == 0 {
        assert(rightmost(rest) == 0 && lowest(rest) == 0);
        assert(earliest(rest) == i64::MAX && latest(rest) == i64::MIN);
        assert(events[n].x == rightmost(events) && events[n].y == lowest(events));
        assert(events[n].t == earliest(events) && events[n].t == latest(events));
    } else {
        extent_is_tight(rest);
        let a = choose|i: int| 0 <= i < rest.len() && (#[trigger] rest[i]).x == rightmost(rest);
        let b = choose|i: int| 0 <= i < rest.len() && (#[trigger] rest[i]).y == lowest(rest);
        let c = choose|i: int| 0 <= i < rest.len() && (#[trigger] rest[i]).t == earliest(rest);
        let d = choose|i: int| 0 <= i < rest.len() && (#[trigger] rest[i]).t == latest(rest);
        assert(events[a] == rest[a] && events[b] == rest[b]);
        assert(events[c] == rest[c] && events[d] == rest[d]);
    }
}

/// A path is what comes before its last slash, the slash, and the last part, which has none; a path
/// without a slash is its own last part.
pub proof fn path_parts(s: Seq<char>)
    ensures
        forall|i: int| 0 <= i < base_of(s).len() ==> #[trigger] base_of(s)[i] != '/',
        s.contains('/') ==> s == parent_of(s) + seq!['/'] + base_of(s),
        !s.contains('/') ==> s == base_of(s) && parent_of(s).len() == 0,
{
    slash_found(s, s.len() as int);
    match last_slash(s, s.len() as int) {
        Some(at) => {
            assert(s[at] == '/');
            assert(s =~= parent_of(s) + seq!['/'] + base_of(s));
        },
        None => {
            assert(!s.contains('/'));
        },
    }
}

proof fn slash_found(s: Seq<char>, n: int)
    requires
        0 <= n <= s.len(),
    ensures
        match last_slash(s, n) {
            Some(at) => 0 <= at < n && s[at] == '/' && forall|i: int|
                at < i < n ==> #[trigger] s[i] != '/',
            None => forall|i: int| 0 <= i < n ==> #[trigger] s[i] != '/',
        },
    decreases n,
{
    if n > 0 && s[n - 1] != '/' {
        slash_found(s, n - 1);
    }
}

/// The dataset that serves as a column of a group lies in it, has one dimension and no fields, and
/// has a name of the column's; no other of the group has a better one, and none before it an equally
/// good one.
pub proof fn best_column_serves(ds: Seq<DatasetInfo>, parent: Seq<char>, role: Role, n: int)
    requires
        0 <= n <= ds.len(),
    ensures
        match best_column(ds, parent, role, n) {
            Some(c) => {
                &&& 0 <= c < n
                &&& ds[c].dimensions == 1
                &&& !ds[c].compound
                &&& parent_of(ds[c].name@) == parent
                &&& fit(role, lowered(base_of(ds[c].name@))) is Some
                &&& forall|i: int|
                    0 <= i < n && column_rank(#[trigger] ds[i], parent, role) is Some ==> {
                        &&& column_rank(ds[c], parent, role)->0 <= column_rank(ds[i], parent, role)->0
                        &&& i < c ==> column_rank(ds[c], parent, role)->0 < column_rank(
                            ds[i],
                            parent,
                            role,
                        )->0
                    }
            },
            None => forall|i: int|
                0 <= i < n ==> column_rank(#[trigger] ds[i], parent, role) is None,
        },
    decreases n,
{
    if n > 0 {
        best_column_serves(ds, parent, role, n - 1);
    }
}

/// A dataset can serve as a column of a group only if it lies in it, has one dimension and no
/// fields; how well it serves is how well its name fits.
pub proof fn rank_is_the_fit(d: DatasetInfo, parent: Seq<char>, role: Role)
    ensures
        column_rank(d, parent, role) is Some <==> d.dimensions == 1 && !d.compound && parent_of(
            d.name@,
        ) == parent && fit(role, lowered(base_of(d.name@))) is Some,
        column_rank(d, parent, role) is Some ==> column_rank(d, parent, role) == fit(
            role,
            lowered(base_of(d.name@)),
        ),
{
}

/// Whether a group with events has more of them than another, or as many and lies less deep.
pub open spec fn beats(ds: Seq<DatasetInfo>, i: int, j: int) -> bool {
    let a = parent_of(ds[i].name@);
    let b = parent_of(ds[j].name@);
    let m = ds[group_columns(ds, a)->0.x as int].len;
    let n = ds[group_columns(ds, b)->0.x as int].len;
    m > n || (m == n && slashes(a) < slashes(b))
}

/// The group that is read has all four columns, no other group beats it, and it beats those before
/// it.
pub proof fn best_group_wins(ds: Seq<DatasetInfo>, n: int)
    requires
        0 <= n <= ds.len(),
    ensures
        match best_group(ds, n) {
            Some(b) => {
                &&& 0 <= b < n
                &&& group_columns(ds, parent_of(ds[b].name@)) is Some
                &&& forall|i: int|
                    0 <= i < n && group_columns(ds, parent_of((#[trigger] ds[i]).name@)) is Some ==> {
                        &&& !beats(ds, i, b)
                        &&& i < b ==> beats(ds, b, i)
                    }
            },
            None => forall|i: int|
                0 <= i < n ==> group_columns(ds, parent_of((#[trigger] ds[i]).name@)) is None,
        },
    decreases n,
{
    if n > 0 {
        best_group_wins(ds, n - 1);
    }
}

/// The columns of a group are equally long and each is the best for its role.
pub proof fn group_has_four_columns(ds: Seq<DatasetInfo>, parent: Seq<char>)
    requires
        ds.len() <= usize::MAX,
    ensures
        group_columns(ds, parent) matches Some(c) ==> {
            &&& best_column(ds, parent, Role::X, ds.len() as int) == Some(c.x as int)
            &&& best_column(ds, parent, Role::Y, ds.len() as int) == Some(c.y as int)
            &&& best_column(ds, parent, Role::T, ds.len() as int) == Some(c.t as int)
            &&& best_column(ds, parent, Role::P, ds.len() as int) == Some(c.p as int)
            &&& ds[c.x as int].len == ds[c.y as int].len
            &&& ds[c.y as int].len == ds[c.t as int].len
            &&& ds[c.t as int].len == ds[c.p as int].len
        },
{
    best_column_serves(ds, parent, Role::X, ds.len() as int);
    best_column_serves(ds, parent, Role::Y, ds.len() as int);
    best_column_serves(ds, parent, Role::T, ds.len() as int);
    best_column_serves(ds, parent, Role::P, ds.len() as int);
}

/// The field that serves as a column has a name of the column's; no other has a better one, and none
/// before it an equally good one.
pub proof fn best_field_serves(fields: Seq<FieldInfo>, role: Role, n: int)
    requires
        0 <= n <= fields.len(),
    ensures
        match best_field(fields, role, n) {
            Some(c) => {
                &&& 0 <= c < n
                &&& fit(role, lowered(fields[c].name@)) is Some
                &&& forall|i: int|
                    0 <= i < n && fit(role, lowered((#[trigger] fields[i]).name@)) is Some ==> {
                        &&& fit(role, lowered(fields[c].name@))->0 <= fit(
                            role,
                            lowered(fields[i].name@),
                        )->0
                        &&& i < c ==> fit(role, lowered(fields[c].name@))->0 < fit(
                            role,
                            lowered(fields[i].name@),
                        )->0
                    }
            },
            None => forall|i: int|
                0 <= i < n ==> fit(role, lowered((#[trigger] fields[i]).name@)) is None,
        },
    decreases n,
{
    if n > 0 {
        best_field_serves(fields, role, n - 1);
    }
}

/// The field that a key names is the first with that name.
pub proof fn named_field_is_first(fields: Seq<FieldInfo>, name: Seq<char>, k: int)
    requires
        0 <= k <= fields.len(),
    ensures
        match field_called(fields, name, k) {
            Some(f) => k <= f < fields.len() && fields[f].name@ == name && forall|i: int|
                k <= i < f ==> (#[trigger] fields[i]).name@ != name,
            None => forall|i: int| k <= i < fields.len() ==> (#[trigger] fields[i]).name@ != name,
        },
    decreases fields.len() - k,
{
    if k < fields.len() && fields[k].name@ != name {
        named_field_is_first(fields, name, k + 1);
    }
}

/// A block of columns is read row by row, with the times in microseconds.
pub proof fn block_rows(block: EventBlock, unit: TimeUnit, i: int)
    requires
        block.wf(),
        0 <= i < block.xs@.len(),
        0 <= block.xs@[i] < 0x1_0000,
        0 <= block.ys@[i] < 0x1_0000,
    ensures
        block.rows(unit).len() == block.xs@.len(),
        block.rows(unit)[i].x == block.xs@[i],
        block.rows(unit)[i].y == block.ys@[i],
        block.rows(unit)[i].t == unit.scaled(block.ts@[i] as int),
        block.rows(unit)[i].p == block.ps@[i],
{
}

/// An archive with one array per column is read row by row; a polarity that is not zero is
/// positive.
pub proof fn archive_rows(a: NativeArrays, i: int)
    requires
        0 <= i < content(a.x).len(),
    ensures
        native_rows(a).len() == content(a.x).len(),
        native_rows(a)[i].x == content(a.x)[i],
        native_rows(a)[i].y == content(a.y)[i],
        native_rows(a)[i].t == content(a.t)[i],
        native_rows(a)[i].p <==> content(a.p)[i] != 0,
{
}

/// Records with named fields are read one by one.
pub proof fn archive_records(records: Seq<NImageNetEvent>, i: int)
    requires
        0 <= i < records.len(),
    ensures
        events_of_records(records).len() == records.len(),
        events_of_records(records)[i].x == records[i].x,
        events_of_records(records)[i].y == records[i].y,
        events_of_records(records)[i].t == records[i].t,
        events_of_records(records)[i].p == records[i].p,
{
}

/// Words are read in turn, the least significant byte first: four bytes each in EVT2, two in EVT3.
pub proof fn words_in_turn(c: Codec, bytes: Seq<u8>, n: int)
    requires
        0 <= n,
    ensures
        c is Evt2 ==> after(c, bytes, n) is Evt2 && ({
            let d = after(c, bytes, n)->Evt2_0;
            let at = 4 * n;
            let word = bytes[at] + 0x100 * bytes[at + 1] + 0x1_0000 * bytes[at + 2] + 0x100_0000
                * bytes[at + 3];
            &&& decoded(c, bytes, n + 1) == decoded(c, bytes, n) + evt2_word_events(d, word)
            &&& after(c, bytes, n + 1) == Codec::Evt2(evt2_step(d, word))
        }),
        c is Evt3 ==> after(c, bytes, n) is Evt3 && ({
            let d = after(c, bytes, n)->Evt3_0;
            let at = 2 * n;
            let word = bytes[at] + 0x100 * bytes[at + 1];
            &&& decoded(c, bytes, n + 1) == decoded(c, bytes, n) + evt3_word_events(d, word)
            &&& after(c, bytes, n + 1) == Codec::Evt3(evt3_step(d, word))
        }),
    decreases n,
{
    reveal(step);
    reveal(word_events);
    if n > 0 {
        words_in_turn(c, bytes, n - 1);
    }
}

/// The event that is refused for its time is the first that is earlier than the one before it.
pub proof fn fall_comes_first(events: Seq<RawEvent>, last: Option<i64>, i: int)
    requires
        0 <= i <= events.len(),
    ensures
        ({
            let fall = first_fall(events, last, i);
            &&& i <= fall <= events.len()
            &&& 0 < fall < events.len() ==> events[fall].t < events[fall - 1].t
            &&& fall == 0 && events.len() > 0 ==> (last matches Some(t) && events[0].t < t)
            &&& forall|j: int|
                i <= j < fall && 0 < j ==> events[j - 1].t <= (#[trigger] events[j]).t
            &&& i == 0 && fall > 0 ==> (last matches Some(t) ==> t <= events[0].t)
        }),
    decreases events.len() - i,
{
    if i < events.len() && !(time_before(events, last, i) is Some && events[i].t < time_before(
        events,
        last,
        i,
    )->0) {
        fall_comes_first(events, last, i + 1);
    }
}

} // verus!
