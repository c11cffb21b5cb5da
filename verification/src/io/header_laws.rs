//! What headers of recordings declare, and in which order things are refused.

use vstd::prelude::*;

use crate::chars::{
    all_digits, decimal, decimal_round_trip, find_char, find_whitespace, lowered, parsed, trim,
    trim_end, trim_start, whitespace,
};
use crate::io::aedat4::{event_stream_size, sensor_of};
use crate::io::aedat4_streams::{attribute_of, described, kind_named, Kind, Stream};
use crate::io::aedat_header::{chip_holds, chip_size, first_with, holds_text};
use crate::io::prophesee::{dat_body, dat_declare, dat_declared, dat_size, first_number};
use crate::io::raw_header::{
    chosen_size, declare, declared, declared_version, geometry_split, line_key, line_value,
    numbers_around, Declared, EvtVersion,
};
use crate::io::aedat4_packets::places;
use crate::io::h5::{scan_count, scan_window};
use crate::io::lines::{line_end, marked_end, marked_lines};
use crate::io::text::{next_line, NextLine};
use crate::io::raw_sink::disorder;
use crate::io::text_columns::{
    column_called, digits_end, fields, fields_from, is_decimal, is_number, key_column, ordered,
    separates, ColumnOrder,
};
use crate::model::first_unknown;
use crate::stream::RawEvent;

verus! {

proof fn digits_are_trim(n: nat)
    ensures
        trim(decimal(n)) == decimal(n),
        decimal(n).len() > 0,
        forall|i: int| 0 <= i < decimal(n).len() ==> '0' <= #[trigger] decimal(n)[i] <= '9',
{
    decimal_round_trip(n);
    let d = decimal(n);
    assert forall|i: int| 0 <= i < d.len() implies '0' <= #[trigger] d[i] <= '9' by {
        assert(crate::chars::is_digit(d[i]));
    }
    assert(!whitespace(d[0]));
    assert(!whitespace(d[d.len() - 1]));
    assert(trim_start(d) == d);
    assert(trim_end(d) == d);
}

proof fn first_x(s: Seq<char>, at: int, k: int)
    requires
        0 <= k <= at < s.len(),
        s[at] == 'x',
        forall|i: int| 0 <= i < at ==> #[trigger] s[i] != 'x',
    ensures
        find_char(s, 'x', k) == at,
    decreases at - k,
{
    if k < at {
        first_x(s, at, k + 1);
    }
}

/// A geometry is a width, an `x` and a height.
pub proof fn geometry_is_width_by_height(w: nat, h: nat, line: Seq<char>, d: Declared)
    requires
        w <= usize::MAX,
        h <= usize::MAX,
        line_key(line) == "geometry"@,
        line_value(line) == decimal(w) + seq!['x'] + decimal(h),
    ensures
        declare(d, line).geometry == Some((w as int, h as int)),
        declare(d, line).format == d.format,
        declare(d, line).evt == d.evt,
{
    let value = decimal(w) + seq!['x'] + decimal(h);
    let at = decimal(w).len() as int;
    digits_are_trim(w);
    digits_are_trim(h);
    decimal_round_trip(w);
    decimal_round_trip(h);
    assert forall|i: int| 0 <= i < at implies #[trigger] value[i] != 'x' by {
        assert(value[i] == decimal(w)[i]);
    }
    assert(value[at] == 'x');
    first_x(value, at, 0);
    assert(value.take(at) =~= decimal(w));
    assert(value.skip(at + 1) =~= decimal(h));
    assert(geometry_split(value) == Some(at));
    assert(numbers_around(value, at) == Some((w as int, h as int)));
}

/// The last line that declares a thing counts, and a caller's size counts before the header's.
pub proof fn last_line_counts(lines: Seq<Seq<char>>, line: Seq<char>, given: Option<(usize, usize)>)
    ensures
        declared(lines.push(line)) == declare(declared(lines), line),
        dat_declared(lines.push(line)) == dat_declare(dat_declared(lines), line),
        given matches Some(size) ==> {
            &&& chosen_size(given, declared(lines)) == Some((size.0 as int, size.1 as int))
            &&& dat_size(given, lines) == Some((size.0 as int, size.1 as int))
        },
        given is None ==> chosen_size(given, declared(lines)) == declared(lines).geometry,
        given is None && (dat_declared(lines).0 is None || dat_declared(lines).1 is None)
            ==> dat_size(given, lines) is None,
{
    assert(lines.push(line).drop_last() =~= lines);
}

/// An encoding is declared by its name or by its number: `evt3` or `3`, `evt2` or `2`; the newer one
/// counts if both are.
pub proof fn versions_by_name(d: Declared)
    ensures
        d.format == Some("evt3"@) || d.evt == Some("3"@) ==> declared_version(d) == Some(
            EvtVersion::Evt3,
        ),
        d.format == Some("evt2"@) && d.evt is None ==> declared_version(d) == Some(
            EvtVersion::Evt2,
        ),
        d.format is None && d.evt == Some("2"@) ==> declared_version(d) == Some(
            EvtVersion::Evt2,
        ),
        d.format is None && d.evt is None ==> declared_version(d) is None,
{
    reveal_strlit("evt2");
    reveal_strlit("evt3");
    reveal_strlit("2");
    reveal_strlit("3");
    assert("evt3"@.take(4) =~= "evt3"@);
    assert("evt2"@.take(4) =~= "evt2"@);
    assert("evt2"@[3] != "evt3"@[3]);
    assert("2"@.take(1) =~= "2"@);
    assert("3"@.take(1) =~= "3"@);
    assert("2"@[0] != "3"@[0]);
}

/// A line of a DAT header declares a width or a height by its name and a number.
pub proof fn dat_line_declares(d: (Option<int>, Option<int>), line: Seq<char>, n: nat)
    requires
        n <= usize::MAX,
    ensures
        dat_body(line) == "width"@ + seq![' '] + decimal(n) ==> dat_declare(d, line) == (
            Some(n as int),
            d.1,
        ),
        dat_body(line) == "height"@ + seq![' '] + decimal(n) ==> dat_declare(d, line) == (
            d.0,
            Some(n as int),
        ),
{
    reveal_strlit("width");
    reveal_strlit("height");
    let spaced = seq![' '] + decimal(n);
    number_after_space(n);
    let body = dat_body(line);
    if body == "width"@ + seq![' '] + decimal(n) {
        assert(body.take(5) =~= "width"@);
        assert(body.skip(5) =~= spaced);
    }
    if body == "height"@ + seq![' '] + decimal(n) {
        assert(body[0] == 'h');
        assert("width"@[0] == 'w');
        assert(body.take(5)[0] == 'h');
        assert(body.take(6) =~= "height"@);
        assert(body.skip(6) =~= spaced);
    }
}

proof fn no_space(s: Seq<char>, k: int)
    requires
        0 <= k <= s.len(),
        forall|i: int| 0 <= i < s.len() ==> '0' <= #[trigger] s[i] <= '9',
    ensures
        find_whitespace(s, k) == s.len(),
    decreases s.len() - k,
{
    if k < s.len() {
        assert(!whitespace(s[k]));
        no_space(s, k + 1);
    }
}

proof fn number_after_space(n: nat)
    requires
        n <= usize::MAX,
    ensures
        first_number(seq![' '] + decimal(n)) == Some(n as int),
{
    let d = decimal(n);
    let spaced = seq![' '] + d;
    digits_are_trim(n);
    decimal_round_trip(n);
    assert(whitespace(spaced[0]));
    assert(spaced.skip(1) =~= d);
    assert(trim_start(spaced) == trim_start(d));
    assert(trim_start(d) == d) by {
        assert(!whitespace(d[0]));
    }
    assert(trim(spaced) == d);
    no_space(d, 0);
    assert(d.take(d.len() as int) =~= d);
}

/// A chip has the sensor that its name says.
pub proof fn chips_have_sensors(header: Seq<Seq<char>>)
    ensures
        chip_holds(header, "davis346"@) ==> chip_size(header) == Some((346usize, 260usize)),
        chip_size(header) matches Some(size) ==> {
            ||| size == (346usize, 260usize) && (chip_holds(header, "davis346"@) || chip_holds(
                header,
                "davis 346"@,
            ))
            ||| size == (240usize, 180usize) && (chip_holds(header, "davis240"@) || chip_holds(
                header,
                "davis 240"@,
            ))
            ||| size == (208usize, 192usize) && (chip_holds(header, "davis208"@) || chip_holds(
                header,
                "davis 208"@,
            ))
            ||| size == (128usize, 128usize) && (chip_holds(header, "davis128"@) || chip_holds(
                header,
                "davis 128"@,
            ))
        },
        chip_size(header) is None ==> !chip_holds(header, "davis240"@) && !chip_holds(
            header,
            "davis208"@,
        ) && !chip_holds(header, "davis128"@) && !chip_holds(header, "davis346"@),
{
}

/// The line that is found is the first that holds a text.
pub proof fn first_line_with(header: Seq<Seq<char>>, text: Seq<char>, k: int)
    requires
        0 <= k <= header.len(),
    ensures
        match first_with(header, text, k) {
            Some(line) => exists|i: int|
                {
                    &&& k <= i < header.len()
                    &&& #[trigger] header[i] == line
                    &&& holds_text(line, text)
                    &&& forall|j: int| k <= j < i ==> !holds_text(#[trigger] header[j], text)
                },
            None => forall|j: int| k <= j < header.len() ==> !holds_text(#[trigger] header[j], text),
        },
    decreases header.len() - k,
{
    if k < header.len() {
        if holds_text(header[k], text) {
            assert(header[k] == header[k]);
        } else {
            first_line_with(header, text, k + 1);
        }
    }
}

/// A recording has the size that was asked for, or else that of its first stream of events; one
/// without columns or rows is none.
pub proof fn recording_size(streams: Seq<Stream>, asked: Option<(usize, usize)>, k: int)
    ensures
        asked matches Some(size) ==> sensor_of(streams, asked) == (if size.0 > 0 && size.1 > 0 {
            Some(size)
        } else {
            None
        }),
        asked is None && 0 <= k < streams.len() && streams[k].kind == Kind::Events && (forall|j: int|
            0 <= j < k ==> (#[trigger] streams[j]).kind != Kind::Events) ==> sensor_of(streams, asked)
            == (match streams[k].size {
            Some(size) => if size.0 > 0 && size.1 > 0 {
                Some(size)
            } else {
                None
            },
            None => None,
        }),
        asked is None && (forall|j: int|
            0 <= j < streams.len() ==> (#[trigger] streams[j]).kind != Kind::Events) ==> sensor_of(
            streams,
            asked,
        ) is None,
{
    if 0 <= k < streams.len() && streams[k].kind == Kind::Events && (forall|j: int|
        0 <= j < k ==> (#[trigger] streams[j]).kind != Kind::Events) {
        first_events(streams, k);
    }
    if forall|j: int| 0 <= j < streams.len() ==> (#[trigger] streams[j]).kind != Kind::Events {
        no_events(streams);
    }
}

proof fn first_events(streams: Seq<Stream>, k: int)
    requires
        0 <= k < streams.len(),
        streams[k].kind == Kind::Events,
        forall|j: int| 0 <= j < k ==> (#[trigger] streams[j]).kind != Kind::Events,
    ensures
        event_stream_size(streams) == streams[k].size,
    decreases k,
{
    if k > 0 {
        let rest = streams.skip(1);
        assert(streams[0].kind != Kind::Events);
        assert forall|j: int| 0 <= j < k - 1 implies (#[trigger] rest[j]).kind != Kind::Events by {
            assert(rest[j] == streams[j + 1]);
        }
        assert(rest[k - 1] == streams[k]);
        first_events(rest, k - 1);
    }
}

proof fn no_events(streams: Seq<Stream>)
    requires
        forall|j: int| 0 <= j < streams.len() ==> (#[trigger] streams[j]).kind != Kind::Events,
    ensures
        event_stream_size(streams) is None,
    decreases streams.len(),
{
    if streams.len() > 0 {
        let rest = streams.skip(1);
        assert(streams[0].kind != Kind::Events);
        assert forall|j: int| 0 <= j < rest.len() implies (#[trigger] rest[j]).kind
            != Kind::Events by {
            assert(rest[j] == streams[j + 1]);
        }
        no_events(rest);
    }
}

/// Streams are named by four letters.
pub proof fn kinds_by_letters()
    ensures
        kind_named(seq!['E', 'V', 'T', 'S']) == Kind::Events,
        kind_named(seq!['F', 'R', 'M', 'E']) == Kind::Frames,
        kind_named(seq!['I', 'M', 'U', 'S']) == Kind::Imu,
{
    reveal_strlit("EVTS");
    reveal_strlit("FRME");
    reveal_strlit("IMUS");
    assert(seq!['E', 'V', 'T', 'S'] =~= "EVTS"@);
    assert(seq!['F', 'R', 'M', 'E'] =~= "FRME"@);
    assert(seq!['I', 'M', 'U', 'S'] =~= "IMUS"@);
    assert("EVTS"@[0] != "FRME"@[0]);
    assert("EVTS"@[0] != "IMUS"@[0]);
    assert("FRME"@[0] != "IMUS"@[0]);
}

/// The event that a writer refuses is the first that is earlier than the one before it.
pub proof fn disorder_comes_first(last: Option<i64>, events: Seq<RawEvent>, i: int)
    requires
        0 <= i <= events.len(),
    ensures
        ({
            let k = disorder(last, events, i);
            &&& i <= k <= events.len()
            &&& 0 < k < events.len() ==> events[k].t < events[k - 1].t
            &&& k == 0 && events.len() > 0 ==> (last matches Some(t) && events[0].t < t)
            &&& forall|j: int| i <= j < k && 0 < j ==> events[j - 1].t <= (#[trigger] events[j]).t
            &&& i == 0 && k > 0 ==> (last matches Some(t) ==> t <= events[0].t)
        }),
    decreases events.len() - i,
{
    if i < events.len() && !crate::io::raw_sink::falls(last, events, i) {
        disorder_comes_first(last, events, i + 1);
    }
}

/// The input that is refused is the first that is not declared.
pub proof fn unknown_comes_first(given: Seq<Seq<char>>, known: Seq<Seq<char>>, i: int)
    requires
        0 <= i <= given.len(),
    ensures
        i <= first_unknown(given, known, i) <= given.len(),
        forall|j: int|
            i <= j < first_unknown(given, known, i) ==> known.contains(#[trigger] given[j]),
        first_unknown(given, known, i) < given.len() ==> !known.contains(
            given[first_unknown(given, known, i)],
        ),
    decreases given.len() - i,
{
    if i < given.len() && known.contains(given[i]) {
        unknown_comes_first(given, known, i + 1);
    }
}

/// Without a header, the columns are a time, a column, a row and a polarity, or in the other order a
/// column, a row, a time and a polarity.
pub proof fn columns_in_order()
    ensures
        ordered(ColumnOrder::Txyp).t == 0,
        ordered(ColumnOrder::Txyp).x == 1,
        ordered(ColumnOrder::Txyp).y == 2,
        ordered(ColumnOrder::Txyp).p == 3,
        ordered(ColumnOrder::Xytp).x == 0,
        ordered(ColumnOrder::Xytp).y == 1,
        ordered(ColumnOrder::Xytp).t == 2,
        ordered(ColumnOrder::Xytp).p == 3,
{
}

/// A key that is a number is the column with that index; another is the first column of the header
/// with that name, in whatever case.
pub proof fn keys_name_columns(key: Seq<char>, header: Option<Seq<char>>, n: nat)
    requires
        n <= usize::MAX,
    ensures
        key == decimal(n) ==> key_column(key, header) == Some(n as int),
        parsed(key, usize::MAX as int) is None ==> match key_column(key, header) {
            Some(k) => header matches Some(line) && is_first_called(fields(line), key, k),
            None => header matches Some(line) ==> forall|j: int|
                0 <= j < fields(line).len() ==> lowered(#[trigger] fields(line)[j])
                    != lowered(key),
        },
{
    decimal_round_trip(n);
    if let Some(line) = header {
        called_found(fields(line), key, 0);
    }
}

/// Whether a column is the first with a name, in whatever case.
pub open spec fn is_first_called(names: Seq<Seq<char>>, name: Seq<char>, k: int) -> bool {
    &&& 0 <= k < names.len()
    &&& lowered(names[k]) == lowered(name)
    &&& forall|j: int|
        0 <= j < k ==> lowered(#[trigger] names[j]) != lowered(name)
}

proof fn called_found(names: Seq<Seq<char>>, name: Seq<char>, k: int)
    requires
        0 <= k <= names.len(),
        forall|j: int|
            0 <= j < k ==> lowered(#[trigger] names[j]) != lowered(name),
    ensures
        match column_called(names, name, k) {
            Some(c) => is_first_called(names, name, c),
            None => forall|j: int|
                0 <= j < names.len() ==> lowered(#[trigger] names[j])
                    != lowered(name),
        },
    decreases names.len() - k,
{
    if k < names.len() && lowered(names[k]) != lowered(name) {
        called_found(names, name, k + 1);
    }
}

/// Whether a part of a line is a field: a run of characters between separators, as long as it can
/// be.
pub open spec fn is_field(s: Seq<char>, a: int, b: int) -> bool {
    &&& 0 <= a < b <= s.len()
    &&& forall|i: int| a <= i < b ==> !separates(#[trigger] s[i])
    &&& a > 0 ==> separates(s[a - 1])
    &&& b < s.len() ==> separates(s[b])
}

/// The fields of a line are its runs of characters that are neither commas nor white space, each as
/// long as it can be, in their order and without empty ones; together they are all such characters.
#[verifier::spinoff_prover]
#[verifier::rlimit(40)]
pub proof fn fields_are_runs(s: Seq<char>, at: int) -> (ends: Seq<(int, int)>)
    requires
        0 <= at <= s.len(),
        0 < at < s.len() ==> separates(s[at - 1]) || separates(s[at]),
    ensures
        fields_from(s, at).len() == ends.len(),
        forall|k: int|
            0 <= k < ends.len() ==> is_field(s, (#[trigger] ends[k]).0, ends[k].1) && at <= ends[k].0
                && fields_from(s, at)[k] == s.subrange(ends[k].0, ends[k].1),
        forall|k: int, l: int|
            0 <= k < l < ends.len() ==> (#[trigger] ends[k]).1 <= (#[trigger] ends[l]).0,
        forall|i: int|
            at <= i < s.len() && !separates(#[trigger] s[i]) ==> exists|k: int|
                0 <= k < ends.len() && (#[trigger] ends[k]).0 <= i < ends[k].1,
        forall|i: int|
            0 <= i < s.len() ==> (#[trigger] separates(s[i]) <==> s[i] == ',' || whitespace(s[i])),
    decreases s.len() - at,
{
    if at >= s.len() {
        Seq::empty()
    } else if separates(s[at]) {
        let ends = fields_are_runs(s, at + 1);
        ends
    } else {
        let end = run_end(s, at);
        let after = fields_are_runs(s, end);
        let ends = seq![(at, end)] + after;
        let all = fields_from(s, at);
        assert(all == seq![s.subrange(at, end)] + fields_from(s, end));
        assert forall|k: int| 0 <= k < ends.len() implies is_field(
            s,
            (#[trigger] ends[k]).0,
            ends[k].1,
        ) && at <= ends[k].0 && all[k] == s.subrange(ends[k].0, ends[k].1) by {
            if k > 0 {
                assert(ends[k] == after[k - 1]);
                assert(all[k] == fields_from(s, end)[k - 1]);
            }
        }
        assert forall|k: int, l: int| 0 <= k < l < ends.len() implies (#[trigger] ends[k]).1 <= (
        #[trigger] ends[l]).0 by {
            assert(ends[l] == after[l - 1]);
            if k > 0 {
                assert(ends[k] == after[k - 1]);
            }
        }
        assert forall|i: int| at <= i < s.len() && !separates(#[trigger] s[i]) implies exists|k: int|
            0 <= k < ends.len() && (#[trigger] ends[k]).0 <= i < ends[k].1 by {
            if i < end {
                assert(ends[0] == (at, end));
            } else {
                let k = choose|k: int|
                    0 <= k < after.len() && (#[trigger] after[k]).0 <= i < after[k].1;
                assert(ends[k + 1] == after[k]);
            }
        }
        ends
    }
}

proof fn run_end(s: Seq<char>, at: int) -> (end: int)
    requires
        0 <= at < s.len(),
        !separates(s[at]),
    ensures
        end == crate::io::text_columns::field_end(s, at),
        at < end <= s.len(),
        forall|i: int| at <= i < end ==> !separates(#[trigger] s[i]),
        end < s.len() ==> separates(s[end]),
    decreases s.len() - at,
{
    reveal_with_fuel(crate::io::text_columns::field_end, 2);
    if at + 1 < s.len() && !separates(s[at + 1]) {
        run_end(s, at + 1)
    } else {
        at + 1
    }
}

/// Whether some bytes are a line with a mark at its start: a line feed ends it, and it has no other.
pub open spec fn is_marked_line(line: Seq<u8>, mark: u8) -> bool {
    &&& line.len() > 1
    &&& line[0] == mark
    &&& line.last() == 0x0A
    &&& forall|i: int| 0 <= i < line.len() - 1 ==> #[trigger] line[i] != 0x0A
}

/// Lines one after another.
pub open spec fn lines_joined(lines: Seq<Seq<u8>>) -> Seq<u8>
    decreases lines.len(),
{
    if lines.len() == 0 {
        Seq::empty()
    } else {
        lines[0] + lines_joined(lines.skip(1))
    }
}

proof fn line_ends(data: Seq<u8>, at: int, k: int, end: int)
    requires
        0 <= at <= k < end <= data.len(),
        data[end - 1] == 0x0A,
        forall|i: int| at <= i < end - 1 ==> #[trigger] data[i] != 0x0A,
    ensures
        line_end(data, k) == end,
    decreases end - k,
{
    if k < end - 1 {
        line_ends(data, at, k + 1, end);
    }
}

/// A header is the marked lines at the start of a recording, and what follows begins after them. The
/// line that ends a header is the last of it even if more marked lines follow.
#[verifier::spinoff_prover]
#[verifier::rlimit(40)]
pub proof fn header_is_the_marked_lines(
    before: Seq<u8>,
    lines: Seq<Seq<u8>>,
    rest: Seq<u8>,
    mark: u8,
    stop: Seq<u8>,
)
    requires
        forall|i: int| 0 <= i < lines.len() ==> is_marked_line(#[trigger] lines[i], mark),
        forall|i: int| 0 <= i < lines.len() - 1 ==> #[trigger] lines[i] != stop,
        rest.len() > 0 && rest[0] == mark ==> lines.len() > 0 && lines.last() == stop,
    ensures
        ({
            let data = before + lines_joined(lines) + rest;
            &&& marked_lines(data, mark, stop, before.len() as int) == lines
            &&& marked_end(data, mark, stop, before.len() as int) == before.len() + lines_joined(
                lines,
            ).len()
        }),
    decreases lines.len(),
{
    let data = before + lines_joined(lines) + rest;
    let at = before.len() as int;
    if lines.len() == 0 {
        assert(data =~= before + rest);
        assert(at < data.len() ==> data[at] == rest[0]);
        assert(marked_lines(data, mark, stop, at) =~= lines);
    } else {
        let line = lines[0];
        let more = lines.skip(1);
        let next = before + line;
        let end = next.len() as int;
        assert(is_marked_line(line, mark));
        assert(data =~= next + lines_joined(more) + rest);
        assert(data.subrange(at, end) =~= line);
        assert(data[at] == line[0]);
        assert(data[end - 1] == line[line.len() - 1]);
        assert forall|i: int| at <= i < end - 1 implies #[trigger] data[i] != 0x0A by {
            assert(data[i] == line[i - at]);
        }
        line_ends(data, at, at, end);
        if line == stop {
            assert(lines.len() == 1);
            assert(more.len() == 0);
            assert(lines_joined(more).len() == 0);
            assert(marked_lines(data, mark, stop, at) =~= lines);
        } else {
            assert forall|i: int| 0 <= i < more.len() implies is_marked_line(
                #[trigger] more[i],
                mark,
            ) by {
                assert(more[i] == lines[i + 1]);
            }
            assert forall|i: int| 0 <= i < more.len() - 1 implies #[trigger] more[i] != stop by {
                assert(more[i] == lines[i + 1]);
            }
            if rest.len() > 0 && rest[0] == mark {
                assert(lines.len() > 1);
                assert(more.last() == lines.last());
            }
            header_is_the_marked_lines(next, more, rest, mark, stop);
            assert(seq![line] + more =~= lines);
        }
    }
}

/// A packet is the number of its stream, the length of its body, and the body, each number in four
/// bytes with the least significant first; the next one follows.
pub proof fn packets_in_turn(before: Seq<u8>, id: i32, body: Seq<u8>, rest: Seq<u8>)
    requires
        body.len() < 0x8000_0000,
    ensures
        ({
            let data = before + (crate::bytes::le32_bytes(crate::bytes::bits32(id as int))
                + crate::bytes::le32_bytes(body.len() as int) + body) + rest;
            let at = before.len() as int;
            &&& places(data, at) == seq![(id as int, at + 8, body.len() as int)] + places(
                data,
                at + 8 + body.len(),
            )
            &&& data.subrange(at + 8, at + 8 + body.len()) == body
        }),
{
    let w = crate::bytes::le32_bytes(crate::bytes::bits32(id as int));
    let v = crate::bytes::le32_bytes(body.len() as int);
    let own = w + v + body;
    let data = before + own + rest;
    let at = before.len() as int;
    assert(data[at] == w[0] && data[at + 1] == w[1] && data[at + 2] == w[2] && data[at + 3]
        == w[3]);
    assert(data[at + 4] == v[0] && data[at + 5] == v[1] && data[at + 6] == v[2] && data[at + 7]
        == v[3]);
    crate::bytes::word_round_trip(crate::bytes::bits32(id as int));
    crate::bytes::word_round_trip(body.len() as int);
    assert(crate::bytes::le32(data, at) == crate::bytes::le32(w, 0));
    assert(crate::bytes::le32(data, at + 4) == crate::bytes::le32(v, 0));
    assert(data.subrange(at + 8, at + 8 + body.len()) =~= body);
}

/// Of a long recording 320 stretches of rows are read, 100 000 each, which do not overlap and are
/// spread over all of it.
pub proof fn long_scan_is_spread(total: int, i: int)
    requires
        total > 32_000_000,
        0 <= i < 320,
    ensures
        scan_count(total) == 320,
        scan_window(total, i).1 - scan_window(total, i).0 == 100_000,
        scan_window(total, 0).0 == 0,
        i + 1 < 320 ==> scan_window(total, i).1 <= scan_window(total, i + 1).0,
        scan_window(total, i).1 <= total,
        total - scan_window(total, 319).0 < total / 320 + 320,
{
    let stride = total / 320;
    assert(stride >= 100_000);
    assert((i + 1) * stride == i * stride + stride) by (nonlinear_arith);
    assert(i * stride <= 319 * stride) by (nonlinear_arith)
        requires
            i <= 319,
            0 <= stride,
    ;
}

proof fn digits_end_there(s: Seq<char>, at: int, end: int)
    requires
        0 <= at <= end <= s.len(),
        forall|i: int| at <= i < end ==> crate::chars::is_digit(#[trigger] s[i]),
        end < s.len() ==> !crate::chars::is_digit(s[end]),
    ensures
        digits_end(s, at) == end,
    decreases end - at,
{
    if at < end {
        digits_end_there(s, at + 1, end);
    }
}

/// Digits, digits with a point among or next to them, and either with an exponent are numbers; a
/// sign may stand before a number and before an exponent.
#[verifier::spinoff_prover]
#[verifier::rlimit(40)]
pub proof fn numbers_are_read(
    whole: Seq<char>,
    part: Seq<char>,
    letter: char,
    sign: Seq<char>,
    power: Seq<char>,
)
    requires
        all_digits(whole),
        all_digits(part),
        all_digits(power),
        whole.len() + part.len() > 0,
        power.len() > 0,
        letter == 'e' || letter == 'E',
        sign == Seq::<char>::empty() || sign == seq!['+'] || sign == seq!['-'],
    ensures
        whole.len() > 0 ==> is_decimal(whole),
        is_decimal(whole + seq!['.'] + part),
        is_decimal(whole + seq!['.'] + part + (seq![letter] + sign + power)),
        whole.len() > 0 ==> is_decimal(whole + (seq![letter] + sign + power)),
{
    let w = whole.len() as int;
    digits_end_there(whole, 0, w);
    let a = whole + seq!['.'] + part;
    assert(a[w] == '.');
    assert forall|i: int| 0 <= i < w implies crate::chars::is_digit(#[trigger] a[i]) by {
        assert(a[i] == whole[i]);
    }
    assert forall|i: int| w + 1 <= i < a.len() implies crate::chars::is_digit(#[trigger] a[i]) by {
        assert(a[i] == part[i - w - 1]);
    }
    digits_end_there(a, 0, w);
    digits_end_there(a, w + 1, a.len() as int);
    let tail = seq![letter] + sign + power;
    let b = a + tail;
    let m = a.len() as int;
    assert(b[w] == '.');
    assert forall|i: int| 0 <= i < m implies b[i] == #[trigger] a[i] by {}
    assert forall|i: int| 0 <= i < w implies crate::chars::is_digit(#[trigger] b[i]) by {
        assert(b[i] == a[i]);
    }
    assert forall|i: int| w + 1 <= i < m implies crate::chars::is_digit(#[trigger] b[i]) by {
        assert(b[i] == a[i]);
    }
    assert(b[m] == letter);
    digits_end_there(b, 0, w);
    digits_end_there(b, w + 1, m);
    exponent_read(a, letter, sign, power);
    if w > 0 {
        let c = whole + tail;
        assert(c[w] == letter);
        assert forall|i: int| 0 <= i < w implies crate::chars::is_digit(#[trigger] c[i]) by {
            assert(c[i] == whole[i]);
        }
        digits_end_there(c, 0, w);
        exponent_read(whole, letter, sign, power);
    }
}

proof fn exponent_read(s: Seq<char>, letter: char, sign: Seq<char>, power: Seq<char>)
    requires
        all_digits(power),
        power.len() > 0,
        letter == 'e' || letter == 'E',
        sign == Seq::<char>::empty() || sign == seq!['+'] || sign == seq!['-'],
    ensures
        crate::io::text_columns::is_exponent(s + (seq![letter] + sign + power), s.len() as int),
{
    let b = s + (seq![letter] + sign + power);
    let m = s.len() as int;
    let start = m + 1 + sign.len();
    assert(b[m] == letter);
    assert forall|i: int| start <= i < b.len() implies crate::chars::is_digit(#[trigger] b[i]) by {
        assert(b[i] == power[i - start]);
    }
    if sign.len() == 0 {
        assert(crate::chars::is_digit(b[m + 1]));
    } else {
        assert(b[m + 1] == sign[0]);
    }
    digits_end_there(b, start, b.len() as int);
}

/// A number may have a sign, and infinity and what is not a number are spelled in whatever case.
pub proof fn signs_and_letters(s: Seq<char>)
    ensures
        is_decimal(s) ==> is_number(seq!['-'] + s) && is_number(seq!['+'] + s),
        is_decimal(s) && s[0] != '-' && s[0] != '+' ==> is_number(s),
        s.len() == 0 ==> !is_number(s),
        lowered(s) == "inf"@ || lowered(s) == "infinity"@ || lowered(s) == "nan"@ ==> is_number(
            s,
        ),
{
    reveal_strlit("inf");
    reveal_strlit("infinity");
    reveal_strlit("nan");
    assert((seq!['-'] + s).skip(1) =~= s);
    assert((seq!['+'] + s).skip(1) =~= s);
    if s.len() > 0 && (s[0] == '-' || s[0] == '+') {
        assert(lowered(s)[0] == s[0]);
    }
    if s.len() == 0 {
        assert(digits_end(s, 0) == 0);
        assert(lowered(s).len() == 0);
        assert("inf"@.len() == 3 && "infinity"@.len() == 8 && "nan"@.len() == 3);
    }
}

/// A recording of the DAVIS family has the size that was asked for, or else that of its chip; one of
/// another chip, or of another version, is not opened.
pub proof fn davis_size(data: Seq<u8>, asked: Option<(usize, usize)>)
    ensures
        ({
            let header = crate::io::aedat_header::header_texts(data);
            let named = header.len() > 0 && holds_text(header[0], "AER-DAT2.0"@);
            let size = crate::io::aedat::sensor_of(data, asked);
            &&& !named ==> size is None
            &&& named && asked is Some ==> size == asked
            &&& named && asked is None && chip_holds(header, "dvs128"@) ==> size is None
            &&& named && asked is None && !chip_holds(header, "dvs128"@) && !chip_holds(
                header,
                "dvs 128"@,
            ) ==> size == chip_size(header)
        }),
{
}

/// An attribute is the text of the element that names it: from the first `>` after the name up to the
/// next `<`.
pub proof fn attribute_is_the_text(block: Seq<char>, key: Seq<char>, at: int, open: int, close: int)
    requires
        crate::chars_laws::stands_at(block, "key=\""@ + key + "\""@, at),
        forall|i: int|
            0 <= i < at ==> !#[trigger] crate::chars_laws::stands_at(
                block,
                "key=\""@ + key + "\""@,
                i,
            ),
        at < open <= close < block.len(),
        block[open - 1] == '>',
        forall|i: int| at <= i < open - 1 ==> #[trigger] block[i] != '>',
        block[close] == '<',
        forall|i: int| open <= i < close ==> #[trigger] block[i] != '<',
    ensures
        attribute_of(block, key) == Some(block.subrange(open, close)),
{
    let text = "key=\""@ + key + "\""@;
    crate::chars_laws::first_text(block, text, 0);
    let found = crate::chars::find_text(block, text, 0);
    assert(found == Some(at)) by {
        if let Some(k) = found {
            if k < at {
                assert(crate::chars_laws::stands_at(block, text, k));
            }
        }
    }
    crate::chars_laws::first_char(block, '>', at);
    crate::chars_laws::first_char(block, '<', open);
    assert(find_char(block, '>', at) == open - 1) by {
        let f = find_char(block, '>', at);
        if f < open - 1 {
            assert(block[f] != '>');
        }
    }
    assert(find_char(block, '<', open) == close) by {
        let f = find_char(block, '<', open);
        if f < close {
            assert(block[f] != '<');
        }
    }
}

/// A stream is described by its number, its letters, and the width and the height of its sensor.
pub proof fn stream_is_described(id: i32, block: Seq<char>, letters: Seq<char>, w: usize, h: usize)
    requires
        attribute_of(block, "typeIdentifier"@) == Some(letters),
        attribute_of(block, "sizeX"@) == Some(decimal(w as nat)),
        attribute_of(block, "sizeY"@) == Some(decimal(h as nat)),
    ensures
        described(id as int, block).id == id,
        described(id as int, block).kind == kind_named(letters),
        described(id as int, block).size == Some((w, h)),
{
    decimal_round_trip(w as nat);
    decimal_round_trip(h as nat);
}

/// Blank lines and lines that begin with `#` hold no data; a header line is passed over once; any
/// other line is data, without the white space at its ends.
pub proof fn data_lines(
    before: Seq<u8>,
    line: Seq<u8>,
    rest: Seq<u8>,
    number: int,
    pending: bool,
)
    requires
        line.len() > 0,
        line.last() == 0x0A,
        forall|i: int| 0 <= i < line.len() - 1 ==> #[trigger] line[i] != 0x0A,
        vstd::utf8::valid_utf8(line),
    ensures
        ({
            let d = before + line + rest;
            let at = before.len() as int;
            let end = at + line.len();
            let text = trim(vstd::utf8::decode_utf8(line));
            next_line(d, at, number, pending) == if text.len() == 0 || text[0] == '#' {
                next_line(d, end, number + 1, pending)
            } else if pending {
                next_line(d, end, number + 1, false)
            } else {
                NextLine::Data { start: at, end, number: number + 1, text }
            }
        }),
{
    let d = before + line + rest;
    let at = before.len() as int;
    let end = at + line.len();
    assert(d.subrange(at, end) =~= line);
    assert(d[end - 1] == line[line.len() - 1]);
    assert forall|i: int| at <= i < end - 1 implies #[trigger] d[i] != 0x0A by {
        assert(d[i] == line[i - at]);
    }
    line_ends(d, at, at, end);
}

} // verus!
