//! What is written as text is what is read.

use vstd::prelude::*;
use vstd::string::*;
use vstd::utf8::{
    encode_utf8, encode_utf8_decode_utf8, encode_utf8_valid_utf8, is_ascii_chars,
    is_ascii_chars_encode_utf8,
};

use crate::chars::{
    all_digits, decimal, decimal_round_trip, digits_value, is_digit, parsed, signed_decimal, trim,
    trim_end, trim_start, whitespace,
};
use crate::io::lines::line_end;
use crate::io::text::{
    acceptable, event_line, event_lines, exact_event, next_line, row_fault, row_holds, FieldKind,
    NextLine, TextRow,
};
use crate::io::text_columns::{
    digits_end, field_end, fields, fields_from, is_decimal, is_number, separates, ColumnMap,
};
use crate::stream::RawEvent;

verus! {

/// A text of digits, perhaps with a sign before them.
pub open spec fn plain(s: Seq<char>) -> bool {
    &&& s.len() > 0
    &&& forall|i: int| 0 <= i < s.len() ==> is_digit(#[trigger] s[i]) || (i == 0 && s[i] == '-')
    &&& is_digit(s.last())
}

proof fn decimals_plain(n: int)
    ensures
        plain(signed_decimal(n)),
        n >= 0 ==> plain(decimal(n as nat)),
{
    if n < 0 {
        decimal_round_trip((-n) as nat);
        let d = decimal((-n) as nat);
        let s = signed_decimal(n);
        assert forall|i: int| 0 <= i < s.len() implies is_digit(#[trigger] s[i]) || (i == 0 && s[i]
            == '-') by {
            if i > 0 {
                assert(s[i] == d[i - 1]);
            }
        }
        assert(s.last() == d[d.len() - 1]);
    } else {
        decimal_round_trip(n as nat);
        let d = decimal(n as nat);
        assert(is_digit(d[d.len() - 1]));
    }
}

/// The text of the polarity of an event.
pub open spec fn sign_text(p: bool) -> Seq<char> {
    if p {
        seq!['1']
    } else {
        seq!['0']
    }
}

/// The line of an event without its end.
pub open spec fn line_text(e: RawEvent) -> Seq<char> {
    signed_decimal(e.t as int) + seq![' '] + decimal(e.x as nat) + seq![' '] + decimal(e.y as nat)
        + seq![' '] + sign_text(e.p)
}

/// The columns of an event.
pub open spec fn columns_of(e: RawEvent) -> Seq<Seq<char>> {
    seq![
        signed_decimal(e.t as int),
        decimal(e.x as nat),
        decimal(e.y as nat),
        sign_text(e.p),
    ]
}

proof fn line_is_text(e: RawEvent)
    ensures
        event_line(e) == line_text(e) + seq!['\n'],
{
    reveal_strlit(" ");
    reveal_strlit("1\n");
    reveal_strlit("0\n");
    assert(" "@ =~= seq![' ']);
    assert("1\n"@ =~= seq!['1', '\n']);
    assert("0\n"@ =~= seq!['0', '\n']);
    assert(event_line(e) =~= line_text(e) + seq!['\n']);
}

/// Whether a character is one of those in the line of an event.
spec fn line_char(c: char) -> bool {
    is_digit(c) || c == '-' || c == ' '
}

proof fn line_chars(e: RawEvent)
    ensures
        forall|i: int| 0 <= i < line_text(e).len() ==> line_char(#[trigger] line_text(e)[i]),
        line_text(e).len() > 0,
        line_text(e)[0] != ' ',
        is_digit(line_text(e).last()),
{
    let a = signed_decimal(e.t as int);
    let b = decimal(e.x as nat);
    let c = decimal(e.y as nat);
    let d = sign_text(e.p);
    decimals_plain(e.t as int);
    decimals_plain(e.x as int);
    decimals_plain(e.y as int);
    let s = line_text(e);
    assert forall|i: int| 0 <= i < s.len() implies line_char(#[trigger] s[i]) by {
        if i < a.len() {
            assert(s[i] == a[i]);
        } else if i == a.len() {
        } else if i < a.len() + 1 + b.len() {
            assert(s[i] == b[i - a.len() - 1]);
        } else if i == a.len() + 1 + b.len() {
        } else if i < a.len() + 2 + b.len() + c.len() {
            assert(s[i] == c[i - a.len() - 2 - b.len()]);
        }
    }
    assert(s[0] == a[0]);
}

proof fn field_ends(s: Seq<char>, at: int, end: int)
    requires
        0 <= at <= end <= s.len(),
        forall|i: int| at <= i < end ==> !separates(#[trigger] s[i]),
        end == s.len() || separates(s[end]),
    ensures
        field_end(s, at) == end,
    decreases end - at,
{
    if at < end {
        field_ends(s, at + 1, end);
    }
}

proof fn plain_separates(s: Seq<char>)
    requires
        plain(s),
    ensures
        forall|i: int| 0 <= i < s.len() ==> !separates(#[trigger] s[i]),
{
}

proof fn next_field(s: Seq<char>, at: int, word: Seq<char>)
    requires
        plain(word),
        0 <= at,
        at + word.len() <= s.len(),
        s.subrange(at, at + word.len()) == word,
        at + word.len() == s.len() || s[at + word.len()] == ' ',
    ensures
        at + word.len() < s.len() ==> fields_from(s, at) == seq![word] + fields_from(
            s,
            at + word.len() + 1,
        ),
        at + word.len() == s.len() ==> fields_from(s, at) == seq![word],
{
    plain_separates(word);
    let end = at + word.len();
    assert forall|i: int| at <= i < end implies !separates(#[trigger] s[i]) by {
        assert(s.subrange(at, end)[i - at] == s[i]);
        assert(!separates(word[i - at]));
    }
    field_ends(s, at, end);
    assert(!separates(s[at]));
    if end < s.len() {
        assert(separates(s[end]));
        assert(fields_from(s, end) == fields_from(s, end + 1));
    } else {
        assert(fields_from(s, end) =~= Seq::<Seq<char>>::empty());
        assert(seq![word] + Seq::<Seq<char>>::empty() =~= seq![word]);
    }
}

/// The fields of the line of an event are its columns.
pub proof fn line_fields(e: RawEvent)
    ensures
        fields(line_text(e)) == columns_of(e),
{
    let a = signed_decimal(e.t as int);
    let b = decimal(e.x as nat);
    let c = decimal(e.y as nat);
    let d = sign_text(e.p);
    decimals_plain(e.t as int);
    decimals_plain(e.x as int);
    decimals_plain(e.y as int);
    assert(plain(d));
    let s = line_text(e);
    let p1 = (a.len() + 1) as int;
    let p2 = p1 + b.len() + 1;
    let p3 = p2 + c.len() + 1;
    assert(s.subrange(0, a.len() as int) =~= a);
    assert(s.subrange(p1, p1 + b.len()) =~= b);
    assert(s.subrange(p2, p2 + c.len()) =~= c);
    assert(s.subrange(p3, p3 + d.len()) =~= d);
    next_field(s, 0, a);
    next_field(s, p1, b);
    next_field(s, p2, c);
    next_field(s, p3, d);
    assert(fields(s) =~= columns_of(e));
}

proof fn line_trims(e: RawEvent)
    ensures
        trim(event_line(e)) == line_text(e),
{
    line_is_text(e);
    line_chars(e);
    let s = event_line(e);
    let t = line_text(e);
    assert(s[0] == t[0]);
    assert(line_char(t[0]));
    assert(trim_start(s) == s);
    assert(s.last() == '\n');
    assert(s.drop_last() =~= t);
    assert(!whitespace(t.last()));
    assert(trim_end(t) == t);
}

proof fn digits_run(s: Seq<char>, at: int)
    requires
        0 <= at <= s.len(),
        forall|i: int| at <= i < s.len() ==> is_digit(#[trigger] s[i]),
    ensures
        digits_end(s, at) == s.len(),
    decreases s.len() - at,
{
    if at < s.len() {
        digits_run(s, at + 1);
    }
}

proof fn plain_is_number(s: Seq<char>)
    requires
        plain(s),
    ensures
        is_number(s),
{
    if s[0] == '-' {
        let u = s.skip(1);
        assert(s.len() > 1) by {
            if s.len() == 1 {
                assert(s.last() == s[0]);
            }
        }
        assert forall|i: int| 0 <= i < u.len() implies is_digit(#[trigger] u[i]) by {
            assert(u[i] == s[i + 1]);
        }
        digits_run(u, 0);
        assert(is_decimal(u));
    } else {
        assert(is_digit(s[0]));
        digits_run(s, 0);
        assert(is_decimal(s));
    }
}

/// The columns of an event read as that event: its place and polarity, and its time as it was
/// written.
pub proof fn columns_read(e: RawEvent, row: TextRow, map: ColumnMap)
    requires
        map == (ColumnMap { t: 0, x: 1, y: 2, p: 3 }),
        row_holds(row, columns_of(e), map),
    ensures
        row_fault(columns_of(e), map, true) is None,
        row.t@ == signed_decimal(e.t as int),
        exact_event(row, e.t) == e,
{
    let fs = columns_of(e);
    decimals_plain(e.t as int);
    decimal_round_trip(e.x as nat);
    decimal_round_trip(e.y as nat);
    plain_is_number(signed_decimal(e.t as int));
    let d = sign_text(e.p);
    assert(digits_value(d.drop_last()) == 0) by {
        assert(d.drop_last() =~= Seq::<char>::empty());
    }
    assert(all_digits(d));
    assert(parsed(d, i32::MAX as int) == Some(
        if e.p {
            1int
        } else {
            0
        },
    ));
    assert(acceptable(FieldKind::Coordinate, fs[1])) by {
        assert(decimal(e.x as nat)[0] != '+');
        assert(parsed(decimal(e.x as nat), 0xFFFF) == Some(e.x as int));
    }
    assert(acceptable(FieldKind::Coordinate, fs[2])) by {
        assert(decimal(e.y as nat)[0] != '+');
        assert(parsed(decimal(e.y as nat), 0xFFFF) == Some(e.y as int));
    }
    assert(acceptable(FieldKind::Number, fs[0]));
    assert(acceptable(FieldKind::Sign, fs[3]));
    assert(parsed(row.x@, 0xFFFF) == Some(e.x as int));
    assert(parsed(row.y@, 0xFFFF) == Some(e.y as int));
}

proof fn lines_ascii(events: Seq<RawEvent>)
    ensures
        is_ascii_chars(event_lines(events)),
    decreases events.len(),
{
    if events.len() > 0 {
        lines_ascii(events.drop_last());
        line_ascii(events.last());
    }
}

proof fn line_ascii(e: RawEvent)
    ensures
        is_ascii_chars(event_line(e)),
{
    line_is_text(e);
    line_chars(e);
    let s = event_line(e);
    assert forall|i: int| 0 <= i < s.len() implies '\0' <= #[trigger] s[i] <= '\u{7f}' by {
        if i < line_text(e).len() {
            assert(s[i] == line_text(e)[i]);
        }
    }
}

/// Where the line of an event starts.
pub open spec fn line_start(events: Seq<RawEvent>, k: int) -> int {
    event_lines(events.take(k)).len() as int
}

proof fn lines_prefix(events: Seq<RawEvent>, k: int)
    requires
        0 <= k <= events.len(),
    ensures
        line_start(events, k) <= event_lines(events).len(),
        event_lines(events).take(line_start(events, k)) == event_lines(events.take(k)),
    decreases events.len() - k,
{
    if k < events.len() {
        let rest = events.drop_last();
        if k == events.len() - 1 {
            assert(events.take(k) =~= rest);
            assert(event_lines(events).take(line_start(events, k)) =~= event_lines(rest));
        } else {
            lines_prefix(rest, k);
            assert(rest.take(k) =~= events.take(k));
            assert(event_lines(events).take(line_start(events, k)) =~= event_lines(rest).take(
                line_start(events, k),
            ));
        }
    } else {
        assert(events.take(k) =~= events);
        assert(event_lines(events).take(line_start(events, k)) =~= event_lines(events));
    }
}

/// A line ends past its line feed.
pub proof fn line_ends_at(d: Seq<u8>, at: int, end: int)
    requires
        0 <= at < end <= d.len(),
        d[end - 1] == 0x0A,
        forall|i: int| at <= i < end - 1 ==> #[trigger] d[i] != 0x0A,
    ensures
        line_end(d, at) == end,
    decreases end - at,
{
    if at < end - 1 {
        line_ends_at(d, at + 1, end);
    }
}

proof fn line_bytes(events: Seq<RawEvent>, k: int)
    requires
        0 <= k < events.len(),
    ensures
        ({
            let d = encode_utf8(event_lines(events));
            let a = line_start(events, k);
            let b = line_start(events, k + 1);
            &&& 0 <= a < b <= d.len()
            &&& b == a + event_line(events[k]).len()
            &&& d.subrange(a, b) == encode_utf8(event_line(events[k]))
            &&& line_end(d, a) == b
        }),
{
    let all = event_lines(events);
    let d = encode_utf8(all);
    let e = events[k];
    let line = event_line(e);
    let a = line_start(events, k);
    let b = line_start(events, k + 1);
    lines_ascii(events);
    is_ascii_chars_encode_utf8(all);
    line_ascii(e);
    is_ascii_chars_encode_utf8(line);
    lines_prefix(events, k);
    lines_prefix(events, k + 1);
    assert(events.take(k + 1).drop_last() =~= events.take(k));
    assert(events.take(k + 1).last() == e);
    assert(event_lines(events.take(k + 1)) == event_lines(events.take(k)) + line);
    line_is_text(e);
    line_chars(e);
    assert forall|i: int| a <= i < b implies #[trigger] all[i] == line[i - a] by {
        assert(all.take(b)[i] == all[i]);
        assert((event_lines(events.take(k)) + line)[i] == line[i - a]);
    }
    assert forall|i: int| 0 <= i < line.len() implies d.subrange(a, b)[i] == encode_utf8(
        line,
    )[i] by {
        assert(d[a + i] == all[a + i] as u8);
        assert(all[a + i] == line[i]);
        assert(encode_utf8(line)[i] == line[i] as u8);
    }
    assert(d.subrange(a, b) =~= encode_utf8(line));
    assert(all[b - 1] == line[line.len() - 1]);
    assert(line[line.len() - 1] == '\n');
    assert(d[b - 1] == all[b - 1] as u8);
    assert forall|i: int| a <= i < b - 1 implies #[trigger] d[i] != 0x0A by {
        assert(d[i] == all[i] as u8);
        assert(all[i] == line[i - a]);
        assert(line[i - a] == line_text(e)[i - a]);
        assert(line_char(line_text(e)[i - a]));
    }
    line_ends_at(d, a, b);
}

/// What is written as text is what is read: the line after the first `k` gives the columns of the
/// event that was written there, and after the last line the text ends.
pub proof fn text_reads_back(events: Seq<RawEvent>, k: int)
    requires
        0 <= k <= events.len(),
    ensures
        ({
            let d = encode_utf8(event_lines(events));
            let found = next_line(d, line_start(events, k), k, false);
            if k == events.len() {
                found is End
            } else {
                &&& found == (NextLine::Data {
                    start: line_start(events, k),
                    end: line_start(events, k + 1),
                    number: k + 1,
                    text: line_text(events[k]),
                })
                &&& fields(line_text(events[k])) == columns_of(events[k])
            }
        }),
{
    let d = encode_utf8(event_lines(events));
    let a = line_start(events, k);
    if k == events.len() {
        assert(events.take(k) =~= events);
        lines_ascii(events);
        is_ascii_chars_encode_utf8(event_lines(events));
    } else {
        let e = events[k];
        let line = event_line(e);
        line_bytes(events, k);
        let b = line_start(events, k + 1);
        encode_utf8_valid_utf8(line);
        encode_utf8_decode_utf8(line);
        line_trims(e);
        line_chars(e);
        line_fields(e);
        assert(line_char(line_text(e)[0]));
    }
}

} // verus!
