//! Text recordings: one event per line.
//!
//! Numbers after a decimal point are read by the caller: a row comes out as the texts of its four
//! columns, known to be numbers, and goes on as integers and as the bit pattern of its time.

use vstd::prelude::*;
use vstd::slice::slice_subrange;
use vstd::string::*;
use vstd::utf8::{decode_utf8, valid_utf8};

use crate::chars::{
    chars_of, decimal, decimal_string, join2, join3, parse_i64, parse_u64, parsed, parsed_signed,
    signed_decimal, signed_decimal_string, string_of, trim, trimmed,
};
use crate::floats::{
    at_least, finite, fractional, greatest, is_finite, is_fractional, larger, least, reaches,
    smaller, INFINITY, NEG_INFINITY,
};
use crate::io::flatbuffer::utf8;
use crate::io::lines::{line_end, line_end_moves, quoted, quoted_text};
use crate::io::text_columns::{
    fields, is_number, reads_as_number, split_fields, views, ColumnMap, ColumnOrder, TimeUnit,
};
use crate::io::IoError;
use crate::stream::{
    kept, kept_push, on_sensor, part, within, within_push, EventStream, EventStreamBuilder,
    RawEvent, MICROSECOND_SCALE,
};

verus! {

/// How a text recording is read.
#[derive(Clone, Copy, Debug)]
pub struct TextOptions {
    pub width: usize,
    pub height: usize,
    pub time_unit: TimeUnit,
    /// Which field is which column.
    pub map: ColumnMap,
    /// Whether the first line that is neither blank nor a comment is a header.
    pub has_header: bool,
}

impl TextOptions {
    /// Seconds, in `t x y p` order, without a header.
    pub fn new(width: usize, height: usize) -> (options: Self)
        ensures
            options.width == width,
            options.height == height,
            options.time_unit == TimeUnit::Seconds,
            options.map == (ColumnMap { t: 0, x: 1, y: 2, p: 3 }),
            !options.has_header,
    {
        TextOptions {
            width,
            height,
            time_unit: TimeUnit::Seconds,
            map: ColumnMap::from_order(ColumnOrder::Txyp),
            has_header: false,
        }
    }
}

/// What a search for the next line with data finds.
pub ghost enum NextLine {
    End,
    /// A line that is not text.
    Broken { end: int, number: int },
    Data { start: int, end: int, number: int, text: Seq<char> },
}

/// The next line with data from `at` on, if `number` lines come before it. Blank lines and comments
/// are passed over, and the first data line too if a header is pending.
pub open spec fn next_line(d: Seq<u8>, at: int, number: int, pending: bool) -> NextLine
    decreases d.len() - at,
    via next_line_ends
{
    if at < 0 || at >= d.len() {
        NextLine::End
    } else {
        let end = line_end(d, at);
        let line = d.subrange(at, end);
        let text = trim(decode_utf8(line));
        if !valid_utf8(line) {
            NextLine::Broken { end, number: number + 1 }
        } else if text.len() == 0 || text[0] == '#' {
            next_line(d, end, number + 1, pending)
        } else if pending {
            next_line(d, end, number + 1, false)
        } else {
            NextLine::Data { start: at, end, number: number + 1, text }
        }
    }
}

#[via_fn]
proof fn next_line_ends(d: Seq<u8>, at: int, number: int, pending: bool) {
    if 0 <= at < d.len() {
        line_end_moves(d, at);
    }
}

/// What a column must be to be read.
#[derive(Clone, Copy, Debug, PartialEq, Eq, Structural)]
pub enum FieldKind {
    /// A coordinate: an integer of 16 bits.
    Coordinate,
    /// A signed integer of 32 bits.
    Sign,
    /// Any number.
    Number,
}

/// Whether a text is what a column must be.
pub open spec fn acceptable(kind: FieldKind, text: Seq<char>) -> bool {
    match kind {
        FieldKind::Coordinate => parsed(text, 0xFFFF) is Some,
        FieldKind::Sign => parsed_signed(text, i32::MIN as int, i32::MAX as int) is Some,
        FieldKind::Number => is_number(text),
    }
}

/// The complaint about a column, if there is one.
pub open spec fn field_fault(
    fs: Seq<Seq<char>>,
    index: int,
    name: Seq<char>,
    kind: FieldKind,
) -> Option<Seq<char>> {
    if index >= fs.len() {
        Some("missing "@ + name)
    } else if !acceptable(kind, fs[index]) {
        Some("invalid "@ + name + ": "@ + quoted_text(fs[index]))
    } else {
        None
    }
}

/// The complaint about a row, if there is one: that about the first of x, y, t and p.
pub open spec fn row_fault(fs: Seq<Seq<char>>, map: ColumnMap, exact: bool) -> Option<Seq<char>> {
    let coordinate = if exact {
        FieldKind::Coordinate
    } else {
        FieldKind::Number
    };
    let sign = if exact {
        FieldKind::Sign
    } else {
        FieldKind::Number
    };
    if field_fault(fs, map.x as int, "x"@, coordinate) is Some {
        field_fault(fs, map.x as int, "x"@, coordinate)
    } else if field_fault(fs, map.y as int, "y"@, coordinate) is Some {
        field_fault(fs, map.y as int, "y"@, coordinate)
    } else if field_fault(fs, map.t as int, "t"@, FieldKind::Number) is Some {
        field_fault(fs, map.t as int, "t"@, FieldKind::Number)
    } else {
        field_fault(fs, map.p as int, "p"@, sign)
    }
}

/// The texts of the four columns of a row.
#[derive(Debug)]
pub struct TextRow {
    /// Where the line of the row starts.
    pub offset: usize,
    /// The number of the line, from one.
    pub line: usize,
    pub x: String,
    pub y: String,
    pub t: String,
    pub p: String,
}

/// A row holds the fields of a line.
pub open spec fn row_holds(row: TextRow, fs: Seq<Seq<char>>, map: ColumnMap) -> bool {
    &&& row.x@ == fs[map.x as int]
    &&& row.y@ == fs[map.y as int]
    &&& row.t@ == fs[map.t as int]
    &&& row.p@ == fs[map.p as int]
}

fn is_acceptable(kind: FieldKind, text: &[char]) -> (yes: bool)
    ensures
        yes == acceptable(kind, text@),
{
    match kind {
        FieldKind::Coordinate => parse_u64(text, 0xFFFF).is_some(),
        FieldKind::Sign => parse_i64(text, i32::MIN as i64, i32::MAX as i64).is_some(),
        FieldKind::Number => reads_as_number(text),
    }
}

fn check_field(fs: &Vec<Vec<char>>, index: usize, name: &str, kind: FieldKind, line: usize) -> (
    field: Result<String, IoError>)
    ensures
        match field {
            Ok(text) => field_fault(views(fs@), index as int, name@, kind) is None && text@
                == views(fs@)[index as int],
            Err(IoError::Parse { line: l, message }) => l == line && field_fault(
                views(fs@),
                index as int,
                name@,
                kind,
            ) == Some(message@),
            Err(_) => false,
        },
{
    if index >= fs.len() {
        return Err(IoError::Parse { line, message: join2("missing ", name) });
    }
    assert(views(fs@)[index as int] == fs@[index as int]@);
    let text = string_of(&fs[index]);
    if !is_acceptable(kind, &fs[index]) {
        let form = quoted(text.as_str());
        let start = join3("invalid ", name, ": ");
        return Err(IoError::Parse { line, message: join2(start.as_str(), form.as_str()) });
    }
    Ok(text)
}

/// Reads the columns of a row. Exact rows have integer coordinates and polarities; the columns of
/// others may be any numbers.
pub fn parse_row(text: &[char], map: ColumnMap, offset: usize, line: usize, exact: bool) -> (row:
    Result<TextRow, IoError>)
    ensures
        match row {
            Ok(r) => {
                &&& row_fault(fields(text@), map, exact) is None
                &&& row_holds(r, fields(text@), map)
                &&& r.offset == offset
                &&& r.line == line
            },
            Err(IoError::Parse { line: l, message }) => l == line && row_fault(
                fields(text@),
                map,
                exact,
            ) == Some(message@),
            Err(_) => false,
        },
{
    let fs = split_fields(text);
    let (coordinate, sign) = if exact {
        (FieldKind::Coordinate, FieldKind::Sign)
    } else {
        (FieldKind::Number, FieldKind::Number)
    };
    let x = match check_field(&fs, map.x, "x", coordinate, line) {
        Ok(x) => x,
        Err(error) => {
            return Err(error);
        },
    };
    let y = match check_field(&fs, map.y, "y", coordinate, line) {
        Ok(y) => y,
        Err(error) => {
            return Err(error);
        },
    };
    let t = match check_field(&fs, map.t, "t", FieldKind::Number, line) {
        Ok(t) => t,
        Err(error) => {
            return Err(error);
        },
    };
    let p = match check_field(&fs, map.p, "p", sign, line) {
        Ok(p) => p,
        Err(error) => {
            return Err(error);
        },
    };
    Ok(TextRow { offset, line, x, y, t, p })
}

/// The event of an exact row, given its time.
pub open spec fn exact_event(row: TextRow, t: i64) -> RawEvent {
    RawEvent {
        x: parsed(row.x@, 0xFFFF)->0 as u16,
        y: parsed(row.y@, 0xFFFF)->0 as u16,
        t,
        p: parsed_signed(row.p@, i32::MIN as int, i32::MAX as int)->0 > 0,
    }
}

impl TextRow {
    /// The event of an exact row, given its time; `None` if a column is not an integer.
    pub fn event(&self, t: i64) -> (event: Option<RawEvent>)
        ensures
            match event {
                Some(e) => {
                    &&& acceptable(FieldKind::Coordinate, self.x@)
                    &&& acceptable(FieldKind::Coordinate, self.y@)
                    &&& acceptable(FieldKind::Sign, self.p@)
                    &&& e == exact_event(*self, t)
                },
                None => !(acceptable(FieldKind::Coordinate, self.x@) && acceptable(
                    FieldKind::Coordinate,
                    self.y@,
                ) && acceptable(FieldKind::Sign, self.p@)),
            },
    {
        let x = parse_u64(&chars_of(self.x.as_str()), 0xFFFF);
        let y = parse_u64(&chars_of(self.y.as_str()), 0xFFFF);
        let p = parse_i64(&chars_of(self.p.as_str()), i32::MIN as i64, i32::MAX as i64);
        match (x, y, p) {
            (Some(x), Some(y), Some(p)) => {
                Some(RawEvent { x: x as u16, y: y as u16, t, p: p > 0 })
            },
            _ => None,
        }
    }
}

/// Reads the rows of a text recording one after the other.
pub struct TextReader<'a> {
    data: &'a [u8],
    options: TextOptions,
    at: usize,
    line: usize,
    header_pending: bool,
}

impl<'a> TextReader<'a> {
    pub closed spec fn data(&self) -> Seq<u8> {
        self.data@
    }

    pub closed spec fn options(&self) -> TextOptions {
        self.options
    }

    /// Where the next line starts.
    pub closed spec fn at(&self) -> int {
        self.at as int
    }

    /// How many lines have been read.
    pub closed spec fn lines(&self) -> int {
        self.line as int
    }

    /// Whether the next data line is a header.
    pub closed spec fn pending(&self) -> bool {
        self.header_pending
    }

    /// No more lines have been read than there are bytes before the next.
    pub closed spec fn wf(&self) -> bool {
        self.line <= self.at <= self.data@.len()
    }

    /// A reader at the start of a recording.
    pub fn new(data: &'a [u8], options: TextOptions) -> (reader: Result<Self, IoError>)
        ensures
            match reader {
                Ok(r) => {
                    &&& options.width > 0
                    &&& options.height > 0
                    &&& r.wf()
                    &&& r.data() == data@
                    &&& r.options() == options
                    &&& r.at() == 0
                    &&& r.lines() == 0
                    &&& r.pending() == options.has_header
                },
                Err(e) => e is InvalidSensorSize && (options.width == 0 || options.height == 0),
            },
    {
        if options.width == 0 || options.height == 0 {
            return Err(IoError::InvalidSensorSize);
        }
        Ok(
            TextReader {
                data,
                options,
                at: 0,
                line: 0,
                header_pending: options.has_header,
            },
        )
    }

    /// The next line with data: where it starts, and its text without white space at its ends.
    pub fn next_line(&mut self) -> (found: Result<Option<(usize, Vec<char>)>, IoError>)
        requires
            old(self).wf(),
        ensures
            final(self).wf(),
            final(self).data() == old(self).data(),
            final(self).options() == old(self).options(),
            match next_line(old(self).data(), old(self).at(), old(self).lines(), old(self).pending()) {
                NextLine::End => found matches Ok(None),
                NextLine::Broken { end, number } => {
                    &&& found matches Err(IoError::Io(m)) && m@
                        == "stream did not contain valid UTF-8"@
                    &&& final(self).at() == end
                    &&& final(self).lines() == number
                },
                NextLine::Data { start, end, number, text } => {
                    &&& found matches Ok(Some((s, t))) && s == start && t@ == text
                    &&& final(self).at() == end
                    &&& final(self).lines() == number
                    &&& !final(self).pending()
                },
            },
    {
        let n: usize = self.data.len();
        let ghost d = self.data();
        let ghost goal = next_line(d, self.at(), self.lines(), self.pending());
        while self.at < n
            invariant
                n == d.len(),
                d == self.data(),
                d == old(self).data(),
                self.options() == old(self).options(),
                self.wf(),
                goal == next_line(d, self.at(), self.lines(), self.pending()),
                goal == next_line(
                    old(self).data(),
                    old(self).at(),
                    old(self).lines(),
                    old(self).pending(),
                ),
            decreases n - self.at,
        {
            let start = self.at;
            proof {
                line_end_moves(d, start as int);
            }
            let mut end: usize = start;
            while end < n && self.data[end] != 0x0A
                invariant
                    start <= end <= n,
                    n == d.len(),
                    d == self.data@,
                    line_end(d, start as int) == line_end(d, end as int),
                decreases n - end,
            {
                end += 1;
            }
            if end < n {
                end += 1;
            }
            let line = slice_subrange(self.data, start, end);
            self.at = end;
            self.line += 1;
            let text = match utf8(line) {
                Some(text) => text,
                None => {
                    return Err(IoError::Io("stream did not contain valid UTF-8".to_owned()));
                },
            };
            proof {
                vstd::utf8::encode_utf8_decode_utf8(text@);
            }
            let chars = chars_of(text);
            let inner = trimmed(&chars);
            if inner.len() == 0 || inner[0] == '#' {
                continue;
            }
            if self.header_pending {
                self.header_pending = false;
                continue;
            }
            return Ok(Some((start, vstd::slice::slice_to_vec(inner))));
        }
        Ok(None)
    }

    /// The next row. Exact rows have integer coordinates and polarities.
    pub fn next_row(&mut self, exact: bool) -> (row: Result<Option<TextRow>, IoError>)
        requires
            old(self).wf(),
        ensures
            final(self).wf(),
            final(self).data() == old(self).data(),
            final(self).options() == old(self).options(),
            match next_line(old(self).data(), old(self).at(), old(self).lines(), old(self).pending()) {
                NextLine::End => row matches Ok(None),
                NextLine::Broken { end, number } => row matches Err(IoError::Io(m)) && m@
                    == "stream did not contain valid UTF-8"@,
                NextLine::Data { start, end, number, text } => {
                    &&& final(self).at() == end
                    &&& final(self).lines() == number
                    &&& !final(self).pending()
                    &&& match row_fault(fields(text), old(self).options().map, exact) {
                        None => row matches Ok(Some(r)) && row_holds(
                            r,
                            fields(text),
                            old(self).options().map,
                        ) && r.offset == start && r.line == number,
                        Some(m) => row matches Err(IoError::Parse { line, message }) && line
                            == number && message@ == m,
                    }
                },
            },
    {
        match self.next_line() {
            Ok(Some((start, text))) => {
                match parse_row(&text, self.options.map, start, self.line, exact) {
                    Ok(row) => Ok(Some(row)),
                    Err(error) => Err(error),
                }
            },
            Ok(None) => Ok(None),
            Err(error) => Err(error),
        }
    }
}

/// The first line with data, on which the layout of a recording is decided.
pub fn peek_first_line(data: &[u8]) -> (line: Result<Option<Vec<char>>, IoError>)
    ensures
        match next_line(data@, 0, 0, false) {
            NextLine::End => line matches Ok(None),
            NextLine::Broken { end, number } => line matches Err(IoError::Io(m)) && m@
                == "stream did not contain valid UTF-8"@,
            NextLine::Data { start, end, number, text } => line matches Ok(Some(l)) && l@ == text,
        },
{
    let mut reader = TextReader {
        data,
        options: TextOptions::new(1, 1),
        at: 0,
        line: 0,
        header_pending: false,
    };
    match reader.next_line() {
        Ok(Some((_, text))) => Ok(Some(text)),
        Ok(None) => Ok(None),
        Err(error) => Err(error),
    }
}

/// The line of an event: time, column, row and polarity.
pub open spec fn event_line(e: RawEvent) -> Seq<char> {
    signed_decimal(e.t as int) + " "@ + decimal(e.x as nat) + " "@ + decimal(e.y as nat) + " "@ + (
    if e.p {
        "1\n"@
    } else {
        "0\n"@
    })
}

/// The lines of events.
pub open spec fn event_lines(events: Seq<RawEvent>) -> Seq<char>
    decreases events.len(),
{
    if events.len() == 0 {
        Seq::empty()
    } else {
        event_lines(events.drop_last()) + event_line(events.last())
    }
}

/// Writes a stream as lines of `t x y p`.
pub fn write_text_stream(stream: &EventStream) -> (text: String)
    requires
        stream.wf(),
    ensures
        text@ == event_lines(stream.events()),
{
    let mut text = String::new();
    let n: usize = stream.len();
    let ghost events = stream.events();
    assert(events.take(0) =~= Seq::<RawEvent>::empty());
    for i in 0..n
        invariant
            stream.wf(),
            events == stream.events(),
            n == events.len(),
            text@ == event_lines(events.take(i as int)),
    {
        let e = stream.get(i);
        let ghost before = text@;
        text.append(signed_decimal_string(e.t).as_str());
        text.append(" ");
        text.append(decimal_string(e.x as u64).as_str());
        text.append(" ");
        text.append(decimal_string(e.y as u64).as_str());
        text.append(" ");
        if e.p {
            text.append("1\n");
        } else {
            text.append("0\n");
        }
        proof {
            assert(events.take(i + 1).drop_last() =~= events.take(i as int));
            assert(text@ =~= before + event_line(e));
        }
    }
    assert(events.take(n as int) =~= events);
    text
}

/// A parsed row: coordinates, the bit pattern of the time, and the polarity.
#[derive(Clone, Copy, Debug, PartialEq, Eq, Structural)]
pub struct RawRow {
    pub x: u16,
    pub y: u16,
    pub t: u64,
    pub p: bool,
}

/// The largest of some coordinates.
pub open spec fn reach(rows: Seq<RawRow>) -> (int, int)
    decreases rows.len(),
{
    if rows.len() == 0 {
        (-1, -1)
    } else {
        let (x, y) = reach(rows.drop_last());
        let r = rows.last();
        (
            if r.x > x {
                r.x as int
            } else {
                x
            },
            if r.y > y {
                r.y as int
            } else {
                y
            },
        )
    }
}

/// The smallest sensor that holds every row, one by one if there is none.
pub fn infer_sensor_size(rows: &[RawRow]) -> (size: (usize, usize))
    ensures
        rows@.len() == 0 ==> size == (1usize, 1usize),
        rows@.len() > 0 ==> size.0 == reach(rows@).0 + 1 && size.1 == reach(rows@).1 + 1,
{
    let n: usize = rows.len();
    if n == 0 {
        return (1, 1);
    }
    let mut x: u16 = 0;
    let mut y: u16 = 0;
    assert(rows@.take(0) =~= Seq::<RawRow>::empty());
    for i in 0..n
        invariant
            n == rows@.len(),
            n > 0,
            i == 0 ==> x == 0 && y == 0,
            i > 0 ==> (x as int, y as int) == reach(rows@.take(i as int)),
    {
        assert(rows@.take(i + 1).drop_last() =~= rows@.take(i as int));
        if i == 0 {
            assert(reach(rows@.take(0)) == (-1int, -1int));
        }
        let r = rows[i];
        if r.x > x {
            x = r.x;
        }
        if r.y > y {
            y = r.y;
        }
    }
    assert(rows@.take(n as int) =~= rows@);
    (x as usize + 1, y as usize + 1)
}

/// Events between the entries of an index.
pub const TEXT_INDEX_STRIDE: usize = 4096;

/// What a scan of rows has found so far.
pub ghost struct Scan {
    pub kept: int,
    /// Where every so many rows a line starts, how many rows came before, and its time.
    pub samples: Seq<(u64, usize, u64)>,
    pub max_x: u16,
    pub max_y: u16,
    pub min_t: u64,
    pub max_t: u64,
    pub sorted: bool,
    pub previous: u64,
    /// Of all rows, on the sensor or not: the first and the last time, and whether one has a
    /// fraction.
    pub all_min: u64,
    pub all_max: u64,
    pub fractional: bool,
}

pub open spec fn no_scan() -> Scan {
    Scan {
        kept: 0,
        samples: Seq::empty(),
        max_x: 0,
        max_y: 0,
        min_t: INFINITY,
        max_t: NEG_INFINITY,
        sorted: true,
        previous: NEG_INFINITY,
        all_min: INFINITY,
        all_max: NEG_INFINITY,
        fractional: false,
    }
}

/// Whether a row lies on a sensor, if one was asked for.
pub open spec fn row_kept(sensor: Option<(usize, usize)>, row: RawRow) -> bool {
    match sensor {
        Some((w, h)) => row.x < w && row.y < h,
        None => true,
    }
}

/// What a scan has found after one more row. Every row tells of the unit of the times; the rest is
/// about those on the sensor.
pub open spec fn scan_step(
    s: Scan,
    sensor: Option<(usize, usize)>,
    line_start: u64,
    row: RawRow,
) -> Scan {
    let seen = Scan {
        all_min: smaller(s.all_min, row.t),
        all_max: larger(s.all_max, row.t),
        fractional: s.fractional || is_fractional(row.t),
        ..s
    };
    if !row_kept(sensor, row) {
        seen
    } else {
        Scan {
            kept: s.kept + 1,
            samples: if s.kept % 4096 == 0 {
                s.samples.push((line_start, s.kept as usize, row.t))
            } else {
                s.samples
            },
            max_x: if row.x > s.max_x {
                row.x
            } else {
                s.max_x
            },
            max_y: if row.y > s.max_y {
                row.y
            } else {
                s.max_y
            },
            min_t: smaller(s.min_t, row.t),
            max_t: larger(s.max_t, row.t),
            sorted: s.sorted && at_least(row.t, s.previous),
            previous: row.t,
            ..seen
        }
    }
}

/// What a scan finds in rows.
pub open spec fn scan_rows(
    sensor: Option<(usize, usize)>,
    starts: Seq<u64>,
    rows: Seq<RawRow>,
) -> Scan
    decreases rows.len(),
{
    if rows.len() == 0 {
        no_scan()
    } else {
        scan_step(
            scan_rows(sensor, starts.drop_last(), rows.drop_last()),
            sensor,
            starts.last(),
            rows.last(),
        )
    }
}

/// The rows on the sensor.
pub open spec fn kept_rows(sensor: Option<(usize, usize)>, rows: Seq<RawRow>) -> Seq<RawRow>
    decreases rows.len(),
{
    if rows.len() == 0 {
        Seq::empty()
    } else if row_kept(sensor, rows.last()) {
        kept_rows(sensor, rows.drop_last()).push(rows.last())
    } else {
        kept_rows(sensor, rows.drop_last())
    }
}

proof fn scan_counts(sensor: Option<(usize, usize)>, starts: Seq<u64>, rows: Seq<RawRow>)
    requires
        starts.len() == rows.len(),
    ensures
        scan_rows(sensor, starts, rows).kept == kept_rows(sensor, rows).len(),
        kept_rows(sensor, rows).len() <= rows.len(),
        scan_rows(sensor, starts, rows).samples.len() == (kept_rows(sensor, rows).len() + 4095) / 4096,
    decreases rows.len(),
{
    if rows.len() > 0 {
        scan_counts(sensor, starts.drop_last(), rows.drop_last());
    }
}

proof fn scan_samples(
    sensor: Option<(usize, usize)>,
    starts: Seq<u64>,
    rows: Seq<RawRow>,
    k: int,
)
    requires
        starts.len() == rows.len(),
        rows.len() <= usize::MAX,
        0 <= k < scan_rows(sensor, starts, rows).samples.len(),
    ensures
        scan_rows(sensor, starts, rows).samples[k].1 == 4096 * k,
        4096 * k < kept_rows(sensor, rows).len(),
        scan_rows(sensor, starts, rows).samples[k].2 == kept_rows(sensor, rows)[4096 * k].t,
    decreases rows.len(),
{
    if rows.len() > 0 {
        let b = starts.drop_last();
        let r = rows.drop_last();
        scan_counts(sensor, b, r);
        if k < scan_rows(sensor, b, r).samples.len() {
            scan_samples(sensor, b, r, k);
        }
    }
}

proof fn scan_order(sensor: Option<(usize, usize)>, starts: Seq<u64>, rows: Seq<RawRow>)
    requires
        starts.len() == rows.len(),
    ensures
        kept_rows(sensor, rows).len() > 0 ==> scan_rows(sensor, starts, rows).previous == kept_rows(
            sensor,
            rows,
        ).last().t,
        scan_rows(sensor, starts, rows).sorted ==> forall|i: int|
            0 < i < kept_rows(sensor, rows).len() ==> at_least(
                (#[trigger] kept_rows(sensor, rows)[i]).t,
                kept_rows(sensor, rows)[i - 1].t,
            ),
    decreases rows.len(),
{
    if rows.len() > 0 {
        let b = starts.drop_last();
        let r = rows.drop_last();
        scan_order(sensor, b, r);
        let before = kept_rows(sensor, r);
        let kept = kept_rows(sensor, rows);
        if scan_rows(sensor, starts, rows).sorted && row_kept(sensor, rows.last()) {
            assert(kept == before.push(rows.last()));
            assert forall|i: int| 0 < i < kept.len() implies at_least(
                (#[trigger] kept[i]).t,
                kept[i - 1].t,
            ) by {
                if i < before.len() {
                    assert(kept[i] == before[i]);
                    assert(kept[i - 1] == before[i - 1]);
                } else {
                    assert(kept[i - 1] == before.last());
                }
            }
        }
    }
}

/// What a scan finds: it counts the rows on the sensor, samples every so many of them, and if it
/// calls them sorted, no time is before the one that precedes it.
pub proof fn scan_meaning(sensor: Option<(usize, usize)>, starts: Seq<u64>, rows: Seq<RawRow>)
    requires
        starts.len() == rows.len(),
        rows.len() <= usize::MAX,
    ensures
        ({
            let s = scan_rows(sensor, starts, rows);
            let kept = kept_rows(sensor, rows);
            &&& s.kept == kept.len()
            &&& s.samples.len() == (kept.len() + 4095) / 4096
            &&& forall|k: int|
                0 <= k < s.samples.len() ==> (#[trigger] s.samples[k]).1 == 4096 * k && s.samples[k].2
                    == kept[4096 * k].t
            &&& s.sorted ==> forall|i: int|
                0 < i < kept.len() ==> at_least((#[trigger] kept[i]).t, kept[i - 1].t)
        }),
{
    scan_counts(sensor, starts, rows);
    scan_order(sensor, starts, rows);
    let s = scan_rows(sensor, starts, rows);
    let kept = kept_rows(sensor, rows);
    assert forall|k: int| 0 <= k < s.samples.len() implies (#[trigger] s.samples[k]).1 == 4096 * k
        && s.samples[k].2 == kept[4096 * k].t by {
        scan_samples(sensor, starts, rows, k);
    }
}

/// Scans the rows of a recording to index it.
#[derive(Debug)]
pub struct TextScan {
    sensor: Option<(usize, usize)>,
    kept: usize,
    samples: Vec<(u64, usize, u64)>,
    max_x: u16,
    max_y: u16,
    min_t: u64,
    max_t: u64,
    sorted: bool,
    previous: u64,
    all_min: u64,
    all_max: u64,
    fractional: bool,
}

/// How the unit of the times is found.
#[derive(Clone, Copy, Debug, PartialEq, Eq, Structural)]
pub enum UnitGuess {
    Seconds,
    /// From the span between two times, given by their bit patterns.
    Span { min: u64, max: u64 },
}

/// How the unit of the times of scanned rows is found: fractions mean seconds, and so does the lack
/// of any time.
pub open spec fn guess_of(s: Scan) -> UnitGuess {
    if s.fractional || !is_finite(s.all_min) {
        UnitGuess::Seconds
    } else {
        UnitGuess::Span { min: s.all_min, max: s.all_max }
    }
}

/// How the unit of the times of rows is found.
pub fn infer_time_unit(rows: &[RawRow]) -> (guess: UnitGuess)
    ensures
        guess == guess_of(scan_rows(None, Seq::new(rows@.len(), |i: int| 0u64), rows@)),
{
    let n: usize = rows.len();
    let mut scan = TextScan::new(None);
    let ghost starts = Seq::new(n as nat, |i: int| 0u64);
    assert(rows@.take(0) =~= Seq::<RawRow>::empty());
    for i in 0..n
        invariant
            n == rows@.len(),
            starts == Seq::new(n as nat, |i: int| 0u64),
            scan.asked() is None,
            scan.state().kept <= i,
            scan.state() == scan_rows(None, starts.take(i as int), rows@.take(i as int)),
    {
        scan.add(0, &rows[i]);
        proof {
            assert(rows@.take(i + 1).drop_last() =~= rows@.take(i as int));
            assert(starts.take(i + 1).drop_last() =~= starts.take(i as int));
        }
    }
    assert(rows@.take(n as int) =~= rows@);
    assert(starts.take(n as int) =~= starts);
    scan.unit_guess()
}

impl TextScan {
    pub closed spec fn state(&self) -> Scan {
        Scan {
            kept: self.kept as int,
            samples: self.samples@,
            max_x: self.max_x,
            max_y: self.max_y,
            min_t: self.min_t,
            max_t: self.max_t,
            sorted: self.sorted,
            previous: self.previous,
            all_min: self.all_min,
            all_max: self.all_max,
            fractional: self.fractional,
        }
    }

    /// The sensor asked for.
    pub closed spec fn asked(&self) -> Option<(usize, usize)> {
        self.sensor
    }

    pub fn new(sensor: Option<(usize, usize)>) -> (scan: Self)
        ensures
            scan.state() == no_scan(),
            scan.asked() == sensor,
    {
        let scan = TextScan {
            sensor,
            kept: 0,
            samples: Vec::new(),
            max_x: 0,
            max_y: 0,
            min_t: INFINITY,
            max_t: NEG_INFINITY,
            sorted: true,
            previous: NEG_INFINITY,
            all_min: INFINITY,
            all_max: NEG_INFINITY,
            fractional: false,
        };
        assert(scan.samples@ =~= no_scan().samples);
        scan
    }

    /// Adds the row of the line that starts at `line_start`.
    pub fn add(&mut self, line_start: u64, row: &RawRow)
        requires
            old(self).state().kept < usize::MAX,
        ensures
            final(self).state() == scan_step(
                old(self).state(),
                old(self).asked(),
                line_start,
                *row,
            ),
            final(self).asked() == old(self).asked(),
    {
        self.all_min = least(self.all_min, row.t);
        self.all_max = greatest(self.all_max, row.t);
        self.fractional = self.fractional || fractional(row.t);
        if let Some((width, height)) = self.sensor {
            if row.x as usize >= width || row.y as usize >= height {
                return;
            }
        }
        if self.kept % TEXT_INDEX_STRIDE == 0 {
            self.samples.push((line_start, self.kept, row.t));
        }
        if row.x > self.max_x {
            self.max_x = row.x;
        }
        if row.y > self.max_y {
            self.max_y = row.y;
        }
        self.min_t = least(self.min_t, row.t);
        self.max_t = greatest(self.max_t, row.t);
        self.sorted = self.sorted && reaches(row.t, self.previous);
        self.previous = row.t;
        self.kept += 1;
    }

    /// The sensor size, once all rows have been added.
    pub fn sensor_size(&self) -> (size: Result<(usize, usize), IoError>)
        ensures
            ({
                let size_of = match self.asked() {
                    Some(size) => size,
                    None => (
                        (self.state().max_x + 1) as usize,
                        (self.state().max_y + 1) as usize,
                    ),
                };
                match size {
                    Ok(s) => s == size_of && s.0 > 0 && s.1 > 0 && self.state().sorted,
                    Err(IoError::InvalidSensorSize) => size_of.0 == 0 || size_of.1 == 0,
                    Err(IoError::Format(m)) => size_of.0 > 0 && size_of.1 > 0
                        && !self.state().sorted && m@
                        == "text timestamps are not sorted; in-place slicing requires time-ordered events"@,
                    Err(_) => false,
                }
            }),
    {
        let (width, height) = match self.sensor {
            Some(size) => size,
            None => (self.max_x as usize + 1, self.max_y as usize + 1),
        };
        if width == 0 || height == 0 {
            return Err(IoError::InvalidSensorSize);
        }
        if !self.sorted {
            return Err(
                IoError::Format(
                    "text timestamps are not sorted; in-place slicing requires time-ordered events".to_owned(),
                ),
            );
        }
        Ok((width, height))
    }

    /// How the unit of the times is found, if none is given.
    pub fn unit_guess(&self) -> (guess: UnitGuess)
        ensures
            guess == guess_of(self.state()),
    {
        if self.fractional || !finite(self.all_min) {
            UnitGuess::Seconds
        } else {
            UnitGuess::Span { min: self.all_min, max: self.all_max }
        }
    }

    /// The times of the sampled rows, as bit patterns.
    pub fn sample_times(&self) -> (times: Vec<u64>)
        ensures
            times@ == Seq::new(self.state().samples.len(), |i: int| self.state().samples[i].2),
    {
        let n: usize = self.samples.len();
        let mut times: Vec<u64> = Vec::with_capacity(n);
        for i in 0..n
            invariant
                n == self.samples@.len(),
                times@.len() == i,
                forall|j: int| 0 <= j < i ==> #[trigger] times@[j] == self.samples@[j].2,
        {
            times.push(self.samples[i].2);
        }
        assert(times@ =~= Seq::new(
            self.state().samples.len(),
            |i: int| self.state().samples[i].2,
        ));
        times
    }

    /// The bit patterns of the first and last time; `None` if there are no rows.
    pub fn extent(&self) -> (extent: Option<(u64, u64)>)
        ensures
            extent == if self.state().kept == 0 {
                None
            } else {
                Some((self.state().min_t, self.state().max_t))
            },
    {
        if self.kept == 0 {
            None
        } else {
            Some((self.min_t, self.max_t))
        }
    }

    /// The source over the scanned rows, given the sampled times and the extent in microseconds.
    pub fn into_source(
        self,
        map: ColumnMap,
        time_unit: TimeUnit,
        sensor: (usize, usize),
        times: &[i64],
        span: (i64, i64),
    ) -> (source: TextSliceSource)
        requires
            times@.len() == self.state().samples.len(),
            sensor.0 > 0,
            sensor.1 > 0,
        ensures
            source.map() == map,
            source.unit() == time_unit,
            source.width() == sensor.0,
            source.height() == sensor.1,
            source.event_count() == self.state().kept,
            source.span() == span,
            source.entries() == Seq::new(
                times@.len(),
                |i: int|
                    TextIndexEntry {
                        offset: self.state().samples[i].0,
                        count: self.state().samples[i].1,
                        t_us: times@[i],
                    },
            ),
    {
        let n: usize = self.samples.len();
        let mut index: Vec<TextIndexEntry> = Vec::with_capacity(n);
        for i in 0..n
            invariant
                n == self.samples@.len(),
                n == times@.len(),
                index@.len() == i,
                forall|j: int|
                    0 <= j < i ==> #[trigger] index@[j] == (TextIndexEntry {
                        offset: self.samples@[j].0,
                        count: self.samples@[j].1,
                        t_us: times@[j],
                    }),
        {
            let (offset, count, _) = self.samples[i];
            index.push(TextIndexEntry { offset, count, t_us: times[i] });
        }
        let source = TextSliceSource {
            map,
            time_unit,
            sensor,
            total: self.kept,
            span_us: span,
            index,
        };
        assert(source.entries() =~= Seq::new(
            times@.len(),
            |i: int|
                TextIndexEntry {
                    offset: self.state().samples[i].0,
                    count: self.state().samples[i].1,
                    t_us: times@[i],
                },
        ));
        source
    }
}

/// An entry of the index over a text recording.
#[derive(Clone, Copy, Debug, PartialEq, Eq, Structural)]
pub struct TextIndexEntry {
    pub offset: u64,
    pub count: usize,
    pub t_us: i64,
}

/// An indexed text recording.
#[derive(Debug)]
pub struct TextSliceSource {
    map: ColumnMap,
    time_unit: TimeUnit,
    sensor: (usize, usize),
    total: usize,
    span_us: (i64, i64),
    index: Vec<TextIndexEntry>,
}

/// How many entries from `k` on have at most `count` rows before them.
pub open spec fn entries_until(entries: Seq<TextIndexEntry>, count: int, k: int) -> int
    decreases entries.len() - k,
{
    if k >= entries.len() {
        entries.len() as int
    } else if entries[k].count > count {
        k
    } else {
        entries_until(entries, count, k + 1)
    }
}

/// How many entries from `k` on are before a time.
pub open spec fn entries_before(entries: Seq<TextIndexEntry>, t: int, k: int) -> int
    decreases entries.len() - k,
{
    if k >= entries.len() {
        entries.len() as int
    } else if entries[k].t_us >= t {
        k
    } else {
        entries_before(entries, t, k + 1)
    }
}

/// Collects the events of an index slice from the rows of a recording, as they are read.
pub struct IndexCollector {
    builder: EventStreamBuilder,
    index: usize,
    first: usize,
    i0: usize,
    i1: usize,
    seen: Ghost<Seq<RawEvent>>,
}

impl IndexCollector {
    /// The events that have been given.
    pub closed spec fn seen(&self) -> Seq<RawEvent> {
        self.seen@
    }

    pub closed spec fn width(&self) -> int {
        self.builder.width()
    }

    pub closed spec fn height(&self) -> int {
        self.builder.height()
    }

    /// The number of the first event that was given.
    pub closed spec fn first(&self) -> int {
        self.first as int
    }

    /// The events that are wanted.
    pub closed spec fn wanted(&self) -> (int, int) {
        (self.i0 as int, self.i1 as int)
    }

    /// The number of the next event on the sensor.
    pub closed spec fn next(&self) -> int {
        self.index as int
    }

    pub closed spec fn wf(&self) -> bool {
        let kept = kept(self.seen@, self.builder.width(), self.builder.height());
        &&& self.builder.wf()
        &&& self.builder.scale() == MICROSECOND_SCALE
        &&& self.i0 <= self.i1
        &&& self.index == self.first + kept.len()
        &&& self.builder.events() == part(kept, self.i0 - self.first, self.i1 - self.first)
    }

    /// Whether another event is needed.
    pub fn wants_more(&self) -> (yes: bool)
        ensures
            yes == (self.next() < self.wanted().1),
    {
        self.index < self.i1
    }

    /// Takes the next event.
    pub fn push(&mut self, e: RawEvent)
        requires
            old(self).wf(),
            old(self).next() < old(self).wanted().1,
        ensures
            final(self).wf(),
            final(self).seen() == old(self).seen().push(e),
            final(self).width() == old(self).width(),
            final(self).height() == old(self).height(),
            final(self).first() == old(self).first(),
            final(self).wanted() == old(self).wanted(),
            final(self).next() == old(self).next() + if on_sensor(
                e,
                old(self).width(),
                old(self).height(),
            ) {
                1int
            } else {
                0
            },
    {
        let ghost w = self.builder.width();
        let ghost h = self.builder.height();
        let ghost before = kept(self.seen@, w, h);
        let ghost lo = self.i0 - self.first;
        let ghost hi = self.i1 - self.first;
        proof {
            kept_push(self.seen@, e, w, h);
            assert(part(before.push(e), lo, hi) =~= if lo <= before.len() < hi {
                part(before, lo, hi).push(e)
            } else {
                part(before, lo, hi)
            });
            self.seen@ = self.seen@.push(e);
        }
        if self.index >= self.i0 {
            if self.builder.push(e.x, e.y, e.t, e.p) {
                self.index += 1;
            }
        } else if self.builder.admits(e.x, e.y) {
            self.index += 1;
        }
    }

    /// The collected events.
    pub fn finish(self) -> (stream: EventStream)
        requires
            self.wf(),
        ensures
            stream.wf(),
            stream.width() == self.width(),
            stream.height() == self.height(),
            stream.scale() == MICROSECOND_SCALE,
            stream.events() == part(
                kept(self.seen(), self.width(), self.height()),
                self.wanted().0 - self.first(),
                self.wanted().1 - self.first(),
            ),
    {
        self.builder.build()
    }
}

/// Collects the events of a time slice from the rows of a recording, as they are read.
pub struct TimeCollector {
    builder: EventStreamBuilder,
    t0: i64,
    t1: i64,
    done: bool,
    seen: Ghost<Seq<RawEvent>>,
}

impl TimeCollector {
    /// The events that have been given, up to the first that is not before the end.
    pub closed spec fn seen(&self) -> Seq<RawEvent> {
        self.seen@
    }

    pub closed spec fn width(&self) -> int {
        self.builder.width()
    }

    pub closed spec fn height(&self) -> int {
        self.builder.height()
    }

    pub closed spec fn window(&self) -> (i64, i64) {
        (self.t0, self.t1)
    }

    /// Whether an event that is not before the end has been given.
    pub closed spec fn done(&self) -> bool {
        self.done
    }

    pub closed spec fn wf(&self) -> bool {
        &&& self.builder.wf()
        &&& self.builder.scale() == MICROSECOND_SCALE
        &&& self.builder.events() == kept(
            within(self.seen@, self.t0 as int, self.t1 as int),
            self.builder.width(),
            self.builder.height(),
        )
    }

    /// Takes the next event; `false` once one is not before the end of the window.
    pub fn push(&mut self, e: RawEvent) -> (more: bool)
        requires
            old(self).wf(),
        ensures
            final(self).wf(),
            final(self).width() == old(self).width(),
            final(self).height() == old(self).height(),
            final(self).window() == old(self).window(),
            more == (!old(self).done() && e.t < old(self).window().1),
            final(self).done() == !more,
            final(self).seen() == if more {
                old(self).seen().push(e)
            } else {
                old(self).seen()
            },
    {
        if self.done || e.t >= self.t1 {
            self.done = true;
            return false;
        }
        let ghost w = self.builder.width();
        let ghost h = self.builder.height();
        let ghost before = within(self.seen@, self.t0 as int, self.t1 as int);
        proof {
            within_push(self.seen@, e, self.t0 as int, self.t1 as int);
            kept_push(before, e, w, h);
            self.seen@ = self.seen@.push(e);
        }
        if e.t >= self.t0 {
            self.builder.push(e.x, e.y, e.t, e.p);
        }
        true
    }

    /// The collected events.
    pub fn finish(self) -> (stream: EventStream)
        requires
            self.wf(),
        ensures
            stream.wf(),
            stream.width() == self.width(),
            stream.height() == self.height(),
            stream.scale() == MICROSECOND_SCALE,
            stream.events() == kept(
                within(self.seen(), self.window().0 as int, self.window().1 as int),
                self.width(),
                self.height(),
            ),
    {
        self.builder.build()
    }
}

impl TextSliceSource {
    pub closed spec fn map(&self) -> ColumnMap {
        self.map
    }

    pub closed spec fn unit(&self) -> TimeUnit {
        self.time_unit
    }

    pub closed spec fn width(&self) -> int {
        self.sensor.0 as int
    }

    pub closed spec fn height(&self) -> int {
        self.sensor.1 as int
    }

    pub closed spec fn event_count(&self) -> int {
        self.total as int
    }

    pub closed spec fn span(&self) -> (i64, i64) {
        self.span_us
    }

    pub closed spec fn entries(&self) -> Seq<TextIndexEntry> {
        self.index@
    }

    /// `(width, height)` of the sensor.
    pub fn sensor_size(&self) -> (size: (usize, usize))
        ensures
            size.0 == self.width(),
            size.1 == self.height(),
    {
        self.sensor
    }

    pub fn n_events(&self) -> (n: usize)
        ensures
            n == self.event_count(),
    {
        self.total
    }

    pub fn time_span(&self) -> (span: (i64, i64))
        ensures
            span == self.span(),
    {
        self.span_us
    }

    pub fn time_unit(&self) -> (unit: TimeUnit)
        ensures
            unit == self.unit(),
    {
        self.time_unit
    }

    /// How the rows from an entry on are read: without a header, which lies before them.
    pub fn options(&self) -> (options: TextOptions)
        ensures
            options.width == self.width(),
            options.height == self.height(),
            options.time_unit == self.unit(),
            options.map == self.map(),
            !options.has_header,
    {
        TextOptions {
            width: self.sensor.0,
            height: self.sensor.1,
            time_unit: self.time_unit,
            map: self.map,
            has_header: false,
        }
    }

    /// The first event of an index slice.
    pub open spec fn slice_start(&self, i0: int) -> int {
        if i0 < self.event_count() {
            i0
        } else {
            self.event_count()
        }
    }

    /// The end of an index slice.
    pub open spec fn slice_end(&self, i0: int, i1: int) -> int {
        if i1 < self.slice_start(i0) {
            self.slice_start(i0)
        } else if i1 > self.event_count() {
            self.event_count()
        } else {
            i1
        }
    }

    /// The entry from which an index slice is read; none if the slice is empty.
    pub open spec fn index_entry(&self, i0: int, i1: int) -> Option<TextIndexEntry> {
        let a = self.slice_start(i0);
        let k = entries_until(self.entries(), a, 0);
        if a == self.slice_end(i0, i1) || self.entries().len() == 0 {
            None
        } else if k == 0 {
            Some(self.entries()[0])
        } else {
            Some(self.entries()[k - 1])
        }
    }

    /// Starts an index slice: where to read from, and what collects the events. `None` if the slice
    /// is empty.
    pub fn slice_index(&self, i0: usize, i1: usize) -> (start: Option<(u64, IndexCollector)>)
        ensures
            match start {
                Some((offset, c)) => {
                    &&& self.index_entry(i0 as int, i1 as int) is Some
                    &&& offset == (self.index_entry(i0 as int, i1 as int)->0).offset
                    &&& c.first() == (self.index_entry(i0 as int, i1 as int)->0).count
                    &&& c.wf()
                    &&& c.seen() == Seq::<RawEvent>::empty()
                    &&& c.width() == self.width()
                    &&& c.height() == self.height()
                    &&& c.wanted() == (
                        self.slice_start(i0 as int),
                        self.slice_end(i0 as int, i1 as int),
                    )
                    &&& c.next() == c.first()
                },
                None => self.index_entry(i0 as int, i1 as int) is None,
            },
    {
        let n: usize = self.total;
        let a: usize = if i0 < n {
            i0
        } else {
            n
        };
        let b: usize = if i1 < a {
            a
        } else if i1 > n {
            n
        } else {
            i1
        };
        let count: usize = self.index.len();
        if a == b || count == 0 {
            return None;
        }
        let mut k: usize = 0;
        while k < count && self.index[k].count <= a
            invariant
                k <= count,
                count == self.entries().len(),
                entries_until(self.entries(), a as int, 0) == entries_until(
                    self.entries(),
                    a as int,
                    k as int,
                ),
            decreases count - k,
        {
            k += 1;
        }
        let entry = if k == 0 {
            self.index[0]
        } else {
            self.index[k - 1]
        };
        let collector = IndexCollector {
            builder: EventStreamBuilder::new(self.sensor.0, self.sensor.1, MICROSECOND_SCALE),
            index: entry.count,
            first: entry.count,
            i0: a,
            i1: b,
            seen: Ghost(Seq::empty()),
        };
        proof {
            let kept = kept(Seq::empty(), self.width(), self.height());
            assert(kept =~= Seq::<RawEvent>::empty());
            assert(part(kept, a - entry.count, b - entry.count) =~= Seq::<RawEvent>::empty());
        }
        Some((entry.offset, collector))
    }

    /// The entry from which a time slice is read: the last one before its start, so that events
    /// that share a time with an entry are not passed over.
    pub open spec fn time_entry(&self, t0: int) -> Option<TextIndexEntry> {
        let k = entries_before(self.entries(), t0, 0);
        if self.entries().len() == 0 {
            None
        } else if k == 0 {
            Some(self.entries()[0])
        } else {
            Some(self.entries()[k - 1])
        }
    }

    /// Starts a time slice: where to read from, and what collects the events. `None` if there are
    /// no events.
    pub fn slice_time(&self, t0: i64, t1: i64) -> (start: Option<(u64, TimeCollector)>)
        ensures
            match start {
                Some((offset, c)) => {
                    &&& self.time_entry(t0 as int) is Some
                    &&& offset == (self.time_entry(t0 as int)->0).offset
                    &&& c.wf()
                    &&& c.seen() == Seq::<RawEvent>::empty()
                    &&& !c.done()
                    &&& c.width() == self.width()
                    &&& c.height() == self.height()
                    &&& c.window() == (t0, t1)
                },
                None => self.time_entry(t0 as int) is None,
            },
    {
        let count: usize = self.index.len();
        if count == 0 {
            return None;
        }
        let mut k: usize = 0;
        while k < count && self.index[k].t_us < t0
            invariant
                k <= count,
                count == self.entries().len(),
                entries_before(self.entries(), t0 as int, 0) == entries_before(
                    self.entries(),
                    t0 as int,
                    k as int,
                ),
            decreases count - k,
        {
            k += 1;
        }
        let entry = if k == 0 {
            self.index[0]
        } else {
            self.index[k - 1]
        };
        let collector = TimeCollector {
            builder: EventStreamBuilder::new(self.sensor.0, self.sensor.1, MICROSECOND_SCALE),
            t0,
            t1,
            done: false,
            seen: Ghost(Seq::empty()),
        };
        Some((entry.offset, collector))
    }
}

/// Builds a stream from rows whose times are in microseconds, keeping at most `max_events`; one is
/// kept before the limit is looked at.
pub fn load_rows(
    events: &[RawEvent],
    width: usize,
    height: usize,
    max_events: Option<usize>,
) -> (stream: Result<EventStream, IoError>)
    ensures
        match stream {
            Ok(s) => {
                &&& width > 0
                &&& height > 0
                &&& s.wf()
                &&& s.width() == width
                &&& s.height() == height
                &&& s.scale() == MICROSECOND_SCALE
                &&& s.events() == rows_loaded(
                    events@,
                    width as int,
                    height as int,
                    max_events,
                    events@.len() as int,
                )
            },
            Err(e) => e is InvalidSensorSize && (width == 0 || height == 0),
        },
{
    if width == 0 || height == 0 {
        return Err(IoError::InvalidSensorSize);
    }
    let mut builder = EventStreamBuilder::new(width, height, MICROSECOND_SCALE);
    let n: usize = events.len();
    let mut i: usize = 0;
    let ghost w = width as int;
    let ghost h = height as int;
    while i < n
        invariant_except_break
            i <= n,
            n == events@.len(),
            w == width,
            h == height,
            builder.wf(),
            builder.width() == w,
            builder.height() == h,
            builder.scale() == MICROSECOND_SCALE,
            builder.events() == rows_loaded(events@, w, h, max_events, i as int),
            i > 0 ==> (max_events matches Some(m) ==> builder.events().len() < m),
        ensures
            builder.wf(),
            builder.width() == w,
            builder.height() == h,
            builder.scale() == MICROSECOND_SCALE,
            builder.events() == rows_loaded(events@, w, h, max_events, n as int),
        decreases n - i,
    {
        let e = events[i];
        builder.push(e.x, e.y, e.t, e.p);
        i += 1;
        if let Some(m) = max_events {
            if builder.len() >= m {
                proof {
                    rows_stop(events@, w, h, max_events, i as int, n as int);
                }
                break;
            }
        }
    }
    Ok(builder.build())
}

/// What loading keeps of the first `n` rows: rows on the sensor, until a row after which the limit
/// is reached.
pub open spec fn rows_loaded(
    events: Seq<RawEvent>,
    width: int,
    height: int,
    max: Option<usize>,
    n: int,
) -> Seq<RawEvent>
    decreases n,
{
    if n <= 0 {
        Seq::empty()
    } else {
        let before = rows_loaded(events, width, height, max, n - 1);
        if n > 1 && (max matches Some(m) && before.len() >= m) {
            before
        } else if on_sensor(events[n - 1], width, height) {
            before.push(events[n - 1])
        } else {
            before
        }
    }
}

proof fn rows_stop(
    events: Seq<RawEvent>,
    width: int,
    height: int,
    max: Option<usize>,
    i: int,
    n: int,
)
    requires
        0 < i <= n,
        max matches Some(m) && rows_loaded(events, width, height, max, i).len() >= m,
    ensures
        rows_loaded(events, width, height, max, n) == rows_loaded(events, width, height, max, i),
    decreases n - i,
{
    if i < n {
        rows_stop(events, width, height, max, i, n - 1);
    }
}

} // verus!
