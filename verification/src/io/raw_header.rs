//! The text header of a Prophesee `.raw` recording: lines that start with `%`.

use vstd::prelude::*;
use vstd::slice::slice_subrange;

use crate::chars::{
    begins, begins_with, char_at, chars_of, find_char, find_whitespace, join5, lowered, parse_size,
    parsed, spells, string_of, strip_run, to_lower, trim, trimmed, whitespace_at, without_run,
};
use crate::io::lines::{
    marked, marked_end, marked_lines, quoted, quoted_text, texts, text_in,
};
use crate::io::IoError;

verus! {

/// Which of the two `.raw` encodings a recording uses.
#[derive(Clone, Copy, Debug, PartialEq, Eq, Structural)]
pub enum EvtVersion {
    /// One 32-bit word per event.
    Evt2,
    /// Stateful 16-bit words.
    Evt3,
}

impl Default for EvtVersion {
    fn default() -> (version: Self)
        ensures
            version == EvtVersion::Evt2,
    {
        EvtVersion::Evt2
    }
}

/// What the header lines declare.
pub ghost struct Declared {
    pub geometry: Option<(int, int)>,
    pub format: Option<Seq<char>>,
    pub evt: Option<Seq<char>>,
}

/// What the header lines declare.
#[derive(Debug)]
pub struct Fields {
    pub geometry: Option<(usize, usize)>,
    pub format: Option<String>,
    pub evt: Option<String>,
}

pub open spec fn text_view(text: Option<String>) -> Option<Seq<char>> {
    match text {
        Some(t) => Some(t@),
        None => None,
    }
}

impl View for Fields {
    type V = Declared;

    open spec fn view(&self) -> Declared {
        Declared {
            geometry: match self.geometry {
                Some((w, h)) => Some((w as int, h as int)),
                None => None,
            },
            format: text_view(self.format),
            evt: text_view(self.evt),
        }
    }
}

/// A header line without its mark and surrounding white space.
pub open spec fn line_body(line: Seq<char>) -> Seq<char> {
    trim(strip_run(trim(line), '%'))
}

/// The key of a header line, in lower case.
pub open spec fn line_key(line: Seq<char>) -> Seq<char> {
    let body = line_body(line);
    lowered(body.take(find_whitespace(body, 0)))
}

/// The value of a header line, trimmed.
pub open spec fn line_value(line: Seq<char>) -> Seq<char> {
    let body = line_body(line);
    let at = find_whitespace(body, 0);
    if at < body.len() {
        trim(body.skip(at + 1))
    } else {
        trim(Seq::empty())
    }
}

/// The two sides of a text around the first `x`, or else the first `X`.
pub open spec fn geometry_split(value: Seq<char>) -> Option<int> {
    if find_char(value, 'x', 0) < value.len() {
        Some(find_char(value, 'x', 0))
    } else if find_char(value, 'X', 0) < value.len() {
        Some(find_char(value, 'X', 0))
    } else {
        None
    }
}

/// The two numbers around a place of a text.
pub open spec fn numbers_around(value: Seq<char>, at: int) -> Option<(int, int)> {
    match (
        parsed(trim(value.take(at)), usize::MAX as int),
        parsed(trim(value.skip(at + 1)), usize::MAX as int),
    ) {
        (Some(w), Some(h)) => Some((w, h)),
        _ => None,
    }
}

/// What is declared after one more line.
pub open spec fn declare(d: Declared, line: Seq<char>) -> Declared {
    let key = line_key(line);
    let value = line_value(line);
    if key == "geometry"@ {
        match geometry_split(value) {
            Some(at) => Declared { geometry: numbers_around(value, at), ..d },
            None => d,
        }
    } else if key == "format"@ {
        Declared { format: Some(lowered(value)), ..d }
    } else if key == "evt"@ {
        Declared { evt: Some(lowered(value)), ..d }
    } else {
        d
    }
}

/// What a run of header lines declares: a later line overrides an earlier one.
pub open spec fn declared(lines: Seq<Seq<char>>) -> Declared
    decreases lines.len(),
{
    if lines.len() == 0 {
        Declared { geometry: None, format: None, evt: None }
    } else {
        declare(declared(lines.drop_last()), lines.last())
    }
}

/// The two numbers of a geometry value, if it has two sides.
fn parse_geometry(value: &[char]) -> (geometry: Option<Option<(usize, usize)>>)
    ensures
        match geometry {
            Some(Some((w, h))) => geometry_split(value@) is Some && numbers_around(
                value@,
                geometry_split(value@)->0,
            ) == Some((w as int, h as int)),
            Some(None) => geometry_split(value@) is Some && numbers_around(
                value@,
                geometry_split(value@)->0,
            ) is None,
            None => geometry_split(value@) is None,
        },
{
    let lower = char_at(value, 'x', 0);
    let at: usize = if lower < value.len() {
        lower
    } else {
        char_at(value, 'X', 0)
    };
    if at >= value.len() {
        return None;
    }
    let width = parse_size(trimmed(slice_subrange(value, 0, at)));
    let height = parse_size(trimmed(slice_subrange(value, at + 1, value.len())));
    proof {
        assert(value@.subrange(0, at as int) =~= value@.take(at as int));
        assert(value@.subrange(at + 1, value@.len() as int) =~= value@.skip(at + 1));
    }
    match (width, height) {
        (Some(w), Some(h)) => Some(Some((w, h))),
        _ => Some(None),
    }
}

/// Takes one header line into account.
fn read_line(fields: &mut Fields, line: &str)
    ensures
        final(fields)@ == declare(old(fields)@, line@),
{
    let all = chars_of(line);
    let outer = trimmed(&all);
    let body = trimmed(without_run(outer, '%'));
    let at = whitespace_at(body);
    let key = to_lower(slice_subrange(body, 0, at));
    let start: usize = if at < body.len() {
        at + 1
    } else {
        at
    };
    let value = trimmed(slice_subrange(body, start, body.len()));
    proof {
        assert(body@.subrange(0, at as int) =~= body@.take(at as int));
        assert(key@ == line_key(line@));
        if at < body@.len() {
            assert(body@.subrange(start as int, body@.len() as int) =~= body@.skip(at + 1));
        } else {
            assert(body@.subrange(start as int, body@.len() as int) =~= Seq::<char>::empty());
        }
        assert(value@ == line_value(line@));
    }
    if spells(&key, "geometry") {
        match parse_geometry(value) {
            Some(geometry) => {
                fields.geometry = geometry;
            },
            None => {},
        }
    } else if spells(&key, "format") {
        fields.format = Some(string_of(&to_lower(value)));
    } else if spells(&key, "evt") {
        fields.evt = Some(string_of(&to_lower(value)));
    }
}

/// What a run of header lines declares.
pub fn read_lines(lines: &[String]) -> (fields: Fields)
    ensures
        fields@ == declared(texts(lines@)),
{
    let mut fields = Fields { geometry: None, format: None, evt: None };
    let ghost all = texts(lines@);
    assert(all.take(0) =~= Seq::<Seq<char>>::empty());
    for i in 0..lines.len()
        invariant
            all == texts(lines@),
            fields@ == declared(all.take(i as int)),
    {
        read_line(&mut fields, lines[i].as_str());
        proof {
            let next = all.take(i + 1);
            assert(next.drop_last() =~= all.take(i as int));
            assert(next.last() == lines@[i as int]@);
        }
    }
    assert(all.take(all.len() as int) =~= all);
    fields
}

/// Whether the header declares a version: a `format` that begins with `name`, or an `evt` that
/// begins with `digit`.
pub open spec fn says(d: Declared, name: Seq<char>, digit: Seq<char>) -> bool {
    ||| d.format matches Some(f) && begins(f, name)
    ||| d.evt matches Some(e) && begins(e, digit)
}

fn field_begins(field: &Option<String>, prefix: &str) -> (yes: bool)
    ensures
        yes == (text_view(*field) matches Some(f) && begins(f, prefix@)),
{
    match field {
        Some(text) => {
            let all = chars_of(text.as_str());
            begins_with(&all, prefix)
        },
        None => false,
    }
}

/// The encoding a header declares, if it is one of the two.
pub open spec fn declared_version(d: Declared) -> Option<EvtVersion> {
    if says(d, "evt3"@, "3"@) {
        Some(EvtVersion::Evt3)
    } else if says(d, "evt2"@, "2"@) {
        Some(EvtVersion::Evt2)
    } else {
        None
    }
}

/// A field as the refusal message shows it.
pub open spec fn shown(field: Option<Seq<char>>) -> Seq<char> {
    match field {
        Some(text) => quoted_text(text),
        None => quoted_text("-"@),
    }
}

/// The message for an encoding that is neither.
pub open spec fn unknown_version_message(d: Declared) -> Seq<char> {
    "unrecognised Prophesee RAW encoding (format="@ + shown(d.format) + ", evt="@ + shown(d.evt)
        + "); this reader handles EVT2 and EVT3"@
}

fn show(field: &Option<String>) -> (form: String)
    ensures
        form@ == shown(text_view(*field)),
{
    match field {
        Some(text) => quoted(text.as_str()),
        None => quoted("-"),
    }
}

/// What the decoding of a recording needs from its header.
#[derive(Clone, Copy, Debug)]
pub struct Header {
    /// The sensor size, if the caller or the header gave one.
    pub sensor_size: Option<(usize, usize)>,
    pub encoding: EvtVersion,
}

/// The sensor size that holds: the caller's, or else the header's.
pub open spec fn chosen_size(given: Option<(usize, usize)>, d: Declared) -> Option<(int, int)> {
    match given {
        Some((w, h)) => Some((w as int, h as int)),
        None => d.geometry,
    }
}

/// A declared size with a zero dimension.
pub open spec fn empty_size(size: Option<(int, int)>) -> bool {
    match size {
        Some((w, h)) => w == 0 || h == 0,
        None => false,
    }
}

/// The header that declared fields and the caller's size make.
pub fn resolve_header(fields: &Fields, given: Option<(usize, usize)>) -> (header: Result<
    Header,
    IoError,
>)
    ensures
        match header {
            Ok(h) => {
                &&& declared_version(fields@) == Some(h.encoding)
                &&& match h.sensor_size {
                    Some((w, t)) => chosen_size(given, fields@) == Some((w as int, t as int)) && w
                        > 0 && t > 0,
                    None => chosen_size(given, fields@) is None,
                }
            },
            Err(IoError::Unsupported(m)) => declared_version(fields@) is None && m@
                == unknown_version_message(fields@),
            Err(IoError::InvalidSensorSize) => declared_version(fields@) is Some && empty_size(
                chosen_size(given, fields@),
            ),
            Err(_) => false,
        },
{
    let encoding = if field_begins(&fields.format, "evt3") || field_begins(&fields.evt, "3") {
        EvtVersion::Evt3
    } else if field_begins(&fields.format, "evt2") || field_begins(&fields.evt, "2") {
        EvtVersion::Evt2
    } else {
        let format = show(&fields.format);
        let evt = show(&fields.evt);
        return Err(
            IoError::Unsupported(
                join5(
                    "unrecognised Prophesee RAW encoding (format=",
                    format.as_str(),
                    ", evt=",
                    evt.as_str(),
                    "); this reader handles EVT2 and EVT3",
                ),
            ),
        );
    };
    let sensor_size = match given {
        Some(size) => Some(size),
        None => fields.geometry,
    };
    if let Some((width, height)) = sensor_size {
        if width == 0 || height == 0 {
            return Err(IoError::InvalidSensorSize);
        }
    }
    Ok(Header { sensor_size, encoding })
}

/// The line that ends a header: `% end`.
pub open spec fn end_line() -> Seq<u8> {
    seq![0x25u8, 0x20, 0x65, 0x6E, 0x64, 0x0A]
}

/// Where the event words of a recording start: after the line that ends its header, or after all
/// its leading lines if it has no such line.
pub open spec fn data_start(data: Seq<u8>) -> int {
    marked_end(data, 0x25, end_line(), 0)
}

/// What the header of a recording declares.
pub open spec fn header_fields(data: Seq<u8>) -> Declared {
    let lines = marked_lines(data, 0x25, end_line(), 0);
    declared(Seq::new(lines.len(), |i: int| text_in(lines[i])))
}

/// Reads the header of a recording. The second value is where the event words start.
pub fn parse_header(data: &[u8], given: Option<(usize, usize)>) -> (parsed: Result<
    (Header, usize),
    IoError,
>)
    ensures
        match parsed {
            Ok((h, at)) => {
                &&& at == data_start(data@)
                &&& at <= data@.len()
                &&& declared_version(header_fields(data@)) == Some(h.encoding)
                &&& match h.sensor_size {
                    Some((w, t)) => chosen_size(given, header_fields(data@)) == Some(
                        (w as int, t as int),
                    ) && w > 0 && t > 0,
                    None => chosen_size(given, header_fields(data@)) is None,
                }
            },
            Err(IoError::Unsupported(m)) => declared_version(header_fields(data@)) is None && m@
                == unknown_version_message(header_fields(data@)),
            Err(IoError::InvalidSensorSize) => declared_version(header_fields(data@)) is Some
                && empty_size(chosen_size(given, header_fields(data@))),
            Err(_) => false,
        },
{
    let stop: [u8; 6] = [0x25, 0x20, 0x65, 0x6E, 0x64, 0x0A];
    assert(stop@ =~= end_line());
    let (lines, at) = marked(data, 0x25, &stop);
    let fields = read_lines(&lines);
    proof {
        let raw = marked_lines(data@, 0x25, end_line(), 0);
        assert(texts(lines@) =~= Seq::new(raw.len(), |i: int| text_in(raw[i])));
    }
    match resolve_header(&fields, given) {
        Ok(header) => Ok((header, at)),
        Err(error) => Err(error),
    }
}

} // verus!
