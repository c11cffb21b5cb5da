//! The comment header of an AEDAT 2 recording.

use vstd::prelude::*;
use vstd::slice::slice_subrange;

use crate::chars::{
    char_at, chars_of, find_char, find_text, join3, lowered, parse_size, parsed, same, string_of,
    text_at, to_lower, trim, trim_end, trimmed, trimmed_end,
};
use crate::io::lines::{
    marked, marked_end, marked_lines, quoted, quoted_text, texts, text_in,
};
use crate::io::IoError;

verus! {

/// The texts of the header lines: each decoded, without the white space at its end.
pub open spec fn header_texts(data: Seq<u8>) -> Seq<Seq<char>> {
    let lines = marked_lines(data, 0x23, Seq::<u8>::empty(), 0);
    Seq::new(lines.len(), |i: int| trim_end(text_in(lines[i])))
}

/// Where the records begin.
pub open spec fn records_start(data: Seq<u8>) -> int {
    marked_end(data, 0x23, Seq::<u8>::empty(), 0)
}

/// Reads the header: its lines, and where the records begin.
pub fn read_header(data: &[u8]) -> (header: (Vec<String>, usize))
    ensures
        texts(header.0@) == header_texts(data@),
        header.1 == records_start(data@),
        header.1 <= data@.len(),
{
    let stop: [u8; 0] = [];
    assert(stop@ =~= Seq::<u8>::empty());
    let (raw, end) = marked(data, 0x23, &stop);
    let mut lines: Vec<String> = Vec::new();
    let n: usize = raw.len();
    for i in 0..n
        invariant
            n == raw@.len(),
            n == marked_lines(data@, 0x23, Seq::<u8>::empty(), 0).len(),
            forall|j: int|
                0 <= j < n ==> #[trigger] raw@[j]@ == text_in(
                    marked_lines(data@, 0x23, Seq::<u8>::empty(), 0)[j],
                ),
            lines@.len() == i,
            forall|j: int| 0 <= j < i ==> #[trigger] lines@[j]@ == header_texts(data@)[j],
    {
        let chars = chars_of(raw[i].as_str());
        lines.push(string_of(trimmed_end(&chars)));
    }
    assert(texts(lines@) =~= header_texts(data@));
    (lines, end)
}

/// Whether a text stands somewhere in another.
pub open spec fn holds_text(s: Seq<char>, text: Seq<char>) -> bool {
    find_text(s, text, 0) is Some
}

/// Whether a text stands somewhere in another.
pub fn contains_text(s: &[char], text: &str) -> (yes: bool)
    ensures
        yes == holds_text(s@, text@),
{
    let wanted = chars_of(text);
    text_at(s, &wanted, 0).is_some()
}

/// What the first line says of the version: this one, another one, or nothing.
pub open spec fn version_fault(header: Seq<Seq<char>>, e: IoError) -> bool {
    if header.len() > 0 && holds_text(header[0], "AER-DAT2.0"@) {
        false
    } else if header.len() > 0 && holds_text(header[0], "AER-DAT"@) {
        e matches IoError::Unsupported(m) && m@ == "unsupported AEDAT version ("@ + quoted_text(
            header[0],
        ) + "); only AEDAT 2.0 (.aedat) is implemented"@
    } else {
        e matches IoError::Format(m) && m@ == "not an AEDAT file (missing #!AER-DAT header)"@
    }
}

/// Whether the first line names this version.
pub open spec fn version_ok(header: Seq<Seq<char>>) -> bool {
    header.len() > 0 && holds_text(header[0], "AER-DAT2.0"@)
}

pub fn check_version(header: &[String]) -> (outcome: Result<(), IoError>)
    ensures
        match outcome {
            Ok(()) => version_ok(texts(header@)),
            Err(e) => version_fault(texts(header@), e),
        },
{
    if header.len() > 0 {
        assert(texts(header@)[0] == header@[0]@);
        let line = chars_of(header[0].as_str());
        if contains_text(&line, "AER-DAT2.0") {
            return Ok(());
        }
        if contains_text(&line, "AER-DAT") {
            let form = quoted(header[0].as_str());
            return Err(
                IoError::Unsupported(
                    join3(
                        "unsupported AEDAT version (",
                        form.as_str(),
                        "); only AEDAT 2.0 (.aedat) is implemented",
                    ),
                ),
            );
        }
    }
    Err(IoError::Format("not an AEDAT file (missing #!AER-DAT header)".to_owned()))
}

/// Whether a line names the chip.
pub open spec fn names_chip(line: Seq<char>) -> bool {
    holds_text(line, "AEChip:"@) || holds_text(line, "HardwareInterface:"@)
}

/// Whether some line that names the chip holds a text, in whatever case.
pub open spec fn chip_holds(header: Seq<Seq<char>>, text: Seq<char>) -> bool {
    exists|i: int|
        0 <= i < header.len() && names_chip(#[trigger] header[i]) && holds_text(
            lowered(header[i]),
            text,
        )
}

/// Whether the chip is called by either of two spellings.
pub open spec fn chip_is(header: Seq<Seq<char>>, a: Seq<char>, b: Seq<char>) -> bool {
    chip_holds(header, a) || chip_holds(header, b)
}

/// The size of the sensor of the chip that the header names.
pub open spec fn chip_size(header: Seq<Seq<char>>) -> Option<(usize, usize)> {
    if chip_is(header, "davis346"@, "davis 346"@) {
        Some((346usize, 260usize))
    } else if chip_is(header, "davis240"@, "davis 240"@) {
        Some((240usize, 180usize))
    } else if chip_is(header, "davis208"@, "davis 208"@) {
        Some((208usize, 192usize))
    } else if chip_is(header, "davis128"@, "davis 128"@) {
        Some((128usize, 128usize))
    } else {
        None
    }
}

fn does_chip_hold(header: &[String], text: &str) -> (yes: bool)
    ensures
        yes == chip_holds(texts(header@), text@),
{
    let n: usize = header.len();
    for i in 0..n
        invariant
            n == header@.len(),
            forall|j: int|
                0 <= j < i ==> !(names_chip(#[trigger] texts(header@)[j]) && holds_text(
                    lowered(texts(header@)[j]),
                    text@,
                )),
    {
        let line = chars_of(header[i].as_str());
        assert(texts(header@)[i as int] == line@);
        if contains_text(&line, "AEChip:") || contains_text(&line, "HardwareInterface:") {
            let low = to_lower(&line);
            if contains_text(&low, text) {
                return true;
            }
        }
    }
    false
}

/// The sensor size of a recording: the one asked for, else that of the chip.
pub fn resolve_sensor(header: &[String], sensor: Option<(usize, usize)>) -> (size: Result<
    (usize, usize),
    IoError,
>)
    ensures
        match sensor {
            Some(s) => size == Ok::<(usize, usize), IoError>(s),
            None => match size {
                Ok(s) => !chip_is(texts(header@), "dvs128"@, "dvs 128"@) && chip_size(
                    texts(header@),
                ) == Some(s),
                Err(IoError::Unsupported(m)) => if chip_is(
                    texts(header@),
                    "dvs128"@,
                    "dvs 128"@,
                ) {
                    m@
                        == "this AEDAT 2.0 file is from a DVS128, whose address layout this reader does not decode; only the DAVIS family is supported"@
                } else {
                    chip_size(texts(header@)) is None && m@
                        == "could not determine the DAVIS sensor geometry from the AEDAT header; pass sensor_size"@
                },
                Err(_) => false,
            },
        },
{
    if let Some(size) = sensor {
        return Ok(size);
    }
    if does_chip_hold(header, "dvs128") || does_chip_hold(header, "dvs 128") {
        return Err(
            IoError::Unsupported(
                "this AEDAT 2.0 file is from a DVS128, whose address layout this reader does not decode; only the DAVIS family is supported".to_owned(),
            ),
        );
    }
    if does_chip_hold(header, "davis346") || does_chip_hold(header, "davis 346") {
        return Ok((346, 260));
    }
    if does_chip_hold(header, "davis240") || does_chip_hold(header, "davis 240") {
        return Ok((240, 180));
    }
    if does_chip_hold(header, "davis208") || does_chip_hold(header, "davis 208") {
        return Ok((208, 192));
    }
    if does_chip_hold(header, "davis128") || does_chip_hold(header, "davis 128") {
        return Ok((128, 128));
    }
    Err(
        IoError::Unsupported(
            "could not determine the DAVIS sensor geometry from the AEDAT header; pass sensor_size".to_owned(),
        ),
    )
}

/// The first line that holds a text, from `k` on.
pub open spec fn first_with(header: Seq<Seq<char>>, text: Seq<char>, k: int) -> Option<Seq<char>>
    decreases header.len() - k,
{
    if k < 0 || k >= header.len() {
        None
    } else if holds_text(header[k], text) {
        Some(header[k])
    } else {
        first_with(header, text, k + 1)
    }
}

/// What follows the last full stop.
pub open spec fn after_last_dot(s: Seq<char>) -> Seq<char>
    decreases s.len(),
{
    if s.len() == 0 {
        s
    } else if s.last() == '.' {
        Seq::empty()
    } else {
        after_last_dot(s.drop_last()).push(s.last())
    }
}

/// The class path on a line that names the chip: what stands between the first mention and the
/// next.
pub open spec fn chip_path(line: Seq<char>) -> Seq<char> {
    let at = find_text(line, "AEChip:"@, 0)->0 + 7;
    let end = match find_text(line, "AEChip:"@, at) {
        Some(next) => next,
        None => line.len() as int,
    };
    trim(line.subrange(at, end))
}

/// The chip's class name: the last part of its class path.
pub open spec fn chip_named(header: Seq<Seq<char>>) -> Option<Seq<char>> {
    match first_with(header, "AEChip:"@, 0) {
        Some(line) => Some(after_last_dot(chip_path(line))),
        None => None,
    }
}

fn tail_after_dot(s: &[char]) -> (tail: &[char])
    ensures
        tail@ == after_last_dot(s@),
{
    let n: usize = s.len();
    let mut start: usize = n;
    while start > 0 && s[start - 1] != '.'
        invariant
            start <= n,
            n == s@.len(),
            forall|i: int| start <= i < n ==> #[trigger] s@[i] != '.',
        decreases start,
    {
        start -= 1;
    }
    proof {
        after_dot_at(s@, start as int);
    }
    slice_subrange(s, start, n)
}

proof fn after_dot_at(s: Seq<char>, start: int)
    requires
        0 <= start <= s.len(),
        start == 0 || s[start - 1] == '.',
        forall|i: int| start <= i < s.len() ==> #[trigger] s[i] != '.',
    ensures
        after_last_dot(s) == s.subrange(start, s.len() as int),
    decreases s.len(),
{
    if s.len() == 0 {
        assert(after_last_dot(s) =~= s.subrange(start, s.len() as int));
    } else if start == s.len() {
        assert(after_last_dot(s) =~= s.subrange(start, s.len() as int));
    } else {
        let rest = s.drop_last();
        assert(s[s.len() - 1] != '.');
        assert forall|i: int| start <= i < rest.len() implies #[trigger] rest[i] != '.' by {
            assert(rest[i] == s[i]);
        }
        after_dot_at(rest, start);
        assert(after_last_dot(s) =~= s.subrange(start, s.len() as int));
    }
}

/// The chip's class name.
pub fn chip_name(header: &[String]) -> (name: Option<String>)
    ensures
        match name {
            Some(n) => chip_named(texts(header@)) == Some(n@),
            None => chip_named(texts(header@)) is None,
        },
{
    let n: usize = header.len();
    let marker = chars_of("AEChip:");
    proof {
        reveal_strlit("AEChip:");
    }
    let mut i: usize = 0;
    while i < n
        invariant
            i <= n,
            n == header@.len(),
            marker@ == "AEChip:"@,
            marker@.len() == 7,
            first_with(texts(header@), "AEChip:"@, 0) == first_with(
                texts(header@),
                "AEChip:"@,
                i as int,
            ),
        decreases n - i,
    {
        let line = chars_of(header[i].as_str());
        assert(texts(header@)[i as int] == line@);
        match text_at(&line, &marker, 0) {
            Some(found) => {
                assert(found + 7 <= line.len());
                let at: usize = found + 7;
                let end: usize = match text_at(&line, &marker, at) {
                    Some(next) => next,
                    None => line.len(),
                };
                let path = trimmed(slice_subrange(line.as_slice(), at, end));
                return Some(string_of(tail_after_dot(path)));
            },
            None => {},
        }
        i += 1;
    }
    None
}

/// The quoted text after the next `marker` from `at` on, and where it ends.
pub open spec fn quoted_from(s: Seq<char>, marker: Seq<char>, at: int) -> Option<(Seq<char>, int)> {
    match find_text(s, marker, at) {
        None => None,
        Some(found) => {
            let start = found + marker.len();
            let end = find_char(s, '"', start);
            if end < s.len() {
                Some((s.subrange(start, end), end + 1))
            } else {
                None
            }
        },
    }
}

/// The value of the pair naming `key` in a line, from `at` on; the outer `None` if it is not there.
pub open spec fn key_in_line(line: Seq<char>, key: Seq<char>, at: int) -> Option<Option<Seq<char>>>
    decreases line.len() - at,
{
    match quoted_from(line, "key=\""@, at) {
        None => None,
        Some((name, next)) => if name == key {
            Some(
                match quoted_from(line, "value=\""@, next) {
                    Some((value, _)) => Some(value),
                    None => None,
                },
            )
        } else if next <= at || next > line.len() {
            None
        } else {
            key_in_line(line, key, next)
        },
    }
}

/// The value of the pair naming `key` in the header lines from `k` on.
pub open spec fn key_in_header(header: Seq<Seq<char>>, key: Seq<char>, k: int) -> Option<Seq<char>>
    decreases header.len() - k,
{
    if k < 0 || k >= header.len() {
        None
    } else {
        match key_in_line(header[k], key, 0) {
            Some(value) => value,
            None => key_in_header(header, key, k + 1),
        }
    }
}

fn quoted_after(s: &[char], marker: &[char], at: usize) -> (found: Option<(usize, usize)>)
    requires
        at <= s@.len(),
        marker@.len() > 0,
    ensures
        match found {
            Some((start, end)) => {
                &&& start <= end < s@.len()
                &&& at < start
                &&& quoted_from(s@, marker@, at as int) == Some(
                    (s@.subrange(start as int, end as int), end + 1),
                )
            },
            None => quoted_from(s@, marker@, at as int) is None,
        },
{
    let found = match text_at(s, marker, at) {
        Some(found) => found,
        None => {
            return None;
        },
    };
    assert(found + marker.len() <= s.len());
    let start: usize = found + marker.len();
    let end = char_at(s, '"', start);
    if end < s.len() {
        Some((start, end))
    } else {
        None
    }
}

/// What a line says of a key: nothing, or a value that may be missing.
enum KeyValue {
    Absent,
    Broken,
    Value(String),
}

fn line_key(line: &[char], key: &[char]) -> (value: KeyValue)
    ensures
        match value {
            KeyValue::Absent => key_in_line(line@, key@, 0) is None,
            KeyValue::Broken => key_in_line(line@, key@, 0) == Some(None::<Seq<char>>),
            KeyValue::Value(v) => key_in_line(line@, key@, 0) == Some(Some(v@)),
        },
{
    let key_marker = chars_of("key=\"");
    let value_marker = chars_of("value=\"");
    proof {
        reveal_strlit("key=\"");
        reveal_strlit("value=\"");
    }
    let n: usize = line.len();
    let mut at: usize = 0;
    loop
        invariant
            at <= n,
            n == line@.len(),
            key_marker@ == "key=\""@,
            value_marker@ == "value=\""@,
            key_marker@.len() > 0,
            value_marker@.len() > 0,
            key_in_line(line@, key@, 0) == key_in_line(line@, key@, at as int),
        decreases n - at,
    {
        let (start, end) = match quoted_after(line, &key_marker, at) {
            Some(place) => place,
            None => {
                return KeyValue::Absent;
            },
        };
        let name = slice_subrange(line, start, end);
        if same(name, key) {
            return match quoted_after(line, &value_marker, end + 1) {
                Some((from, to)) => {
                    KeyValue::Value(string_of(slice_subrange(line, from, to)))
                },
                None => KeyValue::Broken,
            };
        }
        at = end + 1;
    }
}

/// The value of the pair naming exactly `key`.
pub fn header_key(header: &[String], key: &str) -> (value: Option<String>)
    ensures
        match value {
            Some(v) => key_in_header(texts(header@), key@, 0) == Some(v@),
            None => key_in_header(texts(header@), key@, 0) is None,
        },
{
    let wanted = chars_of(key);
    let n: usize = header.len();
    let mut i: usize = 0;
    while i < n
        invariant
            i <= n,
            n == header@.len(),
            wanted@ == key@,
            key_in_header(texts(header@), key@, 0) == key_in_header(
                texts(header@),
                key@,
                i as int,
            ),
        decreases n - i,
    {
        let line = chars_of(header[i].as_str());
        assert(texts(header@)[i as int] == line@);
        match line_key(&line, &wanted) {
            KeyValue::Absent => {},
            KeyValue::Broken => {
                return None;
            },
            KeyValue::Value(value) => {
                return Some(value);
            },
        }
        i += 1;
    }
    None
}

/// Which of the four full-scale settings of an inertial sensor the header gives; the first if it
/// does not say.
pub open spec fn scale_setting(header: Seq<Seq<char>>, setting: Seq<char>) -> int {
    match chip_named(header) {
        None => 0,
        Some(chip) => match key_in_header(header, chip + ".IMU."@ + setting, 0) {
            None => 0,
            Some(value) => match parsed(trim(value), usize::MAX as int) {
                None => 0,
                Some(v) => if v > 3 {
                    3
                } else {
                    v
                },
            },
        },
    }
}

/// Which of the four full-scale settings of an inertial sensor the header gives.
pub fn full_scale(header: &[String], setting: &str) -> (index: usize)
    ensures
        index == scale_setting(texts(header@), setting@),
        index <= 3,
{
    let chip = match chip_name(header) {
        Some(chip) => chip,
        None => {
            return 0;
        },
    };
    let key = join3(chip.as_str(), ".IMU.", setting);
    let value = match header_key(header, key.as_str()) {
        Some(value) => value,
        None => {
            return 0;
        },
    };
    let chars = chars_of(value.as_str());
    match parse_size(trimmed(&chars)) {
        Some(v) => if v > 3 {
            3
        } else {
            v
        },
        None => 0,
    }
}

} // verus!
