//! What is written as a `.raw` recording is what is read.

use vstd::prelude::*;
use vstd::string::*;
use vstd::utf8::{
    encode_utf8, encode_utf8_decode_utf8, encode_utf8_valid_utf8, is_ascii_chars,
    is_ascii_chars_encode_utf8,
};

use crate::chars::{
    begins, decimal, decimal_round_trip, find_char, find_whitespace, is_digit, lowered,
    strip_run_at, trim, trim_end_at, trim_start_at, whitespace,
};
use crate::bytes::{
    le16_all, le16_all_concat, le16_all_len, le32_all, le32_all_concat, le32_all_len,
};
use crate::io::codec::{decoded, fresh, Codec};
use crate::io::evt::{
    evt2_after, evt2_events, evt3_after, evt3_events, fresh_encoder, fresh_evt2, fresh_evt3,
    EncoderState,
};
use crate::io::evt_encode::{
    evt2_carries, evt2_compose, evt2_round_trip, evt2_tracks, evt2_words, evt3_carries,
    evt3_compose, evt3_round_trip, evt3_tracks, evt3_words, evt3_words_bounded,
};
use crate::io::lines::{marked_end, marked_lines, text_in};
use crate::io::prophesee_raw::{all_words, raw_outcome};
use crate::io::raw_header::{
    data_start, declared, declared_version, end_line, geometry_split, line_body, line_key, line_value, numbers_around,
    EvtVersion,
};
use crate::io::raw_sink::{
    encoded, encoded_state, evt2_bytes, evt2_words_bounded, evt3_bytes, header_text, version_name,
};
use crate::io::text_laws::line_ends_at;
use crate::io::IoError;
use crate::stream::{kept_whole, on_sensor, EventStream, RawEvent, MICROSECOND_SCALE};

verus! {

/// A text of characters that are not white space.
spec fn solid(s: Seq<char>) -> bool {
    &&& s.len() > 0
    &&& forall|i: int| 0 <= i < s.len() ==> !whitespace(#[trigger] s[i])
}

/// A header line with a key and a value.
spec fn keyed_line(key: Seq<char>, value: Seq<char>) -> Seq<char> {
    seq!['%', ' '] + key + seq![' '] + value + seq!['\n']
}

/// A header line with a key alone.
spec fn bare_line(key: Seq<char>) -> Seq<char> {
    seq!['%', ' '] + key + seq!['\n']
}

proof fn solid_trims(s: Seq<char>)
    requires
        solid(s),
    ensures
        trim(s) == s,
{
    trim_start_at(s, 0);
    trim_end_at(s, s.len() as int);
    assert(s.skip(0) =~= s);
    assert(s.take(s.len() as int) =~= s);
}

/// The body of a line is what stands between its mark and its end.
proof fn body_of(line: Seq<char>, body: Seq<char>)
    requires
        line == seq!['%', ' '] + body + seq!['\n'],
        body.len() > 0,
        !whitespace(body[0]),
        body[0] != '%',
        !whitespace(body.last()),
    ensures
        line_body(line) == body,
{
    let n = line.len() as int;
    let t = line.take(n - 1);
    let u = t.skip(1);
    assert(line[0] == '%' && line[1] == ' ' && line[n - 1] == '\n');
    assert(line[n - 2] == body.last());
    trim_start_at(line, 0);
    assert(line.skip(0) =~= line);
    trim_end_at(line, n - 1);
    strip_run_at(t, '%', 1);
    assert(u[0] == ' ' && u[1] == body[0]);
    trim_start_at(u, 1);
    assert(u.skip(1) =~= body);
    trim_end_at(body, body.len() as int);
    assert(body.take(body.len() as int) =~= body);
}

proof fn whitespace_found(s: Seq<char>, at: int, end: int)
    requires
        0 <= at <= end <= s.len(),
        forall|i: int| at <= i < end ==> !whitespace(#[trigger] s[i]),
        end == s.len() || whitespace(s[end]),
    ensures
        find_whitespace(s, at) == end,
    decreases end - at,
{
    if at < end {
        whitespace_found(s, at + 1, end);
    }
}

proof fn char_found(s: Seq<char>, c: char, at: int, end: int)
    requires
        0 <= at <= end < s.len(),
        forall|i: int| at <= i < end ==> #[trigger] s[i] != c,
        s[end] == c,
    ensures
        find_char(s, c, at) == end,
    decreases end - at,
{
    if at < end {
        char_found(s, c, at + 1, end);
    }
}

proof fn keyed_line_reads(key: Seq<char>, value: Seq<char>)
    requires
        solid(key),
        solid(value),
        key[0] != '%',
    ensures
        line_key(keyed_line(key, value)) == lowered(key),
        line_value(keyed_line(key, value)) == value,
{
    let line = keyed_line(key, value);
    let body = key + seq![' '] + value;
    assert(line =~= seq!['%', ' '] + body + seq!['\n']);
    assert(body[0] == key[0]);
    assert(body.last() == value.last());
    body_of(line, body);
    assert forall|i: int| 0 <= i < key.len() implies !whitespace(#[trigger] body[i]) by {
        assert(body[i] == key[i]);
    }
    assert(body[key.len() as int] == ' ');
    whitespace_found(body, 0, key.len() as int);
    assert(body.take(key.len() as int) =~= key);
    assert(body.skip(key.len() as int + 1) =~= value);
    solid_trims(value);
}

proof fn bare_line_reads(key: Seq<char>)
    requires
        solid(key),
        key[0] != '%',
    ensures
        line_key(bare_line(key)) == lowered(key),
{
    body_of(bare_line(key), key);
    whitespace_found(key, 0, key.len() as int);
    assert(key.take(key.len() as int) =~= key);
}

/// A line of a header as bytes: it is marked, it ends past its line feed, and it reads as its text.
proof fn line_read(data: Seq<u8>, at: int, line: Seq<char>)
    requires
        0 <= at,
        at + line.len() <= data.len(),
        is_ascii_chars(line),
        line.len() > 1,
        line[0] == '%',
        line.last() == '\n',
        forall|i: int| 0 <= i < line.len() - 1 ==> #[trigger] line[i] != '\n',
        forall|i: int| 0 <= i < line.len() ==> #[trigger] data[at + i] == line[i] as u8,
    ensures
        ({
            let end = at + line.len();
            let bytes = data.subrange(at, end);
            &&& bytes.len() == line.len()
            &&& forall|i: int| 0 <= i < line.len() ==> #[trigger] bytes[i] == line[i] as u8
            &&& marked_end(data, 0x25, end_line(), at) == if bytes == end_line() {
                end
            } else {
                marked_end(data, 0x25, end_line(), end)
            }
            &&& marked_lines(data, 0x25, end_line(), at) == if bytes == end_line() {
                seq![bytes]
            } else {
                seq![bytes] + marked_lines(data, 0x25, end_line(), end)
            }
            &&& text_in(bytes) == line
        }),
{
    let end = at + line.len();
    assert(data[at + 0] == line[0] as u8);
    assert(data[at + (line.len() - 1)] == line[line.len() - 1] as u8);
    assert forall|i: int| at <= i < end - 1 implies #[trigger] data[i] != 0x0A by {
        assert(data[at + (i - at)] == line[i - at] as u8);
        assert(line[i - at] != '\n');
    }
    line_ends_at(data, at, end);
    is_ascii_chars_encode_utf8(line);
    let bytes = data.subrange(at, end);
    assert forall|i: int| 0 <= i < line.len() implies #[trigger] bytes[i] == line[i] as u8 by {
        assert(bytes[i] == data[at + i]);
    }
    assert forall|i: int| 0 <= i < line.len() implies #[trigger] bytes[i] == encode_utf8(
        line,
    )[i] by {
        assert(bytes[i] == data[at + i]);
    }
    assert(bytes =~= encode_utf8(line));
    encode_utf8_valid_utf8(line);
    encode_utf8_decode_utf8(line);
}

/// Windows of events, one after another.
pub open spec fn all_events(windows: Seq<Seq<RawEvent>>) -> Seq<RawEvent>
    decreases windows.len(),
{
    if windows.len() == 0 {
        Seq::empty()
    } else {
        all_events(windows.drop_last()) + windows.last()
    }
}

/// What the reader knows after some windows.
pub open spec fn windows_state(version: EvtVersion, windows: Seq<Seq<RawEvent>>) -> EncoderState
    decreases windows.len(),
{
    if windows.len() == 0 {
        fresh_encoder()
    } else {
        encoded_state(version, windows_state(version, windows.drop_last()), windows.last())
    }
}

/// The bytes that are written of some windows.
pub open spec fn windows_bytes(version: EvtVersion, windows: Seq<Seq<RawEvent>>) -> Seq<u8>
    decreases windows.len(),
{
    if windows.len() == 0 {
        Seq::empty()
    } else {
        windows_bytes(version, windows.drop_last()) + encoded(
            version,
            windows_state(version, windows.drop_last()),
            windows.last(),
        )
    }
}

/// Whether the clock of an encoding can carry some windows: the events have 11-bit coordinates, none
/// is before time zero, and they are in time order, by what the upper part of the clock counts.
pub open spec fn windows_carry(version: EvtVersion, windows: Seq<Seq<RawEvent>>) -> bool
    decreases windows.len(),
{
    windows.len() == 0 || {
        let s = windows_state(version, windows.drop_last());
        &&& windows_carry(version, windows.drop_last())
        &&& match version {
            EvtVersion::Evt2 => evt2_carries(s, windows.last()),
            EvtVersion::Evt3 => evt3_carries(s, windows.last(), 0),
        }
    }
}

/// The words that are written of some windows.
spec fn windows_words(version: EvtVersion, windows: Seq<Seq<RawEvent>>) -> Seq<int>
    decreases windows.len(),
{
    if windows.len() == 0 {
        Seq::empty()
    } else {
        let s = windows_state(version, windows.drop_last());
        windows_words(version, windows.drop_last()) + match version {
            EvtVersion::Evt2 => evt2_words(s, windows.last()),
            EvtVersion::Evt3 => evt3_words(s, windows.last(), 0),
        }
    }
}

proof fn evt2_windows(windows: Seq<Seq<RawEvent>>)
    requires
        windows_carry(EvtVersion::Evt2, windows),
    ensures
        ({
            let words = windows_words(EvtVersion::Evt2, windows);
            &&& windows_bytes(EvtVersion::Evt2, windows) == le32_all(words)
            &&& evt2_events(fresh_evt2(), words) == all_events(windows)
            &&& evt2_tracks(
                windows_state(EvtVersion::Evt2, windows),
                evt2_after(fresh_evt2(), words),
            )
            &&& forall|j: int|
                0 <= j < words.len() ==> 0 <= #[trigger] words[j] < 0x1_0000_0000
        }),
    decreases windows.len(),
{
    let words = windows_words(EvtVersion::Evt2, windows);
    if windows.len() > 0 {
        let before = windows.drop_last();
        let s = windows_state(EvtVersion::Evt2, before);
        let front = windows_words(EvtVersion::Evt2, before);
        let last = evt2_words(s, windows.last());
        evt2_windows(before);
        evt2_words_bounded(s, windows.last());
        evt2_round_trip(s, evt2_after(fresh_evt2(), front), windows.last());
        evt2_compose(fresh_evt2(), front, last);
        le32_all_concat(front, last);
        assert forall|j: int| 0 <= j < words.len() implies 0 <= #[trigger] words[j]
            < 0x1_0000_0000 by {
            if j < front.len() {
                assert(words[j] == front[j]);
            } else {
                assert(words[j] == last[j - front.len()]);
            }
        }
    }
}

proof fn evt3_windows(windows: Seq<Seq<RawEvent>>)
    requires
        windows_carry(EvtVersion::Evt3, windows),
    ensures
        ({
            let words = windows_words(EvtVersion::Evt3, windows);
            &&& windows_bytes(EvtVersion::Evt3, windows) == le16_all(words)
            &&& evt3_events(fresh_evt3(), words) == all_events(windows)
            &&& evt3_tracks(
                windows_state(EvtVersion::Evt3, windows),
                evt3_after(fresh_evt3(), words),
            )
            &&& forall|j: int| 0 <= j < words.len() ==> 0 <= #[trigger] words[j] < 0x1_0000
        }),
    decreases windows.len(),
{
    let words = windows_words(EvtVersion::Evt3, windows);
    if windows.len() > 0 {
        let before = windows.drop_last();
        let s = windows_state(EvtVersion::Evt3, before);
        let front = windows_words(EvtVersion::Evt3, before);
        let last = evt3_words(s, windows.last(), 0);
        evt3_windows(before);
        evt3_words_bounded(s, windows.last(), 0);
        evt3_round_trip(s, evt3_after(fresh_evt3(), front), windows.last(), 0);
        assert(windows.last().subrange(0, windows.last().len() as int) =~= windows.last());
        evt3_compose(fresh_evt3(), front, last);
        le16_all_concat(front, last);
        assert forall|j: int| 0 <= j < words.len() implies 0 <= #[trigger] words[j] < 0x1_0000 by {
            if j < front.len() {
                assert(words[j] == front[j]);
            } else {
                assert(words[j] == last[j - front.len()]);
            }
        }
    } else {
        reveal(evt3_tracks);
    }
}

proof fn evt2_read_back(windows: Seq<Seq<RawEvent>>)
    requires
        windows_carry(EvtVersion::Evt2, windows),
    ensures
        ({
            let bytes = windows_bytes(EvtVersion::Evt2, windows);
            decoded(Codec::Evt2(fresh_evt2()), bytes, bytes.len() as int / 4) == all_events(windows)
        }),
{
    let words = windows_words(EvtVersion::Evt2, windows);
    evt2_windows(windows);
    evt2_bytes(fresh_evt2(), words, words.len() as int);
    le32_all_len(words);
    assert(words.take(words.len() as int) =~= words);
}

proof fn evt3_read_back(windows: Seq<Seq<RawEvent>>)
    requires
        windows_carry(EvtVersion::Evt3, windows),
    ensures
        ({
            let bytes = windows_bytes(EvtVersion::Evt3, windows);
            decoded(Codec::Evt3(fresh_evt3()), bytes, bytes.len() as int / 2) == all_events(windows)
        }),
{
    let words = windows_words(EvtVersion::Evt3, windows);
    evt3_windows(windows);
    evt3_bytes(fresh_evt3(), words, words.len() as int);
    le16_all_len(words);
    assert(words.take(words.len() as int) =~= words);
}

/// What is written of windows is what is read: decoding the bytes gives the events of all of them.
pub proof fn windows_read_back(version: EvtVersion, windows: Seq<Seq<RawEvent>>)
    requires
        windows_carry(version, windows),
    ensures
        ({
            let bytes = windows_bytes(version, windows);
            decoded(fresh(version), bytes, all_words(version, bytes)) == all_events(windows)
        }),
{
    match version {
        EvtVersion::Evt2 => evt2_read_back(windows),
        EvtVersion::Evt3 => evt3_read_back(windows),
    }
}

/// The four lines of a header.
spec fn header_lines(version: EvtVersion, width: int, height: int) -> Seq<Seq<char>> {
    let size = decimal(width as nat) + seq!['x'] + decimal(height as nat);
    seq![
        keyed_line("format"@, version_name(version)),
        keyed_line("geometry"@, size),
        keyed_line("generator"@, "eventcv"@),
        bare_line("end"@),
    ]
}

proof fn header_splits(version: EvtVersion, width: int, height: int)
    ensures
        ({
            let l = header_lines(version, width, height);
            header_text(version, width, height) == l[0] + l[1] + l[2] + l[3]
        }),
{
    let l = header_lines(version, width, height);
    let (name, w, h) = (version_name(version), decimal(width as nat), decimal(height as nat));
    reveal_strlit("% format ");
    reveal_strlit("\n% geometry ");
    reveal_strlit("x");
    reveal_strlit("\n% generator eventcv\n% end\n");
    reveal_strlit("format");
    reveal_strlit("geometry");
    reveal_strlit("generator");
    reveal_strlit("eventcv");
    reveal_strlit("end");
    assert("% format "@ =~= seq!['%', ' '] + "format"@ + seq![' ']);
    assert("\n% geometry "@ =~= seq!['\n', '%', ' '] + "geometry"@ + seq![' ']);
    assert("x"@ =~= seq!['x']);
    assert("\n% generator eventcv\n% end\n"@ =~= seq!['\n'] + l[2] + l[3]);
    assert(l[0] =~= "% format "@ + name + seq!['\n']);
    assert(seq!['\n'] + l[1] =~= "\n% geometry "@ + w + "x"@ + h + seq!['\n']);
    assert(header_text(version, width, height) =~= l[0] + l[1] + l[2] + l[3]);
}

/// A text of visible ASCII characters.
spec fn visible(s: Seq<char>) -> bool {
    &&& s.len() > 0
    &&& forall|i: int| 0 <= i < s.len() ==> '!' <= #[trigger] s[i] <= '~'
}

/// Whether a line can stand in a header.
spec fn stands_alone(line: Seq<char>) -> bool {
    &&& is_ascii_chars(line)
    &&& line.len() > 1
    &&& line[0] == '%'
    &&& line.last() == '\n'
    &&& forall|i: int| 0 <= i < line.len() - 1 ==> #[trigger] line[i] != '\n'
}

proof fn keyed_line_stands(key: Seq<char>, value: Seq<char>)
    requires
        visible(key),
        visible(value),
    ensures
        stands_alone(keyed_line(key, value)),
{
    let line = keyed_line(key, value);
    let k = key.len() as int;
    assert forall|i: int| 0 <= i < line.len() implies '\0' <= #[trigger] line[i] <= '\u{7f}' && (i
        < line.len() - 1 ==> line[i] != '\n') by {
        if 2 <= i < 2 + k {
            assert(line[i] == key[i - 2]);
        } else if 3 + k <= i < line.len() - 1 {
            assert(line[i] == value[i - 3 - k]);
        }
    }
}

proof fn bare_line_stands(key: Seq<char>)
    requires
        visible(key),
    ensures
        stands_alone(bare_line(key)),
{
    let line = bare_line(key);
    assert forall|i: int| 0 <= i < line.len() implies '\0' <= #[trigger] line[i] <= '\u{7f}' && (i
        < line.len() - 1 ==> line[i] != '\n') by {
        if 2 <= i < line.len() - 1 {
            assert(line[i] == key[i - 2]);
        }
    }
}

proof fn header_pieces(version: EvtVersion, width: int, height: int)
    requires
        0 <= width,
        0 <= height,
    ensures
        visible(version_name(version)),
        visible("format"@),
        visible("geometry"@),
        visible("generator"@),
        visible("eventcv"@),
        visible("end"@),
        visible(decimal(width as nat) + seq!['x'] + decimal(height as nat)),
        lowered("format"@) == "format"@,
        lowered("geometry"@) == "geometry"@,
        "geometry"@.len() == 8,
        "format"@.len() == 6,
        "evt"@.len() == 3,
        "evt"@[1] == 'v',
        lowered("end"@)[1] == 'n',
        lowered("end"@).len() == 3,
        lowered("generator"@).len() == 9,
        "format"@[0] != '%',
        "geometry"@[0] != '%',
        "generator"@[0] != '%',
        "end"@[0] != '%',
{
    reveal_strlit("EVT2");
    reveal_strlit("EVT3");
    reveal_strlit("format");
    reveal_strlit("geometry");
    reveal_strlit("generator");
    reveal_strlit("eventcv");
    reveal_strlit("end");
    reveal_strlit("evt");
    assert(lowered("format"@) =~= "format"@);
    assert(lowered("geometry"@) =~= "geometry"@);
    let (w, h) = (decimal(width as nat), decimal(height as nat));
    decimal_round_trip(width as nat);
    decimal_round_trip(height as nat);
    let size = w + seq!['x'] + h;
    assert forall|i: int| 0 <= i < size.len() implies '!' <= #[trigger] size[i] <= '~' by {
        if i < w.len() {
            assert(size[i] == w[i] && is_digit(w[i]));
        } else if i > w.len() {
            assert(size[i] == h[i - w.len() - 1] && is_digit(h[i - w.len() - 1]));
        }
    }
}

/// The size in a header is read as it was written.
proof fn size_reads(width: int, height: int)
    requires
        0 <= width <= usize::MAX,
        0 <= height <= usize::MAX,
    ensures
        ({
            let size = decimal(width as nat) + seq!['x'] + decimal(height as nat);
            geometry_split(size) == Some(decimal(width as nat).len() as int) && numbers_around(
                size,
                decimal(width as nat).len() as int,
            ) == Some((width, height))
        }),
{
    let (w, h) = (decimal(width as nat), decimal(height as nat));
    let size = w + seq!['x'] + h;
    let at = w.len() as int;
    decimal_round_trip(width as nat);
    decimal_round_trip(height as nat);
    assert forall|i: int| 0 <= i < at implies #[trigger] size[i] != 'x' by {
        assert(size[i] == w[i] && is_digit(w[i]));
    }
    assert(size[at] == 'x');
    char_found(size, 'x', 0, at);
    assert(size.take(at) =~= w);
    assert(size.skip(at + 1) =~= h);
    assert(visible(w)) by {
        assert forall|i: int| 0 <= i < w.len() implies '!' <= #[trigger] w[i] <= '~' by {
            assert(is_digit(w[i]));
        }
    }
    assert(visible(h)) by {
        assert forall|i: int| 0 <= i < h.len() implies '!' <= #[trigger] h[i] <= '~' by {
            assert(is_digit(h[i]));
        }
    }
    solid_trims(w);
    solid_trims(h);
    assert(is_digit(w[0]) && is_digit(h[0]));
}

/// The lines of a header are those that are found at the front of a recording, whatever follows.
proof fn header_found(version: EvtVersion, width: int, height: int, rest: Seq<u8>)
    requires
        0 <= width,
        0 <= height,
    ensures
        ({
            let head = encode_utf8(header_text(version, width, height));
            let data = head + rest;
            let found = marked_lines(data, 0x25, end_line(), 0);
            &&& data_start(data) == head.len()
            &&& Seq::new(found.len(), |i: int| text_in(found[i])) == header_lines(
                version,
                width,
                height,
            )
        }),
{
    let text = header_text(version, width, height);
    let l = header_lines(version, width, height);
    let size = decimal(width as nat) + seq!['x'] + decimal(height as nat);
    header_splits(version, width, height);
    header_pieces(version, width, height);
    keyed_line_stands("format"@, version_name(version));
    keyed_line_stands("geometry"@, size);
    keyed_line_stands("generator"@, "eventcv"@);
    bare_line_stands("end"@);
    let a = l[0].len() as int;
    let b = a + l[1].len();
    let c = b + l[2].len();
    let e = c + l[3].len();
    assert(text.len() == e);
    assert forall|i: int| 0 <= i < text.len() implies '\0' <= #[trigger] text[i] <= '\u{7f}' by {
        if i < a {
            assert(text[i] == l[0][i]);
        } else if i < b {
            assert(text[i] == l[1][i - a]);
        } else if i < c {
            assert(text[i] == l[2][i - b]);
        } else {
            assert(text[i] == l[3][i - c]);
        }
    }
    assert(is_ascii_chars(text));
    is_ascii_chars_encode_utf8(text);
    let head = encode_utf8(text);
    let data = head + rest;
    assert(head.len() == text.len());
    assert forall|i: int| 0 <= i < text.len() implies #[trigger] data[i] == text[i] as u8 by {
        assert(data[i] == head[i]);
    }
    assert forall|i: int| 0 <= i < l[0].len() implies #[trigger] data[0 + i] == l[0][i] as u8 by {
        assert(text[i] == l[0][i]);
    }
    line_read(data, 0, l[0]);
    assert forall|i: int| 0 <= i < l[1].len() implies #[trigger] data[a + i] == l[1][i] as u8 by {
        assert(text[a + i] == l[1][i]);
    }
    line_read(data, a, l[1]);
    assert forall|i: int| 0 <= i < l[2].len() implies #[trigger] data[b + i] == l[2][i] as u8 by {
        assert(text[b + i] == l[2][i]);
    }
    line_read(data, b, l[2]);
    assert forall|i: int| 0 <= i < l[3].len() implies #[trigger] data[c + i] == l[3][i] as u8 by {
        assert(text[c + i] == l[3][i]);
    }
    line_read(data, c, l[3]);
    // Only the last line is the one that ends a header: the others are longer.
    reveal_strlit("end");
    assert(l[0].len() > 6 && l[1].len() > 6 && l[2].len() > 6);
    assert(l[3] =~= seq!['%', ' ', 'e', 'n', 'd', '\n']);
    assert(data.subrange(c, e) =~= end_line());
    let found = marked_lines(data, 0x25, end_line(), 0);
    assert(found =~= seq![
        data.subrange(0, a),
        data.subrange(a, b),
        data.subrange(b, c),
        data.subrange(c, e),
    ]);
    assert(Seq::new(found.len(), |i: int| text_in(found[i])) =~= l);
}

/// What a header declares is what it was written with.
proof fn header_declares(version: EvtVersion, width: int, height: int)
    requires
        0 <= width <= usize::MAX,
        0 <= height <= usize::MAX,
    ensures
        ({
            let d = declared(header_lines(version, width, height));
            &&& declared_version(d) == Some(version)
            &&& d.geometry == Some((width, height))
        }),
{
    let l = header_lines(version, width, height);
    let name = version_name(version);
    let size = decimal(width as nat) + seq!['x'] + decimal(height as nat);
    header_pieces(version, width, height);
    size_reads(width, height);
    keyed_line_reads("format"@, name);
    keyed_line_reads("geometry"@, size);
    keyed_line_reads("generator"@, "eventcv"@);
    bare_line_reads("end"@);
    reveal_with_fuel(declared, 5);
    assert(l.drop_last() =~= seq![l[0], l[1], l[2]]);
    assert(l.drop_last().drop_last() =~= seq![l[0], l[1]]);
    assert(l.drop_last().drop_last().drop_last() =~= seq![l[0]]);
    assert(l.drop_last().drop_last().drop_last().drop_last() =~= Seq::<Seq<char>>::empty());
    reveal_strlit("EVT2");
    reveal_strlit("EVT3");
    reveal_strlit("evt2");
    reveal_strlit("evt3");
    let d = declared(l);
    assert(d.format == Some(lowered(name)) && d.evt is None);
    let format = lowered(name);
    match version {
        EvtVersion::Evt2 => {
            assert(format =~= "evt2"@);
            assert(format[3] == '2' && "evt3"@[3] == '3');
            assert(format.take(4) =~= "evt2"@);
            assert(begins(format, "evt2"@));
            assert(!begins(format, "evt3"@)) by {
                if begins(format, "evt3"@) {
                    assert(format.take(4)[3] == "evt3"@[3]);
                }
            }
        },
        EvtVersion::Evt3 => {
            assert(format =~= "evt3"@);
            assert(format.take(4) =~= "evt3"@);
            assert(begins(format, "evt3"@));
        },
    }
}

/// A recording that is written a window at a time and read again has the same events and the same
/// sensor, if the clock of its encoding can carry them. That holds after every window, so it is
/// readable at any point.
pub proof fn recording_reads_back(
    version: EvtVersion,
    windows: Seq<Seq<RawEvent>>,
    width: int,
    height: int,
    data: Seq<u8>,
    back: Result<EventStream, IoError>,
)
    requires
        0 < width <= usize::MAX,
        0 < height <= usize::MAX,
        windows_carry(version, windows),
        forall|i: int|
            0 <= i < all_events(windows).len() ==> on_sensor(
                #[trigger] all_events(windows)[i],
                width,
                height,
            ),
        data == encode_utf8(header_text(version, width, height)) + windows_bytes(version, windows),
        raw_outcome(data, None, None, back),
    ensures
        back matches Ok(s) && s.events() == all_events(windows) && s.width() == width && s.height()
            == height && s.scale() == MICROSECOND_SCALE,
{
    let head = encode_utf8(header_text(version, width, height));
    let rest = windows_bytes(version, windows);
    header_found(version, width, height, rest);
    header_declares(version, width, height);
    assert(data.skip(head.len() as int) =~= rest);
    windows_read_back(version, windows);
    kept_whole(all_events(windows), width, height);
}

} // verus!
