//! Prophesee `.dat` recordings: `%` header lines, two bytes giving the event type and size, then
//! 8-byte records of a 32-bit timestamp and a 32-bit word with `x` in bits 0 to 13, `y` in bits 14
//! to 27 and the polarity in bit 28.

use vstd::prelude::*;
use vstd::slice::slice_subrange;

use crate::bytes::{le32, read_u32};
use crate::chars::{
    begins, begins_with, chars_of, decimal, decimal_string, find_whitespace, join3, lowered,
    parse_size, parsed, strip_run, to_lower, trim, trimmed, whitespace_at, without_run,
};
use crate::io::lines::{marked, marked_end, marked_lines, texts, text_in};
use crate::io::prophesee_raw::clip;
use crate::io::IoError;
use crate::stream::{
    kept, kept_push, EventStream, EventStreamBuilder, RawEvent, MICROSECOND_SCALE,
};

verus! {

/// Bytes per record.
pub const CD_EVENT_SIZE: u8 = 8;

/// A header line without its mark and surrounding white space, in lower case.
pub open spec fn dat_body(line: Seq<char>) -> Seq<char> {
    lowered(trim(strip_run(line, '%')))
}

/// The number that the first word of a text spells.
pub open spec fn first_number(text: Seq<char>) -> Option<int> {
    let rest = trim(text);
    parsed(rest.take(find_whitespace(rest, 0)), usize::MAX as int)
}

/// The dimensions declared after one more line.
pub open spec fn dat_declare(d: (Option<int>, Option<int>), line: Seq<char>) -> (
    Option<int>,
    Option<int>,
) {
    let body = dat_body(line);
    if begins(body, "width"@) {
        (first_number(body.skip(5)), d.1)
    } else if begins(body, "height"@) {
        (d.0, first_number(body.skip(6)))
    } else {
        d
    }
}

/// The dimensions a run of header lines declares: a later line overrides an earlier one.
pub open spec fn dat_declared(lines: Seq<Seq<char>>) -> (Option<int>, Option<int>)
    decreases lines.len(),
{
    if lines.len() == 0 {
        (None, None)
    } else {
        dat_declare(dat_declared(lines.drop_last()), lines.last())
    }
}

/// The sensor size that holds: the caller's, or else the header's.
pub open spec fn dat_size(given: Option<(usize, usize)>, lines: Seq<Seq<char>>) -> Option<
    (int, int),
> {
    match given {
        Some((w, h)) => Some((w as int, h as int)),
        None => match dat_declared(lines) {
            (Some(w), Some(h)) => Some((w, h)),
            _ => None,
        },
    }
}

/// The event of the record at `at`.
pub open spec fn record_event(data: Seq<u8>, at: int) -> RawEvent {
    let word = le32(data, at + 4);
    RawEvent {
        x: (word % 0x4000) as u16,
        y: (word / 0x4000 % 0x4000) as u16,
        t: le32(data, at) as i64,
        p: word / 0x1000_0000 % 2 == 1,
    }
}

/// The events of the records from `at` on; bytes short of a whole record at the end hold none.
pub open spec fn record_events(data: Seq<u8>, at: int) -> Seq<RawEvent> {
    Seq::new(((data.len() - at) / 8) as nat, |i: int| record_event(data, at + 8 * i))
}

/// As many whole numbers as a header line's value holds.
fn number_in(text: &[char]) -> (value: Option<usize>)
    ensures
        match value {
            Some(v) => first_number(text@) == Some(v as int),
            None => first_number(text@) is None,
        },
{
    let rest = trimmed(text);
    let at = whitespace_at(rest);
    assert(rest@.subrange(0, at as int) =~= rest@.take(at as int));
    parse_size(slice_subrange(rest, 0, at))
}

/// The values of two optional sizes.
pub open spec fn sizes(d: (Option<usize>, Option<usize>)) -> (Option<int>, Option<int>) {
    (
        match d.0 {
            Some(w) => Some(w as int),
            None => None,
        },
        match d.1 {
            Some(h) => Some(h as int),
            None => None,
        },
    )
}

/// The dimensions a run of header lines declares.
fn read_dimensions(lines: &[String]) -> (found: (Option<usize>, Option<usize>))
    ensures
        sizes(found) == dat_declared(texts(lines@)),
{
    let mut width: Option<usize> = None;
    let mut height: Option<usize> = None;
    let ghost all = texts(lines@);
    assert(all.take(0) =~= Seq::<Seq<char>>::empty());
    for i in 0..lines.len()
        invariant
            all == texts(lines@),
            sizes((width, height)) == dat_declared(all.take(i as int)),
    {
        let chars = chars_of(lines[i].as_str());
        let body = to_lower(trimmed(without_run(&chars, '%')));
        proof {
            let next = all.take(i + 1);
            assert(next.drop_last() =~= all.take(i as int));
            assert(next.last() == lines@[i as int]@);
            reveal_strlit("width");
            reveal_strlit("height");
        }
        if begins_with(&body, "width") {
            assert(body@.subrange(5, body@.len() as int) =~= body@.skip(5));
            width = number_in(slice_subrange(&body, 5, body.len()));
        } else if begins_with(&body, "height") {
            assert(body@.subrange(6, body@.len() as int) =~= body@.skip(6));
            height = number_in(slice_subrange(&body, 6, body.len()));
        }
    }
    assert(all.take(all.len() as int) =~= all);
    (width, height)
}

/// The sensor size: the caller's, or else the one of the `Width` and `Height` header lines.
pub fn resolve_sensor(header: &[String], sensor: Option<(usize, usize)>) -> (size: Result<
    (usize, usize),
    IoError,
>)
    ensures
        match size {
            Ok((w, h)) => dat_size(sensor, texts(header@)) == Some((w as int, h as int)),
            Err(IoError::Unsupported(m)) => dat_size(sensor, texts(header@)) is None && m@
                == "could not determine sensor size from the Prophesee .dat header; pass sensor_size"@,
            Err(_) => false,
        },
{
    if let Some(size) = sensor {
        return Ok(size);
    }
    let (width, height) = read_dimensions(header);
    match (width, height) {
        (Some(w), Some(h)) => Ok((w, h)),
        _ => Err(
            IoError::Unsupported(
                "could not determine sensor size from the Prophesee .dat header; pass sensor_size".to_owned(),
            ),
        ),
    }
}

/// The header lines of a recording.
pub open spec fn dat_lines(data: Seq<u8>) -> Seq<Seq<char>> {
    let lines = marked_lines(data, 0x25, Seq::<u8>::empty(), 0);
    Seq::new(lines.len(), |i: int| text_in(lines[i]))
}

/// The message for records of another size.
pub open spec fn event_size_message(size: u8) -> Seq<char> {
    "unsupported Prophesee .dat event size "@ + decimal(size as nat)
        + " (only 8-byte CD events are implemented)"@
}

/// Reads a recording, or its first `max_events` events on the sensor. A recording that ends with
/// its header is empty.
pub fn read_dat(data: &[u8], sensor_size: Option<(usize, usize)>, max_events: Option<usize>) -> (
    stream: Result<EventStream, IoError>)
    ensures
        ({
            let at = marked_end(data@, 0x25, Seq::<u8>::empty(), 0);
            match dat_size(sensor_size, dat_lines(data@)) {
                None => stream matches Err(IoError::Unsupported(m)) && m@
                    == "could not determine sensor size from the Prophesee .dat header; pass sensor_size"@,
                Some((w, h)) => if at + 2 <= data@.len() && data@[at + 1] != 8 {
                    stream matches Err(IoError::Unsupported(m)) && m@ == event_size_message(
                        data@[at + 1],
                    )
                } else {
                    let all = if at + 2 <= data@.len() {
                        kept(record_events(data@, at + 2), w, h)
                    } else {
                        Seq::empty()
                    };
                    stream matches Ok(s) && s.wf() && s.in_bounds() && s.width() == w && s.height()
                        == h && s.scale() == MICROSECOND_SCALE && s.events() == match max_events {
                        Some(limit) => clip(all, 0, limit as int),
                        None => all,
                    }
                },
            }
        }),
{
    let stop: [u8; 0] = [];
    assert(stop@ =~= Seq::<u8>::empty());
    let (lines, at) = marked(data, 0x25, &stop);
    proof {
        let raw = marked_lines(data@, 0x25, Seq::<u8>::empty(), 0);
        assert(texts(lines@) =~= Seq::new(raw.len(), |i: int| text_in(raw[i])));
    }
    let (width, height) = match resolve_sensor(&lines, sensor_size) {
        Ok(size) => size,
        Err(error) => {
            return Err(error);
        },
    };
    let mut builder = EventStreamBuilder::new(width, height, MICROSECOND_SCALE);
    if data.len() - at < 2 {
        assert(clip(Seq::<RawEvent>::empty(), 0, 0) =~= Seq::<RawEvent>::empty());
        assert(forall|limit: int|
            0 <= limit ==> #[trigger] clip(Seq::<RawEvent>::empty(), 0, limit)
                =~= Seq::<RawEvent>::empty());
        return Ok(builder.build());
    }
    let event_size = data[at + 1];
    if event_size != CD_EVENT_SIZE {
        let size = decimal_string(event_size as u64);
        return Err(
            IoError::Unsupported(
                join3(
                    "unsupported Prophesee .dat event size ",
                    size.as_str(),
                    " (only 8-byte CD events are implemented)",
                ),
            ),
        );
    }
    let ghost w = width as int;
    let ghost h = height as int;
    let ghost events = record_events(data@, at + 2);
    let n: usize = (data.len() - at - 2) / 8;
    let mut i: usize = 0;
    let mut full: bool = match max_events {
        Some(limit) => limit == 0,
        None => false,
    };
    assert(events.take(0) =~= Seq::<RawEvent>::empty());
    while i < n && !full
        invariant
            events == record_events(data@, at + 2),
            n == events.len(),
            at + 2 + 8 * n <= data@.len(),
            data@.len() <= usize::MAX,
            i <= n,
            builder.wf(),
            builder.width() == w,
            builder.height() == h,
            builder.scale() == MICROSECOND_SCALE,
            builder.events() == kept(events.take(i as int), w, h),
            full == (max_events matches Some(limit) && builder.events().len() == limit),
            max_events matches Some(limit) ==> builder.events().len() <= limit,
        decreases n - i,
    {
        let start: usize = at + 2 + 8 * i;
        let t: u32 = read_u32(data, start);
        let word: u32 = read_u32(data, start + 4);
        let e = RawEvent {
            x: (word % 0x4000) as u16,
            y: (word / 0x4000 % 0x4000) as u16,
            t: t as i64,
            p: word / 0x1000_0000 % 2 == 1,
        };
        proof {
            assert(e == events[i as int]);
            assert(events.take(i + 1) =~= events.take(i as int).push(e));
            kept_push(events.take(i as int), e, w, h);
        }
        builder.push(e.x, e.y, e.t, e.p);
        full = match max_events {
            Some(limit) => builder.len() == limit,
            None => false,
        };
        i += 1;
    }
    proof {
        let all = kept(events, w, h);
        assert(events.take(i as int) + events.skip(i as int) =~= events);
        crate::stream::kept_concat(events.take(i as int), events.skip(i as int), w, h);
        if i == n {
            assert(events.take(i as int) =~= events);
            if let Some(limit) = max_events {
                assert(clip(all, 0, limit as int) =~= all);
            }
        } else {
            assert(clip(all, 0, max_events->0 as int) =~= builder.events());
        }
    }
    Ok(builder.build())
}

} // verus!
