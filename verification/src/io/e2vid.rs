//! The text layout of E2VID: a header line with the sensor size, then `t x y p` lines with the time
//! in seconds.
//!
//! The text of the seconds, which have a fraction, is written by the caller.

use vstd::prelude::*;
use vstd::string::*;

use crate::chars::{decimal, decimal_string, signed_decimal, signed_decimal_string};
use crate::io::lines::texts;
use crate::io::IoError;
use crate::stream::{EventStream, RawEvent};

verus! {

/// Writes events in the layout of E2VID, one stream at a time. All streams must come from a sensor
/// of one size, and their times must not fall.
#[derive(Debug)]
pub struct E2vidWriter {
    sensor_size: Option<(usize, usize)>,
    last_t_us: Option<i64>,
    n_events: usize,
}

/// The header line.
pub open spec fn header_line(width: int, height: int) -> Seq<char> {
    decimal(width as nat) + " "@ + decimal(height as nat) + "\n"@
}

/// The line of an event.
pub open spec fn e2vid_line(e: RawEvent, seconds: Seq<char>) -> Seq<char> {
    seconds + " "@ + decimal(e.x as nat) + " "@ + decimal(e.y as nat) + " "@ + (if e.p {
        "1\n"@
    } else {
        "0\n"@
    })
}

/// The lines of the first `n` events.
pub open spec fn e2vid_lines(events: Seq<RawEvent>, seconds: Seq<Seq<char>>, n: int) -> Seq<char>
    decreases n,
{
    if n <= 0 {
        Seq::empty()
    } else {
        e2vid_lines(events, seconds, n - 1) + e2vid_line(events[n - 1], seconds[n - 1])
    }
}

/// The time before the event at `i`.
pub open spec fn time_before(events: Seq<RawEvent>, last: Option<i64>, i: int) -> Option<i64> {
    if i <= 0 {
        last
    } else {
        Some(events[i - 1].t)
    }
}

/// The first event from `i` on that is earlier than the one before it.
pub open spec fn first_fall(events: Seq<RawEvent>, last: Option<i64>, i: int) -> int
    decreases events.len() - i,
{
    if i >= events.len() {
        i
    } else if time_before(events, last, i) matches Some(before) && events[i].t < before {
        i
    } else {
        first_fall(events, last, i + 1)
    }
}

/// The complaint about a stream from another sensor.
pub open spec fn other_sensor(now: (int, int), first: (usize, usize)) -> Seq<char> {
    "an E2VID file holds one recording: this append is "@ + decimal(now.0 as nat) + "x"@ + decimal(
        now.1 as nat,
    ) + " but the file was started as "@ + decimal(first.0 as nat) + "x"@ + decimal(first.1 as nat)
}

/// The complaint about an event that is earlier than the one before it.
pub open spec fn out_of_order(t: i64, last: i64) -> Seq<char> {
    "E2VID needs events in time order, but timestamp "@ + signed_decimal(t as int) + " follows "@
        + signed_decimal(last as int) + "; sort the stream first (stream.sort_by_time())"@
}

impl E2vidWriter {
    pub closed spec fn sensor(&self) -> Option<(usize, usize)> {
        self.sensor_size
    }

    pub closed spec fn last(&self) -> Option<i64> {
        self.last_t_us
    }

    pub closed spec fn event_count(&self) -> int {
        self.n_events as int
    }

    pub fn create() -> (writer: Self)
        ensures
            writer.sensor() is None,
            writer.last() is None,
            writer.event_count() == 0,
    {
        E2vidWriter { sensor_size: None, last_t_us: None, n_events: 0 }
    }

    /// Whether a stream comes from another sensor than those before it.
    pub open spec fn clashes(&self, stream: &EventStream) -> bool {
        self.sensor() matches Some(s) && (s.0 != stream.width() || s.1 != stream.height())
    }

    /// Takes the events of a stream, with the text of the seconds of each. Gives the text to write:
    /// the header line, if this is the first stream, and the lines of the events before the first
    /// that is out of order.
    pub fn append(&mut self, stream: &EventStream, seconds: &[String]) -> (written: (
        String,
        Result<(), IoError>,
    ))
        requires
            stream.wf(),
            seconds@.len() == stream.events().len(),
            old(self).event_count() + stream.events().len() <= usize::MAX,
        ensures
            old(self).clashes(stream) ==> {
                &&& written.0@ == Seq::<char>::empty()
                &&& written.1 matches Err(IoError::Unsupported(m)) && m@ == other_sensor(
                    (stream.width(), stream.height()),
                    old(self).sensor()->0,
                )
                &&& *final(self) == *old(self)
            },
            !old(self).clashes(stream) ==> {
                let events = stream.events();
                let n = first_fall(events, old(self).last(), 0);
                let header = if old(self).sensor() is None {
                    header_line(stream.width(), stream.height())
                } else {
                    Seq::empty()
                };
                &&& written.0@ == header + e2vid_lines(events, texts(seconds@), n)
                &&& final(self).sensor() == Some(
                    (stream.width() as usize, stream.height() as usize),
                )
                &&& final(self).last() == time_before(events, old(self).last(), n)
                &&& n == events.len() ==> written.1 is Ok && final(self).event_count() == old(
                    self,
                ).event_count() + events.len()
                &&& n < events.len() ==> final(self).event_count() == old(self).event_count() && (
                written.1 matches Err(IoError::Unsupported(m)) && m@ == out_of_order(
                    events[n].t,
                    time_before(events, old(self).last(), n)->0,
                ))
            },
    {
        let mut text = String::new();
        let (width, height) = stream.sensor_size();
        match self.sensor_size {
            None => {
                text.append(decimal_string(width as u64).as_str());
                text.append(" ");
                text.append(decimal_string(height as u64).as_str());
                text.append("\n");
                self.sensor_size = Some((width, height));
                assert(text@ =~= header_line(width as int, height as int));
            },
            Some((first_width, first_height)) => {
                if first_width != width || first_height != height {
                    let mut message = String::new();
                    message.append("an E2VID file holds one recording: this append is ");
                    message.append(decimal_string(width as u64).as_str());
                    message.append("x");
                    message.append(decimal_string(height as u64).as_str());
                    message.append(" but the file was started as ");
                    message.append(decimal_string(first_width as u64).as_str());
                    message.append("x");
                    message.append(decimal_string(first_height as u64).as_str());
                    assert(message@ =~= other_sensor(
                        (width as int, height as int),
                        (first_width, first_height),
                    ));
                    return (text, Err(IoError::Unsupported(message)));
                }
            },
        }
        let ghost header = text@;
        let ghost events = stream.events();
        let ghost last = self.last();
        let n: usize = stream.len();
        assert(header + e2vid_lines(events, texts(seconds@), 0) =~= header);
        for i in 0..n
            invariant
                stream.wf(),
                events == stream.events(),
                n == events.len(),
                n == seconds@.len(),
                last == old(self).last(),
                self.sensor_size == Some((width, height)),
                width == stream.width(),
                height == stream.height(),
                self.n_events == old(self).n_events,
                !old(self).clashes(stream),
                header == if old(self).sensor() is None {
                    header_line(stream.width(), stream.height())
                } else {
                    Seq::empty()
                },
                self.last_t_us == time_before(events, last, i as int),
                first_fall(events, last, 0) == first_fall(events, last, i as int),
                text@ == header + e2vid_lines(events, texts(seconds@), i as int),
        {
            let e = stream.get(i);
            if let Some(before) = self.last_t_us {
                if e.t < before {
                    let mut message = String::new();
                    message.append("E2VID needs events in time order, but timestamp ");
                    message.append(signed_decimal_string(e.t).as_str());
                    message.append(" follows ");
                    message.append(signed_decimal_string(before).as_str());
                    message.append("; sort the stream first (stream.sort_by_time())");
                    assert(message@ =~= out_of_order(e.t, before));
                    return (text, Err(IoError::Unsupported(message)));
                }
            }
            self.last_t_us = Some(e.t);
            let ghost so_far = text@;
            text.append(seconds[i].as_str());
            text.append(" ");
            text.append(decimal_string(e.x as u64).as_str());
            text.append(" ");
            text.append(decimal_string(e.y as u64).as_str());
            text.append(" ");
            if e.p {
                text.append("1\n");
            } else {
                text.append("0\n");
            }
            proof {
                let line = e2vid_line(e, seconds@[i as int]@);
                assert(text@ =~= so_far + line);
                assert(so_far + line =~= header + (e2vid_lines(events, texts(seconds@), i as int)
                    + line));
            }
        }
        self.n_events += n;
        (text, Ok(()))
    }

    /// Events written so far.
    pub fn n_events(&self) -> (n: usize)
        ensures
            n == self.event_count(),
    {
        self.n_events
    }

    /// The text that closes a file: a header line, if there has been none.
    pub fn finish(&self) -> (text: &'static str)
        ensures
            text@ == if self.sensor() is None {
                "0 0\n"@
            } else {
                ""@
            },
    {
        if self.sensor_size.is_none() {
            "0 0\n"
        } else {
            ""
        }
    }
}

/// Two streams that follow each other in time are written as one.
pub proof fn appends_join(
    a: Seq<RawEvent>,
    b: Seq<RawEvent>,
    s: Seq<Seq<char>>,
    r: Seq<Seq<char>>,
    n: int,
)
    requires
        a.len() == s.len(),
        b.len() == r.len(),
        0 <= n <= b.len(),
    ensures
        e2vid_lines(a + b, s + r, a.len() + n) == e2vid_lines(a, s, a.len() as int) + e2vid_lines(
            b,
            r,
            n,
        ),
    decreases n,
{
    if n > 0 {
        appends_join(a, b, s, r, n - 1);
        assert((a + b)[a.len() + n - 1] == b[n - 1]);
        assert((s + r)[a.len() + n - 1] == r[n - 1]);
        assert(e2vid_lines(a + b, s + r, a.len() + n) =~= e2vid_lines(a, s, a.len() as int)
            + e2vid_lines(b, r, n));
    } else {
        lines_prefix(a, b, s, r, a.len() as int);
        assert(e2vid_lines(a, s, a.len() as int) + e2vid_lines(b, r, 0) =~= e2vid_lines(
            a,
            s,
            a.len() as int,
        ));
    }
}

proof fn lines_prefix(
    a: Seq<RawEvent>,
    b: Seq<RawEvent>,
    s: Seq<Seq<char>>,
    r: Seq<Seq<char>>,
    n: int,
)
    requires
        a.len() == s.len(),
        0 <= n <= a.len(),
    ensures
        e2vid_lines(a + b, s + r, n) == e2vid_lines(a, s, n),
    decreases n,
{
    if n > 0 {
        lines_prefix(a, b, s, r, n - 1);
        assert((a + b)[n - 1] == a[n - 1]);
        assert((s + r)[n - 1] == s[n - 1]);
    }
}

} // verus!
