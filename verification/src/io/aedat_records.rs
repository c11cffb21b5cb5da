//! The records of an AEDAT 2 recording.
//!
//! A record is a 32-bit address and a 32-bit microsecond timestamp, most significant byte first.
//! The stream interleaves events with frame samples and inertial samples. The timestamp wraps;
//! a step back of more than half its range is the counter rolling over.

use vstd::prelude::*;

use crate::bytes::{be32, read_u32_be, signed, signed16};
use crate::stream::RawEvent;

verus! {

/// Bytes of a record.
pub const RECORD: usize = 8;

/// The range of the counter.
pub const WRAP_PERIOD: i64 = 0x1_0000_0000;

/// Half the range of the counter.
pub const WRAP_THRESHOLD: u32 = 0x8000_0000;

/// What an address encodes. Rows count from the bottom.
#[derive(Clone, Copy, Debug, PartialEq, Eq, Structural)]
pub enum Record {
    Event { x: u16, y: u16, polarity: bool },
    Aps { x: u16, y: u16, reset: bool, adc: u16 },
    Imu { field: usize, reading: i16 },
    /// A read that is not used, or an inertial field past the seven there are.
    Other,
}

/// What an address encodes.
pub open spec fn classified(address: int) -> Record {
    let x = (address / 0x1000 % 0x400) as u16;
    let y = (address / 0x40_0000 % 0x200) as u16;
    let readout = address / 0x400 % 4;
    let field = address / 0x1000_0000 % 8;
    if address < 0x8000_0000 {
        if readout % 2 == 0 {
            Record::Event { x, y, polarity: address / 0x800 % 2 == 1 }
        } else {
            Record::Other
        }
    } else if readout == 0 || readout == 1 {
        Record::Aps { x, y, reset: readout == 0, adc: (address % 0x400) as u16 }
    } else if readout == 3 && field < 7 {
        Record::Imu {
            field: field as usize,
            reading: signed(address / 0x1000 % 0x1_0000, 0x8000) as i16,
        }
    } else {
        Record::Other
    }
}

/// What an address encodes.
pub fn classify(address: u32) -> (record: Record)
    ensures
        record == classified(address as int),
{
    let x: u16 = (address / 0x1000 % 0x400) as u16;
    let y: u16 = (address / 0x40_0000 % 0x200) as u16;
    let readout: u32 = address / 0x400 % 4;
    if address < 0x8000_0000 {
        return if readout % 2 == 0 {
            Record::Event { x, y, polarity: address / 0x800 % 2 == 1 }
        } else {
            Record::Other
        };
    }
    if readout == 0 || readout == 1 {
        return Record::Aps { x, y, reset: readout == 0, adc: (address % 0x400) as u16 };
    }
    let field: usize = (address / 0x1000_0000 % 8) as usize;
    if readout == 3 && field < 7 {
        Record::Imu { field, reading: signed16((address / 0x1000 % 0x1_0000) as u16) }
    } else {
        Record::Other
    }
}

/// The number of whole records.
pub open spec fn record_count(d: Seq<u8>) -> int {
    d.len() as int / 8
}

/// The counter of the `i`-th record.
#[verifier::opaque]
pub open spec fn raw_time(d: Seq<u8>, i: int) -> int {
    be32(d, 8 * i + 4)
}

/// What the `i`-th record encodes.
#[verifier::opaque]
pub open spec fn record_at(d: Seq<u8>, i: int) -> Record {
    classified(be32(d, 8 * i))
}

/// A counter has 32 bits.
pub proof fn raw_time_fits(d: Seq<u8>, i: int)
    ensures
        0 <= raw_time(d, i) <= u32::MAX,
{
    reveal(raw_time);
}

/// Whether the counter rolled over between two readings.
pub open spec fn rolls(previous: int, raw: int) -> bool {
    previous - raw > 0x8000_0000
}

/// A clock one period later.
pub open spec fn later(wrap: i64) -> i64 {
    wrap.wrapping_add(0x1_0000_0000i64)
}

/// What has been added to the counter by the time the `i`-th record is read, if `base` was at the
/// first. Sums wrap as machine integers do.
pub open spec fn wrap_at(d: Seq<u8>, base: i64, i: int) -> i64
    decreases i,
{
    if i <= 0 {
        base
    } else if rolls(raw_time(d, i - 1), raw_time(d, i)) {
        later(wrap_at(d, base, i - 1))
    } else {
        wrap_at(d, base, i - 1)
    }
}

/// The time of the `i`-th record.
pub open spec fn time_of(d: Seq<u8>, base: i64, i: int) -> i64 {
    wrap_at(d, base, i).wrapping_add(raw_time(d, i) as i64)
}

/// Turns the wrapping counter into a clock.
#[derive(Clone, Copy, Debug)]
pub struct Clock {
    pub wrap: i64,
    pub previous: Option<u32>,
}

impl Clock {
    /// A clock about to read the `i`-th record.
    pub open spec fn before(&self, d: Seq<u8>, base: i64, i: int) -> bool {
        if i == 0 {
            self.previous is None && self.wrap == base
        } else {
            self.previous matches Some(p) && p == raw_time(d, i - 1) && self.wrap == wrap_at(
                d,
                base,
                i - 1,
            )
        }
    }

    /// A clock that starts `wrap` after the counter.
    pub fn new(wrap: i64) -> (clock: Self)
        ensures
            forall|d: Seq<u8>| #[trigger] clock.before(d, wrap, 0),
            clock.wrap == wrap,
            clock.previous is None,
    {
        Clock { wrap, previous: None }
    }

    /// Reads the counter and gives the time.
    pub fn tick(&mut self, raw: u32) -> (t: i64)
        ensures
            final(self).previous == Some(raw),
            final(self).wrap == if old(self).previous matches Some(p) && rolls(p as int, raw as int) {
                later(old(self).wrap)
            } else {
                old(self).wrap
            },
            t == final(self).wrap.wrapping_add(raw as i64),
    {
        if let Some(p) = self.previous {
            if p > raw && p - raw > WRAP_THRESHOLD {
                self.wrap = self.wrap.wrapping_add(WRAP_PERIOD);
            }
        }
        self.previous = Some(raw);
        self.wrap.wrapping_add(raw as i64)
    }

    /// Reads the `i`-th record: what it encodes, and its time.
    pub(crate) fn read(&mut self, bytes: &[u8], i: usize, Ghost(base): Ghost<i64>) -> (read: (Record, i64))
        requires
            i < record_count(bytes@),
            old(self).before(bytes@, base, i as int),
        ensures
            final(self).before(bytes@, base, i + 1),
            final(self).wrap == wrap_at(bytes@, base, i as int),
            read.0 == record_at(bytes@, i as int),
            read.1 == time_of(bytes@, base, i as int),
    {
        reveal(raw_time);
        reveal(record_at);
        assert(8 * i + 8 <= bytes.len());
        let at: usize = i * 8;
        let address = read_u32_be(bytes, at);
        let raw = read_u32_be(bytes, at + 4);
        (classify(address), self.tick(raw))
    }
}

/// Reading on from the `s`-th record gives the times that reading from the start gives.
pub proof fn clock_resumes(d: Seq<u8>, base: i64, s: int, j: int)
    requires
        0 <= s,
        0 <= j,
        8 * (s + j) + 8 <= d.len(),
    ensures
        wrap_at(d, base, s + j) == wrap_at(d.skip(8 * s), wrap_at(d, base, s), j),
        time_of(d, base, s + j) == time_of(d.skip(8 * s), wrap_at(d, base, s), j),
        record_at(d, s + j) == record_at(d.skip(8 * s), j),
        raw_time(d, s + j) == raw_time(d.skip(8 * s), j),
    decreases j,
{
    reveal(raw_time);
    reveal(record_at);
    let rest = d.skip(8 * s);
    assert(rest[8 * j] == d[8 * (s + j)] && rest[8 * j + 1] == d[8 * (s + j) + 1]);
    assert(rest[8 * j + 2] == d[8 * (s + j) + 2] && rest[8 * j + 3] == d[8 * (s + j) + 3]);
    assert(rest[8 * j + 4] == d[8 * (s + j) + 4] && rest[8 * j + 5] == d[8 * (s + j) + 5]);
    assert(rest[8 * j + 6] == d[8 * (s + j) + 6] && rest[8 * j + 7] == d[8 * (s + j) + 7]);
    if j > 0 {
        clock_resumes(d, base, s, j - 1);
    }
}

/// A row counted from the top.
pub open spec fn flipped(y: u16, height: int) -> u16 {
    ((height - 1 - y) % 0x1_0000) as u16
}

/// The event of a record on a sensor, with its row counted from the top.
pub open spec fn sensor_event(r: Record, t: i64, width: int, height: int) -> Option<RawEvent> {
    match r {
        Record::Event { x, y, polarity } => if x < width && y < height {
            Some(RawEvent { x, y: flipped(y, height), t, p: polarity })
        } else {
            None
        },
        _ => None,
    }
}

/// The events of the first `n` records.
pub open spec fn events_of(d: Seq<u8>, base: i64, n: int, width: int, height: int) -> Seq<RawEvent>
    decreases n,
{
    if n <= 0 {
        Seq::empty()
    } else {
        let rest = events_of(d, base, n - 1, width, height);
        match sensor_event(record_at(d, n - 1), time_of(d, base, n - 1), width, height) {
            Some(e) => rest.push(e),
            None => rest,
        }
    }
}

/// The events of a recording are those before a record and those from it on.
pub proof fn events_resume(d: Seq<u8>, base: i64, s: int, n: int, width: int, height: int)
    requires
        0 <= s <= n <= record_count(d),
    ensures
        events_of(d, base, n, width, height) == events_of(d, base, s, width, height) + events_of(
            d.skip(8 * s),
            wrap_at(d, base, s),
            n - s,
            width,
            height,
        ),
    decreases n - s,
{
    let rest = d.skip(8 * s);
    let b = wrap_at(d, base, s);
    if n == s {
        assert(events_of(d, base, s, width, height) + events_of(rest, b, 0, width, height)
            =~= events_of(d, base, s, width, height));
    } else {
        events_resume(d, base, s, n - 1, width, height);
        clock_resumes(d, base, s, n - 1 - s);
        assert(events_of(d, base, n, width, height) =~= events_of(d, base, s, width, height)
            + events_of(rest, b, n - s, width, height));
    }
}

pub proof fn events_bounded(d: Seq<u8>, base: i64, n: int, width: int, height: int)
    ensures
        events_of(d, base, n, width, height).len() <= if n > 0 {
            n
        } else {
            0
        },
    decreases n,
{
    if n > 0 {
        events_bounded(d, base, n - 1, width, height);
    }
}

/// The event of a record on a sensor.
pub fn to_event(record: Record, t: i64, width: usize, height: usize) -> (event: Option<RawEvent>)
    ensures
        event == sensor_event(record, t, width as int, height as int),
{
    match record {
        Record::Event { x, y, polarity } => {
            if (x as usize) < width && (y as usize) < height {
                let row: usize = height - 1 - y as usize;
                Some(RawEvent { x, y: (row % 0x1_0000) as u16, t, p: polarity })
            } else {
                None
            }
        },
        _ => None,
    }
}

} // verus!
