//! What the records of AEDAT 2 and DAT recordings mean, and what a clock, a frame and an inertial
//! sample make of them.

use vstd::prelude::*;

use crate::bytes::le32_bytes;
use crate::io::aedat_frames::{
    completed, filed, frames_from, imu_completed, imu_pushed, pushed, samples_from, FrameState,
    ImuCounts, ImuState, PlaneState,
};
use crate::io::aedat_records::{
    classified, events_of, raw_time, record_at, record_count, sensor_event, time_of, wrap_at, Record,
};
use crate::io::prophesee::{record_event, record_events};
use crate::places::{are_places, places_push};
use crate::stream::RawEvent;

verus! {

/// An address below half the range with bit 10 clear is an event: the row from bit 22 on, the column
/// from bit 12 on, and the polarity in bit 11. With bit 10 set it is not used.
pub proof fn event_address(x: u16, y: u16, polarity: bool, special: bool, low: int)
    requires
        x < 0x400,
        y < 0x200,
        0 <= low < 0x400,
    ensures
        classified(
            y * 0x40_0000 + x * 0x1000 + (if polarity {
                0x800int
            } else {
                0
            }) + (if special {
                0x400int
            } else {
                0
            }) + low,
        ) == (if special {
            Record::Other
        } else {
            Record::Event { x, y, polarity }
        }),
{
    let m = y * 0x400 + x;
    let r: int = (if polarity {
        2int
    } else {
        0
    }) + (if special {
        1int
    } else {
        0
    });
    address_parts(m, r, low);
    assert(m % 0x400 == x && m / 0x400 == y);
}

/// An address from half the range on is a sample of the array where bit 11 is clear: of the signal
/// level if bit 10 is set, of the reset level if not, in the ten low bits.
pub proof fn sample_address(x: u16, y: u16, reset: bool, adc: u16)
    requires
        x < 0x400,
        y < 0x200,
        adc < 0x400,
    ensures
        classified(
            0x8000_0000 + y * 0x40_0000 + x * 0x1000 + (if reset {
                0int
            } else {
                0x400
            }) + adc,
        ) == (Record::Aps { x, y, reset, adc }),
{
    let m = 0x8_0000 + y * 0x400 + x;
    address_parts(
        m,
        if reset {
            0
        } else {
            1
        },
        adc as int,
    );
    assert(m % 0x400 == x && m / 0x400 == 0x200 + y);
    assert((0x200 + y) % 0x200 == y);
}

/// An address from half the range on is an inertial reading where bits 10 and 11 are set: the field
/// from bit 28 on and the reading, as a two's complement, from bit 12 on. An eighth field is not
/// used, nor is an address with bit 10 clear and bit 11 set.
#[verifier::spinoff_prover]
#[verifier::rlimit(40)]
pub proof fn reading_address(field: int, reading: i16, low: int)
    requires
        0 <= field < 8,
        0 <= low < 0x400,
    ensures
        ({
            let bits = if reading < 0 {
                reading + 0x1_0000
            } else {
                reading as int
            };
            let address = 0x8000_0000 + field * 0x1000_0000 + bits * 0x1000 + low;
            &&& classified(address + 0xC00) == (if field < 7 {
                Record::Imu { field: field as usize, reading }
            } else {
                Record::Other
            })
            &&& classified(address + 0x800) == Record::Other
        }),
{
    let bits = if reading < 0 {
        reading + 0x1_0000
    } else {
        reading as int
    };
    let m = 0x8_0000 + field * 0x1_0000 + bits;
    address_parts(m, 3, low);
    address_parts(m, 2, low);
    assert(m % 0x1_0000 == bits && m / 0x1_0000 == 8 + field);
    assert((8 + field) % 8 == field);
}

proof fn address_parts(m: int, r: int, low: int)
    requires
        0 <= m < 0x10_0000,
        0 <= r < 4,
        0 <= low < 0x400,
    ensures
        ({
            let a = m * 0x1000 + r * 0x400 + low;
            &&& a / 0x1000 == m
            &&& a / 0x400 % 4 == r
            &&& a / 0x800 % 2 == r / 2
            &&& a % 0x400 == low
            &&& a / 0x40_0000 == m / 0x400
            &&& a / 0x1000_0000 == m / 0x1_0000
            &&& a >= 0x8000_0000 <==> m >= 0x8_0000
        }),
{
    let a = m * 0x1000 + r * 0x400 + low;
    assert(a / 0x400 == 4 * m + r);
    assert(a / 0x800 == 2 * m + r / 2);
    assert(a / 0x1000 == m);
    assert(a / 0x40_0000 == a / 0x1000 / 0x400);
    assert(a / 0x1000_0000 == a / 0x1000 / 0x1_0000);
}

/// A clock gives back the times that a recording's counter was taken from, as long as they do not
/// fall and two of them in a row are less than half the counter's range apart.
pub proof fn clock_recovers(d: Seq<u8>, times: Seq<int>, base: i64, i: int)
    requires
        0 <= i < times.len(),
        forall|j: int| 0 <= j < times.len() ==> 0 <= (#[trigger] times[j]) <= i64::MAX,
        forall|j: int|
            0 <= j < times.len() ==> #[trigger] raw_time(d, j) == times[j] % 0x1_0000_0000,
        forall|j: int|
            0 < j < times.len() ==> times[j - 1] <= #[trigger] times[j] < times[j - 1] + 0x8000_0000,
        base == times[0] - times[0] % 0x1_0000_0000,
    ensures
        time_of(d, base, i) == times[i],
    decreases i,
{
    clock_carries(d, times, base, i);
}

#[verifier::spinoff_prover]
#[verifier::rlimit(40)]
proof fn clock_carries(d: Seq<u8>, times: Seq<int>, base: i64, i: int)
    requires
        0 <= i < times.len(),
        forall|j: int| 0 <= j < times.len() ==> 0 <= (#[trigger] times[j]) <= i64::MAX,
        forall|j: int|
            0 <= j < times.len() ==> #[trigger] raw_time(d, j) == times[j] % 0x1_0000_0000,
        forall|j: int|
            0 < j < times.len() ==> times[j - 1] <= #[trigger] times[j] < times[j - 1] + 0x8000_0000,
        base == times[0] - times[0] % 0x1_0000_0000,
    ensures
        wrap_at(d, base, i) == times[i] - times[i] % 0x1_0000_0000,
        time_of(d, base, i) == times[i],
    decreases i,
{
    assert(raw_time(d, i) == times[i] % 0x1_0000_0000);
    assert(0 <= times[i] <= i64::MAX);
    if i > 0 {
        clock_carries(d, times, base, i - 1);
        assert(raw_time(d, i - 1) == times[i - 1] % 0x1_0000_0000);
        assert(times[i - 1] <= times[i] < times[i - 1] + 0x8000_0000);
    }
}

/// Two counters in a row are as far apart as they read, unless the second is more than half the
/// range below the first: then the clock has gone on by a whole range.
pub proof fn clock_steps(d: Seq<u8>, base: i64, i: int)
    requires
        0 < i,
        0 <= wrap_at(d, base, i - 1) < 0x4000_0000_0000_0000,
    ensures
        raw_time(d, i - 1) - raw_time(d, i) > 0x8000_0000 ==> time_of(d, base, i) - time_of(
            d,
            base,
            i - 1,
        ) == raw_time(d, i) - raw_time(d, i - 1) + 0x1_0000_0000,
        raw_time(d, i - 1) - raw_time(d, i) <= 0x8000_0000 ==> time_of(d, base, i) - time_of(
            d,
            base,
            i - 1,
        ) == raw_time(d, i) - raw_time(d, i - 1),
{
    crate::io::aedat_records::raw_time_fits(d, i);
    crate::io::aedat_records::raw_time_fits(d, i - 1);
}

/// The events of a recording are its event records on the sensor, in their order, each with the
/// time of its record and its row counted from the top.
pub proof fn recorded_events(
    d: Seq<u8>,
    base: i64,
    n: int,
    width: int,
    height: int,
) -> (places: Seq<int>)
    requires
        0 <= n,
        0 <= height <= 0x1_0000,
    ensures
        are_places(
            places,
            n,
            |i: int|
                record_at(d, i) is Event && record_at(d, i)->Event_x < width && record_at(
                    d,
                    i,
                )->Event_y < height,
        ),
        events_of(d, base, n, width, height).len() == places.len(),
        forall|k: int|
            0 <= k < places.len() ==> {
                let e = #[trigger] events_of(d, base, n, width, height)[k];
                let r = record_at(d, places[k]);
                &&& e.x == r->Event_x
                &&& e.y + r->Event_y == height - 1
                &&& e.p == r->Event_polarity
                &&& e.t == time_of(d, base, places[k])
            },
    decreases n,
{
    let holds = |i: int|
        record_at(d, i) is Event && record_at(d, i)->Event_x < width && record_at(d, i)->Event_y
            < height;
    if n == 0 {
        Seq::empty()
    } else {
        let before = recorded_events(d, base, n - 1, width, height);
        places_push(before, n - 1, holds);
        let r = record_at(d, n - 1);
        assert(sensor_event(r, time_of(d, base, n - 1), width, height) is Some == holds(n - 1));
        if holds(n - 1) {
            before.push(n - 1)
        } else {
            before
        }
    }
}

/// A plane of a frame in which one sample has changed.
pub open spec fn gains(now: PlaneState, then: PlaneState, place: int, adc: u16) -> bool {
    &&& now.samples.len() == then.samples.len()
    &&& now.samples[place] == adc
    &&& forall|i: int|
        0 <= i < now.samples.len() && i != place ==> #[trigger] now.samples[i] == then.samples[i]
}

/// A sample on the sensor goes to its pixel, rows counted from the top, in the plane of its level,
/// and the other plane keeps its samples. The first sample of a level after one of the other opens
/// a block, which counts anew from one and is stamped with its time; a signal block empties the
/// count of the reset level as well.
pub proof fn sample_goes_to_its_pixel(
    s: FrameState,
    x: u16,
    y: u16,
    reset: bool,
    adc: u16,
    t: i64,
    width: int,
    height: int,
)
    requires
        x < width,
        y < height,
        s.signal.samples.len() == width * height,
        s.reset.samples.len() == width * height,
        s.signal.written < usize::MAX,
        s.reset.written < usize::MAX,
    ensures
        ({
            let f = filed(s, x, y, reset, adc, t, width, height);
            let place = (height - 1 - y) * width + x;
            let opens = s.readout != Some(reset);
            &&& f.readout == Some(reset)
            &&& reset ==> {
                &&& gains(f.reset, s.reset, place, adc)
                &&& f.signal == s.signal
                &&& opens ==> f.reset.written == 1 && f.reset.first == t
                &&& !opens ==> f.reset.written == s.reset.written + 1 && f.reset.first
                    == s.reset.first
            }
            &&& !reset ==> {
                &&& gains(f.signal, s.signal, place, adc)
                &&& f.reset.samples == s.reset.samples
                &&& opens ==> f.signal.written == 1 && f.signal.first == t && f.reset.written == 0
                &&& !opens ==> f.signal.written == s.signal.written + 1 && f.signal.first
                    == s.signal.first && f.reset.written == s.reset.written
            }
        }),
{
    crate::representation::pixel_in_plane(x as int, height - 1 - y, width, height);
}

/// A frame is complete with the reset sample that fills the second of its two planes. It is stamped
/// with the first sample of its signal block, and a pixel is how far the reset level lies above the
/// signal level, or zero.
pub proof fn frame_is_the_difference(
    s: FrameState,
    x: u16,
    y: u16,
    reset: bool,
    adc: u16,
    t: i64,
    width: int,
    height: int,
)
    requires
        s.signal.samples.len() == width * height,
        s.reset.samples.len() == width * height,
    ensures
        ({
            let f = filed(s, x, y, reset, adc, t, width, height);
            let n = f.signal.samples.len();
            let next = pushed(s, x, y, reset, adc, t, width, height);
            match completed(s, x, y, reset, adc, t, width, height) {
                Some((stamp, pixels)) => {
                    &&& reset && f.signal.written >= n && f.reset.written >= n
                    &&& stamp == f.signal.first
                    &&& next.signal.written == 0 && next.reset.written == 0 && next.readout is None
                    &&& pixels.len() == n
                    &&& forall|i: int|
                        0 <= i < n ==> {
                            &&& f.reset.samples[i] >= f.signal.samples[i] ==> (#[trigger] pixels[i])
                                + f.signal.samples[i] == f.reset.samples[i]
                            &&& f.reset.samples[i] < f.signal.samples[i] ==> pixels[i] == 0
                        }
                },
                None => next == f && (!reset || f.signal.written < n || f.reset.written < n),
            }
        }),
{
    if x < width && y < height {
        crate::representation::pixel_in_plane(x as int, height - 1 - y, width, height);
    }
    let f = filed(s, x, y, reset, adc, t, width, height);
    assert(f.signal.samples.len() == width * height && f.reset.samples.len() == width * height);
}

/// The frames of a time window are those that are read up to its end and not stamped before its
/// beginning.
pub proof fn frames_in_window(
    d: Seq<u8>,
    base: i64,
    i: int,
    s: FrameState,
    in_signal: bool,
    t0: i64,
    t1: i64,
    width: int,
    height: int,
)
    ensures
        frames_from(d, base, i, s, in_signal, t0, t1, width, height) == frames_from(
            d,
            base,
            i,
            s,
            in_signal,
            i64::MIN,
            t1,
            width,
            height,
        ).filter(|f: (i64, Seq<u16>)| t0 <= f.0),
        forall|k: int|
            0 <= k < frames_from(d, base, i, s, in_signal, t0, t1, width, height).len() ==> t0 <= (
            #[trigger] frames_from(d, base, i, s, in_signal, t0, t1, width, height)[k]).0 < t1,
    decreases record_count(d) - i,
{
    let late = |f: (i64, Seq<u16>)| t0 <= f.0;
    if i < record_count(d) {
        let t = time_of(d, base, i);
        match record_at(d, i) {
            Record::Aps { x, y, reset, adc } => {
                if !(!reset && !in_signal && t >= t1) {
                    let next = pushed(s, x, y, reset, adc, t, width, height);
                    frames_in_window(d, base, i + 1, next, !reset, t0, t1, width, height);
                    let all = frames_from(
                        d,
                        base,
                        i + 1,
                        next,
                        !reset,
                        i64::MIN,
                        t1,
                        width,
                        height,
                    );
                    if let Some(f) = completed(s, x, y, reset, adc, t, width, height) {
                        let one = seq![f];
                        Seq::filter_distributes_over_add(one, all, late);
                        one_filtered(f, late);
                        assert(Seq::<(i64, Seq<u16>)>::empty() + all.filter(late) =~= all.filter(
                            late,
                        ));
                    }
                } else {
                    nothing_filtered(late);
                }
            },
            _ => {
                frames_in_window(d, base, i + 1, s, in_signal, t0, t1, width, height);
            },
        }
    } else {
        nothing_filtered(late);
    }
}

proof fn nothing_filtered<A>(keep: spec_fn(A) -> bool)
    ensures
        Seq::<A>::empty().filter(keep) == Seq::<A>::empty(),
{
    reveal(Seq::filter);
}

proof fn one_filtered<A>(a: A, keep: spec_fn(A) -> bool)
    ensures
        seq![a].filter(keep) == (if keep(a) {
            seq![a]
        } else {
            Seq::empty()
        }),
{
    reveal(Seq::filter);
    nothing_filtered(keep);
    assert(seq![a].drop_last() =~= Seq::<A>::empty());
    assert(Seq::<A>::empty().push(a) =~= seq![a]);
}

/// The seven readings of a sample, in their order, make a sample whatever came before: the first
/// three are the acceleration, the fourth is not used and the last three are the rotation. It is
/// stamped with the first.
#[verifier::spinoff_prover]
#[verifier::rlimit(40)]
pub proof fn seven_readings_make_a_sample(s: ImuState, r: Seq<i16>, ts: Seq<i64>)
    requires
        s.readings.len() == 7,
        s.seen.len() == 7,
        r.len() == 7,
        ts.len() == 7,
    ensures
        ({
            let s1 = imu_pushed(s, 0, r[0], ts[0]);
            let s2 = imu_pushed(s1, 1, r[1], ts[1]);
            let s3 = imu_pushed(s2, 2, r[2], ts[2]);
            let s4 = imu_pushed(s3, 3, r[3], ts[3]);
            let s5 = imu_pushed(s4, 4, r[4], ts[4]);
            let s6 = imu_pushed(s5, 5, r[5], ts[5]);
            &&& imu_completed(s, 0, r[0], ts[0]) is None
            &&& imu_completed(s1, 1, r[1], ts[1]) is None
            &&& imu_completed(s2, 2, r[2], ts[2]) is None
            &&& imu_completed(s3, 3, r[3], ts[3]) is None
            &&& imu_completed(s4, 4, r[4], ts[4]) is None
            &&& imu_completed(s5, 5, r[5], ts[5]) is None
            &&& imu_completed(s6, 6, r[6], ts[6]) == Some(
                ImuCounts {
                    t: ts[0],
                    acceleration: (r[0], r[1], r[2]),
                    rotation: (r[4], r[5], r[6]),
                },
            )
        }),
{
    let s1 = crate::io::aedat_frames::noted(s, 0, r[0], ts[0]);
    assert(!s1.seen[6]);
    let s2 = crate::io::aedat_frames::noted(s1, 1, r[1], ts[1]);
    assert(!s2.seen[6]);
    let s3 = crate::io::aedat_frames::noted(s2, 2, r[2], ts[2]);
    assert(!s3.seen[6]);
    let s4 = crate::io::aedat_frames::noted(s3, 3, r[3], ts[3]);
    assert(!s4.seen[6]);
    let s5 = crate::io::aedat_frames::noted(s4, 4, r[4], ts[4]);
    assert(!s5.seen[6]);
    let s6 = crate::io::aedat_frames::noted(s5, 5, r[5], ts[5]);
    assert(!s6.seen[6]);
}

/// A reading starts a new sample if it is the first field or repeats one; a sample is complete once
/// every field has come since it was started, and keeps the readings that came.
pub proof fn reading_joins_a_sample(s: ImuState, field: int, reading: i16, t: i64)
    requires
        s.readings.len() == 7,
        s.seen.len() == 7,
        0 <= field < 7,
    ensures
        ({
            let fresh = field == 0 || s.seen[field];
            let others = forall|i: int| 0 <= i < 7 && i != field ==> #[trigger] s.seen[i];
            let n = imu_pushed(s, field, reading, t);
            &&& imu_completed(s, field, reading, t) is Some <==> !fresh && others
            &&& imu_completed(s, field, reading, t) matches Some(c) ==> c.t == s.t
            &&& n.readings[field] == reading
            &&& forall|i: int|
                0 <= i < 7 && i != field ==> #[trigger] n.readings[i] == s.readings[i]
            &&& imu_completed(s, field, reading, t) is None ==> {
                &&& n.seen[field]
                &&& forall|i: int|
                    0 <= i < 7 && i != field ==> #[trigger] n.seen[i] == (s.seen[i] && !fresh)
                &&& n.t == if fresh {
                    t
                } else {
                    s.t
                }
            }
            &&& imu_completed(s, field, reading, t) is Some ==> forall|i: int|
                0 <= i < 7 ==> !#[trigger] n.seen[i]
        }),
{
    let m = crate::io::aedat_frames::noted(s, field, reading, t);
    let fresh = field == 0 || s.seen[field];
    let other = if field == 0 {
        1int
    } else {
        0
    };
    if fresh {
        assert(!m.seen[other]);
    } else if crate::io::aedat_frames::all_seen(m) {
        assert forall|i: int| 0 <= i < 7 && i != field implies #[trigger] s.seen[i] by {
            assert(m.seen[i]);
        }
    }
}

/// The samples of a time window are those that are read up to its end and not stamped before its
/// beginning.
pub proof fn samples_in_window(d: Seq<u8>, base: i64, i: int, s: ImuState, t0: i64, t1: i64)
    ensures
        samples_from(d, base, i, s, t0, t1) == samples_from(d, base, i, s, i64::MIN, t1).filter(
            |c: ImuCounts| t0 <= c.t,
        ),
    decreases record_count(d) - i,
{
    let late = |c: ImuCounts| t0 <= c.t;
    if i < record_count(d) && time_of(d, base, i) < t1 {
        let t = time_of(d, base, i);
        match record_at(d, i) {
            Record::Imu { field, reading } => {
                let next = imu_pushed(s, field as int, reading, t);
                samples_in_window(d, base, i + 1, next, t0, t1);
                let all = samples_from(d, base, i + 1, next, i64::MIN, t1);
                if let Some(c) = imu_completed(s, field as int, reading, t) {
                    Seq::filter_distributes_over_add(seq![c], all, late);
                    one_filtered(c, late);
                    assert(Seq::<ImuCounts>::empty() + all.filter(late) =~= all.filter(late));
                }
            },
            _ => {
                samples_in_window(d, base, i + 1, s, t0, t1);
            },
        }
    } else {
        nothing_filtered(late);
    }
}

/// A DAT record is a 32-bit time and a 32-bit word, least significant byte first: the column in the
/// 14 low bits of the word, the row in the next 14, and the polarity in bit 28. The bits above are
/// not used.
#[verifier::spinoff_prover]
#[verifier::rlimit(40)]
pub proof fn record_reads_back(
    before: Seq<u8>,
    t: u32,
    x: u16,
    y: u16,
    p: bool,
    high: int,
    after: Seq<u8>,
)
    requires
        x < 0x4000,
        y < 0x4000,
        0 <= high < 8,
    ensures
        record_event(
            before + (le32_bytes(t as int) + le32_bytes(
                x + y * 0x4000 + (if p {
                    0x1000_0000int
                } else {
                    0
                }) + high * 0x2000_0000,
            )) + after,
            before.len() as int,
        ) == (RawEvent { x, y, t: t as i64, p }),
{
    let word = x + y * 0x4000 + (if p {
        0x1000_0000int
    } else {
        0
    }) + high * 0x2000_0000;
    word_parts(
        x as int,
        y as int,
        if p {
            1
        } else {
            0
        },
        high,
    );
    let a = le32_bytes(t as int);
    let b = le32_bytes(word);
    let data = before + (a + b) + after;
    let at = before.len() as int;
    assert(data[at] == a[0] && data[at + 1] == a[1] && data[at + 2] == a[2] && data[at + 3]
        == a[3]);
    assert(data[at + 4] == b[0] && data[at + 5] == b[1] && data[at + 6] == b[2] && data[at + 7]
        == b[3]);
    crate::bytes::word_round_trip(t as int);
    crate::bytes::word_round_trip(word);
    assert(crate::bytes::le32(data, at) == t);
    assert(crate::bytes::le32(data, at + 4) == word);
}

proof fn word_parts(x: int, y: int, p: int, high: int)
    requires
        0 <= x < 0x4000,
        0 <= y < 0x4000,
        0 <= p < 2,
        0 <= high < 8,
    ensures
        ({
            let word = x + y * 0x4000 + p * 0x1000_0000 + high * 0x2000_0000;
            &&& word % 0x4000 == x
            &&& word / 0x4000 % 0x4000 == y
            &&& word / 0x1000_0000 % 2 == p
            &&& 0 <= word < 0x1_0000_0000
        }),
{
    let word = x + y * 0x4000 + p * 0x1000_0000 + high * 0x2000_0000;
    assert(word / 0x4000 == y + p * 0x4000 + high * 0x8000);
    assert(word / 0x1000_0000 == p + high * 2);
}

/// Every eight bytes are a record, and fewer at the end are none.
pub proof fn records_in_turn(data: Seq<u8>, at: int, i: int)
    requires
        0 <= at <= data.len(),
        0 <= i,
    ensures
        8 * record_events(data, at).len() <= data.len() - at < 8 * record_events(data, at).len() + 8,
        at + 8 * i + 8 <= data.len() ==> record_events(data, at)[i] == record_event(
            data,
            at + 8 * i,
        ),
{
}

/// Frames of a state whose signal block opened late are late.
#[verifier::spinoff_prover]
#[verifier::rlimit(40)]
proof fn late_stamps(
    d: Seq<u8>,
    base: i64,
    i: int,
    s: FrameState,
    in_signal: bool,
    late: int,
    width: int,
    height: int,
)
    requires
        0 <= i,
        s.signal.first >= late,
        forall|a: int| i <= a < record_count(d) ==> #[trigger] time_of(d, base, a) >= late,
    ensures
        forall|k: int|
            0 <= k < frames_from(
                d,
                base,
                i,
                s,
                in_signal,
                i64::MIN,
                i64::MAX,
                width,
                height,
            ).len() ==> (#[trigger] frames_from(
                d,
                base,
                i,
                s,
                in_signal,
                i64::MIN,
                i64::MAX,
                width,
                height,
            )[k]).0 >= late,
    decreases record_count(d) - i,
{
    let all = frames_from(d, base, i, s, in_signal, i64::MIN, i64::MAX, width, height);
    if i < record_count(d) {
        let t = time_of(d, base, i);
        match record_at(d, i) {
            Record::Aps { x, y, reset, adc } => {
                if !(!reset && !in_signal && t >= i64::MAX) {
                    let next = pushed(s, x, y, reset, adc, t, width, height);
                    late_stamps(d, base, i + 1, next, !reset, late, width, height);
                    let rest = frames_from(
                        d,
                        base,
                        i + 1,
                        next,
                        !reset,
                        i64::MIN,
                        i64::MAX,
                        width,
                        height,
                    );
                    let done = completed(s, x, y, reset, adc, t, width, height);
                    assert(done is None ==> all == rest);
                    assert(done is Some ==> (done->0).0 >= late);
                    assert forall|k: int| 0 <= k < all.len() implies (#[trigger] all[k]).0
                        >= late by {
                        if all != rest {
                            assert(all == seq![done->0] + rest);
                            if k > 0 {
                                assert(all[k] == rest[k - 1]);
                            }
                        } else {
                            assert(all[k] == rest[k]);
                        }
                    }
                } else {
                    assert(all.len() == 0);
                }
            },
            _ => {
                late_stamps(d, base, i + 1, s, in_signal, late, width, height);
                assert(all == frames_from(
                    d,
                    base,
                    i + 1,
                    s,
                    in_signal,
                    i64::MIN,
                    i64::MAX,
                    width,
                    height,
                ));
            },
        }
    } else {
        assert(all.len() == 0);
    }
}

proof fn late_filtered(frames: Seq<(i64, Seq<u16>)>, t0: i64, t1: i64)
    requires
        forall|k: int| 0 <= k < frames.len() ==> (#[trigger] frames[k]).0 >= t1,
    ensures
        frames.filter(|f: (i64, Seq<u16>)| t0 <= f.0 && f.0 < t1) == Seq::<
            (i64, Seq<u16>),
        >::empty(),
    decreases frames.len(),
{
    reveal(Seq::filter);
    if frames.len() > 0 {
        let rest = frames.drop_last();
        assert forall|k: int| 0 <= k < rest.len() implies (#[trigger] rest[k]).0 >= t1 by {
            assert(rest[k] == frames[k]);
        }
        late_filtered(rest, t0, t1);
        assert(frames.last() == frames[frames.len() - 1]);
    }
}

/// Stopping early loses no frame: in a recording whose times do not fall, the frames of a time window
/// are exactly those of the whole recording that are stamped in it.
#[verifier::spinoff_prover]
#[verifier::rlimit(40)]
pub proof fn frames_of_the_window(
    d: Seq<u8>,
    base: i64,
    i: int,
    s: FrameState,
    in_signal: bool,
    t0: i64,
    t1: i64,
    width: int,
    height: int,
)
    requires
        0 <= i,
        in_signal <==> s.readout == Some(false),
        s.signal.first < i64::MAX,
        forall|a: int| i <= a < record_count(d) ==> #[trigger] time_of(d, base, a) < i64::MAX,
        forall|a: int, b: int|
            i <= a <= b < record_count(d) ==> #[trigger] time_of(d, base, a) <= #[trigger] time_of(
                d,
                base,
                b,
            ),
    ensures
        frames_from(d, base, i, s, in_signal, t0, t1, width, height) == frames_from(
            d,
            base,
            i,
            s,
            in_signal,
            i64::MIN,
            i64::MAX,
            width,
            height,
        ).filter(|f: (i64, Seq<u16>)| t0 <= f.0 && f.0 < t1),
    decreases record_count(d) - i,
{
    let inside = |f: (i64, Seq<u16>)| t0 <= f.0 && f.0 < t1;
    if i < record_count(d) {
        let t = time_of(d, base, i);
        match record_at(d, i) {
            Record::Aps { x, y, reset, adc } => {
                let next = pushed(s, x, y, reset, adc, t, width, height);
                let rest = frames_from(
                    d,
                    base,
                    i + 1,
                    next,
                    !reset,
                    i64::MIN,
                    i64::MAX,
                    width,
                    height,
                );
                if !reset && !in_signal && t >= t1 {
                    assert(next.signal.first == t);
                    late_stamps(d, base, i + 1, next, !reset, t1 as int, width, height);
                    late_filtered(rest, t0, t1);
                } else {
                    frames_of_the_window(d, base, i + 1, next, !reset, t0, t1, width, height);
                    if let Some(f) = completed(s, x, y, reset, adc, t, width, height) {
                        Seq::filter_distributes_over_add(seq![f], rest, inside);
                        one_filtered(f, inside);
                        assert(Seq::<(i64, Seq<u16>)>::empty() + rest.filter(inside)
                            =~= rest.filter(inside));
                    }
                }
            },
            _ => {
                frames_of_the_window(d, base, i + 1, s, in_signal, t0, t1, width, height);
            },
        }
    } else {
        nothing_filtered(inside);
    }
}

proof fn prefix_agrees(d: Seq<u8>, k: int, base: i64, j: int)
    requires
        0 <= j < k,
        8 * k <= d.len(),
    ensures
        raw_time(d.take(8 * k), j) == raw_time(d, j),
        record_at(d.take(8 * k), j) == record_at(d, j),
        wrap_at(d.take(8 * k), base, j) == wrap_at(d, base, j),
        time_of(d.take(8 * k), base, j) == time_of(d, base, j),
    decreases j,
{
    reveal(raw_time);
    reveal(record_at);
    let head = d.take(8 * k);
    assert(head[8 * j] == d[8 * j] && head[8 * j + 1] == d[8 * j + 1]);
    assert(head[8 * j + 2] == d[8 * j + 2] && head[8 * j + 3] == d[8 * j + 3]);
    assert(head[8 * j + 4] == d[8 * j + 4] && head[8 * j + 5] == d[8 * j + 5]);
    assert(head[8 * j + 6] == d[8 * j + 6] && head[8 * j + 7] == d[8 * j + 7]);
    if j > 0 {
        prefix_agrees(d, k, base, j - 1);
    }
}

/// The samples of a time window are those that the records before the first one at or after its end
/// hold.
pub proof fn samples_end_with_the_window(
    d: Seq<u8>,
    base: i64,
    i: int,
    k: int,
    s: ImuState,
    t0: i64,
    t1: i64,
)
    requires
        0 <= i <= k <= record_count(d),
        forall|j: int| i <= j < k ==> #[trigger] time_of(d, base, j) < t1,
        k == record_count(d) || time_of(d, base, k) >= t1,
    ensures
        samples_from(d, base, i, s, t0, t1) == samples_from(
            d.take(8 * k),
            base,
            i,
            s,
            t0,
            i64::MAX,
        ),
    decreases k - i,
{
    let head = d.take(8 * k);
    assert(record_count(head) == k);
    if i < k {
        prefix_agrees(d, k, base, i);
        assert(time_of(d, base, i) < t1);
        match record_at(d, i) {
            Record::Imu { field, reading } => {
                let t = time_of(d, base, i);
                samples_end_with_the_window(
                    d,
                    base,
                    i + 1,
                    k,
                    imu_pushed(s, field as int, reading, t),
                    t0,
                    t1,
                );
            },
            _ => {
                samples_end_with_the_window(d, base, i + 1, k, s, t0, t1);
            },
        }
    }
}

} // verus!
