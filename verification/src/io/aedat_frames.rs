//! The frames and inertial samples of an AEDAT 2 recording.
//!
//! A frame is read twice, the signal level and then the reset level, and its pixels are the
//! difference of the two. An inertial sample is split across seven records.

use vstd::prelude::*;

use crate::io::aedat::AedatSliceSource;
use crate::io::aedat_records::{record_at, record_count, time_of, Clock, Record, RECORD};
use crate::representation::{pixel_in_plane, EventFrame, EventFrameData, RepresentationKind};

verus! {

/// One more, unless there is no larger number.
pub open spec fn one_more(n: usize) -> usize {
    if n < usize::MAX {
        (n + 1) as usize
    } else {
        n
    }
}

/// One read of the array, as far as it has been filled.
pub ghost struct PlaneState {
    pub samples: Seq<u16>,
    pub written: usize,
    pub first: i64,
}

/// The two reads of a frame.
pub ghost struct FrameState {
    pub signal: PlaneState,
    pub reset: PlaneState,
    pub readout: Option<bool>,
}

/// Before the first sample of a frame of `n` pixels.
pub open spec fn no_samples(n: int) -> FrameState {
    let blank = PlaneState { samples: Seq::new(n as nat, |i: int| 0u16), written: 0, first: 0 };
    FrameState { signal: blank, reset: blank, readout: None }
}

/// What the start of a block of samples does: a signal block starts a new frame.
pub open spec fn block_opened(s: FrameState, reset: bool, t: i64) -> FrameState {
    if s.readout == Some(reset) {
        s
    } else if reset {
        FrameState {
            reset: PlaneState { written: 0, first: t, ..s.reset },
            readout: Some(true),
            ..s
        }
    } else {
        FrameState {
            signal: PlaneState { written: 0, first: t, ..s.signal },
            reset: PlaneState { written: 0, ..s.reset },
            readout: Some(false),
        }
    }
}

/// A plane with one more sample, its row counted from the top.
pub open spec fn sampled(p: PlaneState, x: u16, y: u16, adc: u16, width: int, height: int) -> PlaneState {
    if x < width && y < height {
        PlaneState {
            samples: p.samples.update((height - 1 - y) * width + x, adc),
            written: one_more(p.written),
            first: p.first,
        }
    } else {
        p
    }
}

/// The state after a sample, before a complete frame is taken out.
pub open spec fn filed(
    s: FrameState,
    x: u16,
    y: u16,
    reset: bool,
    adc: u16,
    t: i64,
    width: int,
    height: int,
) -> FrameState {
    let o = block_opened(s, reset, t);
    if reset {
        FrameState { reset: sampled(o.reset, x, y, adc, width, height), ..o }
    } else {
        FrameState { signal: sampled(o.signal, x, y, adc, width, height), ..o }
    }
}

/// Whether both reads are full.
pub open spec fn complete(s: FrameState) -> bool {
    s.signal.written >= s.signal.samples.len() && s.reset.written >= s.reset.samples.len()
}

/// The pixels of a frame: reset level less signal level, no less than zero.
pub open spec fn differences(s: FrameState) -> Seq<u16> {
    Seq::new(
        s.reset.samples.len(),
        |i: int|
            if s.reset.samples[i] > s.signal.samples[i] {
                (s.reset.samples[i] - s.signal.samples[i]) as u16
            } else {
                0
            },
    )
}

/// The frame that a sample completes.
pub open spec fn completed(
    s: FrameState,
    x: u16,
    y: u16,
    reset: bool,
    adc: u16,
    t: i64,
    width: int,
    height: int,
) -> Option<(i64, Seq<u16>)> {
    let f = filed(s, x, y, reset, adc, t, width, height);
    if reset && complete(f) {
        Some((f.signal.first, differences(f)))
    } else {
        None
    }
}

/// The state after a sample.
pub open spec fn pushed(
    s: FrameState,
    x: u16,
    y: u16,
    reset: bool,
    adc: u16,
    t: i64,
    width: int,
    height: int,
) -> FrameState {
    let f = filed(s, x, y, reset, adc, t, width, height);
    if reset && complete(f) {
        FrameState {
            signal: PlaneState { written: 0, ..f.signal },
            reset: PlaneState { written: 0, ..f.reset },
            readout: None,
        }
    } else {
        f
    }
}

struct Plane {
    samples: Vec<u16>,
    written: usize,
    first: i64,
}

impl Plane {
    spec fn state(&self) -> PlaneState {
        PlaneState { samples: self.samples@, written: self.written, first: self.first }
    }

    fn file(&mut self, x: u16, y: u16, adc: u16, width: usize, height: usize)
        requires
            old(self).samples@.len() == width * height,
        ensures
            final(self).state() == sampled(
                old(self).state(),
                x,
                y,
                adc,
                width as int,
                height as int,
            ),
            final(self).samples@.len() == width * height,
    {
        if (x as usize) < width && (y as usize) < height {
            let row: usize = height - 1 - y as usize;
            assert(self.samples.len() == width * height);
            proof {
                pixel_in_plane(x as int, row as int, width as int, height as int);
                assert(0 <= row * width) by (nonlinear_arith)
                    requires
                        0 <= row,
                        0 <= width,
                ;
            }
            self.samples.set(row * width + x as usize, adc);
            if self.written < usize::MAX {
                self.written += 1;
            }
        }
    }
}

/// Reassembles frames from samples.
pub struct FrameDecoder {
    width: usize,
    height: usize,
    signal: Plane,
    reset: Plane,
    readout: Option<bool>,
}

impl FrameDecoder {
    pub closed spec fn state(&self) -> FrameState {
        FrameState { signal: self.signal.state(), reset: self.reset.state(), readout: self.readout }
    }

    pub closed spec fn width(&self) -> int {
        self.width as int
    }

    pub closed spec fn height(&self) -> int {
        self.height as int
    }

    /// Both planes have a sample for every pixel.
    pub closed spec fn wf(&self) -> bool {
        &&& self.signal.samples@.len() == self.width * self.height
        &&& self.reset.samples@.len() == self.width * self.height
    }

    pub fn new(width: usize, height: usize) -> (decoder: Self)
        requires
            width * height <= usize::MAX,
        ensures
            decoder.wf(),
            decoder.width() == width,
            decoder.height() == height,
            decoder.state() == no_samples(width * height),
    {
        assert(0 <= width * height) by (nonlinear_arith);
        let n: usize = width * height;
        let mut a: Vec<u16> = Vec::new();
        a.resize(n, 0);
        let mut b: Vec<u16> = Vec::new();
        b.resize(n, 0);
        let decoder = FrameDecoder {
            width,
            height,
            signal: Plane { samples: a, written: 0, first: 0 },
            reset: Plane { samples: b, written: 0, first: 0 },
            readout: None,
        };
        assert(decoder.signal.samples@ =~= no_samples(n as int).signal.samples);
        assert(decoder.reset.samples@ =~= no_samples(n as int).reset.samples);
        decoder
    }

    /// The pixels of a complete frame.
    fn take(&self) -> (pixels: Vec<u16>)
        requires
            self.wf(),
        ensures
            pixels@ == differences(self.state()),
    {
        let n: usize = self.reset.samples.len();
        let mut pixels: Vec<u16> = Vec::with_capacity(n);
        for i in 0..n
            invariant
                self.wf(),
                n == self.reset.samples@.len(),
                n == self.signal.samples@.len(),
                pixels@ == differences(self.state()).take(i as int),
        {
            let high = self.reset.samples[i];
            let low = self.signal.samples[i];
            pixels.push(
                if high > low {
                    high - low
                } else {
                    0
                },
            );
            assert(pixels@ =~= differences(self.state()).take(i + 1));
        }
        assert(differences(self.state()).take(n as int) =~= differences(self.state()));
        pixels
    }

    /// Files a sample, giving the frame it completed.
    pub fn push(&mut self, x: u16, y: u16, reset: bool, adc: u16, t: i64) -> (frame: Option<
        (i64, EventFrame),
    >)
        requires
            old(self).wf(),
        ensures
            final(self).wf(),
            final(self).width() == old(self).width(),
            final(self).height() == old(self).height(),
            final(self).state() == pushed(
                old(self).state(),
                x,
                y,
                reset,
                adc,
                t,
                old(self).width(),
                old(self).height(),
            ),
            ({
                let made = completed(
                    old(self).state(),
                    x,
                    y,
                    reset,
                    adc,
                    t,
                    old(self).width(),
                    old(self).height(),
                );
                match frame {
                    Some((stamp, f)) => made is Some && stamp == (made->0).0 && is_intensity(
                        f,
                        (made->0).1,
                        old(self).width(),
                        old(self).height(),
                    ),
                    None => made is None,
                }
            }),
    {
        let same = match self.readout {
            Some(current) => current == reset,
            None => false,
        };
        if !same {
            if reset {
                self.reset.written = 0;
                self.reset.first = t;
            } else {
                self.signal.written = 0;
                self.signal.first = t;
                self.reset.written = 0;
            }
            self.readout = Some(reset);
        }
        if reset {
            self.reset.file(x, y, adc, self.width, self.height);
        } else {
            self.signal.file(x, y, adc, self.width, self.height);
        }
        if !(reset && self.signal.written >= self.signal.samples.len() && self.reset.written
            >= self.reset.samples.len()) {
            return None;
        }
        let pixels = self.take();
        let stamp = self.signal.first;
        self.signal.written = 0;
        self.reset.written = 0;
        self.readout = None;
        let ghost values = pixels@;
        match EventFrame::intensity(EventFrameData::U16(pixels), self.width, self.height) {
            Ok(frame) => Some((stamp, frame)),
            Err(_) => {
                assert(values.len() == self.width * self.height);
                None
            },
        }
    }
}

/// A greyscale frame with the given pixels.
pub open spec fn is_intensity(f: EventFrame, pixels: Seq<u16>, width: int, height: int) -> bool {
    &&& f.samples() matches EventFrameData::U16(v) && v@ == pixels
    &&& f.width() == width
    &&& f.height() == height
    &&& f.shown() == RepresentationKind::Intensity
    &&& f.names() == seq!["intensity"@]
    &&& f.wf()
}

/// The frames from the `i`-th record on. Reading stops where a new signal block opens at or after
/// `t1`; a frame counts if its stamp lies in the window.
pub open spec fn frames_from(
    d: Seq<u8>,
    base: i64,
    i: int,
    s: FrameState,
    in_signal: bool,
    t0: i64,
    t1: i64,
    width: int,
    height: int,
) -> Seq<(i64, Seq<u16>)>
    decreases record_count(d) - i,
{
    if i >= record_count(d) {
        Seq::empty()
    } else {
        let t = time_of(d, base, i);
        match record_at(d, i) {
            Record::Aps { x, y, reset, adc } => if !reset && !in_signal && t >= t1 {
                Seq::empty()
            } else {
                let next = pushed(s, x, y, reset, adc, t, width, height);
                let rest = frames_from(d, base, i + 1, next, !reset, t0, t1, width, height);
                match completed(s, x, y, reset, adc, t, width, height) {
                    Some((stamp, pixels)) => if t0 <= stamp < t1 {
                        seq![(stamp, pixels)] + rest
                    } else {
                        rest
                    },
                    None => rest,
                }
            },
            _ => frames_from(d, base, i + 1, s, in_signal, t0, t1, width, height),
        }
    }
}

/// Frames with their stamps, as plain values.
pub open spec fn are_frames(
    frames: Seq<(i64, EventFrame)>,
    values: Seq<(i64, Seq<u16>)>,
    width: int,
    height: int,
) -> bool {
    &&& frames.len() == values.len()
    &&& forall|i: int|
        0 <= i < frames.len() ==> (#[trigger] frames[i]).0 == values[i].0 && is_intensity(
            frames[i].1,
            values[i].1,
            width,
            height,
        )
}

/// The raw readings of an inertial sample: acceleration and rotation about three axes.
#[derive(Clone, Copy, Debug, PartialEq, Eq)]
pub struct ImuCounts {
    pub t: i64,
    pub acceleration: (i16, i16, i16),
    pub rotation: (i16, i16, i16),
}

/// The seven readings of a sample, as far as they have come.
pub ghost struct ImuState {
    pub readings: Seq<i16>,
    pub seen: Seq<bool>,
    pub t: i64,
}

pub open spec fn no_readings() -> ImuState {
    ImuState {
        readings: Seq::new(7, |i: int| 0i16),
        seen: Seq::new(7, |i: int| false),
        t: 0,
    }
}

/// The state after a reading, before a complete sample is taken out. The first field, or one that
/// repeats, starts a new sample.
pub open spec fn noted(s: ImuState, field: int, reading: i16, t: i64) -> ImuState {
    let fresh = field == 0 || s.seen[field];
    ImuState {
        readings: s.readings.update(field, reading),
        seen: (if fresh {
            Seq::new(7, |i: int| false)
        } else {
            s.seen
        }).update(field, true),
        t: if fresh {
            t
        } else {
            s.t
        },
    }
}

/// Whether all seven readings have come.
pub open spec fn all_seen(s: ImuState) -> bool {
    forall|i: int| 0 <= i < 7 ==> #[trigger] s.seen[i]
}

/// The sample that a reading completes.
pub open spec fn imu_completed(s: ImuState, field: int, reading: i16, t: i64) -> Option<ImuCounts> {
    let n = noted(s, field, reading, t);
    if all_seen(n) {
        Some(
            ImuCounts {
                t: n.t,
                acceleration: (n.readings[0], n.readings[1], n.readings[2]),
                rotation: (n.readings[4], n.readings[5], n.readings[6]),
            },
        )
    } else {
        None
    }
}

/// The state after a reading.
pub open spec fn imu_pushed(s: ImuState, field: int, reading: i16, t: i64) -> ImuState {
    let n = noted(s, field, reading, t);
    if all_seen(n) {
        ImuState { seen: Seq::new(7, |i: int| false), ..n }
    } else {
        n
    }
}

/// Reassembles inertial samples from the records they are split across.
#[derive(Debug)]
pub struct ImuDecoder {
    readings: [i16; 7],
    seen: [bool; 7],
    t: i64,
}

impl ImuDecoder {
    pub closed spec fn state(&self) -> ImuState {
        ImuState { readings: self.readings@, seen: self.seen@, t: self.t }
    }

    pub fn new() -> (decoder: Self)
        ensures
            decoder.state() == no_readings(),
    {
        let decoder = ImuDecoder { readings: [0; 7], seen: [false; 7], t: 0 };
        assert(decoder.readings@ =~= no_readings().readings);
        assert(decoder.seen@ =~= no_readings().seen);
        decoder
    }

    /// Files one of the seven readings, giving the sample it completed.
    pub fn push(&mut self, field: usize, reading: i16, t: i64) -> (sample: Option<ImuCounts>)
        requires
            field < 7,
        ensures
            final(self).state() == imu_pushed(old(self).state(), field as int, reading, t),
            sample == imu_completed(old(self).state(), field as int, reading, t),
    {
        if field == 0 || self.seen[field] {
            self.seen = [false; 7];
            self.t = t;
        }
        self.readings[field] = reading;
        self.seen[field] = true;
        let ghost n = noted(old(self).state(), field as int, reading, t);
        assert(self.readings@ =~= n.readings);
        assert(self.seen@ =~= n.seen);
        if !(self.seen[0] && self.seen[1] && self.seen[2] && self.seen[3] && self.seen[4]
            && self.seen[5] && self.seen[6]) {
            assert(!all_seen(n));
            return None;
        }
        self.seen = [false; 7];
        assert(self.seen@ =~= Seq::new(7, |i: int| false));
        Some(
            ImuCounts {
                t: self.t,
                acceleration: (self.readings[0], self.readings[1], self.readings[2]),
                rotation: (self.readings[4], self.readings[5], self.readings[6]),
            },
        )
    }
}

/// The samples from the `i`-th record on. Reading stops at the first record at or after `t1`; a
/// sample counts if it is not before `t0`.
pub open spec fn samples_from(
    d: Seq<u8>,
    base: i64,
    i: int,
    s: ImuState,
    t0: i64,
    t1: i64,
) -> Seq<ImuCounts>
    decreases record_count(d) - i,
{
    if i >= record_count(d) || time_of(d, base, i) >= t1 {
        Seq::empty()
    } else {
        let t = time_of(d, base, i);
        match record_at(d, i) {
            Record::Imu { field, reading } => {
                let rest = samples_from(
                    d,
                    base,
                    i + 1,
                    imu_pushed(s, field as int, reading, t),
                    t0,
                    t1,
                );
                match imu_completed(s, field as int, reading, t) {
                    Some(sample) => if sample.t >= t0 {
                        seq![sample] + rest
                    } else {
                        rest
                    },
                    None => rest,
                }
            },
            _ => samples_from(d, base, i + 1, s, t0, t1),
        }
    }
}

proof fn imu_field_fits(d: Seq<u8>, i: int)
    ensures
        record_at(d, i) matches Record::Imu { field, reading } ==> field < 7,
{
    reveal(record_at);
}

impl AedatSliceSource {
    /// The frames whose stamp lies from `t0` to before `t1`, given the bytes from
    /// [`checkpoint_for_time`](Self::checkpoint_for_time) on.
    pub fn frames(&self, tail: &[u8], t0: i64, t1: i64) -> (frames: Vec<(i64, EventFrame)>)
        requires
            self.width() * self.height() <= usize::MAX,
        ensures
            match self.time_state(t0 as int) {
                None => frames@.len() == 0,
                Some(cp) => are_frames(
                    frames@,
                    frames_from(
                        tail@,
                        cp.wrap,
                        0,
                        no_samples(self.width() * self.height()),
                        false,
                        t0,
                        t1,
                        self.width(),
                        self.height(),
                    ),
                    self.width(),
                    self.height(),
                ),
            },
    {
        let mut frames: Vec<(i64, EventFrame)> = Vec::new();
        let cp = match self.checkpoint_for_time(t0) {
            Some(cp) => cp,
            None => {
                return frames;
            },
        };
        let (width, height) = self.sensor_size();
        let mut decoder = FrameDecoder::new(width, height);
        let mut in_signal = false;
        let mut clock = Clock::new(cp.wrap);
        let count: usize = tail.len() / RECORD;
        let ghost d = tail@;
        let ghost base = cp.wrap;
        let ghost w = self.width();
        let ghost h = self.height();
        let ghost wanted = frames_from(d, base, 0, no_samples(w * h), false, t0, t1, w, h);
        let ghost mut values: Seq<(i64, Seq<u16>)> = Seq::empty();
        assert(clock.before(d, base, 0));
        assert(values + wanted =~= wanted);
        let mut i: usize = 0;
        while i < count
            invariant_except_break
                i <= count,
                count == record_count(d),
                d == tail@,
                base == cp.wrap,
                w == width,
                h == height,
                clock.before(d, base, i as int),
                decoder.wf(),
                decoder.width() == w,
                decoder.height() == h,
                are_frames(frames@, values, w, h),
                wanted == values + frames_from(
                    d,
                    base,
                    i as int,
                    decoder.state(),
                    in_signal,
                    t0,
                    t1,
                    w,
                    h,
                ),
                i == count ==> wanted == values,
            ensures
                are_frames(frames@, wanted, w, h),
            decreases count - i,
        {
            let (record, t) = clock.read(tail, i, Ghost(base));
            let ghost before = decoder.state();
            match record {
                Record::Aps { x, y, reset, adc } => {
                    if !reset && !in_signal && t >= t1 {
                        assert(values + Seq::<(i64, Seq<u16>)>::empty() =~= values);
                        break;
                    }
                    in_signal = !reset;
                    match decoder.push(x, y, reset, adc, t) {
                        Some((stamp, frame)) => {
                            if t0 <= stamp && stamp < t1 {
                                let ghost value = completed(before, x, y, reset, adc, t, w, h)->0;
                                let ghost earlier = frames@;
                                frames.push((stamp, frame));
                                proof {
                                    let rest = frames_from(
                                        d,
                                        base,
                                        i + 1,
                                        decoder.state(),
                                        in_signal,
                                        t0,
                                        t1,
                                        w,
                                        h,
                                    );
                                    assert(values.push(value) + rest =~= values + (seq![value]
                                        + rest));
                                    values = values.push(value);
                                }
                            }
                        },
                        None => {},
                    }
                },
                _ => {},
            }
            i += 1;
            proof {
                if i == count {
                    assert(values + Seq::<(i64, Seq<u16>)>::empty() =~= values);
                }
            }
        }
        frames
    }

    /// The inertial samples from `t0` to before `t1`, given the bytes from
    /// [`checkpoint_for_time`](Self::checkpoint_for_time) on.
    pub fn imu(&self, tail: &[u8], t0: i64, t1: i64) -> (samples: Vec<ImuCounts>)
        ensures
            match self.time_state(t0 as int) {
                None => samples@.len() == 0,
                Some(cp) => samples@ == samples_from(tail@, cp.wrap, 0, no_readings(), t0, t1),
            },
    {
        let mut samples: Vec<ImuCounts> = Vec::new();
        let cp = match self.checkpoint_for_time(t0) {
            Some(cp) => cp,
            None => {
                return samples;
            },
        };
        let mut decoder = ImuDecoder::new();
        let mut clock = Clock::new(cp.wrap);
        let count: usize = tail.len() / RECORD;
        let ghost d = tail@;
        let ghost base = cp.wrap;
        let ghost wanted = samples_from(d, base, 0, no_readings(), t0, t1);
        assert(clock.before(d, base, 0));
        assert(samples@ + wanted =~= wanted);
        let mut i: usize = 0;
        while i < count
            invariant_except_break
                i <= count,
                count == record_count(d),
                d == tail@,
                base == cp.wrap,
                clock.before(d, base, i as int),
                wanted == samples@ + samples_from(d, base, i as int, decoder.state(), t0, t1),
                i == count ==> wanted == samples@,
            ensures
                samples@ == wanted,
            decreases count - i,
        {
            let (record, t) = clock.read(tail, i, Ghost(base));
            if t >= t1 {
                assert(samples@ + Seq::<ImuCounts>::empty() =~= samples@);
                break;
            }
            proof {
                imu_field_fits(d, i as int);
            }
            match record {
                Record::Imu { field, reading } => {
                    match decoder.push(field, reading, t) {
                        Some(sample) => {
                            if sample.t >= t0 {
                                let ghost before = samples@;
                                samples.push(sample);
                                proof {
                                    let rest = samples_from(
                                        d,
                                        base,
                                        i + 1,
                                        decoder.state(),
                                        t0,
                                        t1,
                                    );
                                    assert(before.push(sample) + rest =~= before + (seq![sample]
                                        + rest));
                                }
                            }
                        },
                        None => {},
                    }
                },
                _ => {},
            }
            i += 1;
            proof {
                if i == count {
                    assert(samples_from(d, base, i as int, decoder.state(), t0, t1)
                        == Seq::<ImuCounts>::empty());
                    assert(samples@ + Seq::<ImuCounts>::empty() =~= samples@);
                }
            }
        }
        samples
    }
}

} // verus!
