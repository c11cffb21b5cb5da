//! Frames of the events in a time window.
//!
//! Ages are counted in ticks. Whether an age lies in a window, and what weight it has there, is
//! decided by the caller, who knows how long a tick is.

use vstd::prelude::*;
use vstd::string::*;

use crate::chars::{decimal, decimal_string, join2};
use crate::floats::order;
use crate::representation::surfaces::{cell_fault, is_positive, latest_is_some, validate_positive};
use crate::representation::{
    age, event_index, first_outside, first_outside_prefix, frame_len, latest_time, names_of,
    pixel_in_plane, reference_time, EventFrame, EventFrameData, RepresentationError,
    RepresentationKind,
};
use crate::stream::{widened, EventStream, RawEvent};

verus! {

/// The age of every event, in ticks before the latest.
pub open spec fn ages_of(events: Seq<RawEvent>) -> Seq<u64> {
    Seq::new(
        events.len(),
        |i: int| age(latest_time(events)->0, widened(events[i]).timestamp),
    )
}

/// The age of every event, in ticks before the latest.
pub fn event_ages(stream: &EventStream) -> (ages: Vec<u64>)
    requires
        stream.wf(),
    ensures
        ages@ == ages_of(stream.events()),
{
    let n: usize = stream.len();
    let reference = reference_time(stream);
    let mut ages: Vec<u64> = Vec::with_capacity(n);
    for i in 0..n
        invariant
            stream.wf(),
            n == stream.events().len(),
            reference == latest_time(stream.events()),
            ages@.len() == i,
            forall|j: int|
                0 <= j < i ==> #[trigger] ages@[j] == age(
                    reference->0,
                    widened(stream.events()[j]).timestamp,
                ),
    {
        proof {
            latest_is_some(stream.events());
        }
        let t = stream.event(i).timestamp;
        let r = match reference {
            Some(r) => r,
            None => t,
        };
        ages.push(
            if r >= t {
                r - t
            } else {
                0
            },
        );
    }
    assert(ages@ =~= ages_of(stream.events()));
    ages
}

/// The first event from `i` on that lies in a window and outside the sensor.
pub open spec fn first_stray(
    events: Seq<RawEvent>,
    inside: Seq<bool>,
    width: int,
    height: int,
    i: int,
) -> int
    decreases events.len() - i,
{
    if i >= events.len() || (inside[i] && !(events[i].x < width && events[i].y < height)) {
        i
    } else {
        first_stray(events, inside, width, height, i + 1)
    }
}

/// The error for an event outside the sensor.
pub open spec fn stray_error(e: RawEvent, width: int, height: int) -> RepresentationError {
    RepresentationError::EventOutOfBounds {
        x: e.x as usize,
        y: e.y as usize,
        width: width as usize,
        height: height as usize,
    }
}

/// The pixel of every event in the window; `None` for the others.
pub open spec fn windowed_pixels(
    events: Seq<RawEvent>,
    inside: Seq<bool>,
    width: int,
) -> Seq<Option<usize>> {
    Seq::new(
        events.len(),
        |i: int|
            if inside[i] {
                Some((events[i].y * width + events[i].x) as usize)
            } else {
                None
            },
    )
}

fn pixels_inside(stream: &EventStream, inside: &[bool]) -> (pixels: Result<
    Vec<Option<usize>>,
    RepresentationError,
>)
    requires
        stream.wf(),
        inside@.len() == stream.events().len(),
        stream.width() * stream.height() <= usize::MAX,
    ensures
        ({
            let stray = first_stray(stream.events(), inside@, stream.width(), stream.height(), 0);
            match pixels {
                Ok(p) => {
                    &&& stray == stream.events().len()
                    &&& p@ == windowed_pixels(stream.events(), inside@, stream.width())
                    &&& forall|i: int|
                        0 <= i < p@.len() ==> (#[trigger] p@[i] matches Some(c) ==> c
                            < stream.width() * stream.height() && c == stream.events()[i].y
                            * stream.width() + stream.events()[i].x)
                },
                Err(e) => stray < stream.events().len() && e == stray_error(
                    stream.events()[stray],
                    stream.width(),
                    stream.height(),
                ),
            }
        }),
{
    let (width, height) = stream.sensor_size();
    let n: usize = stream.len();
    let ghost events = stream.events();
    let mut pixels: Vec<Option<usize>> = Vec::with_capacity(n);
    for i in 0..n
        invariant
            stream.wf(),
            events == stream.events(),
            n == events.len(),
            n == inside@.len(),
            width == stream.width(),
            height == stream.height(),
            width * height <= usize::MAX,
            first_stray(events, inside@, width as int, height as int, 0) == first_stray(
                events,
                inside@,
                width as int,
                height as int,
                i as int,
            ),
            pixels@.len() == i,
            forall|j: int|
                0 <= j < i ==> (#[trigger] pixels@[j] == if inside@[j] {
                    Some((events[j].y * width + events[j].x) as usize)
                } else {
                    None
                }),
            forall|j: int|
                0 <= j < i ==> (#[trigger] pixels@[j] matches Some(c) ==> c < width * height && c
                    == events[j].y * width + events[j].x),
    {
        if inside[i] {
            match event_index(stream.event(i), width, height) {
                Ok(index) => {
                    pixels.push(Some(index));
                },
                Err(error) => {
                    return Err(error);
                },
            }
        } else {
            pixels.push(None);
        }
    }
    assert(pixels@ =~= windowed_pixels(events, inside@, width as int));
    Ok(pixels)
}

/// An event that a voxel grid takes in.
#[derive(Clone, Copy, Debug, PartialEq, Eq, Structural)]
pub struct VoxelStep {
    /// The number of the event in the stream.
    pub event: usize,
    /// The place of its pixel in a plane.
    pub pixel: usize,
    pub polarity: bool,
}

/// Signed events, spread over the time bins of a window.
#[derive(Clone, Copy, Debug)]
pub struct VoxelGrid {
    bins: usize,
    /// The bit pattern of the length of the window in milliseconds.
    window_bits: u64,
}

/// What a voxel grid takes in of the first `n` events.
pub open spec fn voxel_steps(
    events: Seq<RawEvent>,
    inside: Seq<bool>,
    width: int,
    n: int,
) -> Seq<VoxelStep>
    decreases n,
{
    if n <= 0 {
        Seq::empty()
    } else if inside[n - 1] {
        voxel_steps(events, inside, width, n - 1).push(
            VoxelStep {
                event: (n - 1) as usize,
                pixel: (events[n - 1].y * width + events[n - 1].x) as usize,
                polarity: events[n - 1].p,
            },
        )
    } else {
        voxel_steps(events, inside, width, n - 1)
    }
}

impl VoxelGrid {
    pub closed spec fn bin_count(&self) -> int {
        self.bins as int
    }

    pub closed spec fn window(&self) -> u64 {
        self.window_bits
    }

    /// A grid with a window in milliseconds, given by its bit pattern.
    pub fn new(bins: usize, window_bits: u64) -> (grid: Self)
        ensures
            grid.bin_count() == bins,
            grid.window() == window_bits,
    {
        VoxelGrid { bins, window_bits }
    }

    /// What is wrong with the grid for a stream, if anything.
    pub open spec fn fault(&self, stream: &EventStream) -> Option<RepresentationError> {
        if self.bin_count() == 0 {
            Some(RepresentationError::InvalidParameter("bins"))
        } else if !is_positive(self.window()) {
            Some(RepresentationError::InvalidParameter("window_ms"))
        } else if stream.width() * stream.height() > usize::MAX || stream.width() * stream.height()
            * self.bin_count() > usize::MAX {
            Some(RepresentationError::SizeOverflow)
        } else {
            None
        }
    }

    /// The number of samples of the grid of a stream, and the age of each event.
    pub fn ages(&self, stream: &EventStream) -> (ages: Result<
        (usize, Vec<u64>),
        RepresentationError,
    >)
        requires
            stream.wf(),
        ensures
            match ages {
                Ok((length, a)) => {
                    &&& self.fault(stream) is None
                    &&& length == stream.width() * stream.height() * self.bin_count()
                    &&& a@ == ages_of(stream.events())
                },
                Err(e) => self.fault(stream) == Some(e),
            },
    {
        if self.bins == 0 {
            return Err(RepresentationError::InvalidParameter("bins"));
        }
        match validate_positive(self.window_bits, "window_ms") {
            Ok(()) => {},
            Err(error) => {
                return Err(error);
            },
        }
        match frame_len(stream, self.bins) {
            Ok((_, _, length)) => Ok((length, event_ages(stream))),
            Err(error) => Err(error),
        }
    }

    /// The events that the grid takes in, given which lie in the window.
    pub fn steps(&self, stream: &EventStream, inside: &[bool]) -> (steps: Result<
        Vec<VoxelStep>,
        RepresentationError,
    >)
        requires
            stream.wf(),
            inside@.len() == stream.events().len(),
            self.fault(stream) is None,
        ensures
            ({
                let stray = first_stray(
                    stream.events(),
                    inside@,
                    stream.width(),
                    stream.height(),
                    0,
                );
                match steps {
                    Ok(s) => stray == stream.events().len() && s@ == voxel_steps(
                        stream.events(),
                        inside@,
                        stream.width(),
                        stream.events().len() as int,
                    ),
                    Err(e) => stray < stream.events().len() && e == stray_error(
                        stream.events()[stray],
                        stream.width(),
                        stream.height(),
                    ),
                }
            }),
    {
        let pixels = match pixels_inside(stream, inside) {
            Ok(pixels) => pixels,
            Err(error) => {
                return Err(error);
            },
        };
        let n: usize = stream.len();
        let ghost events = stream.events();
        let mut steps: Vec<VoxelStep> = Vec::new();
        for i in 0..n
            invariant
                stream.wf(),
                events == stream.events(),
                n == events.len(),
                pixels@ == windowed_pixels(events, inside@, stream.width()),
                steps@ == voxel_steps(events, inside@, stream.width(), i as int),
        {
            if let Some(pixel) = pixels[i] {
                steps.push(VoxelStep { event: i, pixel, polarity: stream.get(i).p });
            }
        }
        Ok(steps)
    }

    /// The frame of a grid, given its samples.
    pub fn frame(&self, values: Vec<u32>, width: usize, height: usize) -> (frame: EventFrame)
        ensures
            frame.samples() matches EventFrameData::F32(v) && v@ == values@,
            frame.width() == width,
            frame.height() == height,
            frame.shown() == RepresentationKind::Voxel,
            frame.names() == Seq::new(
                self.bin_count() as nat,
                |i: int| "bin_"@ + decimal(i as nat),
            ),
    {
        let mut names: Vec<String> = Vec::new();
        for bin in 0..self.bins
            invariant
                names@.len() == bin,
                forall|j: int|
                    0 <= j < bin ==> (#[trigger] names@[j])@ == "bin_"@ + decimal(j as nat),
        {
            names.push(join2("bin_", decimal_string(bin as u64).as_str()));
        }
        let frame = EventFrame::from_parts(
            EventFrameData::F32(values),
            width,
            height,
            RepresentationKind::Voxel,
            names,
        );
        assert(names_of(names@) =~= Seq::new(
            self.bin_count() as nat,
            |i: int| "bin_"@ + decimal(i as nat),
        ));
        frame
    }
}

/// The event that decides a pixel: the latest in the window, and of equally late ones the last.
pub open spec fn winner(
    events: Seq<RawEvent>,
    pixels: Seq<Option<usize>>,
    pixel: int,
    n: int,
) -> Option<RawEvent>
    decreases n,
{
    if n <= 0 {
        None
    } else {
        let before = winner(events, pixels, pixel, n - 1);
        if pixels[n - 1] matches Some(p) && p == pixel {
            match before {
                Some(e) if widened(events[n - 1]).timestamp < widened(e).timestamp => before,
                _ => Some(events[n - 1]),
            }
        } else {
            before
        }
    }
}

/// The polarity and the age of the latest event at each pixel.
#[derive(Debug)]
pub struct Winners {
    pub width: usize,
    pub height: usize,
    pub pixels: Vec<Option<(bool, u64)>>,
}

/// The winners of a stream in a window.
pub open spec fn winners_of(stream: &EventStream, inside: Seq<bool>) -> Seq<Option<(bool, u64)>> {
    let events = stream.events();
    Seq::new(
        (stream.width() * stream.height()) as nat,
        |i: int|
            match winner(
                events,
                windowed_pixels(events, inside, stream.width()),
                i,
                events.len() as int,
            ) {
                Some(e) => Some((e.p, age(latest_time(events)->0, widened(e).timestamp))),
                None => None,
            },
    )
}

/// The polarity of the latest event at each pixel and how old it is, as colours.
#[derive(Clone, Copy, Debug)]
pub struct Tencode {
    /// The bit pattern of the length of the window in milliseconds.
    window_bits: u64,
}

impl Tencode {
    pub closed spec fn window(&self) -> u64 {
        self.window_bits
    }

    /// An encoding with a window in milliseconds, given by its bit pattern.
    pub fn new(window_bits: u64) -> (encoding: Self)
        ensures
            encoding.window() == window_bits,
    {
        Tencode { window_bits }
    }

    /// What is wrong with the encoding of a stream, if anything.
    pub open spec fn fault(&self, stream: &EventStream) -> Option<RepresentationError> {
        if !is_positive(self.window()) {
            Some(RepresentationError::InvalidParameter("window_ms"))
        } else if stream.width() * stream.height() > usize::MAX || stream.width() * stream.height()
            * 3 > usize::MAX {
            Some(RepresentationError::SizeOverflow)
        } else {
            None
        }
    }

    /// The age of each event.
    pub fn ages(&self, stream: &EventStream) -> (ages: Result<Vec<u64>, RepresentationError>)
        requires
            stream.wf(),
        ensures
            match ages {
                Ok(a) => self.fault(stream) is None && a@ == ages_of(stream.events()),
                Err(e) => self.fault(stream) == Some(e),
            },
    {
        match validate_positive(self.window_bits, "window_ms") {
            Ok(()) => {},
            Err(error) => {
                return Err(error);
            },
        }
        match frame_len(stream, 3) {
            Ok(_) => Ok(event_ages(stream)),
            Err(error) => Err(error),
        }
    }

    /// The latest event at each pixel, given which events lie in the window.
    pub fn winners(&self, stream: &EventStream, inside: &[bool]) -> (winners: Result<
        Winners,
        RepresentationError,
    >)
        requires
            stream.wf(),
            inside@.len() == stream.events().len(),
            self.fault(stream) is None,
        ensures
            ({
                let stray = first_stray(
                    stream.events(),
                    inside@,
                    stream.width(),
                    stream.height(),
                    0,
                );
                match winners {
                    Ok(w) => {
                        &&& stray == stream.events().len()
                        &&& w.width == stream.width()
                        &&& w.height == stream.height()
                        &&& w.pixels@ == winners_of(stream, inside@)
                    },
                    Err(e) => stray < stream.events().len() && e == stray_error(
                        stream.events()[stray],
                        stream.width(),
                        stream.height(),
                    ),
                }
            }),
    {
        let (width, height) = stream.sensor_size();
        let pixels = match pixels_inside(stream, inside) {
            Ok(pixels) => pixels,
            Err(error) => {
                return Err(error);
            },
        };
        proof {
            assert(0 <= width * height) by (nonlinear_arith);
        }
        let plane: usize = width * height;
        let n: usize = stream.len();
        let ghost events = stream.events();
        let mut latest: Vec<Option<RawEvent>> = Vec::new();
        latest.resize(plane, None);
        for i in 0..n
            invariant
                stream.wf(),
                events == stream.events(),
                n == events.len(),
                n == pixels@.len(),
                latest@.len() == plane,
                forall|j: int|
                    0 <= j < n ==> (#[trigger] pixels@[j] matches Some(c) ==> c < plane),
                forall|j: int|
                    0 <= j < plane ==> #[trigger] latest@[j] == winner(
                        events,
                        pixels@,
                        j,
                        i as int,
                    ),
        {
            if let Some(pixel) = pixels[i] {
                let e = stream.get(i);
                let wins = match latest[pixel] {
                    Some(held) => !(crate::bytes::unsigned64(e.t) < crate::bytes::unsigned64(
                        held.t,
                    )),
                    None => true,
                };
                if wins {
                    latest.set(pixel, Some(e));
                }
            }
        }
        let reference = reference_time(stream);
        let mut out: Vec<Option<(bool, u64)>> = Vec::with_capacity(plane);
        for i in 0..plane
            invariant
                latest@.len() == plane,
                reference == latest_time(events),
                events.len() > 0 ==> reference is Some,
                events.len() == 0 ==> forall|j: int| 0 <= j < plane ==> #[trigger] latest@[j] is None,
                out@.len() == i,
                forall|j: int|
                    0 <= j < i ==> #[trigger] out@[j] == match latest@[j] {
                        Some(e) => Some((e.p, age(reference->0, widened(e).timestamp))),
                        None => None::<(bool, u64)>,
                    },
        {
            match latest[i] {
                Some(e) => {
                    let t = crate::bytes::unsigned64(e.t);
                    let r = match reference {
                        Some(r) => r,
                        None => t,
                    };
                    out.push(
                        Some(
                            (
                                e.p,
                                if r >= t {
                                    r - t
                                } else {
                                    0
                                },
                            ),
                        ),
                    );
                },
                None => {
                    out.push(None);
                },
            }
        }
        assert(out@ =~= winners_of(stream, inside@));
        Ok(Winners { width, height, pixels: out })
    }

    /// The samples of the encoding: where the latest event is positive, how old it is, and where it
    /// is negative.
    pub open spec fn samples(winners: Seq<Option<(bool, u64)>>, levels: Seq<u8>) -> Seq<u8> {
        let plane = winners.len();
        Seq::new(
            3 * plane,
            |i: int|
                if i < plane {
                    if winners[i] matches Some((p, _)) && p {
                        255
                    } else {
                        0
                    }
                } else if i < 2 * plane {
                    if winners[i - plane] is Some {
                        levels[i - plane]
                    } else {
                        0
                    }
                } else {
                    if winners[i - 2 * plane] matches Some((p, _)) && !p {
                        255
                    } else {
                        0
                    }
                },
        )
    }

    /// The frame of the encoding, given the level that stands for the age of each pixel.
    pub fn frame(&self, winners: &Winners, levels: &[u8]) -> (frame: EventFrame)
        requires
            levels@.len() == winners.pixels@.len(),
            3 * winners.pixels@.len() <= usize::MAX,
        ensures
            frame.samples() matches EventFrameData::U8(v) && v@ == Self::samples(
                winners.pixels@,
                levels@,
            ),
            frame.width() == winners.width,
            frame.height() == winners.height,
            frame.shown() == RepresentationKind::Tencode,
            frame.names() == seq!["positive"@, "age"@, "negative"@],
    {
        let plane: usize = winners.pixels.len();
        let mut values: Vec<u8> = Vec::with_capacity(3 * plane);
        let ghost goal = Self::samples(winners.pixels@, levels@);
        let length: usize = 3 * plane;
        for i in 0..length
            invariant
                plane == winners.pixels@.len(),
                length == 3 * plane,
                plane == levels@.len(),
                goal == Self::samples(winners.pixels@, levels@),
                values@ == goal.take(i as int),
        {
            let value = if i < plane {
                match winners.pixels[i] {
                    Some((true, _)) => 255u8,
                    _ => 0u8,
                }
            } else if i < 2 * plane {
                match winners.pixels[i - plane] {
                    Some(_) => levels[i - plane],
                    None => 0u8,
                }
            } else {
                match winners.pixels[i - 2 * plane] {
                    Some((false, _)) => 255u8,
                    _ => 0u8,
                }
            };
            values.push(value);
            assert(values@ =~= goal.take(i + 1));
        }
        assert(goal.take(length as int) =~= goal);
        let mut names: Vec<String> = Vec::new();
        names.push("positive".to_owned());
        names.push("age".to_owned());
        names.push("negative".to_owned());
        assert(names_of(names@) =~= seq!["positive"@, "age"@, "negative"@]);
        EventFrame::from_parts(
            EventFrameData::U8(values),
            winners.width,
            winners.height,
            RepresentationKind::Tencode,
            names,
        )
    }
}

/// The windows of multi-channel time surfaces.
#[derive(Clone, Debug)]
pub enum Windows {
    /// Windows at equal ratios from one millisecond to a longest, given by its bit pattern.
    LogSpaced { max_window_bits: u64 },
    /// Windows in milliseconds, given by their bit patterns.
    Explicit(Vec<u64>),
}

/// How many windows at equal ratios there are.
pub const WINDOW_COUNT: usize = 5;

/// One, as a double precision number.
pub const ONE: u64 = 0x3FF0_0000_0000_0000;

/// Surfaces that fade linearly over windows of several lengths, for each polarity.
#[derive(Clone, Debug)]
pub struct Mcts {
    windows: Windows,
}

/// Where a weight goes: the windows of negative events first, then those of positive ones.
pub open spec fn mcts_cell(
    events: Seq<RawEvent>,
    count: int,
    width: int,
    plane: int,
    s: int,
) -> int {
    let e = events[s / count];
    ((if e.p {
        count
    } else {
        0
    }) + s % count) * plane + e.y * width + e.x
}

/// The largest of the first `n` weights that go to a cell; zero if there is none.
pub open spec fn heaviest(
    events: Seq<RawEvent>,
    weights: Seq<Option<u32>>,
    count: int,
    width: int,
    plane: int,
    cell: int,
    n: int,
) -> u32
    decreases n,
{
    if n <= 0 {
        0
    } else {
        let before = heaviest(events, weights, count, width, plane, cell, n - 1);
        if mcts_cell(events, count, width, plane, n - 1) == cell && (weights[n - 1] matches Some(w)
            && w > before) {
            weights[n - 1]->0
        } else {
            before
        }
    }
}

proof fn step_bounds(s: int, count: int, n: int)
    requires
        0 <= s < n * count,
        count > 0,
    ensures
        0 <= s / count < n,
        0 <= s % count < count,
{
    assert(0 <= s / count < n && 0 <= s % count < count) by (nonlinear_arith)
        requires
            0 <= s < n * count,
            count > 0,
    ;
}

proof fn cell_bounds(channel: int, pixel: int, channels: int, plane: int)
    requires
        0 <= channel < channels,
        0 <= pixel < plane,
    ensures
        0 <= channel * plane + pixel < plane * channels,
        0 <= channel * plane,
{
    assert(0 <= channel * plane + pixel < plane * channels) by (nonlinear_arith)
        requires
            0 <= channel < channels,
            0 <= pixel < plane,
    ;
    assert(0 <= channel * plane) by (nonlinear_arith)
        requires
            0 <= channel,
            0 <= plane,
    ;
}

impl Mcts {
    pub closed spec fn choice(&self) -> Windows {
        self.windows
    }

    /// Surfaces over windows up to a longest, given by its bit pattern.
    pub fn new(max_window_bits: u64) -> (surfaces: Self)
        ensures
            surfaces.choice() == (Windows::LogSpaced { max_window_bits }),
    {
        Mcts { windows: Windows::LogSpaced { max_window_bits } }
    }

    /// Surfaces over given windows, given by their bit patterns.
    pub fn with_windows(windows: Vec<u64>) -> (surfaces: Self)
        ensures
            surfaces.choice() == Windows::Explicit(windows),
    {
        Mcts { windows: Windows::Explicit(windows) }
    }

    /// What is wrong with the windows, if anything.
    pub open spec fn fault(&self) -> Option<RepresentationError> {
        match self.choice() {
            Windows::LogSpaced { max_window_bits } => if is_positive(max_window_bits) && order(
                max_window_bits,
            ) >= order(ONE) {
                None
            } else {
                Some(RepresentationError::InvalidParameter("max_window_ms"))
            },
            Windows::Explicit(windows) => if windows@.len() == 0 || exists|i: int|
                0 <= i < windows@.len() && !is_positive(#[trigger] windows@[i]) {
                Some(RepresentationError::InvalidParameter("windows"))
            } else {
                None
            },
        }
    }

    /// Checks the windows and gives their number.
    pub fn window_count(&self) -> (count: Result<usize, RepresentationError>)
        ensures
            match count {
                Ok(n) => self.fault() is None && n > 0 && match self.choice() {
                    Windows::LogSpaced { max_window_bits } => n == WINDOW_COUNT,
                    Windows::Explicit(windows) => n == windows@.len(),
                },
                Err(e) => self.fault() == Some(e),
            },
    {
        match &self.windows {
            Windows::LogSpaced { max_window_bits } => {
                match validate_positive(*max_window_bits, "max_window_ms") {
                    Ok(()) => {},
                    Err(error) => {
                        return Err(error);
                    },
                }
                if *max_window_bits < ONE {
                    return Err(RepresentationError::InvalidParameter("max_window_ms"));
                }
                Ok(WINDOW_COUNT)
            },
            Windows::Explicit(windows) => {
                let n: usize = windows.len();
                if n == 0 {
                    return Err(RepresentationError::InvalidParameter("windows"));
                }
                for i in 0..n
                    invariant
                        n == windows@.len(),
                        self.windows == Windows::Explicit(*windows),
                        forall|j: int| 0 <= j < i ==> is_positive(#[trigger] windows@[j]),
                {
                    match validate_positive(windows[i], "windows") {
                        Ok(()) => {},
                        Err(error) => {
                            return Err(error);
                        },
                    }
                }
                Ok(n)
            },
        }
    }

    /// The number of samples of a stream's surfaces over `count` windows, and the age of each event.
    pub fn ages(&self, stream: &EventStream, count: usize) -> (ages: Result<
        (usize, Vec<u64>),
        RepresentationError,
    >)
        requires
            stream.wf(),
            2 * count <= usize::MAX,
        ensures
            match ages {
                Ok((length, a)) => {
                    &&& cell_fault(stream, 2 * count) is None
                    &&& length == stream.width() * stream.height() * (2 * count)
                    &&& a@ == ages_of(stream.events())
                },
                Err(e) => cell_fault(stream, 2 * count) == Some(e),
            },
    {
        let (width, height, length) = match frame_len(stream, 2 * count) {
            Ok(sizes) => sizes,
            Err(error) => {
                return Err(error);
            },
        };
        let n: usize = stream.len();
        let ghost events = stream.events();
        assert(events.take(0) =~= Seq::<RawEvent>::empty());
        for i in 0..n
            invariant
                stream.wf(),
                events == stream.events(),
                n == events.len(),
                width == stream.width(),
                height == stream.height(),
                width * height <= usize::MAX,
                stream.width() * stream.height() * (2 * count) <= usize::MAX,
                first_outside(events.take(i as int), width as int, height as int) == i,
        {
            assert(events.take(i + 1).drop_last() =~= events.take(i as int));
            match event_index(stream.event(i), width, height) {
                Ok(_) => {},
                Err(error) => {
                    proof {
                        first_outside_prefix(events, i as int, width as int, height as int);
                    }
                    return Err(error);
                },
            }
        }
        assert(events.take(n as int) =~= events);
        Ok((length, event_ages(stream)))
    }

    /// The surfaces of a stream, given the weight of each event in each of `count` windows, event by
    /// event, and the names of the channels. Weights are the bit patterns of single precision
    /// numbers that are not negative, which are ordered as the numbers are; `None` means that the
    /// event lies outside the window.
    pub fn frame(
        &self,
        stream: &EventStream,
        count: usize,
        weights: &[Option<u32>],
        names: Vec<String>,
    ) -> (frame: EventFrame)
        requires
            stream.wf(),
            0 < count,
            cell_fault(stream, 2 * count) is None,
            weights@.len() == stream.events().len() * count,
        ensures
            frame.samples() matches EventFrameData::F32(v) && v@ == Seq::new(
                (stream.width() * stream.height() * (2 * count)) as nat,
                |c: int|
                    heaviest(
                        stream.events(),
                        weights@,
                        count as int,
                        stream.width(),
                        stream.width() * stream.height(),
                        c,
                        weights@.len() as int,
                    ),
            ),
            frame.width() == stream.width(),
            frame.height() == stream.height(),
            frame.shown() == RepresentationKind::Mcts,
            frame.names() == names_of(names@),
    {
        let (width, height) = stream.sensor_size();
        let ghost events = stream.events();
        let ghost w = width as int;
        let ghost h = height as int;
        proof {
            crate::representation::first_outside_found(events, w, h);
            assert(0 <= w * h) by (nonlinear_arith)
                requires
                    0 <= w,
                    0 <= h,
            ;
            assert(w * h * (2 * count) >= 2 * count || w * h == 0) by (nonlinear_arith)
                requires
                    0 <= w * h,
                    0 <= count,
            ;
        }
        let plane: usize = width * height;
        let n: usize = weights.len();
        let mut values: Vec<u32> = Vec::new();
        if plane > 0 {
            let length: usize = plane * (2 * count);
            values.resize(length, 0);
            for s in 0..n
                invariant
                    stream.wf(),
                    events == stream.events(),
                    n == weights@.len(),
                    n == events.len() * count,
                    0 < count,
                    w == width,
                    h == height,
                    w == stream.width(),
                    h == stream.height(),
                    plane == w * h,
                    plane > 0,
                    length == plane * (2 * count),
                    length <= usize::MAX,
                    2 * count <= usize::MAX,
                    values@.len() == length,
                    forall|j: int|
                        0 <= j < events.len() ==> (#[trigger] events[j]).x < w && events[j].y < h,
                    forall|c: int|
                        0 <= c < length ==> #[trigger] values@[c] == heaviest(
                            events,
                            weights@,
                            count as int,
                            w,
                            plane as int,
                            c,
                            s as int,
                        ),
            {
                proof {
                    step_bounds(s as int, count as int, events.len() as int);
                }
                let e = stream.get(s / count);
                let window = s % count;
                let channel: usize = if e.p {
                    count + window
                } else {
                    window
                };
                proof {
                    pixel_in_plane(e.x as int, e.y as int, w, h);
                    cell_bounds(channel as int, e.y * w + e.x, 2 * count, plane as int);
                    assert(0 <= e.y * w) by (nonlinear_arith)
                        requires
                            0 <= w,
                    ;
                }
                let pixel: usize = e.y as usize * width + e.x as usize;
                let cell: usize = channel * plane + pixel;
                assert(cell == mcts_cell(events, count as int, w, plane as int, s as int));
                if let Some(weight) = weights[s] {
                    if weight > values[cell] {
                        values.set(cell, weight);
                    }
                }
            }
        }
        let ghost goal = Seq::new(
            (stream.width() * stream.height() * (2 * count)) as nat,
            |c: int|
                heaviest(
                    events,
                    weights@,
                    count as int,
                    w,
                    w * h,
                    c,
                    weights@.len() as int,
                ),
        );
        proof {
            assert(plane == 0 ==> w * h * (2 * count) == 0) by (nonlinear_arith)
                requires
                    plane == w * h,
            ;
            assert(values@ =~= goal);
        }
        EventFrame::from_parts(
            EventFrameData::F32(values),
            width,
            height,
            RepresentationKind::Mcts,
            names,
        )
    }
}

} // verus!
