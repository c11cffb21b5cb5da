//! Frames computed from events.

use vstd::prelude::*;

use crate::chars::{decimal, decimal_string, join2, join3, join5, spells, chars_of};
use crate::stream::{widened, Event, EventStream, RawEvent};

pub mod binary;
pub mod count;
pub mod frame_laws;
pub mod masks;
pub mod point_set;
pub mod polarity;
pub mod surfaces;
pub mod window_laws;
pub mod windows;

pub use binary::Binary;
pub use count::EventCount;
pub use masks::{CountMask, RedBlue};
pub use point_set::{EventPointSet, PointSet};
pub use polarity::{Polarity, PolarityAccumulator};
pub use surfaces::{AveragedTimeSurface, TimeSurface};
pub use windows::{Mcts, Tencode, VoxelGrid};

verus! {

/// What a frame shows.
#[derive(Clone, Copy, Debug, PartialEq, Eq, Structural)]
pub enum RepresentationKind {
    AveragedTimeSurface,
    Binary,
    Count,
    CountMask,
    Flow,
    Intensity,
    Labels,
    Mcts,
    Polarity,
    RedBlue,
    Tencode,
    TimeSurface,
    Voxel,
}

/// The tag of a kind.
pub open spec fn tag_of(kind: RepresentationKind) -> Seq<char> {
    match kind {
        RepresentationKind::AveragedTimeSurface => "atsurf"@,
        RepresentationKind::Binary => "binary"@,
        RepresentationKind::Count => "count"@,
        RepresentationKind::CountMask => "countmask"@,
        RepresentationKind::Flow => "flow"@,
        RepresentationKind::Intensity => "intensity"@,
        RepresentationKind::Labels => "labels"@,
        RepresentationKind::Mcts => "mcts"@,
        RepresentationKind::Polarity => "polarity"@,
        RepresentationKind::RedBlue => "redblue"@,
        RepresentationKind::Tencode => "tencode"@,
        RepresentationKind::TimeSurface => "tsurf"@,
        RepresentationKind::Voxel => "voxel"@,
    }
}

/// The length and the first letter of a tag.
spec fn tag_head(kind: RepresentationKind) -> (nat, char) {
    match kind {
        RepresentationKind::AveragedTimeSurface => (6, 'a'),
        RepresentationKind::Binary => (6, 'b'),
        RepresentationKind::Count => (5, 'c'),
        RepresentationKind::CountMask => (9, 'c'),
        RepresentationKind::Flow => (4, 'f'),
        RepresentationKind::Intensity => (9, 'i'),
        RepresentationKind::Labels => (6, 'l'),
        RepresentationKind::Mcts => (4, 'm'),
        RepresentationKind::Polarity => (8, 'p'),
        RepresentationKind::RedBlue => (7, 'r'),
        RepresentationKind::Tencode => (7, 't'),
        RepresentationKind::TimeSurface => (5, 't'),
        RepresentationKind::Voxel => (5, 'v'),
    }
}

proof fn tag_has_head(kind: RepresentationKind)
    ensures
        (tag_of(kind).len(), tag_of(kind)[0]) == tag_head(kind),
{
    reveal_strlit("atsurf");
    reveal_strlit("binary");
    reveal_strlit("count");
    reveal_strlit("countmask");
    reveal_strlit("flow");
    reveal_strlit("intensity");
    reveal_strlit("labels");
    reveal_strlit("mcts");
    reveal_strlit("polarity");
    reveal_strlit("redblue");
    reveal_strlit("tencode");
    reveal_strlit("tsurf");
    reveal_strlit("voxel");
}

/// A tag is a short word.
pub proof fn tag_len(kind: RepresentationKind)
    ensures
        4 <= tag_of(kind).len() <= 9,
{
    tag_has_head(kind);
}

/// A tag names one kind.
pub proof fn tags_differ(a: RepresentationKind, b: RepresentationKind)
    requires
        tag_of(a) == tag_of(b),
    ensures
        a == b,
{
    tag_has_head(a);
    tag_has_head(b);
}

impl RepresentationKind {
    /// The tag the frame writers store.
    pub fn as_str(self) -> (tag: &'static str)
        ensures
            tag@ == tag_of(self),
    {
        match self {
            RepresentationKind::AveragedTimeSurface => "atsurf",
            RepresentationKind::Binary => "binary",
            RepresentationKind::Count => "count",
            RepresentationKind::CountMask => "countmask",
            RepresentationKind::Flow => "flow",
            RepresentationKind::Intensity => "intensity",
            RepresentationKind::Labels => "labels",
            RepresentationKind::Mcts => "mcts",
            RepresentationKind::Polarity => "polarity",
            RepresentationKind::RedBlue => "redblue",
            RepresentationKind::Tencode => "tencode",
            RepresentationKind::TimeSurface => "tsurf",
            RepresentationKind::Voxel => "voxel",
        }
    }

    /// The kind a stored tag names.
    pub fn from_tag(tag: &str) -> (kind: Option<Self>)
        ensures
            match kind {
                Some(k) => tag_of(k) == tag@,
                None => forall|k: RepresentationKind| #[trigger] tag_of(k) != tag@,
            },
    {
        let text = chars_of(tag);
        if spells(&text, "atsurf") {
            Some(RepresentationKind::AveragedTimeSurface)
        } else if spells(&text, "binary") {
            Some(RepresentationKind::Binary)
        } else if spells(&text, "count") {
            Some(RepresentationKind::Count)
        } else if spells(&text, "countmask") {
            Some(RepresentationKind::CountMask)
        } else if spells(&text, "flow") {
            Some(RepresentationKind::Flow)
        } else if spells(&text, "intensity") {
            Some(RepresentationKind::Intensity)
        } else if spells(&text, "labels") {
            Some(RepresentationKind::Labels)
        } else if spells(&text, "mcts") {
            Some(RepresentationKind::Mcts)
        } else if spells(&text, "polarity") {
            Some(RepresentationKind::Polarity)
        } else if spells(&text, "redblue") {
            Some(RepresentationKind::RedBlue)
        } else if spells(&text, "tencode") {
            Some(RepresentationKind::Tencode)
        } else if spells(&text, "tsurf") {
            Some(RepresentationKind::TimeSurface)
        } else if spells(&text, "voxel") {
            Some(RepresentationKind::Voxel)
        } else {
            None
        }
    }
}

/// The samples of a frame, channel by channel and row by row. Single precision samples are held
/// as their bit patterns.
#[derive(Clone, Debug, PartialEq, Eq)]
pub enum EventFrameData {
    U8(Vec<u8>),
    U16(Vec<u16>),
    U64(Vec<u64>),
    F32(Vec<u32>),
}

impl EventFrameData {
    /// How many samples there are.
    pub open spec fn size(&self) -> nat {
        match self {
            EventFrameData::U8(v) => v@.len(),
            EventFrameData::U16(v) => v@.len(),
            EventFrameData::U64(v) => v@.len(),
            EventFrameData::F32(v) => v@.len(),
        }
    }

    /// Number of samples.
    pub fn len(&self) -> (n: usize)
        ensures
            n == self.size(),
    {
        match self {
            EventFrameData::U8(values) => values.len(),
            EventFrameData::U16(values) => values.len(),
            EventFrameData::U64(values) => values.len(),
            EventFrameData::F32(values) => values.len(),
        }
    }
}

/// A frame: samples, their shape, and what they show.
#[derive(Clone, Debug)]
pub struct EventFrame {
    pub(crate) data: EventFrameData,
    pub(crate) width: usize,
    pub(crate) height: usize,
    pub(crate) kind: RepresentationKind,
    pub(crate) channel_names: Vec<String>,
}

/// Why a frame could not be made.
#[derive(Debug, PartialEq, Eq)]
pub enum RepresentationError {
    SizeOverflow,
    CountOverflow { x: usize, y: usize },
    EventOutOfBounds { x: usize, y: usize, width: usize, height: usize },
    InvalidParameter(&'static str),
    /// The number of samples of a frame is not the one its dimensions ask for.
    ShapeMismatch { samples: usize, width: usize, height: usize },
    /// The requested device could not run this; the sentence says why.
    Device(String),
}

/// The names of channels, as texts.
pub open spec fn names_of(names: Seq<String>) -> Seq<Seq<char>> {
    Seq::new(names.len(), |i: int| names[i]@)
}

impl EventFrame {
    pub closed spec fn samples(&self) -> EventFrameData {
        self.data
    }

    pub closed spec fn width(&self) -> int {
        self.width as int
    }

    pub closed spec fn height(&self) -> int {
        self.height as int
    }

    pub closed spec fn shown(&self) -> RepresentationKind {
        self.kind
    }

    pub closed spec fn names(&self) -> Seq<Seq<char>> {
        names_of(self.channel_names@)
    }

    /// The sizes of a frame are machine integers.
    pub proof fn size_fits(&self)
        ensures
            0 <= self.width() <= usize::MAX,
            0 <= self.height() <= usize::MAX,
            self.names().len() <= usize::MAX,
    {
        assert(self.channel_names@.len() == self.channel_names.len());
    }

    /// There is a sample for every pixel of every channel.
    pub open spec fn wf(&self) -> bool {
        self.samples().size() == self.names().len() * (self.width() * self.height())
    }

    /// Reassembles a frame from its stored parts. There are as many channels as names.
    pub fn from_parts(
        data: EventFrameData,
        width: usize,
        height: usize,
        kind: RepresentationKind,
        channel_names: Vec<String>,
    ) -> (frame: Self)
        ensures
            frame.samples() == data,
            frame.width() == width,
            frame.height() == height,
            frame.shown() == kind,
            frame.names() == names_of(channel_names@),
    {
        EventFrame { data, width, height, kind, channel_names }
    }

    /// A frame of one channel.
    pub(crate) fn single(
        data: EventFrameData,
        width: usize,
        height: usize,
        kind: RepresentationKind,
        name: &str,
    ) -> (frame: Self)
        ensures
            frame.samples() == data,
            frame.width() == width,
            frame.height() == height,
            frame.shown() == kind,
            frame.names() == seq![name@],
    {
        let mut channel_names: Vec<String> = Vec::new();
        channel_names.push(name.to_owned());
        let frame = EventFrame { data, width, height, kind, channel_names };
        assert(frame.names() =~= seq![name@]);
        frame
    }

    /// A single-channel greyscale frame from raw samples, row by row. The number of samples must
    /// be the one the dimensions ask for.
    pub fn intensity(data: EventFrameData, width: usize, height: usize) -> (frame: Result<
        Self,
        RepresentationError,
    >)
        ensures
            match frame {
                Ok(f) => {
                    &&& width * height <= usize::MAX
                    &&& data.size() == width * height
                    &&& f.samples() == data
                    &&& f.width() == width
                    &&& f.height() == height
                    &&& f.shown() == RepresentationKind::Intensity
                    &&& f.names() == seq!["intensity"@]
                    &&& f.wf()
                },
                Err(RepresentationError::SizeOverflow) => width * height > usize::MAX,
                Err(e) => {
                    &&& width * height <= usize::MAX
                    &&& data.size() != width * height
                    &&& e == (RepresentationError::ShapeMismatch {
                        samples: data.size() as usize,
                        width,
                        height,
                    })
                },
            },
    {
        let expected = match width.checked_mul(height) {
            Some(expected) => expected,
            None => {
                return Err(RepresentationError::SizeOverflow);
            },
        };
        let actual = data.len();
        if actual != expected {
            return Err(RepresentationError::ShapeMismatch { samples: actual, width, height });
        }
        let frame = Self::single(data, width, height, RepresentationKind::Intensity, "intensity");
        assert(1 * (width * height) == width * height);
        Ok(frame)
    }

    pub fn data(&self) -> (data: &EventFrameData)
        ensures
            *data == self.samples(),
    {
        &self.data
    }

    /// `(channels, height, width)`.
    pub fn shape(&self) -> (shape: (usize, usize, usize))
        ensures
            shape.0 == self.names().len(),
            shape.1 == self.height(),
            shape.2 == self.width(),
    {
        (self.channel_names.len(), self.height, self.width)
    }

    pub fn channel_names(&self) -> (names: &[String])
        ensures
            names_of(names@) == self.names(),
    {
        self.channel_names.as_slice()
    }

    pub fn kind(&self) -> (kind: RepresentationKind)
        ensures
            kind == self.shown(),
    {
        self.kind
    }
}

/// The dimensions of a stream's frame and its number of samples.
pub fn frame_len(stream: &EventStream, channels: usize) -> (sizes: Result<
    (usize, usize, usize),
    RepresentationError,
>)
    ensures
        match sizes {
            Ok((w, h, n)) => {
                &&& w == stream.width()
                &&& h == stream.height()
                &&& n == stream.width() * stream.height() * channels
                &&& stream.width() * stream.height() <= usize::MAX
            },
            Err(e) => e == RepresentationError::SizeOverflow && (stream.width() * stream.height()
                > usize::MAX || stream.width() * stream.height() * channels > usize::MAX),
        },
{
    let (width, height) = stream.sensor_size();
    let plane = match width.checked_mul(height) {
        Some(plane) => plane,
        None => {
            return Err(RepresentationError::SizeOverflow);
        },
    };
    match plane.checked_mul(channels) {
        Some(length) => Ok((width, height, length)),
        None => Err(RepresentationError::SizeOverflow),
    }
}

/// The place of a pixel in a row-major plane lies in the plane.
pub proof fn pixel_in_plane(x: int, y: int, width: int, height: int)
    requires
        0 <= x < width,
        0 <= y < height,
    ensures
        0 <= y * width + x < width * height,
{
    assert(0 <= y * width + x < width * height) by (nonlinear_arith)
        requires
            0 <= x < width,
            0 <= y < height,
    ;
}

/// The place of an event's pixel in a row-major plane.
pub fn event_index(event: Event, width: usize, height: usize) -> (index: Result<
    usize,
    RepresentationError,
>)
    requires
        width * height <= usize::MAX,
    ensures
        match index {
            Ok(i) => event.x < width && event.y < height && i == event.y * width + event.x && i
                < width * height,
            Err(e) => (event.x >= width || event.y >= height) && e == (
            RepresentationError::EventOutOfBounds { x: event.x, y: event.y, width, height }),
        },
{
    if event.x >= width || event.y >= height {
        return Err(
            RepresentationError::EventOutOfBounds { x: event.x, y: event.y, width, height },
        );
    }
    proof {
        pixel_in_plane(event.x as int, event.y as int, width as int, height as int);
        assert(0 <= event.y * width) by (nonlinear_arith);
    }
    Ok(event.y * width + event.x)
}

/// The index of the first event outside a sensor, or the number of events.
pub open spec fn first_outside(events: Seq<RawEvent>, width: int, height: int) -> int
    decreases events.len(),
{
    if events.len() == 0 {
        0
    } else if first_outside(events.drop_last(), width, height) < events.len() - 1 {
        first_outside(events.drop_last(), width, height)
    } else if events.last().x < width && events.last().y < height {
        events.len() as int
    } else {
        events.len() - 1
    }
}

/// Everything before the first event outside lies on the sensor, and that event does not.
pub proof fn first_outside_found(events: Seq<RawEvent>, width: int, height: int)
    ensures
        0 <= first_outside(events, width, height) <= events.len(),
        forall|i: int|
            0 <= i < first_outside(events, width, height) ==> (#[trigger] events[i]).x < width
                && events[i].y < height,
        first_outside(events, width, height) < events.len() ==> (events[first_outside(
            events,
            width,
            height,
        )].x >= width || events[first_outside(events, width, height)].y >= height),
    decreases events.len(),
{
    if events.len() > 0 {
        let rest = events.drop_last();
        first_outside_found(rest, width, height);
        assert forall|i: int| 0 <= i < first_outside(events, width, height) implies (
        #[trigger] events[i]).x < width && events[i].y < height by {
            if i < rest.len() {
                assert(events[i] == rest[i]);
            }
        }
    }
}

/// The first event outside does not depend on what follows it.
pub proof fn first_outside_prefix(events: Seq<RawEvent>, k: int, width: int, height: int)
    requires
        0 <= k < events.len(),
        first_outside(events.take(k), width, height) == k,
        events[k].x >= width || events[k].y >= height,
    ensures
        first_outside(events, width, height) == k,
{
    first_outside_found(events.take(k), width, height);
    first_outside_found(events, width, height);
    let f = first_outside(events, width, height);
    if f < k {
        assert(events.take(k)[f] == events[f]);
    }
}

/// What a frame computation says of a stream with an event outside the sensor.
pub open spec fn outside_error(
    events: Seq<RawEvent>,
    width: int,
    height: int,
) -> RepresentationError {
    let e = events[first_outside(events, width, height)];
    RepresentationError::EventOutOfBounds {
        x: e.x as usize,
        y: e.y as usize,
        width: width as usize,
        height: height as usize,
    }
}

/// How many events fall into cell `i`.
pub open spec fn hits(events: Seq<RawEvent>, cell: spec_fn(RawEvent) -> int, i: int) -> nat
    decreases events.len(),
{
    if events.len() == 0 {
        0
    } else {
        hits(events.drop_last(), cell, i) + if cell(events.last()) == i {
            1nat
        } else {
            0
        }
    }
}

/// The number of events in every cell.
pub open spec fn histogram(
    events: Seq<RawEvent>,
    cell: spec_fn(RawEvent) -> int,
    length: int,
) -> Seq<u64> {
    Seq::new(length as nat, |i: int| hits(events, cell, i) as u64)
}

/// No cell holds more events than there are.
pub proof fn hits_bounded(events: Seq<RawEvent>, cell: spec_fn(RawEvent) -> int, i: int)
    ensures
        hits(events, cell, i) <= events.len(),
    decreases events.len(),
{
    if events.len() > 0 {
        hits_bounded(events.drop_last(), cell, i);
    }
}

/// One more event is one more in its cell.
pub proof fn histogram_push(
    events: Seq<RawEvent>,
    e: RawEvent,
    cell: spec_fn(RawEvent) -> int,
    length: int,
)
    requires
        0 <= cell(e) < length,
        events.len() < u64::MAX,
    ensures
        histogram(events.push(e), cell, length) == histogram(events, cell, length).update(
            cell(e),
            (histogram(events, cell, length)[cell(e)] + 1) as u64,
        ),
        histogram(events, cell, length)[cell(e)] <= events.len(),
{
    assert(events.push(e).drop_last() =~= events);
    hits_bounded(events, cell, cell(e));
    assert forall|i: int| 0 <= i < length implies hits(events, cell, i) <= u64::MAX by {
        hits_bounded(events, cell, i);
    }
    assert(histogram(events.push(e), cell, length) =~= histogram(events, cell, length).update(
        cell(e),
        (histogram(events, cell, length)[cell(e)] + 1) as u64,
    ));
}

/// The sum of samples.
pub open spec fn total(counts: Seq<u64>) -> nat
    decreases counts.len(),
{
    if counts.len() == 0 {
        0
    } else {
        total(counts.drop_last()) + counts.last() as nat
    }
}

proof fn total_of_update(counts: Seq<u64>, i: int, v: u64)
    requires
        0 <= i < counts.len(),
    ensures
        total(counts.update(i, v)) == total(counts) - counts[i] + v,
    decreases counts.len(),
{
    let next = counts.update(i, v);
    if i == counts.len() - 1 {
        assert(next.drop_last() =~= counts.drop_last());
    } else {
        assert(next.drop_last() =~= counts.drop_last().update(i, v));
        total_of_update(counts.drop_last(), i, v);
    }
}

proof fn total_of_zeros(n: nat)
    ensures
        total(Seq::new(n, |i: int| 0u64)) == 0,
    decreases n,
{
    if n > 0 {
        total_of_zeros((n - 1) as nat);
        assert(Seq::new(n, |i: int| 0u64).drop_last() =~= Seq::new((n - 1) as nat, |i: int| 0u64));
    }
}

/// Every event lands in the frame: the counts of a histogram add up to the number of events.
pub proof fn histogram_total(events: Seq<RawEvent>, cell: spec_fn(RawEvent) -> int, length: int)
    requires
        0 <= length,
        events.len() <= u64::MAX,
        forall|i: int| 0 <= i < events.len() ==> 0 <= cell(#[trigger] events[i]) < length,
    ensures
        total(histogram(events, cell, length)) == events.len(),
    decreases events.len(),
{
    if events.len() == 0 {
        total_of_zeros(length as nat);
        assert(histogram(events, cell, length) =~= Seq::new(length as nat, |i: int| 0u64));
    } else {
        let rest = events.drop_last();
        assert forall|i: int| 0 <= i < rest.len() implies 0 <= cell(#[trigger] rest[i]) < length by {
            assert(rest[i] == events[i]);
        }
        histogram_total(rest, cell, length);
        assert(0 <= cell(events[events.len() - 1]) < length);
        histogram_push(rest, events.last(), cell, length);
        assert(rest.push(events.last()) =~= events);
        let before = histogram(rest, cell, length);
        total_of_update(before, cell(events.last()), (before[cell(events.last())] + 1) as u64);
    }
}

/// The largest sample, or zero.
pub open spec fn busiest(counts: Seq<u64>) -> u64
    decreases counts.len(),
{
    if counts.len() == 0 {
        0
    } else if counts.last() > busiest(counts.drop_last()) {
        counts.last()
    } else {
        busiest(counts.drop_last())
    }
}

/// No sample exceeds the largest.
pub proof fn busiest_bounds(counts: Seq<u64>, i: int)
    requires
        0 <= i < counts.len(),
    ensures
        counts[i] <= busiest(counts),
    decreases counts.len(),
{
    if i < counts.len() - 1 {
        busiest_bounds(counts.drop_last(), i);
    }
}

/// A count rescaled so that `maximum` becomes full scale, rounded to the nearest.
pub open spec fn rescaled(count: u64, maximum: u64) -> u8 {
    if maximum == 0 {
        0
    } else {
        ((count * 255 + maximum as int / 2) / maximum as int) as u8
    }
}

/// Counts rescaled so that the busiest becomes full scale.
pub open spec fn normalized(counts: Seq<u64>) -> Seq<u8> {
    Seq::new(counts.len(), |i: int| rescaled(counts[i], busiest(counts)))
}

/// The busiest cell is full scale, and an empty one stays empty.
pub proof fn normalized_ends(maximum: u64)
    requires
        maximum > 0,
    ensures
        rescaled(maximum, maximum) == 255,
        rescaled(0, maximum) == 0,
{
    assert((maximum * 255 + maximum as int / 2) / maximum as int == 255) by (nonlinear_arith)
        requires
            maximum > 0,
    ;
    assert((0 * 255 + maximum as int / 2) / maximum as int == 0) by (nonlinear_arith)
        requires
            maximum > 0,
    ;
}

/// Rescales counts linearly so that the busiest becomes `u8::MAX`.
pub fn normalize_u8(counts: &[u64]) -> (scaled: Vec<u8>)
    ensures
        scaled@ == normalized(counts@),
{
    let mut maximum: u64 = 0;
    let n: usize = counts.len();
    assert(counts@.take(0) =~= Seq::<u64>::empty());
    for i in 0..n
        invariant
            n == counts@.len(),
            maximum == busiest(counts@.take(i as int)),
    {
        assert(counts@.take(i + 1).drop_last() =~= counts@.take(i as int));
        if counts[i] > maximum {
            maximum = counts[i];
        }
    }
    assert(counts@.take(n as int) =~= counts@);
    let mut scaled: Vec<u8> = Vec::with_capacity(n);
    for i in 0..n
        invariant
            n == counts@.len(),
            maximum == busiest(counts@),
            scaled@ == normalized(counts@).take(i as int),
    {
        proof {
            busiest_bounds(counts@, i as int);
        }
        let value: u8 = if maximum == 0 {
            0
        } else {
            let whole: u128 = counts[i] as u128 * 255 + maximum as u128 / 2;
            proof {
                assert(whole as int / maximum as int <= 255) by (nonlinear_arith)
                    requires
                        whole as int <= maximum * 255 + maximum as int / 2,
                        maximum > 0,
                        0 <= whole,
                ;
                assert(0 <= whole as int / maximum as int) by (nonlinear_arith)
                    requires
                        maximum > 0,
                        0 <= whole,
                ;
            }
            (whole / maximum as u128) as u8
        };
        scaled.push(value);
        assert(scaled@ =~= normalized(counts@).take(i + 1));
    }
    assert(normalized(counts@).take(n as int) =~= normalized(counts@));
    scaled
}

/// The latest timestamp of some events, read as unsigned.
pub open spec fn latest_time(events: Seq<RawEvent>) -> Option<u64>
    decreases events.len(),
{
    if events.len() == 0 {
        None
    } else {
        let t = widened(events.last()).timestamp;
        match latest_time(events.drop_last()) {
            Some(m) if m > t => Some(m),
            _ => Some(t),
        }
    }
}

/// The time ages are measured from: that of the latest event.
pub fn reference_time(stream: &EventStream) -> (latest: Option<u64>)
    requires
        stream.wf(),
    ensures
        latest == latest_time(stream.events()),
{
    let mut latest: Option<u64> = None;
    let n: usize = stream.len();
    let ghost events = stream.events();
    assert(events.take(0) =~= Seq::<RawEvent>::empty());
    for i in 0..n
        invariant
            stream.wf(),
            events == stream.events(),
            n == events.len(),
            latest == latest_time(events.take(i as int)),
    {
        assert(events.take(i + 1).drop_last() =~= events.take(i as int));
        let t = stream.event(i).timestamp;
        match latest {
            Some(m) if m > t => {},
            _ => {
                latest = Some(t);
            },
        }
    }
    assert(events.take(n as int) =~= events);
    latest
}

/// How many ticks before `reference` an event happened.
pub open spec fn age(reference: u64, timestamp: u64) -> u64 {
    if reference >= timestamp {
        (reference - timestamp) as u64
    } else {
        0
    }
}

/// Something that can be computed from a stream of events.
pub trait Representation {
    type Output;

    /// The frame of a stream.
    fn generate(&self, stream: &EventStream) -> (frame: Result<Self::Output, RepresentationError>)
        requires
            stream.wf(),
    ;
}

impl RepresentationError {
    /// The sentence describing the error.
    pub open spec fn text(&self) -> Seq<char> {
        match self {
            RepresentationError::SizeOverflow => "representation dimensions are too large"@,
            RepresentationError::CountOverflow { x, y } => "event count at ("@ + decimal(*x as nat)
                + ", "@ + decimal(*y as nat) + ") exceeds uint16 capacity"@,
            RepresentationError::EventOutOfBounds { x, y, width, height } => (
            "event coordinate ("@ + decimal(*x as nat) + ", "@ + decimal(*y as nat)
                + ") exceeds sensor size "@) + (decimal(*width as nat) + "x"@ + decimal(
                *height as nat,
            )),
            RepresentationError::InvalidParameter(name) => if name@ == "bins"@ {
                "bins must be at least 1"@
            } else if name@ == "max_window_ms"@ {
                "max_window_ms must be finite and at least 1"@
            } else if name@ == "pct"@ {
                "pct must be between 0 and 100"@
            } else {
                name@ + " must be finite and positive"@
            },
            RepresentationError::ShapeMismatch { samples, width, height } => ("frame has "@
                + decimal(*samples as nat) + " samples but "@ + decimal(*width as nat) + "x"@) + (
            decimal(*height as nat) + " needs "@ + decimal((*width * *height) as nat)),
            RepresentationError::Device(message) => message@,
        }
    }

    /// The sentence describing the error. The dimensions of a shape mismatch have a product that
    /// is a machine integer.
    pub fn message(&self) -> (s: String)
        requires
            self matches RepresentationError::ShapeMismatch { samples, width, height } ==> *width
                * *height <= usize::MAX,
        ensures
            s@ == self.text(),
    {
        match self {
            RepresentationError::SizeOverflow => {
                "representation dimensions are too large".to_owned()
            },
            RepresentationError::CountOverflow { x, y } => {
                let (x, y) = (decimal_string(*x as u64), decimal_string(*y as u64));
                join5(
                    "event count at (",
                    x.as_str(),
                    ", ",
                    y.as_str(),
                    ") exceeds uint16 capacity",
                )
            },
            RepresentationError::EventOutOfBounds { x, y, width, height } => {
                let (x, y) = (decimal_string(*x as u64), decimal_string(*y as u64));
                let (w, h) = (decimal_string(*width as u64), decimal_string(*height as u64));
                let place = join5(
                    "event coordinate (",
                    x.as_str(),
                    ", ",
                    y.as_str(),
                    ") exceeds sensor size ",
                );
                let size = join3(w.as_str(), "x", h.as_str());
                join2(place.as_str(), size.as_str())
            },
            RepresentationError::InvalidParameter(name) => {
                let text = chars_of(name);
                if spells(&text, "bins") {
                    "bins must be at least 1".to_owned()
                } else if spells(&text, "max_window_ms") {
                    "max_window_ms must be finite and at least 1".to_owned()
                } else if spells(&text, "pct") {
                    "pct must be between 0 and 100".to_owned()
                } else {
                    join2(name, " must be finite and positive")
                }
            },
            RepresentationError::ShapeMismatch { samples, width, height } => {
                let n = decimal_string(*samples as u64);
                let (w, h) = (decimal_string(*width as u64), decimal_string(*height as u64));
                assert(0 <= *width * *height) by (nonlinear_arith);
                let needed = decimal_string((*width * *height) as u64);
                let given = join5("frame has ", n.as_str(), " samples but ", w.as_str(), "x");
                let rest = join3(h.as_str(), " needs ", needed.as_str());
                join2(given.as_str(), rest.as_str())
            },
            RepresentationError::Device(message) => message.as_str().to_owned(),
        }
    }
}

} // verus!
