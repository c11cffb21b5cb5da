//! Images of event counts in which a percentile of the counts is full scale.
//!
//! The percentile and the levels that follow from it are numbers with a fraction: the caller
//! computes them from the counts and their order statistics, which are found here.

use vstd::prelude::*;

use crate::floats::{finite, is_finite, order};
use crate::representation::polarity::{polarity_counts, polarity_histogram};
use crate::representation::surfaces::cell_fault;
use crate::representation::{
    frame_len, names_of, EventFrame, EventFrameData, RepresentationError, RepresentationKind,
};
use crate::stream::EventStream;

verus! {

/// One hundred, as a double precision number.
pub const HUNDRED: u64 = 0x4059_0000_0000_0000;

/// Whether a double precision number is a percentage from 0 to 100.
pub open spec fn is_percentage(bits: u64) -> bool {
    is_finite(bits) && 0 <= order(bits) <= order(HUNDRED)
}

fn percentage(bits: u64) -> (yes: bool)
    ensures
        yes == is_percentage(bits),
{
    finite(bits) && (bits <= HUNDRED || bits == 0x8000_0000_0000_0000)
}

/// The counts of a stream, positive events first.
#[derive(Debug)]
pub struct CountPlanes {
    pub width: usize,
    pub height: usize,
    pub counts: Vec<u64>,
}

/// Whether planes hold the counts of a stream.
pub open spec fn counts_of(planes: CountPlanes, stream: &EventStream) -> bool {
    &&& planes.width == stream.width()
    &&& planes.height == stream.height()
    &&& planes.counts@ == polarity_histogram(
        stream.events(),
        stream.width(),
        stream.height(),
        1,
    )
    &&& planes.counts@.len() == stream.width() * stream.height() * 2
}

/// What is wrong with the counts of a stream for an image with a percentile, if anything.
pub open spec fn counts_fault(pct: u64, stream: &EventStream) -> Option<RepresentationError> {
    if !is_percentage(pct) {
        Some(RepresentationError::InvalidParameter("pct"))
    } else {
        cell_fault(stream, 3)
    }
}

fn counts_for(pct: u64, stream: &EventStream) -> (planes: Result<CountPlanes, RepresentationError>)
    requires
        stream.wf(),
    ensures
        match planes {
            Ok(p) => counts_fault(pct, stream) is None && counts_of(p, stream),
            Err(e) => counts_fault(pct, stream) == Some(e),
        },
{
    if !percentage(pct) {
        return Err(RepresentationError::InvalidParameter("pct"));
    }
    proof {
        stream.size_fits();
        assert(0 <= stream.width() * stream.height()) by (nonlinear_arith)
            requires
                0 <= stream.width(),
                0 <= stream.height(),
        ;
    }
    match frame_len(stream, 3) {
        Ok(_) => {},
        Err(error) => {
            return Err(error);
        },
    }
    match polarity_counts(stream) {
        Ok((width, height, counts)) => Ok(CountPlanes { width, height, counts }),
        Err(error) => Err(error),
    }
}

/// The values that are not zero.
pub open spec fn nonzero_of(values: Seq<u64>) -> Seq<u64>
    decreases values.len(),
{
    if values.len() == 0 {
        Seq::empty()
    } else if values.last() > 0 {
        nonzero_of(values.drop_last()).push(values.last())
    } else {
        nonzero_of(values.drop_last())
    }
}

/// The values that are not zero.
pub fn nonzero(values: &[u64]) -> (kept: Vec<u64>)
    ensures
        kept@ == nonzero_of(values@),
{
    let n: usize = values.len();
    let mut kept: Vec<u64> = Vec::new();
    assert(values@.take(0) =~= Seq::<u64>::empty());
    for i in 0..n
        invariant
            n == values@.len(),
            kept@ == nonzero_of(values@.take(i as int)),
    {
        assert(values@.take(i + 1).drop_last() =~= values@.take(i as int));
        if values[i] > 0 {
            kept.push(values[i]);
        }
    }
    assert(values@.take(n as int) =~= values@);
    kept
}

/// Whether values do not fall.
pub open spec fn ascending(values: Seq<u64>) -> bool {
    forall|i: int, j: int| 0 <= i <= j < values.len() ==> values[i] <= values[j]
}

/// Sorts values: `<[u64]>::sort_unstable`, which documents to put them in ascending order. They are
/// the same values.
#[verifier::external_body]
fn sort_values(values: &mut Vec<u64>)
    ensures
        ascending(final(values)@),
        final(values)@.to_multiset() == old(values)@.to_multiset(),
        final(values)@.len() == old(values)@.len(),
{
    values.sort_unstable();
}

/// The values next to a rank in ascending order: that at the rank, and the one after it. At the last
/// rank both are the largest.
pub fn order_statistics(values: &[u64], rank: usize) -> (pair: (u64, u64))
    requires
        rank < values@.len(),
    ensures
        exists|sorted: Seq<u64>|
            {
                &&& #[trigger] ascending(sorted)
                &&& sorted.to_multiset() == values@.to_multiset()
                &&& sorted.len() == values@.len()
                &&& pair.0 == sorted[rank as int]
                &&& pair.1 == if rank + 1 < sorted.len() {
                    sorted[rank + 1]
                } else {
                    sorted[rank as int]
                }
            },
{
    let mut sorted: Vec<u64> = vstd::slice::slice_to_vec(values);
    sort_values(&mut sorted);
    let n: usize = sorted.len();
    let lower = sorted[rank];
    let upper = if rank < n - 1 {
        sorted[rank + 1]
    } else {
        lower
    };
    assert(ascending(sorted@));
    (lower, upper)
}

/// The counts of positive and negative events as red and blue, clipped at one percentile of both, and
/// green wherever there was any event.
#[derive(Clone, Copy, Debug)]
pub struct CountMask {
    /// The bit pattern of the percentage.
    pct_bits: u64,
    white_frame: bool,
}

impl CountMask {
    pub closed spec fn pct(&self) -> u64 {
        self.pct_bits
    }

    pub closed spec fn white(&self) -> bool {
        self.white_frame
    }

    /// An image with a percentage, given by its bit pattern, on a white or black background.
    pub fn new(pct_bits: u64, white_frame: bool) -> (mask: Self)
        ensures
            mask.pct() == pct_bits,
            mask.white() == white_frame,
    {
        CountMask { pct_bits, white_frame }
    }

    /// The counts of a stream.
    pub fn counts(&self, stream: &EventStream) -> (planes: Result<CountPlanes, RepresentationError>)
        requires
            stream.wf(),
        ensures
            match planes {
                Ok(p) => counts_fault(self.pct(), stream) is None && counts_of(p, stream),
                Err(e) => counts_fault(self.pct(), stream) == Some(e),
            },
    {
        counts_for(self.pct_bits, stream)
    }

    /// The samples of the image, given the level of every count.
    pub open spec fn samples(&self, counts: Seq<u64>, levels: Seq<u8>) -> Seq<u8> {
        let plane = (counts.len() / 2) as int;
        Seq::new(
            (3 * plane) as nat,
            |i: int|
                if i < plane {
                    levels[i]
                } else if i < 2 * plane {
                    if (counts[i - plane] > 0 || counts[i] > 0) != self.white() {
                        255
                    } else {
                        0
                    }
                } else {
                    levels[i - plane]
                },
        )
    }

    /// The image, given the level of every count: of the positive ones first.
    pub fn frame(&self, planes: &CountPlanes, levels: &[u8]) -> (frame: EventFrame)
        requires
            levels@.len() == planes.counts@.len(),
            planes.counts@.len() % 2 == 0,
            3 * planes.counts@.len() <= 2 * usize::MAX,
        ensures
            frame.samples() matches EventFrameData::U8(v) && v@ == self.samples(
                planes.counts@,
                levels@,
            ),
            frame.width() == planes.width,
            frame.height() == planes.height,
            frame.shown() == RepresentationKind::CountMask,
            frame.names() == seq!["positive"@, "activity"@, "negative"@],
    {
        let plane: usize = planes.counts.len() / 2;
        let length: usize = 3 * plane;
        let ghost goal = self.samples(planes.counts@, levels@);
        let mut values: Vec<u8> = Vec::with_capacity(length);
        for i in 0..length
            invariant
                plane == planes.counts@.len() / 2,
                planes.counts@.len() == 2 * plane,
                levels@.len() == 2 * plane,
                length == 3 * plane,
                goal == self.samples(planes.counts@, levels@),
                values@ == goal.take(i as int),
        {
            let value = if i < plane {
                levels[i]
            } else if i < 2 * plane {
                let active = planes.counts[i - plane] > 0 || planes.counts[i] > 0;
                if active != self.white_frame {
                    255
                } else {
                    0
                }
            } else {
                levels[i - plane]
            };
            values.push(value);
            assert(values@ =~= goal.take(i + 1));
        }
        assert(goal.take(length as int) =~= goal);
        let mut names: Vec<String> = Vec::new();
        names.push("positive".to_owned());
        names.push("activity".to_owned());
        names.push("negative".to_owned());
        assert(names_of(names@) =~= seq!["positive"@, "activity"@, "negative"@]);
        EventFrame::from_parts(
            EventFrameData::U8(values),
            planes.width,
            planes.height,
            RepresentationKind::CountMask,
            names,
        )
    }
}

/// A count as single precision additions of one reach it: they stop at two to the 24.
pub fn reference_count(count: u64) -> (reached: u64)
    ensures
        reached == if count < 0x100_0000 {
            count
        } else {
            0x100_0000
        },
{
    if count < 0x100_0000 {
        count
    } else {
        0x100_0000
    }
}

/// Counts as red and blue on white, each polarity at its own scale; where both are equally strong,
/// red.
#[derive(Clone, Copy, Debug)]
pub struct RedBlue {
    /// The bit pattern of the percentage.
    pct_bits: u64,
}

impl RedBlue {
    pub closed spec fn pct(&self) -> u64 {
        self.pct_bits
    }

    /// An image with a percentage, given by its bit pattern.
    pub fn new(pct_bits: u64) -> (image: Self)
        ensures
            image.pct() == pct_bits,
    {
        RedBlue { pct_bits }
    }

    /// The counts of a stream.
    pub fn counts(&self, stream: &EventStream) -> (planes: Result<CountPlanes, RepresentationError>)
        requires
            stream.wf(),
        ensures
            match planes {
                Ok(p) => counts_fault(self.pct(), stream) is None && counts_of(p, stream),
                Err(e) => counts_fault(self.pct(), stream) == Some(e),
            },
    {
        counts_for(self.pct_bits, stream)
    }

    /// The samples of the image: white, with green and the opposite colour faded.
    pub open spec fn samples(strengths: Seq<u32>, faded: Seq<u8>) -> Seq<u8> {
        let plane = (strengths.len() / 2) as int;
        Seq::new(
            (3 * plane) as nat,
            |i: int|
                if i < plane {
                    if strengths[i] >= strengths[plane + i] {
                        255
                    } else {
                        faded[plane + i]
                    }
                } else if i < 2 * plane {
                    if strengths[i - plane] >= strengths[i] {
                        faded[i - plane]
                    } else {
                        faded[i]
                    }
                } else {
                    if strengths[i - 2 * plane] >= strengths[i - plane] {
                        faded[i - 2 * plane]
                    } else {
                        255
                    }
                },
        )
    }

    /// The image, given the strength and the faded level of every count: of the positive ones first.
    /// Strengths are the bit patterns of single precision numbers that are not negative, which are
    /// ordered as the numbers are.
    pub fn frame(&self, width: usize, height: usize, strengths: &[u32], faded: &[u8]) -> (frame:
        EventFrame)
        requires
            strengths@.len() == faded@.len(),
            strengths@.len() % 2 == 0,
            3 * strengths@.len() <= 2 * usize::MAX,
        ensures
            frame.samples() matches EventFrameData::U8(v) && v@ == Self::samples(
                strengths@,
                faded@,
            ),
            frame.width() == width,
            frame.height() == height,
            frame.shown() == RepresentationKind::RedBlue,
            frame.names() == seq!["red"@, "green"@, "blue"@],
    {
        let plane: usize = strengths.len() / 2;
        let length: usize = 3 * plane;
        let ghost goal = Self::samples(strengths@, faded@);
        let mut values: Vec<u8> = Vec::with_capacity(length);
        for i in 0..length
            invariant
                strengths@.len() == 2 * plane,
                faded@.len() == 2 * plane,
                length == 3 * plane,
                goal == Self::samples(strengths@, faded@),
                values@ == goal.take(i as int),
        {
            let value = if i < plane {
                if strengths[i] >= strengths[plane + i] {
                    255
                } else {
                    faded[plane + i]
                }
            } else if i < 2 * plane {
                if strengths[i - plane] >= strengths[i] {
                    faded[i - plane]
                } else {
                    faded[i]
                }
            } else {
                if strengths[i - 2 * plane] >= strengths[i - plane] {
                    faded[i - 2 * plane]
                } else {
                    255
                }
            };
            values.push(value);
            assert(values@ =~= goal.take(i + 1));
        }
        assert(goal.take(length as int) =~= goal);
        let mut names: Vec<String> = Vec::new();
        names.push("red".to_owned());
        names.push("green".to_owned());
        names.push("blue".to_owned());
        assert(names_of(names@) =~= seq!["red"@, "green"@, "blue"@]);
        EventFrame::from_parts(
            EventFrameData::U8(values),
            width,
            height,
            RepresentationKind::RedBlue,
            names,
        )
    }
}

} // verus!
