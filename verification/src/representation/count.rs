//! How many events each pixel saw.

use vstd::prelude::*;

use crate::representation::binary::pixel;
use crate::representation::{
    event_index, first_outside, first_outside_prefix, frame_len, histogram, histogram_push,
    normalize_u8, normalized, outside_error, EventFrame, EventFrameData, Representation,
    RepresentationError, RepresentationKind,
};
use crate::stream::{EventStream, RawEvent};

verus! {

/// A single-channel image of the number of events at each pixel, both polarities summed.
#[derive(Clone, Copy, Debug)]
pub struct EventCount {
    normalize: bool,
}

impl Default for EventCount {
    fn default() -> (count: Self)
        ensures
            !count.normalizes(),
    {
        Self::new(false)
    }
}

/// Counts as they are, or rescaled for display.
pub open spec fn count_samples(data: EventFrameData, counts: Seq<u64>, normalize: bool) -> bool {
    if normalize {
        data matches EventFrameData::U8(v) && v@ == normalized(counts)
    } else {
        data matches EventFrameData::U64(v) && v@ == counts
    }
}

/// Counts as frame samples.
pub(crate) fn count_data(counts: Vec<u64>, normalize: bool) -> (data: EventFrameData)
    ensures
        count_samples(data, counts@, normalize),
        data.size() == counts@.len(),
{
    if normalize {
        EventFrameData::U8(normalize_u8(&counts))
    } else {
        EventFrameData::U64(counts)
    }
}

impl EventCount {
    pub closed spec fn normalizes(&self) -> bool {
        self.normalize
    }

    pub fn new(normalize: bool) -> (count: Self)
        ensures
            count.normalizes() == normalize,
    {
        EventCount { normalize }
    }

    pub fn is_normalized(&self) -> (yes: bool)
        ensures
            yes == self.normalizes(),
    {
        self.normalize
    }
}

impl Representation for EventCount {
    type Output = EventFrame;

    fn generate(&self, stream: &EventStream) -> (frame: Result<EventFrame, RepresentationError>)
        ensures
            match frame {
                Ok(f) => {
                    &&& stream.width() * stream.height() <= usize::MAX
                    &&& first_outside(stream.events(), stream.width(), stream.height())
                        == stream.events().len()
                    &&& count_samples(
                        f.samples(),
                        histogram(
                            stream.events(),
                            pixel(stream.width()),
                            stream.width() * stream.height(),
                        ),
                        self.normalizes(),
                    )
                    &&& f.width() == stream.width()
                    &&& f.height() == stream.height()
                    &&& f.shown() == RepresentationKind::Count
                    &&& f.names() == seq!["count"@]
                    &&& f.wf()
                },
                Err(RepresentationError::SizeOverflow) => stream.width() * stream.height()
                    > usize::MAX,
                Err(e) => {
                    &&& stream.width() * stream.height() <= usize::MAX
                    &&& first_outside(stream.events(), stream.width(), stream.height())
                        < stream.events().len()
                    &&& e == outside_error(stream.events(), stream.width(), stream.height())
                },
            },
    {
        let (width, height, length) = match frame_len(stream, 1) {
            Ok(sizes) => sizes,
            Err(error) => {
                return Err(error);
            },
        };
        let mut counts: Vec<u64> = Vec::new();
        counts.resize(length, 0);
        let n: usize = stream.len();
        let ghost events = stream.events();
        let ghost cell = pixel(width as int);
        assert(events.take(0) =~= Seq::<RawEvent>::empty());
        assert(counts@ =~= histogram(events.take(0), cell, length as int));
        for i in 0..n
            invariant
                stream.wf(),
                events == stream.events(),
                n == events.len(),
                width == stream.width(),
                height == stream.height(),
                length == width * height,
                cell == pixel(width as int),
                counts@ == histogram(events.take(i as int), cell, length as int),
                first_outside(events.take(i as int), width as int, height as int) == i,
        {
            let ghost before = events.take(i as int);
            let ghost after = events.take(i + 1);
            assert(after.drop_last() =~= before);
            assert(after =~= before.push(events[i as int]));
            let event = stream.event(i);
            match event_index(event, width, height) {
                Ok(index) => {
                    assert(cell(events[i as int]) == index);
                    proof {
                        histogram_push(before, events[i as int], cell, length as int);
                    }
                    counts.set(index, counts[index] + 1);
                    assert(counts@ =~= histogram(after, cell, length as int));
                },
                Err(error) => {
                    proof {
                        first_outside_prefix(events, i as int, width as int, height as int);
                    }
                    return Err(error);
                },
            }
        }
        assert(events.take(n as int) =~= events);
        let frame = EventFrame::single(
            count_data(counts, self.normalize),
            width,
            height,
            RepresentationKind::Count,
            "count",
        );
        assert(1 * (width * height) == width * height);
        Ok(frame)
    }
}

} // verus!
