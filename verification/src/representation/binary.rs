//! Which pixels saw an event.

use vstd::prelude::*;

use crate::representation::{
    event_index, first_outside, first_outside_prefix, frame_len, hits, outside_error, EventFrame,
    EventFrameData, Representation, RepresentationError, RepresentationKind,
};
use crate::stream::{EventStream, RawEvent};

verus! {

/// A frame with a one at every pixel that saw an event.
#[derive(Clone, Copy, Debug, Default)]
pub struct Binary;

/// The place of an event's pixel in a row-major plane.
pub open spec fn pixel(width: int) -> spec_fn(RawEvent) -> int {
    |e: RawEvent| e.y * width + e.x
}

/// One where an event fell, zero elsewhere.
pub open spec fn occupancy(events: Seq<RawEvent>, width: int, length: int) -> Seq<u8> {
    Seq::new(
        length as nat,
        |i: int|
            if hits(events, pixel(width), i) > 0 {
                1u8
            } else {
                0
            },
    )
}

impl Representation for Binary {
    type Output = EventFrame;

    fn generate(&self, stream: &EventStream) -> (frame: Result<EventFrame, RepresentationError>)
        ensures
            match frame {
                Ok(f) => {
                    &&& stream.width() * stream.height() <= usize::MAX
                    &&& first_outside(stream.events(), stream.width(), stream.height())
                        == stream.events().len()
                    &&& f.samples() matches EventFrameData::U8(v) && v@ == occupancy(
                        stream.events(),
                        stream.width(),
                        stream.width() * stream.height(),
                    )
                    &&& f.width() == stream.width()
                    &&& f.height() == stream.height()
                    &&& f.shown() == RepresentationKind::Binary
                    &&& f.names() == seq!["event"@]
                    &&& f.wf()
                },
                Err(RepresentationError::SizeOverflow) => stream.width() * stream.height()
                    > usize::MAX,
                Err(e) => {
                    &&& stream.width() * stream.height() <= usize::MAX
                    &&& first_outside(stream.events(), stream.width(), stream.height())
                        < stream.events().len()
                    &&& e == outside_error(stream.events(), stream.width(), stream.height())
                },
            },
    {
        let (width, height, length) = match frame_len(stream, 1) {
            Ok(sizes) => sizes,
            Err(error) => {
                return Err(error);
            },
        };
        let mut seen: Vec<u8> = Vec::new();
        seen.resize(length, 0);
        let n: usize = stream.len();
        let ghost events = stream.events();
        assert(events.take(0) =~= Seq::<RawEvent>::empty());
        assert(seen@ =~= occupancy(events.take(0), width as int, length as int));
        for i in 0..n
            invariant
                stream.wf(),
                events == stream.events(),
                n == events.len(),
                width == stream.width(),
                height == stream.height(),
                length == width * height,
                seen@ == occupancy(events.take(i as int), width as int, length as int),
                first_outside(events.take(i as int), width as int, height as int) == i,
        {
            let ghost before = events.take(i as int);
            let ghost after = events.take(i + 1);
            assert(after.drop_last() =~= before);
            let event = stream.event(i);
            match event_index(event, width, height) {
                Ok(index) => {
                    seen.set(index, 1);
                    assert(pixel(width as int)(after.last()) == index);
                    assert(seen@ =~= occupancy(after, width as int, length as int));
                },
                Err(error) => {
                    proof {
                        first_outside_prefix(events, i as int, width as int, height as int);
                    }
                    return Err(error);
                },
            }
        }
        assert(events.take(n as int) =~= events);
        let frame = EventFrame::single(
            EventFrameData::U8(seen),
            width,
            height,
            RepresentationKind::Binary,
            "event",
        );
        assert(1 * (width * height) == width * height);
        Ok(frame)
    }
}

} // verus!
