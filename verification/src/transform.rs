//! Event-domain geometry: new streams from the events of another.

use vstd::prelude::*;

use crate::stream::{EventStream, EventStreamBuilder, RawEvent};

verus! {

/// Where an event goes: column, row, time and polarity. Negative places lie off every sensor.
pub type Moved = (i64, i64, i64, bool);

/// Whether a moved event lies on a grid.
pub open spec fn lands(m: Moved, width: int, height: int) -> bool {
    0 <= m.0 < width && 0 <= m.1 < height
}

/// The event of a moved event. Columns and rows are held in 16 bits.
pub open spec fn landed(m: Moved) -> RawEvent {
    RawEvent { x: (m.0 % 0x1_0000) as u16, y: (m.1 % 0x1_0000) as u16, t: m.2, p: m.3 }
}

/// The events on a grid after a move; those that were dropped or lie off the grid are left out.
pub open spec fn remapped(moves: Seq<Option<Moved>>, width: int, height: int) -> Seq<RawEvent>
    decreases moves.len(),
{
    if moves.len() == 0 {
        Seq::empty()
    } else {
        let before = remapped(moves.drop_last(), width, height);
        match moves.last() {
            Some(m) if lands(m, width, height) => before.push(landed(m)),
            _ => before,
        }
    }
}

/// Moves never add events.
pub proof fn remapped_len(moves: Seq<Option<Moved>>, width: int, height: int)
    ensures
        remapped(moves, width, height).len() <= moves.len(),
    decreases moves.len(),
{
    if moves.len() > 0 {
        remapped_len(moves.drop_last(), width, height);
    }
}

impl EventStream {
    /// The stream of moved events over a grid, given where each event goes; `None` drops it.
    pub fn remap(&self, width: usize, height: usize, moves: &[Option<Moved>]) -> (stream: EventStream)
        requires
            self.wf(),
        ensures
            stream.wf(),
            stream.width() == width,
            stream.height() == height,
            stream.scale() == self.scale(),
            stream.events() == remapped(moves@, width as int, height as int),
    {
        let n: usize = moves.len();
        let mut builder = EventStreamBuilder::with_capacity(
            width,
            height,
            self.timestamp_scale_bits(),
            n,
        );
        assert(moves@.take(0) =~= Seq::<Option<Moved>>::empty());
        for i in 0..n
            invariant
                n == moves@.len(),
                builder.wf(),
                builder.width() == width,
                builder.height() == height,
                builder.scale() == self.scale(),
                builder.events() == remapped(moves@.take(i as int), width as int, height as int),
        {
            assert(moves@.take(i + 1).drop_last() =~= moves@.take(i as int));
            if let Some((x, y, t, p)) = moves[i] {
                if x >= 0 && y >= 0 && (x as u64) < width as u64 && (y as u64) < height as u64 {
                    let column: u64 = x as u64 % 0x1_0000;
                    let line: u64 = y as u64 % 0x1_0000;
                    builder.push_in_bounds(column as u16, line as u16, t, p);
                }
            }
        }
        assert(moves@.take(n as int) =~= moves@);
        builder.build()
    }

    /// The stream over another grid with its columns replaced, for moves that take every event onto
    /// the grid. A grid without pixels holds no events.
    pub fn map_columns(
        &self,
        width: usize,
        height: usize,
        xs: Vec<u16>,
        ys: Vec<u16>,
        ts: Vec<i64>,
        ps: Vec<bool>,
    ) -> (stream: EventStream)
        requires
            xs@.len() == ys@.len(),
            xs@.len() == ts@.len(),
            xs@.len() == ps@.len(),
        ensures
            stream.wf(),
            stream.width() == width,
            stream.height() == height,
            stream.scale() == self.scale(),
            stream.events() == if width == 0 || height == 0 {
                Seq::empty()
            } else {
                crate::stream::rows(xs@, ys@, ts@, ps@)
            },
    {
        let scale = self.timestamp_scale_bits();
        if width == 0 || height == 0 {
            return EventStreamBuilder::new(width, height, scale).build();
        }
        EventStream::from_columns(xs, ys, ts, ps, width, height, scale)
    }
}

/// Mirroring columns twice gives back every event of a stream on its sensor.
pub proof fn mirror_twice(events: Seq<RawEvent>, width: int, height: int)
    requires
        0 < width <= 0x1_0000,
        0 < height <= 0x1_0000,
        forall|i: int|
            0 <= i < events.len() ==> (#[trigger] events[i]).x < width && events[i].y < height,
    ensures
        remapped(
            mirror_moves(remapped(mirror_moves(events, width), width, height), width),
            width,
            height,
        ) == events,
    decreases events.len(),
{
    if events.len() > 0 {
        let rest = events.drop_last();
        assert forall|i: int| 0 <= i < rest.len() implies (#[trigger] rest[i]).x < width
            && rest[i].y < height by {
            assert(rest[i] == events[i]);
        }
        mirror_twice(rest, width, height);
        let e = events.last();
        assert(e == events[events.len() - 1]);
        let once = remapped(mirror_moves(rest, width), width, height);
        assert(mirror_moves(events, width).drop_last() =~= mirror_moves(rest, width));
        let m = landed(mirrored(e, width));
        let all = remapped(mirror_moves(events, width), width, height);
        assert(all == once.push(m));
        assert(mirror_moves(all, width).drop_last() =~= mirror_moves(once, width));
        assert(landed(mirrored(m, width)) == e);
        assert(rest.push(e) =~= events);
    } else {
        assert(remapped(mirror_moves(events, width), width, height) =~= Seq::<RawEvent>::empty());
    }
}

/// Where mirroring the columns takes an event.
pub open spec fn mirrored(e: RawEvent, width: int) -> Moved {
    ((width - 1 - e.x) as i64, e.y as i64, e.t, e.p)
}

/// Where mirroring the columns takes events.
pub open spec fn mirror_moves(events: Seq<RawEvent>, width: int) -> Seq<Option<Moved>> {
    Seq::new(events.len(), |i: int| Some(mirrored(events[i], width)))
}

} // verus!
