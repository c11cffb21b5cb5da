//! The EVT2 and EVT3 event encodings.
//!
//! - **EVT3** is a stateful stream of 16-bit words: a word either updates the row, the vector base
//!   or the clock, or emits one or more events.
//! - **EVT2** is a stream of 32-bit words: an event word carries its coordinates, polarity and the
//!   low 6 bits of its timestamp; the upper bits come from the latest clock word.
//!
//! Both clocks count modulo a period and are unwrapped by the decoder: a clock word far below the
//! current time starts the next period.

use vstd::prelude::*;

use crate::stream::RawEvent;

verus! {

/// Period of the EVT3 clock, in microseconds.
pub const TIME_LOOP: i64 = 0x100_0000;

/// How far an EVT3 clock word must fall for it to be read as the start of the next period.
pub const LOOP_DROP: i64 = 0xFF_5000;

/// Period of the EVT2 clock, in microseconds.
pub const EVT2_TIME_LOOP: i64 = 0x4_0000_0000;

/// How far an EVT2 clock word must fall for it to be read as the start of the next period.
pub const EVT2_LOOP_DROP: i64 = 0x3_C000_0000;

/// Decoder state of an EVT2 stream.
#[derive(Clone, Copy, Debug)]
pub struct Evt2Decoder {
    /// Whether a clock word has been seen.
    pub initialised: bool,
    /// Time of the latest clock word, with every completed period.
    pub time_high: i64,
    /// Time of the latest word.
    pub time: i64,
    /// The completed periods, in microseconds.
    pub loop_offset: i64,
}

/// Decoder state of an EVT3 stream.
#[derive(Clone, Copy, Debug)]
pub struct Decoder {
    /// Whether a clock word has been seen.
    pub initialised: bool,
    /// Time of the latest upper clock word, with every completed period.
    pub time_base: i64,
    /// Time of the latest clock word.
    pub time: i64,
    /// The current row.
    pub y: u16,
    /// First column of the next vector word.
    pub base_x: u16,
    /// Polarity of vector events.
    pub polarity: bool,
    /// The completed periods, in microseconds.
    pub loop_offset: i64,
}

/// What an EVT3 or EVT2 writer last told the reader.
#[derive(Clone, Copy, Debug)]
pub struct EncoderState {
    /// The upper part of the clock.
    pub time_high: Option<i64>,
    /// EVT3: the lower part of the clock.
    pub time_low: Option<i64>,
    /// EVT3: the row.
    pub y: Option<u16>,
}

/// The state of a writer that has written nothing.
pub open spec fn fresh_encoder() -> EncoderState {
    EncoderState { time_high: None, time_low: None, y: None }
}

/// The state of an EVT2 reader that has read nothing.
pub open spec fn fresh_evt2() -> Evt2Decoder {
    Evt2Decoder { initialised: false, time_high: 0, time: 0, loop_offset: 0 }
}

/// The state of an EVT3 reader that has read nothing.
pub open spec fn fresh_evt3() -> Decoder {
    Decoder {
        initialised: false,
        time_base: 0,
        time: 0,
        y: 0,
        base_x: 0,
        polarity: false,
        loop_offset: 0,
    }
}

/// Unwraps a clock word: the new time, and the completed periods, given the time `now`, the
/// completed periods `offset`, the word's value, the period, and the drop that starts a new one.
pub open spec fn unwrapped(now: i64, offset: i64, value: i64, period: i64, drop: i64) -> (
    i64,
    i64,
) {
    let next = value.wrapping_add(offset);
    if now > next && now.wrapping_sub(next) >= drop {
        (next.wrapping_add(period), offset.wrapping_add(period))
    } else {
        (next, offset)
    }
}

// ---- EVT2 ----

/// The state after an EVT2 word.
pub open spec fn evt2_step(d: Evt2Decoder, word: int) -> Evt2Decoder {
    let kind = word / 0x1000_0000;
    if kind == 8 {
        let (next, offset) = unwrapped(
            d.time_high,
            d.loop_offset,
            (word % 0x1000_0000 * 64) as i64,
            EVT2_TIME_LOOP,
            EVT2_LOOP_DROP,
        );
        Evt2Decoder { initialised: true, time_high: next, time: next, loop_offset: offset }
    } else if kind <= 1 && d.initialised {
        Evt2Decoder { time: d.time_high.wrapping_add((word / 0x40_0000 % 64) as i64), ..d }
    } else {
        d
    }
}

/// The events of an EVT2 word: one for an event word after the first clock word.
pub open spec fn evt2_word_events(d: Evt2Decoder, word: int) -> Seq<RawEvent> {
    let kind = word / 0x1000_0000;
    if kind <= 1 && d.initialised {
        seq![
            RawEvent {
                x: (word / 0x800 % 0x800) as u16,
                y: (word % 0x800) as u16,
                t: d.time_high.wrapping_add((word / 0x40_0000 % 64) as i64),
                p: kind == 1,
            },
        ]
    } else {
        Seq::empty()
    }
}

/// The state after a run of EVT2 words.
pub open spec fn evt2_after(d: Evt2Decoder, words: Seq<int>) -> Evt2Decoder
    decreases words.len(),
{
    if words.len() == 0 {
        d
    } else {
        evt2_step(evt2_after(d, words.drop_last()), words.last())
    }
}

/// The events of a run of EVT2 words.
pub open spec fn evt2_events(d: Evt2Decoder, words: Seq<int>) -> Seq<RawEvent>
    decreases words.len(),
{
    if words.len() == 0 {
        Seq::empty()
    } else {
        evt2_events(d, words.drop_last()) + evt2_word_events(
            evt2_after(d, words.drop_last()),
            words.last(),
        )
    }
}

impl Evt2Decoder {
    /// A reader that has read nothing.
    pub fn new() -> (d: Self)
        ensures
            d == fresh_evt2(),
    {
        Evt2Decoder { initialised: false, time_high: 0, time: 0, loop_offset: 0 }
    }

    /// Decodes one word, appending the event it holds, if any.
    pub fn decode(&mut self, word: u32, out: &mut Vec<RawEvent>)
        ensures
            *final(self) == evt2_step(*old(self), word as int),
            final(out)@ == old(out)@ + evt2_word_events(*old(self), word as int),
    {
        let kind: u32 = word / 0x1000_0000;
        if kind == 8 {
            let value: i64 = (word % 0x1000_0000) as i64 * 64;
            let next: i64 = value.wrapping_add(self.loop_offset);
            if self.time_high > next && self.time_high.wrapping_sub(next) >= EVT2_LOOP_DROP {
                self.loop_offset = self.loop_offset.wrapping_add(EVT2_TIME_LOOP);
                self.time_high = next.wrapping_add(EVT2_TIME_LOOP);
            } else {
                self.time_high = next;
            }
            self.time = self.time_high;
            self.initialised = true;
            assert(out@ =~= old(out)@ + evt2_word_events(*old(self), word as int));
        } else if kind <= 1 && self.initialised {
            self.time = self.time_high.wrapping_add((word / 0x40_0000 % 64) as i64);
            out.push(
                RawEvent {
                    x: (word / 0x800 % 0x800) as u16,
                    y: (word % 0x800) as u16,
                    t: self.time,
                    p: kind == 1,
                },
            );
            assert(out@ =~= old(out)@ + evt2_word_events(*old(self), word as int));
        } else {
            assert(out@ =~= old(out)@ + evt2_word_events(*old(self), word as int));
        }
    }
}

// ---- EVT3 ----

/// A column counted from a base, capped at the largest 16-bit value.
pub open spec fn column(base: u16, offset: int) -> u16 {
    (if base + offset > 0xFFFF {
        0xFFFF
    } else {
        base + offset
    }) as u16
}

/// The events of the mask bits from `bit` up to `width`; `rest` holds them from its lowest bit on.
pub open spec fn vector_events(d: Decoder, rest: int, bit: int, width: int) -> Seq<RawEvent>
    decreases width - bit,
{
    if bit >= width {
        Seq::empty()
    } else {
        let here = if rest % 2 == 1 {
            seq![RawEvent { x: column(d.base_x, bit), y: d.y, t: d.time, p: d.polarity }]
        } else {
            Seq::empty()
        };
        here + vector_events(d, rest / 2, bit + 1, width)
    }
}

/// The state after an EVT3 word.
pub open spec fn evt3_step(d: Decoder, word: int) -> Decoder {
    let kind = word / 0x1000;
    let payload = word % 0x1000;
    if !d.initialised {
        if kind == 8 {
            Decoder {
                initialised: true,
                time_base: (payload * 0x1000) as i64,
                time: (payload * 0x1000) as i64,
                ..d
            }
        } else {
            d
        }
    } else if kind == 0 {
        Decoder { y: (word % 0x800) as u16, ..d }
    } else if kind == 3 {
        Decoder { base_x: (word % 0x800) as u16, polarity: word / 0x800 % 2 == 1, ..d }
    } else if kind == 4 {
        Decoder { base_x: column(d.base_x, 12), ..d }
    } else if kind == 5 {
        Decoder { base_x: column(d.base_x, 8), ..d }
    } else if kind == 6 {
        Decoder { time: d.time_base.wrapping_add(payload as i64), ..d }
    } else if kind == 8 {
        let (next, offset) = unwrapped(
            d.time_base,
            d.loop_offset,
            (payload * 0x1000) as i64,
            TIME_LOOP,
            LOOP_DROP,
        );
        Decoder { time_base: next, time: next, loop_offset: offset, ..d }
    } else {
        d
    }
}

/// The events of an EVT3 word.
pub open spec fn evt3_word_events(d: Decoder, word: int) -> Seq<RawEvent> {
    let kind = word / 0x1000;
    let payload = word % 0x1000;
    if !d.initialised {
        Seq::empty()
    } else if kind == 2 {
        seq![
            RawEvent {
                x: (word % 0x800) as u16,
                y: d.y,
                t: d.time,
                p: word / 0x800 % 2 == 1,
            },
        ]
    } else if kind == 4 {
        vector_events(d, payload, 0, 12)
    } else if kind == 5 {
        vector_events(d, payload, 0, 8)
    } else {
        Seq::empty()
    }
}

/// The state after a run of EVT3 words.
pub open spec fn evt3_after(d: Decoder, words: Seq<int>) -> Decoder
    decreases words.len(),
{
    if words.len() == 0 {
        d
    } else {
        evt3_step(evt3_after(d, words.drop_last()), words.last())
    }
}

/// The events of a run of EVT3 words.
pub open spec fn evt3_events(d: Decoder, words: Seq<int>) -> Seq<RawEvent>
    decreases words.len(),
{
    if words.len() == 0 {
        Seq::empty()
    } else {
        evt3_events(d, words.drop_last()) + evt3_word_events(
            evt3_after(d, words.drop_last()),
            words.last(),
        )
    }
}

impl Decoder {
    /// A reader that has read nothing.
    pub fn new() -> (d: Self)
        ensures
            d == fresh_evt3(),
    {
        Decoder {
            initialised: false,
            time_base: 0,
            time: 0,
            y: 0,
            base_x: 0,
            polarity: false,
            loop_offset: 0,
        }
    }

    /// Appends the events of a mask of `width` bits.
    fn vector(&self, mask: u16, width: u16, out: &mut Vec<RawEvent>)
        requires
            width <= 12,
        ensures
            final(out)@ == old(out)@ + vector_events(*self, mask as int, 0, width as int),
    {
        let mut rest: u16 = mask;
        let mut bit: u16 = 0;
        assert(out@ + Seq::<RawEvent>::empty() =~= out@);
        while bit < width
            invariant
                bit <= width <= 12,
                old(out)@ + vector_events(*self, mask as int, 0, width as int) == out@
                    + vector_events(*self, rest as int, bit as int, width as int),
            decreases width - bit,
        {
            let ghost before = out@;
            let ghost tail = vector_events(*self, rest as int / 2, bit + 1, width as int);
            if rest % 2 == 1 {
                out.push(
                    RawEvent {
                        x: self.base_x.saturating_add(bit),
                        y: self.y,
                        t: self.time,
                        p: self.polarity,
                    },
                );
                assert(out@ + tail =~= before + vector_events(
                    *self,
                    rest as int,
                    bit as int,
                    width as int,
                ));
            } else {
                assert(out@ + tail =~= before + vector_events(
                    *self,
                    rest as int,
                    bit as int,
                    width as int,
                ));
            }
            rest = rest / 2;
            bit += 1;
        }
        assert(out@ + Seq::<RawEvent>::empty() =~= out@);
    }

    /// Decodes one word, appending the events it holds.
    pub fn decode(&mut self, word: u16, out: &mut Vec<RawEvent>)
        ensures
            *final(self) == evt3_step(*old(self), word as int),
            final(out)@ == old(out)@ + evt3_word_events(*old(self), word as int),
    {
        let kind: u16 = word / 0x1000;
        let payload: u16 = word % 0x1000;
        assert(out@ + Seq::<RawEvent>::empty() =~= out@);
        if !self.initialised {
            if kind == 8 {
                self.time_base = payload as i64 * 0x1000;
                self.time = self.time_base;
                self.initialised = true;
            }
            return;
        }
        if kind == 0 {
            self.y = word % 0x800;
        } else if kind == 2 {
            out.push(
                RawEvent {
                    x: word % 0x800,
                    y: self.y,
                    t: self.time,
                    p: word / 0x800 % 2 == 1,
                },
            );
            assert(out@ =~= old(out)@ + evt3_word_events(*old(self), word as int));
        } else if kind == 3 {
            self.base_x = word % 0x800;
            self.polarity = word / 0x800 % 2 == 1;
        } else if kind == 4 {
            self.vector(payload, 12, out);
            self.base_x = self.base_x.saturating_add(12);
        } else if kind == 5 {
            self.vector(payload, 8, out);
            self.base_x = self.base_x.saturating_add(8);
        } else if kind == 6 {
            self.time = self.time_base.wrapping_add(payload as i64);
        } else if kind == 8 {
            let next: i64 = (payload as i64 * 0x1000).wrapping_add(self.loop_offset);
            if self.time_base > next && self.time_base.wrapping_sub(next) >= LOOP_DROP {
                self.loop_offset = self.loop_offset.wrapping_add(TIME_LOOP);
                self.time_base = next.wrapping_add(TIME_LOOP);
            } else {
                self.time_base = next;
            }
            self.time = self.time_base;
        }
    }
}

} // verus!
