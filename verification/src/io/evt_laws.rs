//! What the words of EVT2 and EVT3 streams mean, bit by bit.

use vstd::prelude::*;

use crate::io::evt::{
    evt2_step, evt2_word_events, evt3_step, evt3_word_events, vector_events, Decoder, Evt2Decoder,
};
use crate::stream::RawEvent;

verus! {

/// Whether a bit of a word is set.
pub open spec fn has_bit(word: u16, b: u16) -> bool {
    (word >> b) & 1 == 1
}

/// The set bits of a word from `bit` up to `width`, in rising order.
pub open spec fn are_bits(bits: Seq<u16>, word: u16, bit: int, width: int) -> bool {
    &&& forall|i: int|
        0 <= i < bits.len() ==> bit <= (#[trigger] bits[i]) < width && has_bit(word, bits[i])
    &&& forall|i: int, j: int| 0 <= i < j < bits.len() ==> (#[trigger] bits[i]) < #[trigger] bits[j]
    &&& forall|b: u16| bit <= b < width && #[trigger] has_bit(word, b) ==> bits.contains(b)
}

/// The event of a bit: so many columns to the right of the base, or in the last column there is.
pub open spec fn is_event_of_bit(e: RawEvent, d: Decoder, b: u16) -> bool {
    &&& e.x == if d.base_x + b > 0xFFFF {
        0xFFFF
    } else {
        d.base_x + b
    }
    &&& e.y == d.y
    &&& e.t == d.time
    &&& e.p == d.polarity
}

proof fn vector_bits(d: Decoder, word: u16, bit: u16, width: u16) -> (bits: Seq<u16>)
    requires
        bit <= width <= 12,
    ensures
        are_bits(bits, word, bit as int, width as int),
        vector_events(d, (word >> bit) as int, bit as int, width as int).len() == bits.len(),
        forall|i: int|
            0 <= i < bits.len() ==> is_event_of_bit(
                #[trigger] vector_events(d, (word >> bit) as int, bit as int, width as int)[i],
                d,
                bits[i],
            ),
    decreases width - bit,
{
    if bit == width {
        Seq::empty()
    } else {
        let next = (bit + 1) as u16;
        let rest = word >> bit;
        assert((word >> bit) / 2 == word >> next && ((word >> bit) % 2 == 1 <==> (word >> bit) & 1
            == 1)) by (bit_vector)
            requires
                bit < 12,
                next == bit + 1,
        ;
        let after = vector_bits(d, word, next, width);
        let tail = vector_events(d, rest as int / 2, bit + 1, width as int);
        let all = vector_events(d, rest as int, bit as int, width as int);
        if has_bit(word, bit) {
            let bits = seq![bit] + after;
            assert(all.len() == tail.len() + 1);
            assert forall|i: int| 0 <= i < bits.len() implies is_event_of_bit(
                #[trigger] all[i],
                d,
                bits[i],
            ) by {
                if i > 0 {
                    assert(all[i] == tail[i - 1]);
                    assert(bits[i] == after[i - 1]);
                }
            }
            assert forall|b: u16| bit <= b < width && #[trigger] has_bit(word, b) implies bits.contains(
                b,
            ) by {
                if b == bit {
                    assert(bits[0] == b);
                } else {
                    assert(after.contains(b));
                    let k = choose|k: int| 0 <= k < after.len() && after[k] == b;
                    assert(bits[k + 1] == b);
                }
            }
            assert forall|i: int| 0 <= i < bits.len() implies bit <= (#[trigger] bits[i]) < width
                && has_bit(word, bits[i]) by {
                if i > 0 {
                    assert(bits[i] == after[i - 1]);
                }
            }
            assert forall|i: int, j: int| 0 <= i < j < bits.len() implies (#[trigger] bits[i])
                < #[trigger] bits[j] by {
                assert(bits[j] == after[j - 1]);
                if i > 0 {
                    assert(bits[i] == after[i - 1]);
                }
            }
            bits
        } else {
            assert(all =~= tail);
            assert forall|b: u16| bit <= b < width && #[trigger] has_bit(word, b) implies after.contains(
                b,
            ) by {
                assert(b != bit);
            }
            after
        }
    }
}

/// An EVT3 vector word holds one event for each set bit of its mask, of twelve bits or of eight, in
/// rising order: as many columns to the right of the base as the bit says, in the row, at the time
/// and of the polarity told before. The next vector goes on where the mask ends, and nothing else
/// changes.
pub proof fn evt3_vector_word(d: Decoder, word: u16) -> (bits: Seq<u16>)
    requires
        d.initialised,
        word >> 12 == 4 || word >> 12 == 5,
    ensures
        ({
            let width: int = if word >> 12 == 4 {
                12
            } else {
                8
            };
            let events = evt3_word_events(d, word as int);
            let after = evt3_step(d, word as int);
            &&& are_bits(bits, word, 0, width)
            &&& events.len() == bits.len()
            &&& forall|i: int|
                0 <= i < events.len() ==> is_event_of_bit(#[trigger] events[i], d, bits[i])
            &&& after.base_x == if d.base_x + width > 0xFFFF {
                0xFFFF
            } else {
                d.base_x + width
            }
            &&& after == (Decoder { base_x: after.base_x, ..d })
        }),
{
    assert(word >> 12 == word / 0x1000) by (bit_vector);
    let width: u16 = if word >> 12 == 4 {
        12
    } else {
        8
    };
    let payload = word & 0xFFF;
    assert(word & 0xFFF == word % 0x1000 && (word & 0xFFF) >> 0 == word & 0xFFF) by (bit_vector);
    let bits = vector_bits(d, payload, 0, width);
    assert forall|b: u16| b < 12 implies #[trigger] has_bit(payload, b) == has_bit(word, b) by {
        assert(((word & 0xFFF) >> b) & 1 == (word >> b) & 1) by (bit_vector)
            requires
                b < 12,
        ;
    }
    assert forall|b: u16| b < width && #[trigger] has_bit(word, b) implies bits.contains(b) by {
        assert(has_bit(payload, b));
    }
    assert(are_bits(bits, word, 0, width as int));
    bits
}

/// What the other EVT3 words say once a clock word has been seen: the row in eleven bits; an event
/// with its column in eleven bits and its polarity above them; the column and the polarity of
/// vectors likewise; the lower twelve bits of the time. Words of other kinds say nothing.
pub proof fn evt3_plain_word(d: Decoder, word: u16)
    requires
        d.initialised,
        0 <= d.time_base <= i64::MAX - 0xFFF,
    ensures
        ({
            let kind = word >> 12;
            let low = word & 0x7FF;
            let above = (word >> 11) & 1 == 1;
            let events = evt3_word_events(d, word as int);
            let after = evt3_step(d, word as int);
            &&& kind == 2 ==> events.len() == 1 && events[0].x == low && events[0].y == d.y
                && events[0].t == d.time && events[0].p == above && after == d
            &&& kind != 2 && kind != 4 && kind != 5 ==> events.len() == 0
            &&& kind == 0 ==> after == (Decoder { y: low, ..d })
            &&& kind == 3 ==> after == (Decoder { base_x: low, polarity: above, ..d })
            &&& kind == 6 ==> after.time - d.time_base == word & 0xFFF && after == (Decoder {
                time: after.time,
                ..d
            })
            &&& kind == 1 || kind == 7 || kind > 8 ==> after == d
        }),
{
    assert(word >> 12 == word / 0x1000 && word & 0x7FF == word % 0x800 && word & 0xFFF == word
        % 0x1000 && ((word >> 11) & 1 == 1 <==> word / 0x800 % 2 == 1)) by (bit_vector);
}

/// The twelve upper bits of the time: each clock word sets the time to a multiple of 4096 that fits
/// what it says. The clock goes round after 2^24 microseconds: a fall of at least 0xFF_5000 is read
/// as the next round, and no other.
pub proof fn evt3_clock_word(d: Decoder, word: u16)
    requires
        word >> 12 == 8,
        d.initialised ==> 0 <= d.loop_offset <= d.time_base < d.loop_offset + 0x100_0000,
        d.loop_offset <= i64::MAX - 0x200_0000,
        d.loop_offset % 0x100_0000 == 0,
    ensures
        ({
            let value = (word & 0xFFF) * 4096;
            let after = evt3_step(d, word as int);
            &&& evt3_word_events(d, word as int).len() == 0
            &&& after.initialised
            &&& after.time == after.time_base
            &&& after.time_base % 0x100_0000 == value
            &&& !d.initialised ==> after.time_base == value && after.loop_offset == d.loop_offset
            &&& d.initialised ==> {
                &&& after.time_base == after.loop_offset + value
                &&& after.loop_offset == if d.time_base - d.loop_offset - value >= 0xFF_5000 {
                    d.loop_offset + 0x100_0000
                } else {
                    d.loop_offset as int
                }
                &&& after.time_base > d.time_base - 0xFF_5000
            }
            &&& after == (Decoder {
                initialised: true,
                time_base: after.time_base,
                time: after.time,
                loop_offset: after.loop_offset,
                ..d
            })
        }),
{
    assert(word >> 12 == word / 0x1000 && word & 0xFFF == word % 0x1000) by (bit_vector);
    let value = (word as int % 0x1000) * 0x1000;
    assert(0 <= value < 0x100_0000);
    if d.initialised {
        let q = d.loop_offset as int / 0x100_0000;
        assert(d.loop_offset == q * 0x100_0000);
        assert((q * 0x100_0000 + value) % 0x100_0000 == value);
        assert(((q + 1) * 0x100_0000 + value) % 0x100_0000 == value);
    }
}

/// Before the first clock word nothing is said.
pub proof fn evt3_needs_a_clock(d: Decoder, word: u16)
    requires
        !d.initialised,
    ensures
        evt3_word_events(d, word as int).len() == 0,
        word >> 12 != 8 ==> evt3_step(d, word as int) == d,
{
    assert(word >> 12 == word / 0x1000) by (bit_vector);
}

/// An EVT2 event word after a clock word is one event: the row in the lowest eleven bits, the column
/// in the eleven above, the lower six bits of the time above these, and the polarity in the lowest
/// bit of the kind. Other words hold none.
pub proof fn evt2_event_word(d: Evt2Decoder, word: u32)
    requires
        0 <= d.time_high <= i64::MAX - 0x3F,
    ensures
        ({
            let kind = word >> 28;
            let events = evt2_word_events(d, word as int);
            let after = evt2_step(d, word as int);
            &&& d.initialised && kind <= 1 ==> {
                &&& events.len() == 1
                &&& events[0].y == word & 0x7FF
                &&& events[0].x == (word >> 11) & 0x7FF
                &&& events[0].t == d.time_high + ((word >> 22) & 0x3F)
                &&& events[0].p == (kind == 1)
                &&& after.time == events[0].t
                &&& after == (Evt2Decoder { time: after.time, ..d })
            }
            &&& !d.initialised || kind > 1 ==> events.len() == 0
            &&& kind != 8 && (!d.initialised || kind > 1) ==> after == d
        }),
{
    assert(word >> 28 == word / 0x1000_0000 && word & 0x7FF == word % 0x800 && (word >> 11) & 0x7FF
        == word / 0x800 % 0x800 && (word >> 22) & 0x3F == word / 0x40_0000 % 64) by (bit_vector);
}

/// The upper bits of the time: each clock word sets the time to 64 times what it says, in the round
/// of the clock. The clock goes round after 2^34 microseconds: a fall of at least 0x3_C000_0000 is
/// read as the next round, and no other.
pub proof fn evt2_clock_word(d: Evt2Decoder, word: u32)
    requires
        word >> 28 == 8,
        0 <= d.loop_offset <= i64::MAX - 0x8_0000_0000,
        0 <= d.time_high < d.loop_offset + 0x4_0000_0000,
    ensures
        ({
            let value = (word & 0xFFF_FFFF) * 64;
            let after = evt2_step(d, word as int);
            &&& after.initialised
            &&& after.time == after.time_high
            &&& after.time_high == after.loop_offset + value
            &&& after.loop_offset == if d.time_high - d.loop_offset - value >= 0x3_C000_0000 {
                d.loop_offset + 0x4_0000_0000
            } else {
                d.loop_offset as int
            }
            &&& after.time_high > d.time_high - 0x3_C000_0000
        }),
{
    assert(word >> 28 == word / 0x1000_0000 && word & 0xFFF_FFFF == word % 0x1000_0000)
        by (bit_vector);
}

} // verus!
