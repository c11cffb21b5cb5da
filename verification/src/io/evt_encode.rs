//! Writers of the EVT2 and EVT3 encodings.

use vstd::prelude::*;

use crate::bytes::{
    le16_all, le16_all_concat, le16_all_push, le32_all, le32_all_concat, le32_all_push, push_u16,
    push_u32, unsigned64,
};
use crate::io::evt::{
    column, evt2_after, evt2_events, evt2_step, evt2_word_events, evt3_after, evt3_events,
    evt3_step, evt3_word_events, vector_events, Decoder, EncoderState, Evt2Decoder, EVT2_TIME_LOOP,
};
use crate::stream::{EventStream, RawEvent};

verus! {

/// `t / 64`, rounded down.
fn floor64(t: i64) -> (q: i64)
    ensures
        q == t as int / 64,
{
    let shifted: u64 = (t as i128 + 0x8000_0000_0000_0000) as u64;
    (shifted / 64) as i64 - 0x200_0000_0000_0000
}

/// `t / 4096`, rounded down.
fn floor4096(t: i64) -> (q: i64)
    ensures
        q == t as int / 4096,
{
    let shifted: u64 = (t as i128 + 0x8000_0000_0000_0000) as u64;
    (shifted / 4096) as i64 - 0x8_0000_0000_0000
}

/// How many periods of its upper clock the reader must be told of, one by one, before it is given
/// the value `high`. None, if it stays in the period of what it knows, or if the value falls far
/// enough for the reader to see that the next period began. A clock that was never told starts in
/// the first period.
pub open spec fn missed(known: Option<i64>, high: int, period: int, near: int) -> int {
    match known {
        None => if high >= 0 {
            high / period
        } else {
            0
        },
        Some(h) => {
            let k = high / period - h as int / period;
            if h < 0 || high < h || k == 0 || (k == 1 && high - h <= near) {
                0
            } else {
                k
            }
        },
    }
}

fn missed_periods(known: Option<i64>, high: i64, period: i64, near: i64) -> (k: i64)
    requires
        0 < period,
    ensures
        k == missed(known, high as int, period as int, near as int),
        k >= 0,
{
    match known {
        None => if high >= 0 {
            assert(high as int / period as int >= 0) by (nonlinear_arith)
                requires
                    high >= 0,
                    period > 0,
            ;
            high / period
        } else {
            0
        },
        Some(h) => if h < 0 || high < h {
            0
        } else {
            assert(0 <= h as int / period as int <= high as int / period as int) by (nonlinear_arith)
                requires
                    0 <= h <= high,
                    period > 0,
            ;
            let k: i64 = high / period - h / period;
            if k == 0 || (k == 1 && high - h <= near) {
                0
            } else {
                k
            }
        },
    }
}

// ---- EVT2 ----

/// The clock words that take the reader through `k` periods: to the end of each, and to the start
/// of the next.
pub open spec fn evt2_periods(k: int) -> Seq<int>
    decreases k,
{
    if k <= 0 {
        Seq::empty()
    } else {
        evt2_periods(k - 1) + seq![0x8FFF_FFFFint, 0x8000_0000]
    }
}

/// The clock words that bring the reader to the upper time `high`.
pub open spec fn evt2_clock_words(s: EncoderState, high: int) -> Seq<int> {
    evt2_periods(missed(s.time_high, high, 0x1000_0000, 0x100_0000)) + seq![
        0x8000_0000 + high % 0x1000_0000,
    ]
}

/// The event word of an event: coordinates cut to 11 bits.
pub open spec fn evt2_event_word(e: RawEvent) -> int {
    (if e.p {
        0x1000_0000int
    } else {
        0
    }) + 0x40_0000 * (e.t as int % 64) + 0x800 * (e.x as int % 0x800) + e.y as int % 0x800
}

/// The words of one event: clock words if the upper part of the clock moved, then the event word.
pub open spec fn evt2_event_words(s: EncoderState, e: RawEvent) -> Seq<int> {
    let high = e.t as int / 64;
    (if s.time_high == Some(high as i64) {
        Seq::empty()
    } else {
        evt2_clock_words(s, high)
    }).push(evt2_event_word(e))
}

/// What the reader knows after one event.
pub open spec fn evt2_told(s: EncoderState, e: RawEvent) -> EncoderState {
    EncoderState { time_high: Some((e.t as int / 64) as i64), ..s }
}

/// What the reader knows after a run of events.
pub open spec fn evt2_state(s: EncoderState, events: Seq<RawEvent>) -> EncoderState
    decreases events.len(),
{
    if events.len() == 0 {
        s
    } else {
        evt2_told(evt2_state(s, events.drop_last()), events.last())
    }
}

/// The words of a run of events.
pub open spec fn evt2_words(s: EncoderState, events: Seq<RawEvent>) -> Seq<int>
    decreases events.len(),
{
    if events.len() == 0 {
        Seq::empty()
    } else {
        evt2_words(s, events.drop_last()) + evt2_event_words(
            evt2_state(s, events.drop_last()),
            events.last(),
        )
    }
}

/// The reader's clock agrees with what the writer last told it.
pub open spec fn evt2_tracks(s: EncoderState, d: Evt2Decoder) -> bool {
    match s.time_high {
        None => !d.initialised && d.loop_offset == 0 && d.time_high == 0,
        Some(h) => {
            &&& d.initialised
            &&& h >= 0
            &&& d.time_high == 64 * h
            &&& d.loop_offset == 64 * h / EVT2_TIME_LOOP as int * EVT2_TIME_LOOP
        },
    }
}

/// Whether an event can be timed after what was last written: it is not earlier, by what the upper
/// clock counts, and not before the start of the clock.
pub open spec fn evt2_follows(s: EncoderState, t: int) -> bool {
    match s.time_high {
        None => 0 <= t,
        Some(h) => 64 * h <= t,
    }
}

/// Whether one clock word is enough to bring the reader to a time.
spec fn evt2_near(s: EncoderState, t: int) -> bool {
    match s.time_high {
        None => 0 <= t < EVT2_TIME_LOOP,
        Some(h) => {
            let now = 64 * h;
            &&& now <= t
            &&& t / EVT2_TIME_LOOP as int == now / EVT2_TIME_LOOP as int || (t
                / EVT2_TIME_LOOP as int == now / EVT2_TIME_LOOP as int + 1 && t / 64 * 64 - now
                <= EVT2_TIME_LOOP / 16)
        },
    }
}

/// Every event of a run has 11-bit coordinates and follows in time.
pub open spec fn evt2_carries(s: EncoderState, events: Seq<RawEvent>) -> bool
    decreases events.len(),
{
    events.len() == 0 || {
        &&& evt2_carries(s, events.drop_last())
        &&& events.last().x < 0x800
        &&& events.last().y < 0x800
        &&& evt2_follows(evt2_state(s, events.drop_last()), events.last().t as int)
    }
}

/// Words decode one run after another.
pub proof fn evt2_compose(d: Evt2Decoder, a: Seq<int>, b: Seq<int>)
    ensures
        evt2_after(d, a + b) == evt2_after(evt2_after(d, a), b),
        evt2_events(d, a + b) == evt2_events(d, a) + evt2_events(evt2_after(d, a), b),
    decreases b.len(),
{
    if b.len() == 0 {
        assert(a + b =~= a);
        assert(evt2_events(d, a) + evt2_events(evt2_after(d, a), b) =~= evt2_events(d, a));
    } else {
        assert((a + b).drop_last() =~= a + b.drop_last());
        evt2_compose(d, a, b.drop_last());
        assert(evt2_events(d, a + b) =~= evt2_events(d, a) + evt2_events(evt2_after(d, a), b));
    }
}

/// A clock word brings the reader to the writer's time.
proof fn evt2_clock(s: EncoderState, d: Evt2Decoder, t: int)
    requires
        evt2_tracks(s, d),
        evt2_near(s, t),
        t <= i64::MAX,
    ensures
        evt2_tracks(
            EncoderState { time_high: Some((t / 64) as i64), ..s },
            evt2_step(d, 0x8000_0000 + t / 64 % 0x1000_0000),
        ),
        evt2_word_events(d, 0x8000_0000 + t / 64 % 0x1000_0000).len() == 0,
{
    let word = 0x8000_0000 + t / 64 % 0x1000_0000;
    let period = EVT2_TIME_LOOP as int;
    assert(word / 0x1000_0000 == 8);
    assert(word % 0x1000_0000 == t / 64 % 0x1000_0000);
    let value = t / 64 % 0x1000_0000 * 64;
    assert(value == t / 64 * 64 % period);
    assert(t / 64 * 64 / period == t / period);
    assert(t / 64 * 64 == value + t / period * period);
}

/// One word decodes by one step.
proof fn evt2_single(d: Evt2Decoder, word: int)
    ensures
        evt2_after(d, seq![word]) == evt2_step(d, word),
        evt2_events(d, seq![word]) == evt2_word_events(d, word),
{
    reveal_with_fuel(evt2_after, 2);
    reveal_with_fuel(evt2_events, 2);
    assert(seq![word].drop_last() =~= Seq::<int>::empty());
    assert(evt2_events(d, seq![word]) =~= evt2_word_events(d, word));
}

/// The period of what the reader knows.
spec fn evt2_period(s: EncoderState) -> int {
    match s.time_high {
        None => 0,
        Some(h) => h as int / 0x1000_0000,
    }
}

/// The state of a reader at the start of a period.
spec fn evt2_start(s: EncoderState, q: int) -> EncoderState {
    EncoderState { time_high: Some((0x1000_0000 * q) as i64), ..s }
}

/// Two words take the reader to the start of the next period.
#[verifier::spinoff_prover]
#[verifier::rlimit(40)]
proof fn evt2_next_period(s: EncoderState, d: Evt2Decoder)
    requires
        evt2_tracks(s, d),
        EVT2_TIME_LOOP * (evt2_period(s) + 1) <= i64::MAX,
    ensures
        ({
            let words = seq![0x8FFF_FFFFint, 0x8000_0000];
            &&& evt2_events(d, words).len() == 0
            &&& evt2_tracks(evt2_start(s, evt2_period(s) + 1), evt2_after(d, words))
        }),
{
    let (a, b) = (0x8FFF_FFFFint, 0x8000_0000int);
    let q = evt2_period(s);
    let d1 = evt2_step(d, a);
    assert(a / 0x1000_0000 == 8 && a % 0x1000_0000 == 0xFFF_FFFF);
    assert(b / 0x1000_0000 == 8 && b % 0x1000_0000 == 0);
    assert(d.loop_offset == q * EVT2_TIME_LOOP);
    assert(d.time_high <= q * EVT2_TIME_LOOP + 0x3_FFFF_FFC0);
    assert(d1.time_high == q * EVT2_TIME_LOOP + 0x3_FFFF_FFC0);
    assert(evt2_step(d1, b).time_high == (q + 1) * EVT2_TIME_LOOP);
    evt2_single(d, a);
    evt2_single(d1, b);
    evt2_compose(d, seq![a], seq![b]);
    assert(seq![a] + seq![b] =~= seq![a, b]);
}

/// The words of some periods take the reader through them.
#[verifier::spinoff_prover]
#[verifier::rlimit(40)]
proof fn evt2_periods_decode(s: EncoderState, d: Evt2Decoder, k: int)
    requires
        evt2_tracks(s, d),
        k >= 1,
        EVT2_TIME_LOOP * (evt2_period(s) + k) <= i64::MAX,
    ensures
        evt2_events(d, evt2_periods(k)).len() == 0,
        evt2_tracks(evt2_start(s, evt2_period(s) + k), evt2_after(d, evt2_periods(k))),
    decreases k,
{
    let pair = seq![0x8FFF_FFFFint, 0x8000_0000];
    let front = evt2_periods(k - 1);
    let q = evt2_period(s);
    if k == 1 {
        evt2_next_period(s, d);
        assert(front =~= Seq::<int>::empty());
        assert(front + pair =~= pair);
    } else {
        evt2_periods_decode(s, d, k - 1);
        let s1 = evt2_start(s, q + k - 1);
        let d1 = evt2_after(d, front);
        assert(evt2_period(s1) == q + k - 1);
        evt2_next_period(s1, d1);
        evt2_compose(d, front, pair);
    }
}

/// The clock words bring the reader to the writer's time.
#[verifier::spinoff_prover]
#[verifier::rlimit(40)]
proof fn evt2_clock_decodes(s: EncoderState, d: Evt2Decoder, t: int)
    requires
        evt2_tracks(s, d),
        evt2_follows(s, t),
        t <= i64::MAX,
    ensures
        evt2_tracks(
            EncoderState { time_high: Some((t / 64) as i64), ..s },
            evt2_after(d, evt2_clock_words(s, t / 64)),
        ),
        evt2_events(d, evt2_clock_words(s, t / 64)).len() == 0,
{
    let high = t / 64;
    let k = missed(s.time_high, high, 0x1000_0000, 0x100_0000);
    let word = 0x8000_0000 + high % 0x1000_0000;
    let q = evt2_period(s);
    assert(t / EVT2_TIME_LOOP as int == high / 0x1000_0000);
    if let Some(h) = s.time_high {
        assert(h <= high);
        assert(64 * h / EVT2_TIME_LOOP as int == h as int / 0x1000_0000);
    }
    if k <= 0 {
        assert(evt2_near(s, t));
        evt2_clock(s, d, t);
        evt2_single(d, word);
        assert(evt2_clock_words(s, high) =~= seq![word]);
    } else {
        assert(q + k == high / 0x1000_0000);
        evt2_periods_decode(s, d, k);
        let s1 = evt2_start(s, q + k);
        let d1 = evt2_after(d, evt2_periods(k));
        assert(64 * (0x1000_0000 * (q + k)) / EVT2_TIME_LOOP as int == q + k);
        assert(evt2_near(s1, t));
        evt2_clock(s1, d1, t);
        evt2_single(d1, word);
        evt2_compose(d, evt2_periods(k), seq![word]);
    }
}

/// The fields of an event word are those of its event.
proof fn evt2_event_fields(e: RawEvent)
    requires
        e.x < 0x800,
        e.y < 0x800,
    ensures
        evt2_event_word(e) / 0x1000_0000 == if e.p {
            1int
        } else {
            0
        },
        evt2_event_word(e) / 0x40_0000 % 64 == e.t as int % 64,
        evt2_event_word(e) / 0x800 % 0x800 == e.x,
        evt2_event_word(e) % 0x800 == e.y,
{
}

/// Reading back one event gives the event.
proof fn evt2_event_decodes(s: EncoderState, d: Evt2Decoder, e: RawEvent)
    requires
        evt2_tracks(s, d),
        evt2_follows(s, e.t as int),
        e.x < 0x800,
        e.y < 0x800,
    ensures
        evt2_events(d, evt2_event_words(s, e)) == seq![e],
        evt2_tracks(evt2_told(s, e), evt2_after(d, evt2_event_words(s, e))),
{
    let words = evt2_event_words(s, e);
    let high = e.t as int / 64;
    let word = evt2_event_word(e);
    let clock = words.drop_last();
    evt2_event_fields(e);
    assert(words =~= clock + seq![word]);
    if s.time_high == Some(high as i64) {
        assert(clock =~= Seq::<int>::empty());
    } else {
        evt2_clock_decodes(s, d, e.t as int);
        assert(clock =~= evt2_clock_words(s, high));
    }
    let d1 = evt2_after(d, clock);
    evt2_single(d1, word);
    evt2_compose(d, clock, seq![word]);
    assert(evt2_events(d, words) =~= seq![e]);
}

/// Reading back what was written gives the events: for a reader in step with the writer, a run of
/// events that the clock can carry comes back event for event, and the two stay in step.
pub proof fn evt2_round_trip(s: EncoderState, d: Evt2Decoder, events: Seq<RawEvent>)
    requires
        evt2_tracks(s, d),
        evt2_carries(s, events),
    ensures
        evt2_events(d, evt2_words(s, events)) == events,
        evt2_tracks(evt2_state(s, events), evt2_after(d, evt2_words(s, events))),
    decreases events.len(),
{
    if events.len() > 0 {
        let front = events.drop_last();
        evt2_round_trip(s, d, front);
        let t = evt2_state(s, front);
        let words = evt2_words(s, front);
        let e = events.last();
        evt2_compose(d, words, evt2_event_words(t, e));
        evt2_event_decodes(t, evt2_after(d, words), e);
        assert(front + seq![e] =~= events);
    }
}

/// The event word of an event.
fn evt2_event_word_of(e: RawEvent) -> (word: u32)
    ensures
        word == evt2_event_word(e),
{
    let polarity: u32 = if e.p {
        0x1000_0000
    } else {
        0
    };
    let low: u32 = (unsigned64(e.t) % 64) as u32;
    polarity + 0x40_0000 * low + 0x800 * (e.x as u32 % 0x800) + e.y as u32 % 0x800
}

/// Appends the EVT2 words of one event.
fn encode_evt2_event(state: &mut EncoderState, e: RawEvent, out: &mut Vec<u8>)
    ensures
        *final(state) == evt2_told(*old(state), e),
        final(out)@ == old(out)@ + le32_all(evt2_event_words(*old(state), e)),
{
    let high: i64 = floor64(e.t);
    let current = match state.time_high {
        Some(h) => h == high,
        None => false,
    };
    let word: u32 = evt2_event_word_of(e);
    let clock: u32 = 0x8000_0000 + (unsigned64(high) % 0x1000_0000) as u32;
    assert(clock == 0x8000_0000 + high as int % 0x1000_0000);
    let ghost mut words = Seq::<int>::empty();
    assert(out@ =~= old(out)@ + le32_all(words));
    if !current {
        let k: i64 = missed_periods(state.time_high, high, 0x1000_0000, 0x100_0000);
        push_evt2_periods(k, out);
        push_u32(out, clock);
        proof {
            words = evt2_periods(k as int).push(clock as int);
            le32_all_push(evt2_periods(k as int), clock as int);
            assert(words =~= evt2_clock_words(*old(state), high as int));
            assert(out@ =~= old(out)@ + le32_all(words));
        }
        state.time_high = Some(high);
    }
    push_u32(out, word);
    proof {
        le32_all_push(words, word as int);
        assert(evt2_event_words(*old(state), e) =~= words.push(word as int));
        assert(out@ =~= old(out)@ + le32_all(evt2_event_words(*old(state), e)));
    }
}

/// Appends the clock words of some periods.
fn push_evt2_periods(k: i64, out: &mut Vec<u8>)
    requires
        k >= 0,
    ensures
        final(out)@ == old(out)@ + le32_all(evt2_periods(k as int)),
{
    let mut i: i64 = 0;
    assert(out@ =~= old(out)@ + le32_all(evt2_periods(0)));
    while i < k
        invariant
            0 <= i <= k,
            out@ == old(out)@ + le32_all(evt2_periods(i as int)),
        decreases k - i,
    {
        push_u32(out, 0x8FFF_FFFF);
        push_u32(out, 0x8000_0000);
        proof {
            let front = evt2_periods(i as int);
            le32_all_push(front, 0x8FFF_FFFF);
            le32_all_push(front.push(0x8FFF_FFFF), 0x8000_0000);
            assert(evt2_periods(i + 1) =~= front.push(0x8FFF_FFFF).push(0x8000_0000));
            assert(out@ =~= old(out)@ + le32_all(evt2_periods(i + 1)));
        }
        i += 1;
    }
}

/// Every clock word of some periods is a 32-bit value.
pub proof fn evt2_periods_bounded(k: int)
    ensures
        forall|j: int|
            0 <= j < evt2_periods(k).len() ==> 0 <= #[trigger] evt2_periods(k)[j] < 0x1_0000_0000,
    decreases k,
{
    if k > 0 {
        evt2_periods_bounded(k - 1);
        let front = evt2_periods(k - 1);
        assert forall|j: int| 0 <= j < evt2_periods(k).len() implies 0 <= #[trigger] evt2_periods(
            k,
        )[j] < 0x1_0000_0000 by {
            if j < front.len() {
                assert(evt2_periods(k)[j] == front[j]);
            }
        }
    }
}

/// Appends the EVT2 words of every event of a stream.
pub fn encode_evt2(state: &mut EncoderState, stream: &EventStream, out: &mut Vec<u8>)
    requires
        stream.wf(),
    ensures
        *final(state) == evt2_state(*old(state), stream.events()),
        final(out)@ == old(out)@ + le32_all(evt2_words(*old(state), stream.events())),
{
    let ghost events = stream.events();
    let n: usize = stream.len();
    let mut index: usize = 0;
    assert(events.take(0) =~= Seq::<RawEvent>::empty());
    assert(out@ + Seq::<u8>::empty() =~= out@);
    while index < n
        invariant
            stream.wf(),
            events == stream.events(),
            n == events.len(),
            index <= n,
            *state == evt2_state(*old(state), events.take(index as int)),
            out@ == old(out)@ + le32_all(evt2_words(*old(state), events.take(index as int))),
        decreases n - index,
    {
        let e = stream.get(index);
        let ghost told = *state;
        encode_evt2_event(state, e, out);
        proof {
            let front = events.take(index as int);
            let next = events.take(index + 1);
            assert(next.drop_last() =~= front);
            assert(next.last() == e);
            le32_all_concat(evt2_words(*old(state), front), evt2_event_words(told, e));
            assert(out@ =~= old(out)@ + le32_all(evt2_words(*old(state), next)));
        }
        index += 1;
    }
    assert(events.take(n as int) =~= events);
}

// ---- EVT3 ----

/// The upper clock words that take the reader through `k` periods: to the end of each, and to the
/// start of the next.
pub open spec fn evt3_periods(k: int) -> Seq<int>
    decreases k,
{
    if k <= 0 {
        Seq::empty()
    } else {
        evt3_periods(k - 1) + seq![0x8FFFint, 0x8000]
    }
}

/// The upper clock words that bring the reader to the upper time `high`.
pub open spec fn evt3_high_words(s: EncoderState, high: int) -> Seq<int> {
    evt3_periods(missed(s.time_high, high, 0x1000, 0xB)).push(0x8000 + high % 0x1000)
}

/// The clock words that bring the reader to time `t`.
pub open spec fn evt3_clock_words(s: EncoderState, t: int) -> Seq<int> {
    let high = t / 0x1000;
    let low = t % 0x1000;
    let moved = s.time_high != Some(high as i64);
    let known = if moved {
        Some(0i64)
    } else {
        s.time_low
    };
    (if moved {
        evt3_high_words(s, high)
    } else {
        Seq::empty()
    }) + (if known != Some(low as i64) {
        seq![0x6000 + low]
    } else {
        Seq::empty()
    })
}

/// The word that brings the reader to row `y`.
pub open spec fn evt3_row_words(s: EncoderState, y: u16) -> Seq<int> {
    if s.y == Some(y) {
        Seq::empty()
    } else {
        seq![y as int % 0x800]
    }
}

/// The words before the events of one run.
pub open spec fn evt3_head_words(s: EncoderState, e: RawEvent) -> Seq<int> {
    evt3_clock_words(s, e.t as int) + evt3_row_words(s, e.y)
}

/// What the reader knows after the words of one run.
pub open spec fn evt3_told(e: RawEvent) -> EncoderState {
    EncoderState {
        time_high: Some((e.t as int / 0x1000) as i64),
        time_low: Some((e.t as int % 0x1000) as i64),
        y: Some(e.y),
    }
}

/// Whether an event continues a run: same row, time and polarity, further to the right.
pub open spec fn continues(a: RawEvent, b: RawEvent) -> bool {
    b.t == a.t && b.y == a.y && b.p == a.p && b.x > a.x
}

/// The end of the run that holds the events from before `j`.
pub open spec fn run_end(events: Seq<RawEvent>, j: int) -> int
    decreases events.len() - j,
{
    if 0 < j < events.len() && continues(events[j - 1], events[j]) {
        run_end(events, j + 1)
    } else {
        j
    }
}

/// The event word of an event: its column cut to 11 bits.
pub open spec fn evt3_event_word(e: RawEvent) -> int {
    0x2000 + e.x as int % 0x800 + (if e.p {
        0x800int
    } else {
        0
    })
}

/// The mask of the columns `base + bit` up to `base + 11` that the events from `c` to `end` hold.
pub open spec fn mask_at(events: Seq<RawEvent>, c: int, end: int, base: int, bit: int) -> int
    decreases 12 - bit,
{
    if bit >= 12 {
        0
    } else if c < end && events[c].x == base + bit {
        1 + 2 * mask_at(events, c + 1, end, base, bit + 1)
    } else {
        2 * mask_at(events, c, end, base, bit + 1)
    }
}

/// The first event past the window of that mask.
pub open spec fn mask_next(events: Seq<RawEvent>, c: int, end: int, base: int, bit: int) -> int
    decreases 12 - bit,
{
    if bit >= 12 {
        c
    } else if c < end && events[c].x == base + bit {
        mask_next(events, c + 1, end, base, bit + 1)
    } else {
        mask_next(events, c, end, base, bit + 1)
    }
}

/// One mask word per window of 12 columns, up to the column of the last event.
pub open spec fn mask_words(events: Seq<RawEvent>, c: int, end: int, base: int) -> Seq<int>
    decreases events[end - 1].x - base + 12,
{
    if c >= end || base > events[end - 1].x {
        Seq::empty()
    } else {
        seq![0x4000 + mask_at(events, c, end, base, 0)] + mask_words(
            events,
            mask_next(events, c, end, base, 0),
            end,
            base + 12,
        )
    }
}

/// Whether a run is shorter as a base word and mask words than as one word per event.
pub open spec fn vectorised(events: Seq<RawEvent>, i: int, end: int) -> bool {
    end - i > 2 && 1 + (events[end - 1].x - events[i].x + 12) / 12 < end - i
}

/// The words of the events of one run.
pub open spec fn run_words(events: Seq<RawEvent>, i: int, end: int) -> Seq<int> {
    if vectorised(events, i, end) {
        seq![evt3_event_word(events[i]) + 0x1000] + mask_words(
            events,
            i,
            end,
            events[i].x as int,
        )
    } else {
        Seq::new((end - i) as nat, |k: int| evt3_event_word(events[i + k]))
    }
}

/// The words of the events from `i` on.
pub open spec fn evt3_words(s: EncoderState, events: Seq<RawEvent>, i: int) -> Seq<int>
    decreases events.len() - i,
    via evt3_words_ends
{
    if i < 0 || i >= events.len() {
        Seq::empty()
    } else {
        evt3_head_words(s, events[i]) + run_words(events, i, run_end(events, i + 1)) + evt3_words(
            evt3_told(events[i]),
            events,
            run_end(events, i + 1),
        )
    }
}

#[via_fn]
proof fn evt3_words_ends(s: EncoderState, events: Seq<RawEvent>, i: int) {
    if 0 <= i < events.len() {
        run_end_bounds(events, i, i + 1);
    }
}

/// What the reader knows after the events from `i` on.
pub open spec fn evt3_state(s: EncoderState, events: Seq<RawEvent>, i: int) -> EncoderState {
    if i < events.len() {
        evt3_told(events.last())
    } else {
        s
    }
}

/// The reader's clock and row agree with what the writer last told it.
#[verifier::opaque]
pub open spec fn evt3_tracks(s: EncoderState, d: Decoder) -> bool {
    match s.time_high {
        None => {
            &&& !d.initialised
            &&& d.loop_offset == 0
            &&& s.time_low is None
            &&& s.y is None
        },
        Some(h) => {
            &&& d.initialised
            &&& h >= 0
            &&& d.time_base == 0x1000 * h
            &&& d.loop_offset == 0x1000 * h / 0x100_0000 * 0x100_0000
            &&& s.time_low matches Some(low) ==> 0 <= low < 0x1000 && d.time == d.time_base + low
            &&& s.y matches Some(y) ==> d.y == y
        },
    }
}

/// Whether an event can be timed after `high`: it is not earlier, by what the upper clock counts,
/// and not before the start of the clock.
#[verifier::opaque]
pub open spec fn evt3_follows(high: Option<i64>, t: int) -> bool {
    match high {
        None => 0 <= t,
        Some(h) => 0x1000 * h <= t,
    }
}

/// Whether one upper clock word is enough to bring the reader to a time.
#[verifier::opaque]
spec fn evt3_near(high: Option<i64>, t: int) -> bool {
    match high {
        None => 0 <= t < 0x100_0000,
        Some(h) => {
            let now = 0x1000 * h;
            &&& now <= t
            &&& t / 0x100_0000 == now / 0x100_0000 || (t / 0x100_0000 == now / 0x100_0000 + 1 && t
                / 0x1000 * 0x1000 - now <= 0xB000)
        },
    }
}

/// Every event from `i` on has 11-bit coordinates and follows in time.
pub open spec fn evt3_carries(s: EncoderState, events: Seq<RawEvent>, i: int) -> bool {
    forall|k: int|
        i <= k < events.len() ==> (#[trigger] events[k]).x < 0x800 && events[k].y < 0x800
            && evt3_follows(
            if k == i {
                s.time_high
            } else {
                Some((events[k - 1].t as int / 0x1000) as i64)
            },
            events[k].t as int,
        )
}

/// A run does not end before it starts, and its events share row, time and polarity and move to
/// the right.
proof fn run_end_bounds(events: Seq<RawEvent>, i: int, j: int)
    requires
        0 <= i < j <= events.len(),
        forall|k: int| i < k < j ==> continues(events[k - 1], #[trigger] events[k]),
    ensures
        j <= run_end(events, j) <= events.len(),
        forall|k: int|
            i < k < run_end(events, j) ==> continues(events[k - 1], #[trigger] events[k]),
    decreases events.len() - j,
{
    if j < events.len() && continues(events[j - 1], events[j]) {
        run_end_bounds(events, i, j + 1);
    }
}

/// Events of one run share row, time and polarity with its first, and their columns ascend.
pub open spec fn is_run(events: Seq<RawEvent>, i: int, end: int) -> bool {
    &&& 0 <= i < end <= events.len()
    &&& forall|k: int| i < k < end ==> continues(events[k - 1], #[trigger] events[k])
}

proof fn run_shares(events: Seq<RawEvent>, i: int, end: int, k: int)
    requires
        is_run(events, i, end),
        i <= k < end,
    ensures
        events[k].t == events[i].t,
        events[k].y == events[i].y,
        events[k].p == events[i].p,
        events[k].x >= events[i].x + (k - i),
        events[k].x <= events[end - 1].x,
    decreases end - k, k - i,
{
    run_rises(events, i, end, i, k);
    run_rises(events, i, end, k, end - 1);
}

proof fn run_rises(events: Seq<RawEvent>, i: int, end: int, a: int, b: int)
    requires
        is_run(events, i, end),
        i <= a <= b < end,
    ensures
        events[b].x >= events[a].x + (b - a),
        events[b].t == events[a].t,
        events[b].y == events[a].y,
        events[b].p == events[a].p,
    decreases b - a,
{
    if a < b {
        run_rises(events, i, end, a, b - 1);
        assert(continues(events[b - 1], events[b]));
    }
}

/// Words decode one run after another.
pub proof fn evt3_compose(d: Decoder, a: Seq<int>, b: Seq<int>)
    ensures
        evt3_after(d, a + b) == evt3_after(evt3_after(d, a), b),
        evt3_events(d, a + b) == evt3_events(d, a) + evt3_events(evt3_after(d, a), b),
    decreases b.len(),
{
    if b.len() == 0 {
        assert(a + b =~= a);
        assert(evt3_events(d, a) + evt3_events(evt3_after(d, a), b) =~= evt3_events(d, a));
    } else {
        assert((a + b).drop_last() =~= a + b.drop_last());
        evt3_compose(d, a, b.drop_last());
        assert(evt3_events(d, a + b) =~= evt3_events(d, a) + evt3_events(evt3_after(d, a), b));
    }
}

/// One word decodes by one step.
proof fn evt3_single(d: Decoder, word: int)
    ensures
        evt3_after(d, seq![word]) == evt3_step(d, word),
        evt3_events(d, seq![word]) == evt3_word_events(d, word),
{
    reveal_with_fuel(evt3_after, 2);
    reveal_with_fuel(evt3_events, 2);
    assert(seq![word].drop_last() =~= Seq::<int>::empty());
    assert(evt3_events(d, seq![word]) =~= evt3_word_events(d, word));
}

/// An upper clock word brings the reader to the writer's upper time.
proof fn evt3_high_decodes(s: EncoderState, d: Decoder, t: int)
    requires
        evt3_tracks(s, d),
        evt3_near(s.time_high, t),
        t <= i64::MAX,
    ensures
        evt3_tracks(
            EncoderState {
                time_high: Some((t / 0x1000) as i64),
                time_low: Some(0),
                y: s.y,
            },
            evt3_step(d, 0x8000 + t / 0x1000 % 0x1000),
        ),
        evt3_word_events(d, 0x8000 + t / 0x1000 % 0x1000).len() == 0,
{
    reveal(evt3_tracks);
    reveal(evt3_near);
    let word = 0x8000 + t / 0x1000 % 0x1000;
    assert(word / 0x1000 == 8);
    assert(word % 0x1000 == t / 0x1000 % 0x1000);
    let value = t / 0x1000 % 0x1000 * 0x1000;
    assert(value == t / 0x1000 * 0x1000 % 0x100_0000);
    assert(t / 0x1000 * 0x1000 / 0x100_0000 == t / 0x100_0000);
    assert(t / 0x1000 * 0x1000 == value + t / 0x100_0000 * 0x100_0000);
}

/// The period of what the reader knows.
spec fn evt3_period(s: EncoderState) -> int {
    match s.time_high {
        None => 0,
        Some(h) => h as int / 0x1000,
    }
}

/// The state of a reader at the start of a period.
spec fn evt3_start(s: EncoderState, q: int) -> EncoderState {
    EncoderState { time_high: Some((0x1000 * q) as i64), time_low: Some(0), y: s.y }
}

/// Two words take the reader to the start of the next period.
#[verifier::spinoff_prover]
#[verifier::rlimit(40)]
proof fn evt3_next_period(s: EncoderState, d: Decoder)
    requires
        evt3_tracks(s, d),
        0x100_0000 * (evt3_period(s) + 1) <= i64::MAX,
    ensures
        ({
            let words = seq![0x8FFFint, 0x8000];
            &&& evt3_events(d, words).len() == 0
            &&& evt3_tracks(evt3_start(s, evt3_period(s) + 1), evt3_after(d, words))
        }),
{
    reveal(evt3_tracks);
    let (a, b) = (0x8FFFint, 0x8000int);
    let q = evt3_period(s);
    let d1 = evt3_step(d, a);
    assert(a / 0x1000 == 8 && a % 0x1000 == 0xFFF);
    assert(b / 0x1000 == 8 && b % 0x1000 == 0);
    assert(d.loop_offset == q * 0x100_0000);
    assert(d.initialised ==> d.time_base <= q * 0x100_0000 + 0xFF_F000);
    assert(d1.initialised && d1.time_base == q * 0x100_0000 + 0xFF_F000);
    assert(evt3_step(d1, b).time_base == (q + 1) * 0x100_0000);
    evt3_single(d, a);
    evt3_single(d1, b);
    evt3_compose(d, seq![a], seq![b]);
    assert(seq![a] + seq![b] =~= seq![a, b]);
}

/// The words of some periods take the reader through them.
#[verifier::spinoff_prover]
#[verifier::rlimit(40)]
proof fn evt3_periods_decode(s: EncoderState, d: Decoder, k: int)
    requires
        evt3_tracks(s, d),
        k >= 1,
        0x100_0000 * (evt3_period(s) + k) <= i64::MAX,
    ensures
        evt3_events(d, evt3_periods(k)).len() == 0,
        evt3_tracks(evt3_start(s, evt3_period(s) + k), evt3_after(d, evt3_periods(k))),
    decreases k,
{
    let pair = seq![0x8FFFint, 0x8000];
    let front = evt3_periods(k - 1);
    let q = evt3_period(s);
    if k == 1 {
        evt3_next_period(s, d);
        assert(front =~= Seq::<int>::empty());
        assert(front + pair =~= pair);
    } else {
        assert(q >= 0) by {
            reveal(evt3_tracks);
        }
        evt3_periods_decode(s, d, k - 1);
        let s1 = evt3_start(s, q + k - 1);
        let d1 = evt3_after(d, front);
        assert(evt3_period(s1) == q + k - 1);
        evt3_next_period(s1, d1);
        evt3_compose(d, front, pair);
    }
}

/// The upper clock words bring the reader to the writer's upper time.
#[verifier::spinoff_prover]
#[verifier::rlimit(40)]
proof fn evt3_high_words_decode(s: EncoderState, d: Decoder, t: int)
    requires
        evt3_tracks(s, d),
        evt3_follows(s.time_high, t),
        t <= i64::MAX,
    ensures
        evt3_tracks(
            EncoderState {
                time_high: Some((t / 0x1000) as i64),
                time_low: Some(0),
                y: s.y,
            },
            evt3_after(d, evt3_high_words(s, t / 0x1000)),
        ),
        evt3_events(d, evt3_high_words(s, t / 0x1000)).len() == 0,
{
    reveal(evt3_follows);
    let high = t / 0x1000;
    let k = missed(s.time_high, high, 0x1000, 0xB);
    let word = 0x8000 + high % 0x1000;
    let q = evt3_period(s);
    assert(t / 0x100_0000 == high / 0x1000);
    assert(s.time_high matches Some(h) ==> h >= 0) by {
        reveal(evt3_tracks);
    }
    if let Some(h) = s.time_high {
        assert(h <= high);
        assert(0x1000 * h / 0x100_0000 == h as int / 0x1000);
    }
    if k <= 0 {
        assert(evt3_near(s.time_high, t)) by {
            reveal(evt3_near);
        }
        evt3_high_decodes(s, d, t);
        evt3_single(d, word);
        assert(evt3_high_words(s, high) =~= seq![word]);
    } else {
        assert(q + k == high / 0x1000);
        evt3_periods_decode(s, d, k);
        let s1 = evt3_start(s, q + k);
        let d1 = evt3_after(d, evt3_periods(k));
        assert(0x1000 * (0x1000 * (q + k)) / 0x100_0000 == q + k);
        assert(evt3_near(s1.time_high, t)) by {
            reveal(evt3_near);
        }
        evt3_high_decodes(s1, d1, t);
        evt3_single(d1, word);
        evt3_compose(d, evt3_periods(k), seq![word]);
        assert(evt3_high_words(s, high) =~= evt3_periods(k) + seq![word]);
    }
}

/// The words before a run bring the reader to the run's time and row, and hold no event.
#[verifier::spinoff_prover]
#[verifier::rlimit(40)]
proof fn evt3_head_decodes(s: EncoderState, d: Decoder, e: RawEvent)
    requires
        evt3_tracks(s, d),
        evt3_follows(s.time_high, e.t as int),
        e.y < 0x800,
    ensures
        evt3_events(d, evt3_head_words(s, e)).len() == 0,
        evt3_tracks(evt3_told(e), evt3_after(d, evt3_head_words(s, e))),
{
    reveal(evt3_tracks);
    let t = e.t as int;
    let high = t / 0x1000;
    let low = t % 0x1000;
    let moved = s.time_high != Some(high as i64);
    let none = Seq::<int>::empty();
    let a = if moved {
        evt3_high_words(s, high)
    } else {
        none
    };
    let s1 = if moved {
        EncoderState { time_high: Some(high as i64), time_low: Some(0), y: s.y }
    } else {
        s
    };
    let d1 = evt3_after(d, a);
    if moved {
        evt3_high_words_decode(s, d, t);
    }
    assert(evt3_tracks(s1, d1));
    assert(evt3_events(d, a).len() == 0);
    let b = if s1.time_low != Some(low as i64) {
        seq![0x6000 + low]
    } else {
        none
    };
    let s2 = EncoderState { time_low: Some(low as i64), ..s1 };
    let d2 = evt3_after(d1, b);
    if s1.time_low != Some(low as i64) {
        evt3_single(d1, 0x6000 + low);
        assert((0x6000 + low) / 0x1000 == 6);
        assert((0x6000 + low) % 0x1000 == low);
    }
    assert(evt3_tracks(s2, d2));
    assert(evt3_events(d1, b).len() == 0);
    let c = evt3_row_words(s, e.y);
    if s.y != Some(e.y) {
        evt3_single(d2, e.y as int % 0x800);
    }
    let d3 = evt3_after(d2, c);
    assert(evt3_tracks(evt3_told(e), d3));
    assert(evt3_events(d2, c).len() == 0);
    evt3_compose(d, a, b);
    evt3_compose(d, a + b, c);
    assert(evt3_head_words(s, e) == (a + b) + c);
}

/// The events of one window of columns come back from its mask.
proof fn window_decodes(
    d: Decoder,
    events: Seq<RawEvent>,
    first: int,
    c: int,
    end: int,
    base: int,
    bit: int,
)
    requires
        is_run(events, first, end),
        first <= c <= end,
        0 <= bit <= 12,
        base == d.base_x,
        base + 12 <= 0xFFFF,
        events[first].t == d.time,
        events[first].y == d.y,
        events[first].p == d.polarity,
        c < end ==> events[c].x >= base + bit,
    ensures
        c <= mask_next(events, c, end, base, bit) <= end,
        vector_events(d, mask_at(events, c, end, base, bit), bit, 12) == events.subrange(
            c,
            mask_next(events, c, end, base, bit),
        ),
        mask_next(events, c, end, base, bit) < end ==> events[mask_next(
            events,
            c,
            end,
            base,
            bit,
        )].x >= base + 12,
        mask_at(events, c, end, base, bit) >= 0,
    decreases 12 - bit,
{
    let next = mask_next(events, c, end, base, bit);
    let mask = mask_at(events, c, end, base, bit);
    if bit == 12 {
        assert(vector_events(d, mask, bit, 12) =~= events.subrange(c, next));
    } else if c < end && events[c].x == base + bit {
        if c + 1 < end {
            assert(continues(events[c], events[c + 1]));
        }
        window_decodes(d, events, first, c + 1, end, base, bit + 1);
        run_shares(events, first, end, c);
        let rest = mask_at(events, c + 1, end, base, bit + 1);
        assert(mask % 2 == 1 && mask / 2 == rest);
        assert(events[c] == RawEvent {
            x: column(d.base_x, bit),
            y: d.y,
            t: d.time,
            p: d.polarity,
        });
        assert(seq![events[c]] + events.subrange(c + 1, next) =~= events.subrange(c, next));
    } else {
        window_decodes(d, events, first, c, end, base, bit + 1);
        let rest = mask_at(events, c, end, base, bit + 1);
        assert(mask % 2 == 0 && mask / 2 == rest);
        assert(Seq::<RawEvent>::empty() + events.subrange(c, next) =~= events.subrange(c, next));
    }
}

/// The weight of the mask bits from `bit` on.
spec fn mask_cap(bit: int) -> int
    decreases 12 - bit,
{
    if bit >= 12 {
        1
    } else {
        2 * mask_cap(bit + 1)
    }
}

proof fn mask_cap_fits(bit: int)
    requires
        0 <= bit <= 12,
    ensures
        mask_cap(bit) <= 0x1000,
{
    reveal_with_fuel(mask_cap, 14);
}

proof fn mask_fits(events: Seq<RawEvent>, c: int, end: int, base: int, bit: int)
    requires
        0 <= bit <= 12,
    ensures
        0 <= mask_at(events, c, end, base, bit) < mask_cap(bit),
    decreases 12 - bit,
{
    if bit < 12 {
        mask_fits(events, c + 1, end, base, bit + 1);
        mask_fits(events, c, end, base, bit + 1);
    }
}

/// Every mask word is a 16-bit value.
proof fn mask_words_bounded(events: Seq<RawEvent>, c: int, end: int, base: int)
    ensures
        forall|j: int|
            0 <= j < mask_words(events, c, end, base).len() ==> 0 <= #[trigger] mask_words(
                events,
                c,
                end,
                base,
            )[j] < 0x1_0000,
    decreases events[end - 1].x - base + 12,
{
    if c < end && base <= events[end - 1].x {
        mask_fits(events, c, end, base, 0);
        mask_cap_fits(0);
        let next = mask_next(events, c, end, base, 0);
        mask_words_bounded(events, next, end, base + 12);
        let first = seq![0x4000 + mask_at(events, c, end, base, 0)];
        let rest = mask_words(events, next, end, base + 12);
        let all = mask_words(events, c, end, base);
        assert(all == first + rest);
        assert forall|j: int| 0 <= j < all.len() implies 0 <= #[trigger] all[j] < 0x1_0000 by {
            if j > 0 {
                assert(all[j] == rest[j - 1]);
            }
        }
    }
}

/// Every upper clock word of some periods is a 16-bit value.
proof fn evt3_periods_bounded(k: int)
    ensures
        forall|j: int|
            0 <= j < evt3_periods(k).len() ==> 0 <= #[trigger] evt3_periods(k)[j] < 0x1_0000,
    decreases k,
{
    if k > 0 {
        evt3_periods_bounded(k - 1);
        let front = evt3_periods(k - 1);
        assert forall|j: int| 0 <= j < evt3_periods(k).len() implies 0 <= #[trigger] evt3_periods(
            k,
        )[j] < 0x1_0000 by {
            if j < front.len() {
                assert(evt3_periods(k)[j] == front[j]);
            }
        }
    }
}

/// Every word before a run is a 16-bit value.
proof fn head_bounded(s: EncoderState, e: RawEvent)
    ensures
        forall|j: int|
            0 <= j < evt3_head_words(s, e).len() ==> 0 <= #[trigger] evt3_head_words(s, e)[j]
                < 0x1_0000,
{
    let head = evt3_head_words(s, e);
    let high = e.t as int / 0x1000;
    let k = missed(s.time_high, high, 0x1000, 0xB);
    let front = evt3_periods(k);
    evt3_periods_bounded(k);
    assert forall|j: int| 0 <= j < head.len() implies 0 <= #[trigger] head[j] < 0x1_0000 by {
        if s.time_high != Some(high as i64) && j < front.len() {
            assert(head[j] == front[j]);
        }
    }
}

/// Every EVT3 word is a 16-bit value.
pub proof fn evt3_words_bounded(s: EncoderState, events: Seq<RawEvent>, i: int)
    ensures
        forall|j: int|
            0 <= j < evt3_words(s, events, i).len() ==> 0 <= #[trigger] evt3_words(s, events, i)[j]
                < 0x1_0000,
    decreases events.len() - i,
{
    if 0 <= i < events.len() {
        let end = run_end(events, i + 1);
        run_end_bounds(events, i, i + 1);
        let head = evt3_head_words(s, events[i]);
        let run = run_words(events, i, end);
        let rest = evt3_words(evt3_told(events[i]), events, end);
        evt3_words_bounded(evt3_told(events[i]), events, end);
        mask_words_bounded(events, i, end, events[i].x as int);
        assert forall|j: int| 0 <= j < run.len() implies 0 <= #[trigger] run[j] < 0x1_0000 by {}
        head_bounded(s, events[i]);
        let all = evt3_words(s, events, i);
        assert forall|j: int| 0 <= j < all.len() implies 0 <= #[trigger] all[j] < 0x1_0000 by {
            if j < head.len() {
                assert(all[j] == head[j]);
            } else if j < head.len() + run.len() {
                assert(all[j] == run[j - head.len()]);
            } else {
                assert(all[j] == rest[j - head.len() - run.len()]);
            }
        }
    }
}

/// The events of a run come back from its mask words.
proof fn masks_decode(
    d: Decoder,
    events: Seq<RawEvent>,
    first: int,
    c: int,
    end: int,
    base: int,
)
    requires
        is_run(events, first, end),
        first <= c <= end,
        d.initialised,
        base == d.base_x,
        events[end - 1].x < 0x800,
        base < 0x900,
        events[first].t == d.time,
        events[first].y == d.y,
        events[first].p == d.polarity,
        c < end ==> events[c].x >= base,
    ensures
        evt3_events(d, mask_words(events, c, end, base)) == events.subrange(c, end),
        evt3_after(d, mask_words(events, c, end, base)) == (Decoder {
            base_x: evt3_after(d, mask_words(events, c, end, base)).base_x,
            ..d
        }),
    decreases events[end - 1].x - base + 12,
{
    let words = mask_words(events, c, end, base);
    if c >= end {
        assert(evt3_events(d, words) =~= events.subrange(c, end));
    } else {
        run_rises(events, first, end, c, end - 1);
        let mask = mask_at(events, c, end, base, 0);
        let next = mask_next(events, c, end, base, 0);
        let word = 0x4000 + mask;
        let d1 = evt3_step(d, word);
        mask_fits(events, c, end, base, 0);
        mask_cap_fits(0);
        assert(word / 0x1000 == 4 && word % 0x1000 == mask);
        window_decodes(d, events, first, c, end, base, 0);
        evt3_single(d, word);
        let rest = mask_words(events, next, end, base + 12);
        masks_decode(d1, events, first, next, end, base + 12);
        evt3_compose(d, seq![word], rest);
        assert(events.subrange(c, next) + events.subrange(next, end) =~= events.subrange(c, end));
    }
}

/// The fields of an event word and of a vector base word are those of the event.
proof fn evt3_event_fields(e: RawEvent)
    requires
        e.x < 0x800,
    ensures
        evt3_event_word(e) / 0x1000 == 2,
        evt3_event_word(e) % 0x800 == e.x,
        (evt3_event_word(e) / 0x800 % 2 == 1) == e.p,
        (evt3_event_word(e) + 0x1000) / 0x1000 == 3,
        (evt3_event_word(e) + 0x1000) % 0x800 == e.x,
        ((evt3_event_word(e) + 0x1000) / 0x800 % 2 == 1) == e.p,
{
}

/// The events of a run come back from one word each.
proof fn scalars_decode(d: Decoder, events: Seq<RawEvent>, i: int, n: int)
    requires
        0 <= i,
        0 <= n,
        i + n <= events.len(),
        d.initialised,
        forall|k: int|
            i <= k < i + n ==> (#[trigger] events[k]).x < 0x800 && events[k].y == d.y
                && events[k].t == d.time,
    ensures
        evt3_events(d, Seq::new(n as nat, |k: int| evt3_event_word(events[i + k])))
            == events.subrange(i, i + n),
        evt3_after(d, Seq::new(n as nat, |k: int| evt3_event_word(events[i + k]))) == d,
    decreases n,
{
    let words = Seq::new(n as nat, |k: int| evt3_event_word(events[i + k]));
    if n == 0 {
        assert(evt3_events(d, words) =~= events.subrange(i, i + n));
    } else {
        scalars_decode(d, events, i, n - 1);
        let front = Seq::new((n - 1) as nat, |k: int| evt3_event_word(events[i + k]));
        assert(words.drop_last() =~= front);
        let e = events[i + n - 1];
        let word = evt3_event_word(e);
        evt3_event_fields(e);
        assert(events.subrange(i, i + n - 1) + seq![e] =~= events.subrange(i, i + n));
    }
}

/// The events of one run come back, and the reader's clock and row stay.
proof fn run_decodes(d: Decoder, events: Seq<RawEvent>, i: int, end: int)
    requires
        is_run(events, i, end),
        d.initialised,
        events[i].t == d.time,
        events[i].y == d.y,
        events[end - 1].x < 0x800,
    ensures
        evt3_events(d, run_words(events, i, end)) == events.subrange(i, end),
        ({
            let after = evt3_after(d, run_words(events, i, end));
            after == Decoder { base_x: after.base_x, polarity: after.polarity, ..d }
        }),
{
    run_shares(events, i, end, i);
    if vectorised(events, i, end) {
        let word = evt3_event_word(events[i]) + 0x1000;
        let base = events[i].x as int;
        evt3_event_fields(events[i]);
        let d1 = evt3_step(d, word);
        evt3_single(d, word);
        masks_decode(d1, events, i, i, end, base);
        evt3_compose(d, seq![word], mask_words(events, i, end, base));
        assert(Seq::<RawEvent>::empty() + events.subrange(i, end) =~= events.subrange(i, end));
    } else {
        assert forall|k: int| i <= k < i + (end - i) implies (#[trigger] events[k]).x < 0x800
            && events[k].y == d.y && events[k].t == d.time by {
            run_shares(events, i, end, k);
        }
        scalars_decode(d, events, i, end - i);
    }
}

/// One run comes back, and the reader stays in step with the writer.
proof fn evt3_run_step(s: EncoderState, d: Decoder, events: Seq<RawEvent>, i: int, end: int)
    requires
        evt3_tracks(s, d),
        is_run(events, i, end),
        evt3_follows(s.time_high, events[i].t as int),
        events[i].y < 0x800,
        events[end - 1].x < 0x800,
    ensures
        evt3_events(
            d,
            evt3_head_words(s, events[i]) + run_words(events, i, end),
        ) == events.subrange(i, end),
        evt3_tracks(
            evt3_told(events[i]),
            evt3_after(d, evt3_head_words(s, events[i]) + run_words(events, i, end)),
        ),
{
    reveal(evt3_tracks);
    let e = events[i];
    let head = evt3_head_words(s, e);
    let run = run_words(events, i, end);
    evt3_head_decodes(s, d, e);
    let d1 = evt3_after(d, head);
    run_decodes(d1, events, i, end);
    evt3_compose(d, head, run);
    assert(evt3_events(d, head) =~= Seq::<RawEvent>::empty());
    assert(Seq::<RawEvent>::empty() + events.subrange(i, end) =~= events.subrange(i, end));
}

/// What the clock can carry from `i` on, it can carry from the next run on.
proof fn evt3_carries_rest(s: EncoderState, events: Seq<RawEvent>, i: int, end: int)
    requires
        evt3_carries(s, events, i),
        is_run(events, i, end),
    ensures
        evt3_carries(evt3_told(events[i]), events, end),
{
    run_shares(events, i, end, end - 1);
    let told = evt3_told(events[i]);
    assert forall|k: int| end <= k < events.len() implies (#[trigger] events[k]).x < 0x800
        && events[k].y < 0x800 && evt3_follows(
        if k == end {
            told.time_high
        } else {
            Some((events[k - 1].t as int / 0x1000) as i64)
        },
        events[k].t as int,
    ) by {
        assert(events[k].x < 0x800);
    }
}

/// Reading back what was written gives the events: for a reader in step with the writer, a run of
/// events that the clock can carry comes back event for event, and the two stay in step.
#[verifier::spinoff_prover]
#[verifier::rlimit(40)]
pub proof fn evt3_round_trip(s: EncoderState, d: Decoder, events: Seq<RawEvent>, i: int)
    requires
        evt3_tracks(s, d),
        0 <= i <= events.len(),
        evt3_carries(s, events, i),
    ensures
        evt3_events(d, evt3_words(s, events, i)) == events.subrange(i, events.len() as int),
        evt3_tracks(evt3_state(s, events, i), evt3_after(d, evt3_words(s, events, i))),
    decreases events.len() - i,
{
    let n = events.len() as int;
    if i == n {
        assert(evt3_events(d, evt3_words(s, events, i)) =~= events.subrange(i, n));
    } else {
        let end = run_end(events, i + 1);
        run_end_bounds(events, i, i + 1);
        let told = evt3_told(events[i]);
        let words = evt3_head_words(s, events[i]) + run_words(events, i, end);
        let rest = evt3_words(told, events, end);
        assert(events[i].x < 0x800);
        assert(events[end - 1].x < 0x800);
        evt3_run_step(s, d, events, i, end);
        evt3_carries_rest(s, events, i, end);
        evt3_round_trip(told, evt3_after(d, words), events, end);
        evt3_compose(d, words, rest);
        assert(events.subrange(i, end) + events.subrange(end, n) =~= events.subrange(i, n));
        run_shares(events, i, end, end - 1);
        assert(evt3_state(told, events, end) == evt3_state(s, events, i));
    }
}

/// The end of the run that starts at `index`.
fn end_of_run(stream: &EventStream, index: usize) -> (end: usize)
    requires
        stream.wf(),
        index < stream.events().len(),
    ensures
        end == run_end(stream.events(), index + 1),
        is_run(stream.events(), index as int, end as int),
{
    let ghost events = stream.events();
    let n: usize = stream.len();
    proof {
        run_end_bounds(events, index as int, index + 1);
    }
    let mut end: usize = index + 1;
    while end < n
        invariant
            stream.wf(),
            events == stream.events(),
            n == events.len(),
            index < end <= n,
            run_end(events, index + 1) == run_end(events, end as int),
        ensures
            end == run_end(events, index + 1),
        decreases n - end,
    {
        let a = stream.get(end - 1);
        let b = stream.get(end);
        if !(b.t == a.t && b.y == a.y && b.p == a.p && b.x > a.x) {
            break;
        }
        end += 1;
    }
    end
}

/// The mask of one window and the first event past it.
fn window_mask(stream: &EventStream, c: usize, end: usize, base: u32, bit: u32) -> (window: (
    u16,
    usize,
))
    requires
        stream.wf(),
        c <= end <= stream.events().len(),
        bit <= 12,
        base <= 0x1_0000,
    ensures
        window.0 == mask_at(stream.events(), c as int, end as int, base as int, bit as int),
        window.1 == mask_next(stream.events(), c as int, end as int, base as int, bit as int),
        c <= window.1 <= end,
        window.0 < mask_cap(bit as int),
    decreases 12 - bit,
{
    if bit == 12 {
        return (0, c);
    }
    proof {
        mask_cap_fits(bit as int);
    }
    if c < end && stream.get(c).x as u32 == base + bit {
        let (rest, next) = window_mask(stream, c + 1, end, base, bit + 1);
        (1 + 2 * rest, next)
    } else {
        let (rest, next) = window_mask(stream, c, end, base, bit + 1);
        (2 * rest, next)
    }
}

/// Appends the upper clock words of some periods.
fn push_evt3_periods(k: i64, out: &mut Vec<u8>)
    requires
        k >= 0,
    ensures
        final(out)@ == old(out)@ + le16_all(evt3_periods(k as int)),
{
    let mut i: i64 = 0;
    assert(out@ =~= old(out)@ + le16_all(evt3_periods(0)));
    while i < k
        invariant
            0 <= i <= k,
            out@ == old(out)@ + le16_all(evt3_periods(i as int)),
        decreases k - i,
    {
        push_u16(out, 0x8FFF);
        push_u16(out, 0x8000);
        proof {
            let front = evt3_periods(i as int);
            le16_all_push(front, 0x8FFF);
            le16_all_push(front.push(0x8FFF), 0x8000);
            assert(evt3_periods(i + 1) =~= front.push(0x8FFF).push(0x8000));
            assert(out@ =~= old(out)@ + le16_all(evt3_periods(i + 1)));
        }
        i += 1;
    }
}

/// Appends the clock and row words before a run.
fn push_head(state: &mut EncoderState, e: RawEvent, out: &mut Vec<u8>)
    ensures
        *final(state) == evt3_told(e),
        final(out)@ == old(out)@ + le16_all(evt3_head_words(*old(state), e)),
{
    let ghost none = Seq::<int>::empty();
    let ghost mut words = none;
    let high: i64 = floor4096(e.t);
    let low: i64 = e.t - high * 4096;
    assert(low == e.t as int % 0x1000);
    assert(out@ + le16_all(none) =~= out@);
    let moved = match state.time_high {
        Some(h) => h != high,
        None => true,
    };
    if moved {
        let k: i64 = missed_periods(state.time_high, high, 0x1000, 0xB);
        push_evt3_periods(k, out);
        let word: u16 = 0x8000 + (unsigned64(high) % 0x1000) as u16;
        assert(word == 0x8000 + high as int % 0x1000);
        push_u16(out, word);
        state.time_high = Some(high);
        state.time_low = Some(0);
        proof {
            le16_all_push(evt3_periods(k as int), word as int);
            words = evt3_periods(k as int).push(word as int);
        }
        assert(out@ =~= old(out)@ + le16_all(words));
    }
    let stale = match state.time_low {
        Some(known) => known != low,
        None => true,
    };
    let ghost first = words;
    if stale {
        let word: u16 = 0x6000 + low as u16;
        push_u16(out, word);
        state.time_low = Some(low);
        proof {
            le16_all_push(words, word as int);
            words = words.push(word as int);
        }
        assert(out@ =~= old(out)@ + le16_all(words));
    }
    assert(words =~= evt3_clock_words(*old(state), e.t as int));
    let ghost clock = words;
    let new_row = match state.y {
        Some(y) => y != e.y,
        None => true,
    };
    if new_row {
        push_u16(out, e.y % 0x800);
        state.y = Some(e.y);
        proof {
            le16_all_push(words, e.y as int % 0x800);
            words = words.push(e.y as int % 0x800);
        }
        assert(out@ =~= old(out)@ + le16_all(words));
    }
    assert(words =~= evt3_head_words(*old(state), e));
}

/// The event word of an event.
fn evt3_event_word_of(e: RawEvent) -> (word: u16)
    ensures
        word == evt3_event_word(e),
{
    let polarity: u16 = if e.p {
        0x800
    } else {
        0
    };
    0x2000 + e.x % 0x800 + polarity
}

/// Appends the words of one run of events.
fn push_run(stream: &EventStream, index: usize, end: usize, out: &mut Vec<u8>)
    requires
        stream.wf(),
        is_run(stream.events(), index as int, end as int),
    ensures
        final(out)@ == old(out)@ + le16_all(run_words(stream.events(), index as int, end as int)),
{
    let ghost events = stream.events();
    let ghost whole = run_words(events, index as int, end as int);
    let first = stream.get(index);
    let last = stream.get(end - 1);
    proof {
        run_shares(events, index as int, end as int, end - 1);
    }
    let span: usize = (last.x - first.x) as usize + 1;
    let vector_words: usize = 1 + (span + 11) / 12;
    if end - index > 2 && vector_words < end - index {
        let lead: u16 = evt3_event_word_of(first) + 0x1000;
        push_u16(out, lead);
        let ghost mut words = seq![lead as int];
        proof {
            le16_all_push(Seq::<int>::empty(), lead as int);
            assert(Seq::<int>::empty().push(lead as int) =~= words);
            assert(out@ =~= old(out)@ + le16_all(words));
            assert(whole =~= words + mask_words(
                events,
                index as int,
                end as int,
                first.x as int,
            ));
        }
        let mut base: u32 = first.x as u32;
        let mut cursor: usize = index;
        while cursor < end
            invariant
                stream.wf(),
                events == stream.events(),
                is_run(events, index as int, end as int),
                index <= cursor <= end,
                end <= events.len(),
                base <= 0x1_0000 + 12,
                cursor < end ==> events[cursor as int].x >= base,
                whole == words + mask_words(events, cursor as int, end as int, base as int),
                out@ == old(out)@ + le16_all(words),
            decreases end - cursor, 0x1_0010 - base,
        {
            proof {
                run_rises(events, index as int, end as int, cursor as int, end - 1);
                mask_cap_fits(0);
                window_next(
                    events,
                    index as int,
                    cursor as int,
                    end as int,
                    base as int,
                    0,
                );
            }
            let (mask, next) = window_mask(stream, cursor, end, base, 0);
            let word: u16 = 0x4000 + mask;
            push_u16(out, word);
            proof {
                let rest = mask_words(events, next as int, end as int, base + 12);
                assert(words + (seq![word as int] + rest) =~= words.push(word as int) + rest);
                le16_all_push(words, word as int);
                words = words.push(word as int);
                assert(out@ =~= old(out)@ + le16_all(words));
            }
            cursor = next;
            base = base + 12;
        }
        assert(whole =~= words);
    } else {
        let mut at: usize = index;
        assert(whole.take(0) =~= Seq::<int>::empty());
        assert(out@ + le16_all(Seq::<int>::empty()) =~= out@);
        while at < end
            invariant
                stream.wf(),
                events == stream.events(),
                index <= at <= end <= events.len(),
                whole == Seq::new(
                    (end - index) as nat,
                    |k: int| evt3_event_word(events[index + k]),
                ),
                out@ == old(out)@ + le16_all(whole.take(at - index)),
            decreases end - at,
        {
            let word: u16 = evt3_event_word_of(stream.get(at));
            push_u16(out, word);
            proof {
                le16_all_push(whole.take(at - index), word as int);
                assert(whole.take(at + 1 - index) =~= whole.take(at - index).push(word as int));
                assert(out@ =~= old(out)@ + le16_all(whole.take(at + 1 - index)));
            }
            at += 1;
        }
        assert(whole.take(end - index) =~= whole);
    }
}

/// The first event past a window lies to the right of it.
proof fn window_next(events: Seq<RawEvent>, first: int, c: int, end: int, base: int, bit: int)
    requires
        is_run(events, first, end),
        first <= c <= end,
        0 <= bit <= 12,
        c < end ==> events[c].x >= base + bit,
    ensures
        mask_next(events, c, end, base, bit) < end ==> events[mask_next(
            events,
            c,
            end,
            base,
            bit,
        )].x >= base + 12,
    decreases 12 - bit,
{
    if bit < 12 {
        if c < end && events[c].x == base + bit {
            if c + 1 < end {
                assert(continues(events[c], events[c + 1]));
            }
            window_next(events, first, c + 1, end, base, bit + 1);
        } else {
            window_next(events, first, c, end, base, bit + 1);
        }
    }
}

/// Appends the EVT3 words of every event of a stream.
pub fn encode_evt3(state: &mut EncoderState, stream: &EventStream, out: &mut Vec<u8>)
    requires
        stream.wf(),
    ensures
        *final(state) == evt3_state(*old(state), stream.events(), 0),
        final(out)@ == old(out)@ + le16_all(evt3_words(*old(state), stream.events(), 0)),
{
    let ghost events = stream.events();
    let ghost whole = evt3_words(*old(state), events, 0);
    let ghost mut words = Seq::<int>::empty();
    let n: usize = stream.len();
    let mut index: usize = 0;
    assert(out@ + le16_all(words) =~= out@);
    assert(words + whole =~= whole);
    while index < n
        invariant
            stream.wf(),
            events == stream.events(),
            n == events.len(),
            index <= n,
            whole == words + evt3_words(*state, events, index as int),
            out@ == old(out)@ + le16_all(words),
            *state == if index == 0 {
                *old(state)
            } else {
                evt3_told(events[index - 1])
            },
        decreases n - index,
    {
        let e = stream.get(index);
        let ghost told = *state;
        let end = end_of_run(stream, index);
        push_head(state, e, out);
        push_run(stream, index, end, out);
        proof {
            let head = evt3_head_words(told, e);
            let run = run_words(events, index as int, end as int);
            let rest = evt3_words(*state, events, end as int);
            le16_all_concat(words, head);
            le16_all_concat(words + head, run);
            assert(words + (head + run + rest) =~= (words + head + run) + rest);
            words = words + head + run;
            assert(out@ =~= old(out)@ + le16_all(words));
            run_shares(events, index as int, end as int, end - 1);
        }
        index = end;
    }
    assert(words + Seq::<int>::empty() =~= words);
}

} // verus!
