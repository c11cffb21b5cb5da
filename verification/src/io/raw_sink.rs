//! Writing Prophesee `.raw` recordings a window at a time.

use vstd::prelude::*;
use vstd::string::*;
use vstd::utf8::encode_utf8;

use crate::bytes::{le16_all, le16_all_at, le32_all, le32_all_at, push_all};
use crate::chars::{decimal, decimal_string, join5, signed_decimal, signed_decimal_string};
use crate::io::codec::{after, decoded, fresh, step, word_events, word_len, Codec};
use crate::io::evt::{
    evt2_after, evt2_events, evt3_after, evt3_events, fresh_encoder, fresh_evt2, fresh_evt3,
    Decoder, EncoderState, Evt2Decoder,
};
use crate::io::evt_encode::{
    encode_evt2, encode_evt3, evt2_carries, evt2_event_words, evt2_periods, evt2_periods_bounded,
    evt2_round_trip, evt2_state,
    evt2_tracks, evt2_words, evt3_carries, evt3_round_trip, evt3_state, evt3_tracks, evt3_words,
    evt3_words_bounded, missed,
};
use crate::io::raw_header::EvtVersion;
use crate::io::IoError;
use crate::stream::{EventStream, RawEvent};

verus! {

/// The bytes of a run of events in either encoding.
pub open spec fn encoded(version: EvtVersion, s: EncoderState, events: Seq<RawEvent>) -> Seq<u8> {
    match version {
        EvtVersion::Evt2 => le32_all(evt2_words(s, events)),
        EvtVersion::Evt3 => le16_all(evt3_words(s, events, 0)),
    }
}

/// What the reader knows after a run of events in either encoding.
pub open spec fn encoded_state(
    version: EvtVersion,
    s: EncoderState,
    events: Seq<RawEvent>,
) -> EncoderState {
    match version {
        EvtVersion::Evt2 => evt2_state(s, events),
        EvtVersion::Evt3 => evt3_state(s, events, 0),
    }
}

/// The first place at or after `i` whose timestamp falls behind the one before it, or the length.
pub open spec fn disorder(last: Option<i64>, events: Seq<RawEvent>, i: int) -> int
    decreases events.len() - i,
{
    if i >= events.len() {
        events.len() as int
    } else if falls(last, events, i) {
        i
    } else {
        disorder(last, events, i + 1)
    }
}

/// Whether the event at `i` is earlier than the one before it; `last` precedes the first.
pub open spec fn falls(last: Option<i64>, events: Seq<RawEvent>, i: int) -> bool {
    if i == 0 {
        last matches Some(t) && events[0].t < t
    } else {
        events[i].t < events[i - 1].t
    }
}

/// The message for an event that is earlier than the one before it.
pub open spec fn disorder_message(t: int, previous: int) -> Seq<char> {
    "Prophesee .raw carries the timestamp as a coarse half emitted only when it changes, so events must be in time order: "@
        + signed_decimal(t) + " follows "@ + signed_decimal(previous)
        + ". Sort first (stream.sort_by_time())."@
}

/// The name of an encoding in the header.
pub open spec fn version_name(version: EvtVersion) -> Seq<char> {
    match version {
        EvtVersion::Evt2 => "EVT2"@,
        EvtVersion::Evt3 => "EVT3"@,
    }
}

/// The text header of a recording.
pub open spec fn header_text(version: EvtVersion, width: int, height: int) -> Seq<char> {
    "% format "@ + version_name(version) + "\n% geometry "@ + decimal(width as nat) + "x"@
        + decimal(height as nat) + "\n% generator eventcv\n% end\n"@
}

/// Writes a recording a window at a time. Events must arrive in time order.
#[derive(Debug)]
pub struct RawEventSink {
    buffer: Vec<u8>,
    version: EvtVersion,
    header_written: bool,
    n_events: usize,
    last_t: Option<i64>,
    state: EncoderState,
}

impl RawEventSink {
    /// The bytes written so far.
    pub closed spec fn bytes(&self) -> Seq<u8> {
        self.buffer@
    }

    pub closed spec fn version(&self) -> EvtVersion {
        self.version
    }

    pub closed spec fn header_done(&self) -> bool {
        self.header_written
    }

    /// Events written so far.
    pub closed spec fn count(&self) -> int {
        self.n_events as int
    }

    /// The timestamp of the last event written.
    pub closed spec fn last(&self) -> Option<i64> {
        self.last_t
    }

    pub closed spec fn told(&self) -> EncoderState {
        self.state
    }

    /// A sink after `buffer`, with a text header before its first event if `header` is set.
    pub fn to_writer(buffer: Vec<u8>, version: EvtVersion, header: bool) -> (sink: Self)
        ensures
            sink.bytes() == buffer@,
            sink.version() == version,
            sink.header_done() == !header,
            sink.count() == 0,
            sink.last() is None,
            sink.told() == fresh_encoder(),
    {
        RawEventSink {
            buffer,
            version,
            header_written: !header,
            n_events: 0,
            last_t: None,
            state: EncoderState { time_high: None, time_low: None, y: None },
        }
    }

    /// The first event out of order, or the number of events.
    fn find_disorder(&self, stream: &EventStream) -> (at: usize)
        requires
            stream.wf(),
        ensures
            at == disorder(self.last_t, stream.events(), 0),
            at <= stream.events().len(),
            at < stream.events().len() ==> falls(self.last_t, stream.events(), at as int),
    {
        let ghost events = stream.events();
        let n: usize = stream.len();
        let mut at: usize = 0;
        while at < n
            invariant
                stream.wf(),
                events == stream.events(),
                n == events.len(),
                at <= n,
                disorder(self.last_t, events, 0) == disorder(self.last_t, events, at as int),
            ensures
                at == disorder(self.last_t, events, 0),
                at <= n,
                at < n ==> falls(self.last_t, events, at as int),
            decreases n - at,
        {
            let t = stream.get(at).t;
            let behind = if at == 0 {
                match self.last_t {
                    Some(last) => t < last,
                    None => false,
                }
            } else {
                t < stream.get(at - 1).t
            };
            if behind {
                break;
            }
            at += 1;
        }
        at
    }

    /// Appends a window of events. The first that holds any is preceded by the header; a window
    /// whose events are not in time order after what was written is refused and changes nothing.
    pub fn append(&mut self, stream: &EventStream) -> (result: Result<(), IoError>)
        requires
            stream.wf(),
            old(self).count() + stream.events().len() <= usize::MAX,
        ensures
            final(self).version() == old(self).version(),
            ({
                let events = stream.events();
                let at = disorder(old(self).last(), events, 0);
                if events.len() == 0 {
                    result is Ok && *final(self) == *old(self)
                } else if at < events.len() {
                    let previous = if at == 0 {
                        old(self).last()->0
                    } else {
                        events[at - 1].t
                    };
                    &&& result matches Err(IoError::Unsupported(m)) && m@ == disorder_message(
                        events[at].t as int,
                        previous as int,
                    )
                    &&& *final(self) == *old(self)
                } else {
                    &&& result is Ok
                    &&& final(self).bytes() == old(self).bytes() + (if old(self).header_done() {
                        Seq::empty()
                    } else {
                        encode_utf8(
                            header_text(old(self).version(), stream.width(), stream.height()),
                        )
                    }) + encoded(old(self).version(), old(self).told(), events)
                    &&& final(self).header_done()
                    &&& final(self).told() == encoded_state(
                        old(self).version(),
                        old(self).told(),
                        events,
                    )
                    &&& final(self).last() == Some(events.last().t)
                    &&& final(self).count() == old(self).count() + events.len()
                }
            }),
    {
        if stream.is_empty() {
            return Ok(());
        }
        let n: usize = stream.len();
        let at = self.find_disorder(stream);
        if at < n {
            let t = signed_decimal_string(stream.get(at).t);
            let before: i64 = if at == 0 {
                match self.last_t {
                    Some(last) => last,
                    None => 0,
                }
            } else {
                stream.get(at - 1).t
            };
            let previous = signed_decimal_string(before);
            return Err(
                IoError::Unsupported(
                    join5(
                        "Prophesee .raw carries the timestamp as a coarse half emitted only when it changes, so events must be in time order: ",
                        t.as_str(),
                        " follows ",
                        previous.as_str(),
                        ". Sort first (stream.sort_by_time()).",
                    ),
                ),
            );
        }
        if !self.header_written {
            let (width, height) = stream.sensor_size();
            let name = match self.version {
                EvtVersion::Evt2 => "EVT2",
                EvtVersion::Evt3 => "EVT3",
            };
            let w = decimal_string(width as u64);
            let h = decimal_string(height as u64);
            let mut text = join5("% format ", name, "\n% geometry ", w.as_str(), "x");
            text.append(h.as_str());
            text.append("\n% generator eventcv\n% end\n");
            assert(text@ == header_text(self.version, stream.width(), stream.height()));
            push_all(&mut self.buffer, text.as_str().as_bytes());
            self.header_written = true;
        } else {
            assert(self.buffer@ + Seq::<u8>::empty() =~= self.buffer@);
        }
        match self.version {
            EvtVersion::Evt2 => encode_evt2(&mut self.state, stream, &mut self.buffer),
            EvtVersion::Evt3 => encode_evt3(&mut self.state, stream, &mut self.buffer),
        }
        self.last_t = Some(stream.get(n - 1).t);
        self.n_events = self.n_events + n;
        Ok(())
    }

    pub fn n_events(&self) -> (n: usize)
        ensures
            n == self.count(),
    {
        self.n_events
    }

    /// The bytes written so far.
    pub fn buffered(&self) -> (bytes: &[u8])
        ensures
            bytes@ == self.bytes(),
    {
        self.buffer.as_slice()
    }

    /// The bytes written.
    pub fn into_inner(self) -> (buffer: Vec<u8>)
        ensures
            buffer@ == self.bytes(),
    {
        self.buffer
    }
}

/// The words of an EVT2 stream decode from their bytes as they do one by one.
pub proof fn evt2_bytes(d: Evt2Decoder, words: Seq<int>, n: int)
    requires
        0 <= n <= words.len(),
        forall|j: int| 0 <= j < words.len() ==> 0 <= #[trigger] words[j] < 0x1_0000_0000,
    ensures
        after(Codec::Evt2(d), le32_all(words), n) == Codec::Evt2(evt2_after(d, words.take(n))),
        decoded(Codec::Evt2(d), le32_all(words), n) == evt2_events(d, words.take(n)),
    decreases n,
{
    if n == 0 {
        assert(words.take(0) =~= Seq::<int>::empty());
        assert(decoded(Codec::Evt2(d), le32_all(words), n) =~= evt2_events(d, words.take(n)));
    } else {
        evt2_bytes(d, words, n - 1);
        le32_all_at(words, n - 1);
        assert(words.take(n).drop_last() =~= words.take(n - 1));
        reveal(step);
        reveal(word_events);
    }
}

/// The words of an EVT3 stream decode from their bytes as they do one by one.
pub proof fn evt3_bytes(d: Decoder, words: Seq<int>, n: int)
    requires
        0 <= n <= words.len(),
        forall|j: int| 0 <= j < words.len() ==> 0 <= #[trigger] words[j] < 0x1_0000,
    ensures
        after(Codec::Evt3(d), le16_all(words), n) == Codec::Evt3(evt3_after(d, words.take(n))),
        decoded(Codec::Evt3(d), le16_all(words), n) == evt3_events(d, words.take(n)),
    decreases n,
{
    if n == 0 {
        assert(words.take(0) =~= Seq::<int>::empty());
        assert(decoded(Codec::Evt3(d), le16_all(words), n) =~= evt3_events(d, words.take(n)));
    } else {
        evt3_bytes(d, words, n - 1);
        le16_all_at(words, n - 1);
        assert(words.take(n).drop_last() =~= words.take(n - 1));
        reveal(step);
        reveal(word_events);
    }
}

/// Every EVT2 word is a 32-bit value.
pub proof fn evt2_words_bounded(s: EncoderState, events: Seq<RawEvent>)
    ensures
        forall|j: int|
            0 <= j < evt2_words(s, events).len() ==> 0 <= #[trigger] evt2_words(s, events)[j]
                < 0x1_0000_0000,
    decreases events.len(),
{
    if events.len() > 0 {
        evt2_words_bounded(s, events.drop_last());
        let front = evt2_words(s, events.drop_last());
        let told = evt2_state(s, events.drop_last());
        let last = evt2_event_words(told, events.last());
        let high = events.last().t as int / 64;
        let k = missed(told.time_high, high, 0x1000_0000, 0x100_0000);
        evt2_periods_bounded(k);
        assert forall|j: int| 0 <= j < last.len() implies 0 <= #[trigger] last[j]
            < 0x1_0000_0000 by {
            if last.len() > 1 && j < last.len() - 2 {
                assert(last[j] == evt2_periods(k)[j]);
            }
        }
        assert forall|j: int| 0 <= j < evt2_words(s, events).len() implies 0
            <= #[trigger] evt2_words(s, events)[j] < 0x1_0000_0000 by {
            if j < front.len() {
                assert(evt2_words(s, events)[j] == front[j]);
            } else {
                assert(evt2_words(s, events)[j] == last[j - front.len()]);
            }
        }
    }
}

/// The clock of an encoding can carry a run of events from the start of a recording: they have
/// 11-bit coordinates, none is before time zero, and they are in time order, by what the upper part
/// of the clock counts.
pub open spec fn carries(version: EvtVersion, events: Seq<RawEvent>) -> bool {
    match version {
        EvtVersion::Evt2 => evt2_carries(fresh_encoder(), events),
        EvtVersion::Evt3 => evt3_carries(fresh_encoder(), events, 0),
    }
}

proof fn evt2_written_is_read(events: Seq<RawEvent>)
    requires
        evt2_carries(fresh_encoder(), events),
    ensures
        ({
            let bytes = le32_all(evt2_words(fresh_encoder(), events));
            decoded(Codec::Evt2(fresh_evt2()), bytes, bytes.len() as int / 4) == events
        }),
{
    let s = fresh_encoder();
    let words = evt2_words(s, events);
    evt2_words_bounded(s, events);
    assert(evt2_tracks(s, fresh_evt2()));
    evt2_round_trip(s, fresh_evt2(), events);
    crate::bytes::le32_all_len(words);
    evt2_bytes(fresh_evt2(), words, words.len() as int);
    assert(words.take(words.len() as int) =~= words);
}

proof fn evt3_written_is_read(events: Seq<RawEvent>)
    requires
        evt3_carries(fresh_encoder(), events, 0),
    ensures
        ({
            let bytes = le16_all(evt3_words(fresh_encoder(), events, 0));
            decoded(Codec::Evt3(fresh_evt3()), bytes, bytes.len() as int / 2) == events
        }),
{
    let s = fresh_encoder();
    let words = evt3_words(s, events, 0);
    evt3_words_bounded(s, events, 0);
    assert(evt3_tracks(s, fresh_evt3())) by {
        reveal(evt3_tracks);
    }
    evt3_round_trip(s, fresh_evt3(), events, 0);
    crate::bytes::le16_all_len(words);
    evt3_bytes(fresh_evt3(), words, words.len() as int);
    assert(words.take(words.len() as int) =~= words);
    assert(events.subrange(0, events.len() as int) =~= events);
}

/// What is written is what is read: decoding the bytes of a run of events gives the events back.
pub proof fn written_is_read(version: EvtVersion, events: Seq<RawEvent>)
    requires
        carries(version, events),
    ensures
        ({
            let bytes = encoded(version, fresh_encoder(), events);
            let n = bytes.len() as int / word_len(fresh(version));
            decoded(fresh(version), bytes, n) == events
        }),
{
    match version {
        EvtVersion::Evt2 => evt2_written_is_read(events),
        EvtVersion::Evt3 => evt3_written_is_read(events),
    }
}

} // verus!
