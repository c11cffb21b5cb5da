//! Either of the two `.raw` decoders, driven by bytes.

use vstd::prelude::*;

use crate::bytes::{le16, le32, read_u16, read_u32};
use crate::io::evt::{
    evt2_step, evt2_word_events, evt3_step, evt3_word_events, fresh_evt2, fresh_evt3,
    vector_events, Decoder, Evt2Decoder,
};
use crate::io::raw_header::EvtVersion;
use crate::stream::RawEvent;

verus! {

/// Decoder state for whichever encoding is in play.
#[derive(Clone, Copy, Debug)]
pub enum Codec {
    Evt2(Evt2Decoder),
    Evt3(Decoder),
}

/// A decoder that has read nothing.
pub open spec fn fresh(version: EvtVersion) -> Codec {
    match version {
        EvtVersion::Evt2 => Codec::Evt2(fresh_evt2()),
        EvtVersion::Evt3 => Codec::Evt3(fresh_evt3()),
    }
}

/// Bytes per word.
pub open spec fn word_len(c: Codec) -> int {
    match c {
        Codec::Evt2(_) => 4,
        Codec::Evt3(_) => 2,
    }
}

/// The decoder's current timestamp.
pub open spec fn time_of(c: Codec) -> int {
    match c {
        Codec::Evt2(d) => d.time as int,
        Codec::Evt3(d) => d.time as int,
    }
}

/// Whether a clock word has been read.
pub open spec fn started(c: Codec) -> bool {
    match c {
        Codec::Evt2(d) => d.initialised,
        Codec::Evt3(d) => d.initialised,
    }
}

/// The state after the word at byte `at`.
#[verifier::opaque]
pub open spec fn step(c: Codec, bytes: Seq<u8>, at: int) -> Codec {
    match c {
        Codec::Evt2(d) => Codec::Evt2(evt2_step(d, le32(bytes, at))),
        Codec::Evt3(d) => Codec::Evt3(evt3_step(d, le16(bytes, at))),
    }
}

/// The events of the word at byte `at`.
#[verifier::opaque]
pub open spec fn word_events(c: Codec, bytes: Seq<u8>, at: int) -> Seq<RawEvent> {
    match c {
        Codec::Evt2(d) => evt2_word_events(d, le32(bytes, at)),
        Codec::Evt3(d) => evt3_word_events(d, le16(bytes, at)),
    }
}

/// The state after the first `n` words.
pub open spec fn after(c: Codec, bytes: Seq<u8>, n: int) -> Codec
    decreases n,
{
    if n <= 0 {
        c
    } else {
        step(after(c, bytes, n - 1), bytes, word_len(c) * (n - 1))
    }
}

/// The events of the first `n` words.
pub open spec fn decoded(c: Codec, bytes: Seq<u8>, n: int) -> Seq<RawEvent>
    decreases n,
{
    if n <= 0 {
        Seq::empty()
    } else {
        decoded(c, bytes, n - 1) + word_events(
            after(c, bytes, n - 1),
            bytes,
            word_len(c) * (n - 1),
        )
    }
}

/// The whole words of a run of bytes.
pub open spec fn word_count(c: Codec, bytes: Seq<u8>) -> int {
    bytes.len() as int / word_len(c)
}

/// Decoding never changes the encoding.
pub proof fn after_same_encoding(c: Codec, bytes: Seq<u8>, n: int)
    ensures
        word_len(after(c, bytes, n)) == word_len(c),
    decreases n,
{
    reveal(step);
    if n > 0 {
        after_same_encoding(c, bytes, n - 1);
    }
}

/// What the first `n` words decode to does not depend on what follows them.
pub proof fn decoded_prefix(c: Codec, a: Seq<u8>, b: Seq<u8>, n: int)
    requires
        0 <= n,
        word_len(c) * n <= a.len(),
    ensures
        after(c, a + b, n) == after(c, a, n),
        decoded(c, a + b, n) == decoded(c, a, n),
    decreases n,
{
    if n > 0 {
        decoded_prefix(c, a, b, n - 1);
        after_same_encoding(c, a, n - 1);
        let at = word_len(c) * (n - 1);
        assert(at + word_len(c) == word_len(c) * n) by (nonlinear_arith)
            requires
                at == word_len(c) * (n - 1),
        ;
        assert(0 <= at) by (nonlinear_arith)
            requires
                at == word_len(c) * (n - 1),
                0 <= word_len(c),
                1 <= n,
        ;
        assert(forall|i: int| 0 <= i < a.len() ==> #[trigger] (a + b)[i] == a[i]);
        reveal(step);
        reveal(word_events);
        assert(step(after(c, a, n - 1), a + b, at) == step(after(c, a, n - 1), a, at));
        assert(word_events(after(c, a, n - 1), a + b, at) == word_events(
            after(c, a, n - 1),
            a,
            at,
        ));
    }
}

/// A word is the same wherever the bytes before it end.
proof fn step_shift(c: Codec, bytes: Seq<u8>, shift: int, at: int)
    requires
        0 <= shift,
        0 <= at,
        shift + at + word_len(c) <= bytes.len(),
    ensures
        step(c, bytes, shift + at) == step(c, bytes.skip(shift), at),
        word_events(c, bytes, shift + at) == word_events(c, bytes.skip(shift), at),
{
    reveal(step);
    reveal(word_events);
    let tail = bytes.skip(shift);
    assert(tail[at] == bytes[shift + at] && tail[at + 1] == bytes[shift + at + 1]);
    if word_len(c) == 4 {
        assert(tail[at + 2] == bytes[shift + at + 2] && tail[at + 3] == bytes[shift + at + 3]);
    }
}

/// Decoding continues where it stopped: the words after the first `k` decode from the state that
/// those leave.
pub proof fn decoded_split(c: Codec, bytes: Seq<u8>, k: int, m: int)
    requires
        0 <= k,
        0 <= m,
        word_len(c) * (k + m) <= bytes.len(),
    ensures
        after(c, bytes, k + m) == after(after(c, bytes, k), bytes.skip(word_len(c) * k), m),
        decoded(c, bytes, k + m) == decoded(c, bytes, k) + decoded(
            after(c, bytes, k),
            bytes.skip(word_len(c) * k),
            m,
        ),
    decreases m,
{
    let w = word_len(c);
    let mid = after(c, bytes, k);
    let tail = bytes.skip(w * k);
    after_same_encoding(c, bytes, k);
    if m == 0 {
        assert(decoded(c, bytes, k) + decoded(mid, tail, m) =~= decoded(c, bytes, k));
    } else {
        assert(w * (k + m) == w * k + w * (m - 1) + w) by (nonlinear_arith);
        assert(w * (k + m - 1) == w * k + w * (m - 1)) by (nonlinear_arith);
        assert(0 <= w * k && 0 <= w * (m - 1)) by (nonlinear_arith)
            requires
                0 <= w,
                0 <= k,
                1 <= m,
        ;
        decoded_split(c, bytes, k, m - 1);
        let state = after(mid, tail, m - 1);
        after_same_encoding(mid, tail, m - 1);
        step_shift(state, bytes, w * k, w * (m - 1));
        let last = word_events(state, tail, w * (m - 1));
        assert(decoded(c, bytes, k) + decoded(mid, tail, m - 1) + last =~= decoded(c, bytes, k) + (
        decoded(mid, tail, m - 1) + last));
    }
}

proof fn vector_events_bound(d: Decoder, rest: int, bit: int, width: int)
    requires
        bit <= width,
    ensures
        vector_events(d, rest, bit, width).len() <= width - bit,
        forall|i: int|
            0 <= i < vector_events(d, rest, bit, width).len() ==> (#[trigger] vector_events(
                d,
                rest,
                bit,
                width,
            )[i]).t == d.time,
    decreases width - bit,
{
    if bit < width {
        vector_events_bound(d, rest / 2, bit + 1, width);
    }
}

/// A word holds at most 12 events, each stamped with the time the decoder then shows.
pub proof fn word_events_bound(c: Codec, bytes: Seq<u8>, at: int)
    ensures
        word_events(c, bytes, at).len() <= 12,
        forall|i: int|
            0 <= i < word_events(c, bytes, at).len() ==> (#[trigger] word_events(c, bytes, at)[i]).t
                == time_of(step(c, bytes, at)),
{
    reveal(step);
    reveal(word_events);
    match c {
        Codec::Evt2(d) => {},
        Codec::Evt3(d) => {
            vector_events_bound(d, le16(bytes, at) % 0x1000, 0, 12);
            vector_events_bound(d, le16(bytes, at) % 0x1000, 0, 8);
        },
    }
}

/// `n` words hold at most `12 * n` events.
pub proof fn decoded_bound(c: Codec, bytes: Seq<u8>, n: int)
    requires
        0 <= n,
    ensures
        decoded(c, bytes, n).len() <= 12 * n,
    decreases n,
{
    if n > 0 {
        decoded_bound(c, bytes, n - 1);
        word_events_bound(after(c, bytes, n - 1), bytes, word_len(c) * (n - 1));
    }
}

impl Codec {
    /// A decoder that has read nothing.
    pub fn new(version: EvtVersion) -> (c: Self)
        ensures
            c == fresh(version),
    {
        match version {
            EvtVersion::Evt2 => Codec::Evt2(Evt2Decoder::new()),
            EvtVersion::Evt3 => Codec::Evt3(Decoder::new()),
        }
    }

    /// Bytes per word.
    pub fn word_size(self) -> (size: usize)
        ensures
            size == word_len(self),
    {
        match self {
            Codec::Evt2(_) => 4,
            Codec::Evt3(_) => 2,
        }
    }

    /// Decodes the word at byte `at`, appending its events.
    pub fn decode(&mut self, bytes: &[u8], at: usize, out: &mut Vec<RawEvent>)
        requires
            at + word_len(*old(self)) <= bytes@.len(),
        ensures
            *final(self) == step(*old(self), bytes@, at as int),
            final(out)@ == old(out)@ + word_events(*old(self), bytes@, at as int),
    {
        reveal(step);
        reveal(word_events);
        match *self {
            Codec::Evt2(d) => {
                let mut decoder = d;
                decoder.decode(read_u32(bytes, at), out);
                *self = Codec::Evt2(decoder);
            },
            Codec::Evt3(d) => {
                let mut decoder = d;
                decoder.decode(read_u16(bytes, at), out);
                *self = Codec::Evt3(decoder);
            },
        }
    }

    /// The decoder's current timestamp.
    pub fn time(self) -> (t: i64)
        ensures
            t == time_of(self),
    {
        match self {
            Codec::Evt2(d) => d.time,
            Codec::Evt3(d) => d.time,
        }
    }

    /// Whether a clock word has been read: before the first there is no timestamp.
    pub fn initialised(self) -> (yes: bool)
        ensures
            yes == started(self),
    {
        match self {
            Codec::Evt2(d) => d.initialised,
            Codec::Evt3(d) => d.initialised,
        }
    }
}

} // verus!
