//! Writing AEDAT 4 recordings a window at a time.

use vstd::prelude::*;
use vstd::slice::slice_subrange;
use vstd::utf8::encode_utf8;

use crate::bytes::{bits64, le32_bytes, le64_bytes, push_all, push_u32, push_u64, signed, signed64};
use crate::io::aedat4_build::{
    build_event_packet, build_header, header_bytes, header_patched, packet_body,
    packet_len, position_field, PACKET_EVENTS,
};
use crate::io::aedat4_header::{magic, magic_bytes};
use crate::io::aedat4_info::info_document;
use crate::io::aedat4_table::{
    build_data_table, table_bytes, table_fits, table_not_empty, Definition,
};
use crate::io::compression::{content_of, header_value, Compression};
use crate::io::IoError;
use crate::stream::{EventStream, RawEvent};

verus! {

/// The document of a recording, as bytes.
pub open spec fn info_bytes(width: int, height: int, c: Compression) -> Seq<u8> {
    encode_utf8(info_document(width, height, c))
}

/// The front of a recording whose data table is at `position`, or that has none if it is negative.
pub open spec fn front(width: int, height: int, c: Compression, position: int) -> Seq<u8> {
    let header = header_bytes(info_bytes(width, height, c), header_value(c) as int, position);
    magic() + (le32_bytes(header.len() as int) + header)
}

/// A packet: its head and its compressed body.
pub open spec fn packet_bytes(body: Seq<u8>) -> Seq<u8> {
    le32_bytes(0) + (le32_bytes(body.len() as int) + body)
}

/// Packets one after the other.
pub open spec fn packed(bodies: Seq<Seq<u8>>) -> Seq<u8>
    decreases bodies.len(),
{
    if bodies.len() == 0 {
        Seq::empty()
    } else {
        packed(bodies.drop_last()) + packet_bytes(bodies.last())
    }
}

/// What has been written: for which sensor, and the packets with the events in each.
pub ghost struct Written {
    pub width: int,
    pub height: int,
    pub scheme: Compression,
    pub bodies: Seq<Seq<u8>>,
    pub chunks: Seq<Seq<RawEvent>>,
}

/// Every body holds its events, and none is empty or too large.
pub open spec fn valid(w: Written) -> bool {
    &&& w.bodies.len() == w.chunks.len()
    &&& forall|k: int| 0 <= k < w.bodies.len() ==> valid_packet(w, #[trigger] w.bodies[k], k)
}

pub open spec fn valid_packet(w: Written, body: Seq<u8>, k: int) -> bool {
    &&& content_of(w.scheme, body) == Some(packet_body(w.chunks[k]))
    &&& body.len() <= i32::MAX
    &&& 0 < w.chunks[k].len() <= 100_000
}

/// The bytes of a recording up to its data table.
pub open spec fn recording(w: Written, position: int) -> Seq<u8> {
    front(w.width, w.height, w.scheme, position) + packed(w.bodies)
}

/// Where the body of the `k`-th packet starts.
pub open spec fn body_place(w: Written, k: int) -> int {
    (front(w.width, w.height, w.scheme, -1).len() + packed(w.bodies.take(k)).len() + 8) as int
}

/// A machine integer read as signed.
pub open spec fn as_signed(n: int) -> int {
    signed(n, 0x8000_0000_0000_0000)
}

/// The entry of the `k`-th packet in the data table.
pub open spec fn entry_of(w: Written, k: int) -> Definition {
    Definition {
        byte_offset: as_signed(body_place(w, k)) as i64,
        size: w.bodies[k].len() as i32,
        elements: w.chunks[k].len() as i64,
        start: w.chunks[k][0].t,
        end: w.chunks[k].last().t,
    }
}

/// The entries of all packets.
pub open spec fn entries_of(w: Written) -> Seq<Definition> {
    Seq::new(w.bodies.len(), |k: int| entry_of(w, k))
}

/// What is written after one more packet.
pub open spec fn with_packet(w: Written, body: Seq<u8>, chunk: Seq<RawEvent>) -> Written {
    Written { bodies: w.bodies.push(body), chunks: w.chunks.push(chunk), ..w }
}

/// Events split into runs of at most a packet's worth.
pub open spec fn split(events: Seq<RawEvent>) -> Seq<Seq<RawEvent>>
    decreases events.len(),
{
    if events.len() == 0 {
        Seq::empty()
    } else if events.len() <= 100_000 {
        seq![events]
    } else {
        seq![events.take(100_000)] + split(events.skip(100_000))
    }
}

/// One more packet is one more of everything.
proof fn packet_adds(w: Written, body: Seq<u8>, chunk: Seq<RawEvent>)
    requires
        valid(w),
        content_of(w.scheme, body) == Some(packet_body(chunk)),
        body.len() <= i32::MAX,
        0 < chunk.len() <= 100_000,
    ensures
        valid(with_packet(w, body, chunk)),
        recording(with_packet(w, body, chunk), -1) == recording(w, -1) + packet_bytes(body),
        entries_of(with_packet(w, body, chunk)) == entries_of(w).push(
            Definition {
                byte_offset: as_signed((recording(w, -1).len() + 8) as int) as i64,
                size: body.len() as i32,
                elements: chunk.len() as i64,
                start: chunk[0].t,
                end: chunk.last().t,
            },
        ),
{
    let next = with_packet(w, body, chunk);
    assert forall|k: int| 0 <= k < next.bodies.len() implies valid_packet(
        next,
        #[trigger] next.bodies[k],
        k,
    ) by {
        if k < w.bodies.len() {
            assert(next.bodies[k] == w.bodies[k]);
            assert(next.chunks[k] == w.chunks[k]);
            assert(valid_packet(w, w.bodies[k], k));
        }
    }
    assert(next.bodies.drop_last() =~= w.bodies);
    assert(recording(next, -1) =~= recording(w, -1) + packet_bytes(body));
    let n = w.bodies.len() as int;
    assert forall|k: int| 0 <= k < n implies entry_of(next, k) == entry_of(w, k) by {
        assert(next.bodies.take(k) =~= w.bodies.take(k));
        assert(next.bodies[k] == w.bodies[k]);
        assert(next.chunks[k] == w.chunks[k]);
    }
    assert(next.bodies.take(n) =~= w.bodies);
    assert(entries_of(next) =~= entries_of(w).push(entry_of(next, n)));
}

/// Writes an AEDAT 4 recording a window at a time.
///
/// The header goes out with the first non-empty window, because it names the sensor size. Each
/// window is split into packets. The data table is written at the end and its place put back into
/// the header; a recording abandoned before that still opens, by walking its packets.
pub struct Aedat4EventSink {
    buffer: Vec<u8>,
    compression: Compression,
    position_field: Option<usize>,
    definitions: Vec<Definition>,
    n_events: usize,
    written: Ghost<Written>,
}

impl Aedat4EventSink {
    /// The bytes written so far.
    pub closed spec fn bytes(&self) -> Seq<u8> {
        self.buffer@
    }

    pub closed spec fn compression(&self) -> Compression {
        self.compression
    }

    /// Whether the header has been written.
    pub closed spec fn begun(&self) -> bool {
        self.position_field is Some
    }

    /// Events written so far.
    pub closed spec fn count(&self) -> int {
        self.n_events as int
    }

    /// What has been written.
    pub closed spec fn written(&self) -> Written {
        self.written@
    }

    pub closed spec fn wf(&self) -> bool {
        let w = self.written@;
        &&& w.scheme == self.compression
        &&& match self.position_field {
            None => {
                &&& self.buffer@ == Seq::<u8>::empty()
                &&& self.definitions@ == Seq::<Definition>::empty()
                &&& self.n_events == 0
                &&& w.bodies == Seq::<Seq<u8>>::empty()
                &&& w.chunks == Seq::<Seq<RawEvent>>::empty()
            },
            Some(field) => {
                let info = info_bytes(w.width, w.height, w.scheme);
                &&& info.len() <= 10_000
                &&& valid(w)
                &&& self.buffer@ == recording(w, -1)
                &&& self.definitions@ == entries_of(w)
                &&& field == 18 + position_field(info, header_value(w.scheme) as int)
            },
        }
    }

    /// What holds of a sink in use.
    pub open spec fn in_step(&self) -> bool {
        &&& self.wf()
        &&& self.written().scheme == self.compression()
        &&& self.begun() ==> valid(self.written()) && self.bytes() == recording(self.written(), -1)
        &&& !self.begun() ==> self.bytes() == Seq::<u8>::empty() && self.written().chunks
            == Seq::<Seq<RawEvent>>::empty() && self.written().bodies == Seq::<Seq<u8>>::empty()
            && self.count() == 0
    }

    /// An empty recording.
    pub fn create(compression: Compression) -> (sink: Self)
        ensures
            sink.in_step(),
            !sink.begun(),
            sink.compression() == compression,
            sink.count() == 0,
    {
        let ghost w = Written {
            width: 0,
            height: 0,
            scheme: compression,
            bodies: Seq::empty(),
            chunks: Seq::empty(),
        };
        Aedat4EventSink {
            buffer: Vec::new(),
            compression,
            position_field: None,
            definitions: Vec::new(),
            n_events: 0,
            written: Ghost(w),
        }
    }

    pub fn n_events(&self) -> (n: usize)
        ensures
            n == self.count(),
    {
        self.n_events
    }

    /// The bytes written so far.
    pub fn buffered(&self) -> (bytes: &[u8])
        ensures
            bytes@ == self.bytes(),
    {
        self.buffer.as_slice()
    }

    /// Writes the front of a recording.
    fn begin(&mut self, width: usize, height: usize)
        requires
            old(self).wf(),
            !old(self).begun(),
        ensures
            final(self).wf(),
            final(self).begun(),
            final(self).compression() == old(self).compression(),
            final(self).count() == 0,
            final(self).written() == (Written {
                width: width as int,
                height: height as int,
                ..old(self).written()
            }),
    {
        let (header, field) = build_header(width, height, self.compression);
        let start = magic_bytes();
        push_all(&mut self.buffer, &start);
        push_u32(&mut self.buffer, header.len() as u32);
        push_all(&mut self.buffer, &header);
        proof {
            let next = Written { width: width as int, height: height as int, ..self.written@ };
            assert(packed(next.bodies) =~= Seq::<u8>::empty());
            assert(self.buffer@ =~= recording(next, -1));
            assert(self.definitions@ =~= entries_of(next));
            header_patched(
                info_bytes(next.width, next.height, next.scheme),
                header_value(next.scheme) as int,
                0,
            );
            self.written@ = next;
        }
        self.position_field = Some(18 + field);
    }

    /// Compresses and writes one packet, recording its entry in the data table.
    fn write_packet(&mut self, stream: &EventStream, start: usize, end: usize) -> (outcome: Result<
        (),
        IoError,
    >)
        requires
            old(self).wf(),
            old(self).begun(),
            stream.wf(),
            start < end <= stream.events().len(),
            end - start <= 100_000,
        ensures
            final(self).wf(),
            final(self).begun(),
            final(self).compression() == old(self).compression(),
            final(self).count() == old(self).count(),
            outcome is Ok,
            exists|body: Seq<u8>|
                final(self).written() == #[trigger] with_packet(
                    old(self).written(),
                    body,
                    stream.events().subrange(start as int, end as int),
                ),
    {
        let ghost chunk = stream.events().subrange(start as int, end as int);
        let ghost w = self.written@;
        let packet = build_event_packet(stream, start, end);
        proof {
            packet_len(chunk);
        }
        let body = match self.compression.encode(&packet) {
            Ok(body) => body,
            Err(error) => {
                return Err(error);
            },
        };
        if body.len() > i32::MAX as usize {
            return Err(
                IoError::Unsupported("an AEDAT4 packet body exceeds 2 GB".to_owned()),
            );
        }
        proof {
            packet_adds(w, body@, chunk);
        }
        push_u32(&mut self.buffer, 0);
        push_u32(&mut self.buffer, body.len() as u32);
        let byte_offset = signed64(self.buffer.len() as u64);
        push_all(&mut self.buffer, &body);
        let first = stream.get(start);
        let last = stream.get(end - 1);
        self.definitions.push(
            Definition {
                byte_offset,
                size: body.len() as i32,
                elements: (end - start) as i64,
                start: first.t,
                end: last.t,
            },
        );
        proof {
            let next = with_packet(w, body@, chunk);
            assert(self.buffer@ =~= recording(next, -1));
            assert(chunk[0] == first && chunk.last() == last);
            assert(self.definitions@ =~= entries_of(next));
            self.written@ = next;
        }
        Ok(())
    }

    /// Writes a window of events. A packet holds so few of them that none is too large to be written.
    pub fn append(&mut self, stream: &EventStream) -> (outcome: Result<(), IoError>)
        requires
            old(self).in_step(),
            stream.wf(),
            old(self).count() + stream.events().len() <= usize::MAX,
        ensures
            outcome is Ok,
            final(self).in_step(),
            final(self).compression() == old(self).compression(),
            stream.events().len() == 0 ==> *final(self) == *old(self),
            stream.events().len() > 0 ==> {
                let w0 = old(self).written();
                let w1 = final(self).written();
                &&& final(self).begun()
                &&& w1.width == if old(self).begun() {
                    w0.width
                } else {
                    stream.width()
                }
                &&& w1.height == if old(self).begun() {
                    w0.height
                } else {
                    stream.height()
                }
                &&& w0.bodies.len() <= w1.bodies.len()
                &&& w1.bodies.take(w0.bodies.len() as int) == w0.bodies
                &&& w1.chunks == w0.chunks + split(stream.events())
                &&& final(self).count() == old(self).count() + stream.events().len()
            },
    {
        let n: usize = stream.len();
        if n == 0 {
            return Ok(());
        }
        let (width, height) = stream.sensor_size();
        if self.position_field.is_none() {
            self.begin(width, height);
        }
        let ghost w = self.written@;
        let ghost events = stream.events();
        let ghost runs = split(events);
        let ghost mut done: int = 0;
        let mut start: usize = 0;
        assert(events.skip(0) =~= events);
        assert(runs.skip(0) =~= runs);
        assert(w.chunks + runs.take(0) =~= w.chunks);
        assert(w.bodies.take(w.bodies.len() as int) =~= w.bodies);
        while start < n
            invariant
                start <= n,
                n == events.len(),
                events == stream.events(),
                stream.wf(),
                self.wf(),
                self.begun(),
                self.compression() == old(self).compression(),
                self.count() == old(self).count(),
                self.written().width == w.width,
                self.written().height == w.height,
                w.width == (if old(self).begun() {
                    old(self).written().width
                } else {
                    stream.width()
                }),
                w.height == (if old(self).begun() {
                    old(self).written().height
                } else {
                    stream.height()
                }),
                w.bodies == old(self).written().bodies,
                w.chunks == old(self).written().chunks,
                runs == split(events),
                0 <= done <= runs.len(),
                runs.skip(done) == split(events.skip(start as int)),
                self.written().chunks == w.chunks + runs.take(done),
                w.bodies.len() <= self.written().bodies.len(),
                self.written().bodies.take(w.bodies.len() as int) == w.bodies,
            decreases n - start,
        {
            let end: usize = if n - start > PACKET_EVENTS {
                start + PACKET_EVENTS
            } else {
                n
            };
            let ghost before = self.written();
            let ghost chunk = events.subrange(start as int, end as int);
            proof {
                let rest = events.skip(start as int);
                assert(rest.take(end - start) =~= chunk);
                assert(rest.skip(end - start) =~= events.skip(end as int));
                assert(events.skip(n as int) =~= Seq::<RawEvent>::empty());
                assert(chunk =~= rest || end - start == 100_000);
                assert(split(rest) =~= seq![chunk] + split(events.skip(end as int)));
                assert(runs.skip(done)[0] == chunk);
                assert(runs[done] == chunk);
                assert(runs.skip(done + 1) =~= runs.skip(done).skip(1));
                assert(runs.skip(done).skip(1) =~= split(events.skip(end as int)));
            }
            match self.write_packet(stream, start, end) {
                Ok(()) => {},
                Err(error) => {
                    return Err(error);
                },
            }
            proof {
                assert(runs.take(done + 1) =~= runs.take(done).push(chunk));
                assert(self.written().chunks =~= w.chunks + runs.take(done + 1));
                assert(self.written().bodies.take(w.bodies.len() as int) =~= before.bodies.take(
                    w.bodies.len() as int,
                ));
                done = done + 1;
            }
            start = end;
        }
        proof {
            assert(events.skip(n as int) =~= Seq::<RawEvent>::empty());
            assert(runs.skip(done).len() == 0);
            assert(runs.take(done) =~= runs);
        }
        self.n_events += n;
        Ok(())
    }

    /// Ends a recording: writes the data table and puts its place into the header.
    pub fn finish(self) -> (data: Result<Vec<u8>, IoError>)
        requires
            self.in_step(),
            table_fits(entries_of(self.written())),
        ensures
            match data {
                Ok(d) => if self.begun() {
                    exists|table: Seq<u8>|
                        content_of(self.compression(), table) == Some(
                            table_bytes(entries_of(self.written())),
                        ) && table.len() > 0 && d@ == #[trigger] closed_recording(
                            self.written(),
                            table,
                        )
                } else {
                    d@ == front(1, 1, self.compression(), -1)
                },
                Err(_) => false,
            },
    {
        let mut sink = self;
        let field = match sink.position_field {
            Some(field) => field,
            None => {
                sink.begin(1, 1);
                assert(recording(sink.written@, -1) =~= front(1, 1, self.compression(), -1));
                return Ok(sink.buffer);
            },
        };
        let ghost w = sink.written@;
        let position: u64 = sink.buffer.len() as u64;
        let body = build_data_table(&sink.definitions);
        proof {
            table_not_empty(sink.definitions@);
        }
        let table = match sink.compression.encode(&body) {
            Ok(table) => table,
            Err(error) => {
                return Err(error);
            },
        };
        proof {
            closed_parts(w, table@, position as int);
        }
        let data = patched(&sink.buffer, field, position, &table);
        Ok(data)
    }
}

/// A buffer with eight bytes replaced and more after it.
fn patched(buffer: &[u8], at: usize, value: u64, more: &[u8]) -> (data: Vec<u8>)
    requires
        at + 8 <= buffer@.len(),
    ensures
        data@ == buffer@.take(at as int) + le64_bytes(value as int) + buffer@.skip(at + 8) + more@,
{
    let n: usize = buffer.len();
    let before = slice_subrange(buffer, 0, at);
    let after = slice_subrange(buffer, at + 8, n);
    assert(before@ =~= buffer@.take(at as int));
    assert(after@ =~= buffer@.skip(at + 8));
    let mut data: Vec<u8> = Vec::new();
    push_all(&mut data, before);
    assert(data@ =~= before@);
    push_u64(&mut data, value);
    push_all(&mut data, after);
    push_all(&mut data, more);
    data
}

/// A recording with its data table is what was written before, with the table's place put in.
proof fn closed_parts(w: Written, table: Seq<u8>, position: int)
    requires
        info_bytes(w.width, w.height, w.scheme).len() <= 10_000,
        position == recording(w, -1).len(),
        position <= u64::MAX,
    ensures
        ({
            let b = recording(w, -1);
            let at = 18 + position_field(
                info_bytes(w.width, w.height, w.scheme),
                header_value(w.scheme) as int,
            );
            &&& 0 <= at
            &&& at + 8 <= b.len()
            &&& closed_recording(w, table) == b.take(at) + le64_bytes(position) + b.skip(at + 8)
                + table
        }),
{
    let info = info_bytes(w.width, w.height, w.scheme);
    let scheme = header_value(w.scheme) as int;
    let place = as_signed(position);
    header_patched(info, scheme, place);
    assert(bits64(place) == position);
    let h = header_bytes(info, scheme, -1);
    let lead = magic() + le32_bytes(h.len() as int);
    let at = position_field(info, scheme);
    let tail = packed(w.bodies);
    let b = recording(w, -1);
    assert(lead.len() == 18);
    assert(b =~= lead + h + tail);
    assert(b.take(18 + at) =~= lead + h.take(at));
    assert(b.skip(26 + at) =~= h.skip(at + 8) + tail);
    let patched = h.take(at) + le64_bytes(position) + h.skip(at + 8);
    assert(recording(w, place) =~= lead + patched + tail);
}

/// A recording with its data table.
pub open spec fn closed_recording(w: Written, table: Seq<u8>) -> Seq<u8> {
    recording(w, as_signed(recording(w, -1).len() as int)) + table
}

} // verus!
