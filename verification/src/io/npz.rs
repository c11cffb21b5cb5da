//! Event streams and frames as NumPy archives.
//!
//! Arrays of numbers with a fraction and of records are read by the caller. Numbers with a fraction
//! are held by their bit patterns.

use vstd::prelude::*;
use vstd::string::*;
use vstd::utf8::{decode_utf8, encode_utf8, encode_utf8_decode_utf8, valid_utf8};

use crate::bytes::{
    bits64, le16_bytes, le64_bytes, push_all, push_u16, push_u64, unsigned64,
};
use crate::chars::{
    chars_of, decimal, decimal_string, join2, join3, string_of,
};
use crate::io::flatbuffer::utf8;
use crate::io::IoError;
use crate::representation::{
    names_of, tag_of, EventFrame, EventFrameData, RepresentationKind,
};
use crate::stream::{
    kept, kept_push, kept_whole, EventStream, EventStreamBuilder, RawEvent, MICROSECOND_SCALE,
};

verus! {

/// What is wrong with an archive.
pub ghost enum Fault {
    /// An array could not be read; the reason is given.
    Unreadable(Seq<char>),
    Malformed(Seq<char>),
}

/// Whether an error reports a fault.
pub open spec fn reports(e: IoError, fault: Fault) -> bool {
    match fault {
        Fault::Unreadable(text) => e matches IoError::Io(m) && m@ == text,
        Fault::Malformed(text) => e matches IoError::Format(m) && m@ == text,
    }
}

/// An array of an archive: the reason if it cannot be read, `None` if there is none.
pub type ArrayRead<T> = Result<Option<Vec<T>>, String>;

/// What is wrong with an array that must be there.
pub open spec fn array_fault<T>(array: ArrayRead<T>, name: Seq<char>) -> Option<Fault> {
    match array {
        Ok(Some(_)) => None,
        Ok(None) => Some(Fault::Malformed("missing array '"@ + name + "'"@)),
        Err(text) => Some(Fault::Unreadable(text@)),
    }
}

/// The content of an array that is there.
pub open spec fn content<T>(array: ArrayRead<T>) -> Seq<T> {
    (array->Ok_0->0)@
}

fn required<T>(array: ArrayRead<T>, name: &str) -> (content: Result<Vec<T>, IoError>)
    ensures
        match content {
            Ok(values) => array_fault(array, name@) is None && values@ == self::content(array),
            Err(e) => array_fault(array, name@) is Some && reports(e, array_fault(array, name@)->0),
        },
{
    match array {
        Ok(Some(values)) => Ok(values),
        Ok(None) => Err(IoError::Format(join3("missing array '", name, "'"))),
        Err(text) => Err(IoError::Io(text)),
    }
}

/// What is wrong with an array that may be missing.
pub open spec fn scalar_fault<T>(array: ArrayRead<T>) -> Option<Fault> {
    match array {
        Ok(_) => None,
        Err(text) => Some(Fault::Unreadable(text@)),
    }
}

/// The first value of an array, if there is one.
pub open spec fn scalar<T>(array: ArrayRead<T>) -> Option<T> {
    match array {
        Ok(Some(values)) => if values@.len() > 0 {
            Some(values@[0])
        } else {
            None
        },
        _ => None,
    }
}

fn first_value<T: Copy>(array: ArrayRead<T>) -> (value: Result<Option<T>, IoError>)
    ensures
        match value {
            Ok(v) => scalar_fault(array) is None && v == scalar(array),
            Err(e) => scalar_fault(array) is Some && reports(e, scalar_fault(array)->0),
        },
{
    match array {
        Ok(Some(values)) => if values.len() > 0 {
            Ok(Some(values[0]))
        } else {
            Ok(None)
        },
        Ok(None) => Ok(None),
        Err(text) => Err(IoError::Io(text)),
    }
}

/// An event of the N-ImageNet layout.
#[derive(Clone, Copy, Debug, PartialEq, Eq, Structural)]
pub struct NImageNetEvent {
    pub x: u16,
    pub y: u16,
    pub t: u16,
    pub p: bool,
}

/// The event of a record.
pub open spec fn event_of(r: NImageNetEvent) -> RawEvent {
    RawEvent { x: r.x, y: r.y, t: r.t as i64, p: r.p }
}

/// The events of records.
pub open spec fn events_of_records(records: Seq<NImageNetEvent>) -> Seq<RawEvent> {
    Seq::new(records.len(), |i: int| event_of(records[i]))
}

/// What reading the N-ImageNet layout comes to.
pub open spec fn n_imagenet_outcome(
    shape: Seq<u64>,
    records: Result<(Vec<NImageNetEvent>, Option<String>), String>,
    sensor: Option<(usize, usize)>,
    stream: Result<EventStream, IoError>,
) -> bool {
    let (w, h) = match sensor {
        Some((w, h)) => (w as int, h as int),
        None => (640int, 480int),
    };
    if shape.len() != 1 {
        stream matches Err(e) && reports(
            e,
            Fault::Malformed("event_data must be one-dimensional"@),
        )
    } else if shape[0] > usize::MAX {
        stream matches Err(e) && reports(e, Fault::Malformed("event_data is too large"@))
    } else {
        match records {
            Err(text) => stream matches Err(e) && reports(e, Fault::Malformed(text@)),
            Ok((list, fault)) => match fault {
                Some(text) => stream matches Err(e) && reports(e, Fault::Malformed(text@)),
                None => {
                    &&& stream matches Ok(s)
                    &&& s.wf()
                    &&& s.width() == w
                    &&& s.height() == h
                    &&& s.scale() == MICROSECOND_SCALE
                    &&& s.events() == kept(events_of_records(list@), w, h)
                },
            },
        }
    }
}

/// Reads the N-ImageNet layout: a structured array of one dimension on a sensor of 640 by 480
/// unless another is given. Events outside the sensor are dropped. `records` are the records up to the first that cannot be read, and why
/// it cannot; or why there are none.
pub fn read_n_imagenet(
    shape: &[u64],
    records: Result<(Vec<NImageNetEvent>, Option<String>), String>,
    sensor: Option<(usize, usize)>,
) -> (stream: Result<EventStream, IoError>)
    ensures
        n_imagenet_outcome(shape@, records, sensor, stream),
{
    let (width, height) = match sensor {
        Some(size) => size,
        None => (640, 480),
    };
    if shape.len() != 1 {
        return Err(IoError::Format("event_data must be one-dimensional".to_owned()));
    }
    if shape[0] > usize::MAX as u64 {
        return Err(IoError::Format("event_data is too large".to_owned()));
    }
    let (list, fault) = match records {
        Ok(parts) => parts,
        Err(text) => {
            return Err(IoError::Format(text));
        },
    };
    if let Some(text) = fault {
        return Err(IoError::Format(text));
    }
    let n: usize = list.len();
    let mut builder = EventStreamBuilder::new(width, height, MICROSECOND_SCALE);
    let ghost w = width as int;
    let ghost h = height as int;
    let ghost events = events_of_records(list@);
    assert(events.take(0) =~= Seq::<RawEvent>::empty());
    for i in 0..n
        invariant
            n == list@.len(),
            w == width,
            h == height,
            events == events_of_records(list@),
            builder.wf(),
            builder.width() == w,
            builder.height() == h,
            builder.scale() == MICROSECOND_SCALE,
            builder.events() == kept(events.take(i as int), w, h),
    {
        let r = list[i];
        builder.push(r.x, r.y, r.t as i64, r.p);
        proof {
            kept_push(events.take(i as int), event_of(r), w, h);
            assert(events.take(i + 1) =~= events.take(i as int).push(event_of(r)));
        }
    }
    assert(events.take(n as int) =~= events);
    Ok(builder.build())
}

/// The largest of some coordinates; less than zero if there are none.
pub open spec fn peak(values: Seq<u16>) -> int
    decreases values.len(),
{
    if values.len() == 0 {
        -1
    } else if values.last() > peak(values.drop_last()) {
        values.last() as int
    } else {
        peak(values.drop_last())
    }
}

/// The extent that holds some coordinates: one more than the largest, and one if there are none.
pub open spec fn extent_of(values: Seq<u16>) -> int {
    if values.len() == 0 {
        1
    } else {
        peak(values) + 1
    }
}

fn extent(values: &Vec<u16>) -> (size: usize)
    ensures
        size == extent_of(values@),
{
    let n: usize = values.len();
    if n == 0 {
        return 1;
    }
    let mut largest: u16 = values[0];
    proof {
        assert(values@.take(1).drop_last() =~= Seq::<u16>::empty());
        assert(peak(Seq::<u16>::empty()) == -1);
        assert(values@.take(1).last() == values@[0]);
    }
    for i in 1..n
        invariant
            n == values@.len(),
            largest == peak(values@.take(i as int)),
    {
        assert(values@.take(i + 1).drop_last() =~= values@.take(i as int));
        if values[i] > largest {
            largest = values[i];
        }
    }
    assert(values@.take(n as int) =~= values@);
    largest as usize + 1
}

/// The smallest sensor that holds the coordinates of a stream.
pub fn infer_size(xs: &Vec<u16>, ys: &Vec<u16>) -> (size: (usize, usize))
    ensures
        size.0 == extent_of(xs@),
        size.1 == extent_of(ys@),
{
    (extent(xs), extent(ys))
}

/// The arrays of an archive with a stream: its columns, and what is known of its sensor and clock.
pub struct NativeArrays {
    pub x: ArrayRead<u16>,
    pub y: ArrayRead<u16>,
    pub t: ArrayRead<i64>,
    pub p: ArrayRead<u8>,
    /// The bit pattern of the milliseconds of one tick.
    pub timestamp_scale_ms: ArrayRead<u64>,
    pub width: ArrayRead<u64>,
    pub height: ArrayRead<u64>,
}

/// What is wrong with the arrays of a stream.
pub open spec fn native_fault(a: NativeArrays, sensor: Option<(usize, usize)>) -> Option<Fault> {
    if array_fault(a.x, "x"@) is Some {
        array_fault(a.x, "x"@)
    } else if array_fault(a.y, "y"@) is Some {
        array_fault(a.y, "y"@)
    } else if array_fault(a.t, "t"@) is Some {
        array_fault(a.t, "t"@)
    } else if array_fault(a.p, "p"@) is Some {
        array_fault(a.p, "p"@)
    } else if content(a.y).len() != content(a.x).len() || content(a.t).len() != content(a.x).len()
        || content(a.p).len() != content(a.x).len() {
        Some(Fault::Malformed("event columns x/y/t/p have mismatched lengths"@))
    } else if scalar_fault(a.timestamp_scale_ms) is Some {
        scalar_fault(a.timestamp_scale_ms)
    } else if sensor is Some {
        None
    } else if scalar_fault(a.width) is Some {
        scalar_fault(a.width)
    } else {
        scalar_fault(a.height)
    }
}

/// The sensor size of the stream of an archive.
pub open spec fn native_size(a: NativeArrays, sensor: Option<(usize, usize)>) -> (int, int) {
    match sensor {
        Some((w, h)) => (w as int, h as int),
        None => match (scalar(a.width), scalar(a.height)) {
            (Some(w), Some(h)) => ((w as usize) as int, (h as usize) as int),
            _ => (extent_of(content(a.x)), extent_of(content(a.y))),
        },
    }
}

/// The milliseconds of one tick, as a bit pattern.
pub open spec fn native_scale(a: NativeArrays) -> u64 {
    match scalar(a.timestamp_scale_ms) {
        Some(bits) => bits,
        None => MICROSECOND_SCALE,
    }
}

/// The events of an archive, in bounds or not.
pub open spec fn native_rows(a: NativeArrays) -> Seq<RawEvent> {
    Seq::new(
        content(a.x).len(),
        |i: int|
            RawEvent {
                x: content(a.x)[i],
                y: content(a.y)[i],
                t: content(a.t)[i],
                p: content(a.p)[i] != 0,
            },
    )
}

/// What reading the layout with one array per column comes to.
pub open spec fn native_outcome(
    a: NativeArrays,
    sensor: Option<(usize, usize)>,
    stream: Result<EventStream, IoError>,
) -> bool {
    match stream {
        Ok(s) => {
            &&& native_fault(a, sensor) is None
            &&& s.wf()
            &&& (s.width(), s.height()) == native_size(a, sensor)
            &&& s.scale() == native_scale(a)
            &&& s.events() == kept(native_rows(a), s.width(), s.height())
        },
        Err(e) => native_fault(a, sensor) is Some && reports(e, native_fault(a, sensor)->0),
    }
}

/// Reads the layout with one array per column. What an archive does not say of its sensor is
/// inferred; events outside the sensor are dropped.
pub fn read_native_stream(arrays: NativeArrays, sensor: Option<(usize, usize)>) -> (stream: Result<
    EventStream,
    IoError,
>)
    ensures
        native_outcome(arrays, sensor, stream),
{
    let xs = match required(arrays.x, "x") {
        Ok(values) => values,
        Err(error) => {
            return Err(error);
        },
    };
    let ys = match required(arrays.y, "y") {
        Ok(values) => values,
        Err(error) => {
            return Err(error);
        },
    };
    let ts = match required(arrays.t, "t") {
        Ok(values) => values,
        Err(error) => {
            return Err(error);
        },
    };
    let ps = match required(arrays.p, "p") {
        Ok(values) => values,
        Err(error) => {
            return Err(error);
        },
    };
    let count: usize = xs.len();
    if ys.len() != count || ts.len() != count || ps.len() != count {
        return Err(
            IoError::Format("event columns x/y/t/p have mismatched lengths".to_owned()),
        );
    }
    let scale_bits = match first_value(arrays.timestamp_scale_ms) {
        Ok(Some(bits)) => bits,
        Ok(None) => MICROSECOND_SCALE,
        Err(error) => {
            return Err(error);
        },
    };
    let (width, height) = match sensor {
        Some(size) => size,
        None => {
            let stated_width = match first_value(arrays.width) {
                Ok(value) => value,
                Err(error) => {
                    return Err(error);
                },
            };
            let stated_height = match first_value(arrays.height) {
                Ok(value) => value,
                Err(error) => {
                    return Err(error);
                },
            };
            match (stated_width, stated_height) {
                (Some(width), Some(height)) => (width as usize, height as usize),
                _ => infer_size(&xs, &ys),
            }
        },
    };
    let mut builder = EventStreamBuilder::with_capacity(width, height, scale_bits, count);
    let ghost all = native_rows(arrays);
    assert(all.take(0) =~= Seq::<RawEvent>::empty());
    for i in 0..count
        invariant
            count == xs@.len(),
            count == ys@.len(),
            count == ts@.len(),
            count == ps@.len(),
            count == all.len(),
            forall|j: int|
                0 <= j < count ==> #[trigger] all[j] == (RawEvent {
                    x: xs@[j],
                    y: ys@[j],
                    t: ts@[j],
                    p: ps@[j] != 0,
                }),
            builder.wf(),
            builder.width() == width,
            builder.height() == height,
            builder.scale() == scale_bits,
            builder.events() == kept(all.take(i as int), width as int, height as int),
    {
        proof {
            kept_push(all.take(i as int), all[i as int], width as int, height as int);
            assert(all.take(i + 1) =~= all.take(i as int).push(all[i as int]));
        }
        builder.push(xs[i], ys[i], ts[i], ps[i] != 0);
    }
    assert(all.take(count as int) =~= all);
    Ok(builder.build())
}

/// The polarities of a stream as bytes.
pub fn polarity_bytes(stream: &EventStream) -> (bytes: Vec<u8>)
    requires
        stream.wf(),
    ensures
        bytes@ == Seq::new(
            stream.events().len(),
            |i: int|
                if stream.events()[i].p {
                    1u8
                } else {
                    0u8
                },
        ),
{
    let n: usize = stream.len();
    let mut bytes: Vec<u8> = Vec::with_capacity(n);
    for i in 0..n
        invariant
            stream.wf(),
            n == stream.events().len(),
            bytes@.len() == i,
            forall|j: int|
                0 <= j < i ==> #[trigger] bytes@[j] == if stream.events()[j].p {
                    1u8
                } else {
                    0u8
                },
    {
        bytes.push(
            if stream.get(i).p {
                1
            } else {
                0
            },
        );
    }
    assert(bytes@ =~= Seq::new(
        stream.events().len(),
        |i: int|
            if stream.events()[i].p {
                1u8
            } else {
                0u8
            },
    ));
    bytes
}

/// Whether arrays are those that are written for a stream.
pub open spec fn holds_stream(a: NativeArrays, stream: EventStream) -> bool {
    let events = stream.events();
    &&& array_fault(a.x, "x"@) is None
    &&& array_fault(a.y, "y"@) is None
    &&& array_fault(a.t, "t"@) is None
    &&& array_fault(a.p, "p"@) is None
    &&& content(a.x) == Seq::new(events.len(), |i: int| events[i].x)
    &&& content(a.y) == Seq::new(events.len(), |i: int| events[i].y)
    &&& content(a.t) == Seq::new(events.len(), |i: int| events[i].t)
    &&& content(a.p) == Seq::new(
        events.len(),
        |i: int|
            if events[i].p {
                1u8
            } else {
                0u8
            },
    )
    &&& a.width matches Ok(Some(w)) && w@.len() == 1 && w@[0] == stream.width()
    &&& a.height matches Ok(Some(h)) && h@.len() == 1 && h@[0] == stream.height()
    &&& a.timestamp_scale_ms matches Ok(Some(s)) && s@.len() == 1 && s@[0] == stream.scale()
}

/// A stream that is written and read again is the same stream: its events, its sensor and its
/// clock.
pub proof fn native_round_trip(a: NativeArrays, stream: EventStream)
    requires
        stream.wf(),
        stream.in_bounds(),
        holds_stream(a, stream),
    ensures
        native_fault(a, None) is None,
        native_size(a, None) == (stream.width(), stream.height()),
        native_scale(a) == stream.scale(),
        kept(native_rows(a), stream.width(), stream.height()) == stream.events(),
{
    stream.size_fits();
    assert(native_rows(a) =~= stream.events());
    kept_whole(stream.events(), stream.width(), stream.height());
}

/// An element type of an array.
#[derive(Clone, Copy, Debug, PartialEq, Eq, Structural)]
pub enum NpyType {
    I64,
    U16,
    U8,
    U64,
    /// Double precision numbers.
    Double,
    /// Single precision numbers.
    Single,
}

/// How NumPy writes an element type.
pub open spec fn descr_of(kind: NpyType) -> Seq<char> {
    match kind {
        NpyType::I64 => "<i8"@,
        NpyType::U16 => "<u2"@,
        NpyType::U8 => "|u1"@,
        NpyType::U64 => "<u8"@,
        NpyType::Double => "<f8"@,
        NpyType::Single => "<f4"@,
    }
}

impl NpyType {
    /// How NumPy writes this type.
    pub fn descr(self) -> (text: &'static str)
        ensures
            text@ == descr_of(self),
    {
        match self {
            NpyType::I64 => "<i8",
            NpyType::U16 => "<u2",
            NpyType::U8 => "|u1",
            NpyType::U64 => "<u8",
            NpyType::Double => "<f8",
            NpyType::Single => "<f4",
        }
    }
}

/// The dictionary in the header of an array of one dimension.
pub open spec fn npy_dict(kind: NpyType, len: nat) -> Seq<char> {
    "{'descr': '"@ + descr_of(kind) + "', 'fortran_order': False, 'shape': ("@ + decimal(len)
        + ",), }"@
}

/// How long the dictionary is with its padding: the data after it starts at a multiple of 64.
pub open spec fn padded_len(dict: nat) -> int {
    (10 + dict + 1 + 63) / 64 * 64 - 10
}

/// The header of an array of one dimension.
pub open spec fn npy_header_of(kind: NpyType, len: nat) -> Seq<u8> {
    let dict = encode_utf8(npy_dict(kind, len));
    let padded = padded_len(dict.len());
    seq![0x93u8, 0x4E, 0x55, 0x4D, 0x50, 0x59, 1, 0] + le16_bytes(padded) + dict + Seq::new(
        (padded - 1 - dict.len()) as nat,
        |i: int| 0x20u8,
    ) + seq![0x0Au8]
}

/// The header of an array is a multiple of 64 bytes long.
pub proof fn npy_header_aligned(kind: NpyType, len: nat)
    ensures
        npy_header_of(kind, len).len() % 64 == 0,
        npy_header_of(kind, len).len() >= 11 + encode_utf8(npy_dict(kind, len)).len(),
        npy_header_of(kind, len).last() == 0x0A,
{
}

/// Builds the header of an array of one dimension.
pub fn npy_header(kind: NpyType, len: usize) -> (header: Vec<u8>)
    ensures
        header@ == npy_header_of(kind, len as nat),
{
    let mut text = join3("{'descr': '", kind.descr(), "', 'fortran_order': False, 'shape': (");
    text.append(decimal_string(len as u64).as_str());
    text.append(",), }");
    assert(text@ =~= npy_dict(kind, len as nat));
    proof {
        dict_short(kind, len);
    }
    let dict = text.as_str().as_bytes();
    let n: usize = dict.len();
    let padded: usize = (10 + n + 1 + 63) / 64 * 64 - 10;
    let mut header: Vec<u8> = Vec::new();
    let magic: [u8; 8] = [0x93, 0x4E, 0x55, 0x4D, 0x50, 0x59, 1, 0];
    push_all(&mut header, &magic);
    push_u16(&mut header, padded as u16);
    push_all(&mut header, dict);
    let ghost start = header@;
    let spaces: usize = padded - 1 - n;
    for i in 0..spaces
        invariant
            header@ == start + Seq::new(i as nat, |j: int| 0x20u8),
    {
        header.push(0x20);
        assert(header@ =~= start + Seq::new((i + 1) as nat, |j: int| 0x20u8));
    }
    header.push(0x0A);
    assert(header@ =~= npy_header_of(kind, len as nat));
    header
}

/// The header of an array is short.
pub proof fn npy_header_short(kind: NpyType, len: usize)
    ensures
        npy_header_of(kind, len as nat).len() <= 0x1_0000,
{
    dict_short(kind, len);
}

proof fn dict_short(kind: NpyType, len: usize)
    ensures
        encode_utf8(npy_dict(kind, len as nat)).len() < 60000,
{
    reveal_strlit("{'descr': '");
    reveal_strlit("', 'fortran_order': False, 'shape': (");
    reveal_strlit(",), }");
    reveal_strlit("<i8");
    reveal_strlit("<u2");
    reveal_strlit("|u1");
    reveal_strlit("<u8");
    reveal_strlit("<f8");
    reveal_strlit("<f4");
    crate::chars::decimal_short(len as u64);
    crate::io::aedat4_build::encoded_len(npy_dict(kind, len as nat));
}

/// The bytes of the columns of a stream.
pub struct ColumnBytes {
    pub t: Vec<u8>,
    pub x: Vec<u8>,
    pub y: Vec<u8>,
    pub p: Vec<u8>,
}

/// The bytes of the times of events.
pub open spec fn time_bytes(events: Seq<RawEvent>) -> Seq<u8>
    decreases events.len(),
{
    if events.len() == 0 {
        Seq::empty()
    } else {
        time_bytes(events.drop_last()) + le64_bytes(bits64(events.last().t as int))
    }
}

/// The bytes of a coordinate of events: of the columns, or of the rows.
pub open spec fn place_bytes(events: Seq<RawEvent>, of_row: bool) -> Seq<u8>
    decreases events.len(),
{
    if events.len() == 0 {
        Seq::empty()
    } else {
        place_bytes(events.drop_last(), of_row) + le16_bytes(
            if of_row {
                events.last().y as int
            } else {
                events.last().x as int
            },
        )
    }
}

/// The bytes of a column add up over streams.
pub proof fn column_bytes_join(a: Seq<RawEvent>, b: Seq<RawEvent>)
    ensures
        time_bytes(a + b) == time_bytes(a) + time_bytes(b),
        place_bytes(a + b, false) == place_bytes(a, false) + place_bytes(b, false),
        place_bytes(a + b, true) == place_bytes(a, true) + place_bytes(b, true),
    decreases b.len(),
{
    if b.len() == 0 {
        assert(a + b =~= a);
    } else {
        column_bytes_join(a, b.drop_last());
        assert((a + b).drop_last() =~= a + b.drop_last());
        assert(time_bytes(a + b) =~= time_bytes(a) + time_bytes(b));
        assert(place_bytes(a + b, false) =~= place_bytes(a, false) + place_bytes(b, false));
        assert(place_bytes(a + b, true) =~= place_bytes(a, true) + place_bytes(b, true));
    }
}

/// Writes a stream to an archive a window at a time. The columns are handed out as bytes, and the
/// headers, which state the number of events, once that is known.
#[derive(Debug)]
pub struct NpzEventSink {
    /// The sensor size and the clock, fixed by the first window that holds events.
    metadata: Option<((usize, usize), u64)>,
    n_events: usize,
}

/// The members that close an archive: the header of each column, and the values that describe the
/// recording, each with its header.
pub struct NpzClosing {
    pub t: Vec<u8>,
    pub x: Vec<u8>,
    pub y: Vec<u8>,
    pub p: Vec<u8>,
    pub width: Vec<u8>,
    pub height: Vec<u8>,
    pub timestamp_scale_ms: Vec<u8>,
}

impl NpzEventSink {
    pub closed spec fn metadata(&self) -> Option<((usize, usize), u64)> {
        self.metadata
    }

    pub closed spec fn event_count(&self) -> int {
        self.n_events as int
    }

    pub fn create() -> (sink: Self)
        ensures
            sink.metadata() is None,
            sink.event_count() == 0,
    {
        NpzEventSink { metadata: None, n_events: 0 }
    }

    /// Takes a window of events, and gives the bytes to add to each column.
    pub fn append(&mut self, stream: &EventStream) -> (columns: ColumnBytes)
        requires
            stream.wf(),
            old(self).event_count() + stream.events().len() <= usize::MAX,
        ensures
            columns.t@ == time_bytes(stream.events()),
            columns.x@ == place_bytes(stream.events(), false),
            columns.y@ == place_bytes(stream.events(), true),
            columns.p@ == Seq::new(
                stream.events().len(),
                |i: int|
                    if stream.events()[i].p {
                        1u8
                    } else {
                        0u8
                    },
            ),
            final(self).event_count() == old(self).event_count() + stream.events().len(),
            final(self).metadata() == if old(self).metadata() is None && stream.events().len() > 0 {
                Some(((stream.width() as usize, stream.height() as usize), stream.scale()))
            } else {
                old(self).metadata()
            },
    {
        let n: usize = stream.len();
        if n > 0 && self.metadata.is_none() {
            self.metadata = Some((stream.sensor_size(), stream.timestamp_scale_bits()));
        }
        let mut t: Vec<u8> = Vec::new();
        let mut x: Vec<u8> = Vec::new();
        let mut y: Vec<u8> = Vec::new();
        let ghost events = stream.events();
        assert(events.take(0) =~= Seq::<RawEvent>::empty());
        for i in 0..n
            invariant
                stream.wf(),
                events == stream.events(),
                n == events.len(),
                t@ == time_bytes(events.take(i as int)),
                x@ == place_bytes(events.take(i as int), false),
                y@ == place_bytes(events.take(i as int), true),
        {
            let e = stream.get(i);
            assert(events.take(i + 1).drop_last() =~= events.take(i as int));
            push_u64(&mut t, unsigned64(e.t));
            push_u16(&mut x, e.x);
            push_u16(&mut y, e.y);
        }
        assert(events.take(n as int) =~= events);
        self.n_events += n;
        ColumnBytes { t, x, y, p: polarity_bytes(stream) }
    }

    /// Events taken so far.
    pub fn n_events(&self) -> (n: usize)
        ensures
            n == self.event_count(),
    {
        self.n_events
    }

    /// What closes the archive. A recording without events has a sensor of one pixel and counts
    /// microseconds.
    pub fn finish(&self) -> (closing: NpzClosing)
        ensures
            ({
                let n = self.event_count() as nat;
                let ((w, h), scale) = match self.metadata() {
                    Some(m) => m,
                    None => ((1usize, 1usize), MICROSECOND_SCALE),
                };
                &&& closing.t@ == npy_header_of(NpyType::I64, n)
                &&& closing.x@ == npy_header_of(NpyType::U16, n)
                &&& closing.y@ == npy_header_of(NpyType::U16, n)
                &&& closing.p@ == npy_header_of(NpyType::U8, n)
                &&& closing.width@ == npy_header_of(NpyType::U64, 1) + le64_bytes(w as int)
                &&& closing.height@ == npy_header_of(NpyType::U64, 1) + le64_bytes(h as int)
                &&& closing.timestamp_scale_ms@ == npy_header_of(NpyType::Double, 1) + le64_bytes(
                    scale as int,
                )
            }),
    {
        let ((width_value, height_value), scale) = match self.metadata {
            Some(metadata) => metadata,
            None => ((1, 1), MICROSECOND_SCALE),
        };
        let mut width = npy_header(NpyType::U64, 1);
        push_u64(&mut width, width_value as u64);
        let mut height = npy_header(NpyType::U64, 1);
        push_u64(&mut height, height_value as u64);
        let mut timestamp_scale_ms = npy_header(NpyType::Double, 1);
        push_u64(&mut timestamp_scale_ms, scale);
        NpzClosing {
            t: npy_header(NpyType::I64, self.n_events),
            x: npy_header(NpyType::U16, self.n_events),
            y: npy_header(NpyType::U16, self.n_events),
            p: npy_header(NpyType::U8, self.n_events),
            width,
            height,
            timestamp_scale_ms,
        }
    }
}

/// Lines joined by line feeds.
pub open spec fn joined(lines: Seq<Seq<char>>) -> Seq<char>
    decreases lines.len(),
{
    if lines.len() == 0 {
        Seq::empty()
    } else if lines.len() == 1 {
        lines[0]
    } else {
        lines[0] + seq!['\n'] + joined(lines.skip(1))
    }
}

/// The lines of a text, from `at` on, of which the first starts at `start`.
pub open spec fn split_from(text: Seq<char>, start: int, at: int) -> Seq<Seq<char>>
    decreases text.len() - at,
{
    if at >= text.len() {
        seq![text.subrange(start, text.len() as int)]
    } else if text[at] == '\n' {
        seq![text.subrange(start, at)] + split_from(text, at + 1, at + 1)
    } else {
        split_from(text, start, at + 1)
    }
}

/// The names in a text; none in an empty one.
pub open spec fn names_in(text: Seq<char>) -> Seq<Seq<char>> {
    if text.len() == 0 {
        Seq::empty()
    } else {
        split_from(text, 0, 0)
    }
}

proof fn split_scans(text: Seq<char>, start: int, at: int, end: int)
    requires
        0 <= start <= at <= end <= text.len(),
        forall|i: int| at <= i < end ==> text[i] != '\n',
    ensures
        split_from(text, start, at) == split_from(text, start, end),
    decreases end - at,
{
    if at < end {
        split_scans(text, start, at + 1, end);
    }
}

proof fn split_joined(text: Seq<char>, start: int, lines: Seq<Seq<char>>)
    requires
        0 <= start <= text.len(),
        lines.len() > 0,
        text.subrange(start, text.len() as int) == joined(lines),
        forall|i: int, j: int|
            0 <= i < lines.len() && 0 <= j < lines[i].len() ==> #[trigger] lines[i][j] != '\n',
    ensures
        split_from(text, start, start) == lines,
    decreases lines.len(),
{
    let rest = text.subrange(start, text.len() as int);
    let end = start + lines[0].len();
    assert(rest == joined(lines));
    if lines.len() > 1 {
        assert(rest == lines[0] + seq!['\n'] + joined(lines.skip(1)));
    }
    assert(rest.len() == text.len() - start);
    assert forall|i: int| start <= i < end implies text[i] != '\n' by {
        assert(rest[i - start] == text[i]);
        assert(rest[i - start] == lines[0][i - start]);
    }
    split_scans(text, start, start, end);
    assert(text.subrange(start, end) =~= lines[0]) by {
        assert forall|i: int| 0 <= i < lines[0].len() implies text.subrange(start, end)[i]
            == lines[0][i] by {
            assert(rest[i] == lines[0][i]);
        }
    }
    if lines.len() == 1 {
        assert(end == text.len());
        assert(split_from(text, start, end) =~= lines);
    } else {
        let tail = lines.skip(1);
        assert(rest[lines[0].len() as int] == '\n');
        assert(text[end] == '\n');
        assert(text.subrange(end + 1, text.len() as int) =~= joined(tail)) by {
            assert forall|i: int| 0 <= i < joined(tail).len() implies text.subrange(
                end + 1,
                text.len() as int,
            )[i] == joined(tail)[i] by {
                assert(rest[lines[0].len() + 1 + i] == joined(tail)[i]);
            }
        }
        assert forall|i: int, j: int| 0 <= i < tail.len() && 0 <= j < tail[i].len() implies
            #[trigger] tail[i][j] != '\n' by {
            assert(lines[i + 1][j] != '\n');
        }
        split_joined(text, end + 1, tail);
        assert(split_from(text, start, end) =~= lines);
    }
}

/// Names that are joined and split again are the same names, if none holds a line feed and they are
/// not one empty name.
pub proof fn names_round_trip(names: Seq<Seq<char>>)
    requires
        forall|i: int, j: int|
            0 <= i < names.len() && 0 <= j < names[i].len() ==> #[trigger] names[i][j] != '\n',
        !(names.len() == 1 && names[0].len() == 0),
    ensures
        names_in(joined(names)) == names,
{
    if names.len() > 0 {
        let text = joined(names);
        assert(text.subrange(0, text.len() as int) =~= text);
        split_joined(text, 0, names);
        assert(text.len() > 0);
    } else {
        assert(names_in(joined(names)) =~= names);
    }
}

fn join_names(names: &[String]) -> (text: String)
    ensures
        text@ == joined(names_of(names@)),
{
    let n: usize = names.len();
    let mut text = String::new();
    if n == 0 {
        assert(text@ =~= joined(names_of(names@)));
        return text;
    }
    let mut i: usize = n - 1;
    text = names[i].clone();
    let ghost all = names_of(names@);
    assert(all.skip(n - 1).len() == 1);
    while i > 0
        invariant
            i < n,
            n == names@.len(),
            all == names_of(names@),
            text@ == joined(all.skip(i as int)),
        decreases i,
    {
        i -= 1;
        assert(all.skip(i as int).skip(1) =~= all.skip(i + 1));
        assert(all.skip(i as int)[0] == names@[i as int]@);
        text = join3(names[i].as_str(), "\n", text.as_str());
        proof {
            reveal_strlit("\n");
            assert("\n"@ =~= seq!['\n']);
        }
    }
    assert(all.skip(0) =~= all);
    text
}

pub(crate) fn split_names(text: &[char]) -> (names: Vec<String>)
    ensures
        names_of(names@) == names_in(text@),
{
    let n: usize = text.len();
    let mut names: Vec<String> = Vec::new();
    if n == 0 {
        assert(names_of(names@) =~= names_in(text@));
        return names;
    }
    let mut start: usize = 0;
    let mut at: usize = 0;
    let ghost goal = split_from(text@, 0, 0);
    assert(goal =~= names_of(names@) + split_from(text@, 0, 0));
    while at < n
        invariant
            start <= at <= n,
            n == text@.len(),
            goal == names_of(names@) + split_from(text@, start as int, at as int),
        decreases n - at,
    {
        if text[at] == '\n' {
            let ghost before = names_of(names@);
            names.push(string_of(vstd::slice::slice_subrange(text, start, at)));
            proof {
                let line = text@.subrange(start as int, at as int);
                assert(names_of(names@) =~= before.push(line));
                assert(goal =~= before.push(line) + split_from(text@, at + 1, at + 1));
            }
            at += 1;
            start = at;
        } else {
            at += 1;
        }
    }
    let ghost before = names_of(names@);
    names.push(string_of(vstd::slice::slice_subrange(text, start, n)));
    assert(names_of(names@) =~= goal);
    names
}

/// The parts of a frame other than its samples.
#[derive(Debug)]
pub struct FrameRecord {
    /// Channels, rows and columns.
    pub shape: [u64; 3],
    pub kind: String,
    /// The names of the channels, joined by line feeds.
    pub channel_names: String,
    /// The type of the samples.
    pub code: u8,
}

/// The code of the type of samples.
pub open spec fn code_of(data: EventFrameData) -> u8 {
    match data {
        EventFrameData::U8(_) => 0,
        EventFrameData::U16(_) => 1,
        EventFrameData::U64(_) => 2,
        EventFrameData::F32(_) => 3,
    }
}

/// What is written of a frame besides its samples.
pub fn frame_record(frame: &EventFrame) -> (record: FrameRecord)
    ensures
        record.shape@ == seq![
            frame.names().len() as u64,
            frame.height() as u64,
            frame.width() as u64,
        ],
        record.kind@ == tag_of(frame.shown()),
        record.channel_names@ == joined(frame.names()),
        record.code == code_of(frame.samples()),
{
    let (channels, height, width) = frame.shape();
    let code = match frame.data() {
        EventFrameData::U8(_) => 0u8,
        EventFrameData::U16(_) => 1u8,
        EventFrameData::U64(_) => 2u8,
        EventFrameData::F32(_) => 3u8,
    };
    let record = FrameRecord {
        shape: [channels as u64, height as u64, width as u64],
        kind: frame.kind().as_str().to_owned(),
        channel_names: join_names(frame.channel_names()),
        code,
    };
    assert(record.shape@ =~= seq![
        frame.names().len() as u64,
        frame.height() as u64,
        frame.width() as u64,
    ]);
    record
}

/// The arrays of an archive with a frame. The samples are given in every type they may have.
pub struct FrameArrays {
    pub shape: ArrayRead<u64>,
    pub kind: ArrayRead<u8>,
    pub channel_names: ArrayRead<u8>,
    pub dtype: ArrayRead<u8>,
    pub data_u8: ArrayRead<u8>,
    pub data_u16: ArrayRead<u16>,
    pub data_u64: ArrayRead<u64>,
    /// The bit patterns of single precision numbers.
    pub data_f32: ArrayRead<u32>,
}

/// The kind that a tag stands for, if there is one.
pub open spec fn kind_of_tag(tag: Seq<char>) -> Option<RepresentationKind> {
    if exists|kind: RepresentationKind| #[trigger] tag_of(kind) == tag {
        Some(choose|kind: RepresentationKind| #[trigger] tag_of(kind) == tag)
    } else {
        None
    }
}

/// What is wrong with the samples of a frame, given their code.
pub open spec fn data_fault(a: FrameArrays, code: u8) -> Option<Fault> {
    if code == 0 {
        array_fault(a.data_u8, "data"@)
    } else if code == 1 {
        array_fault(a.data_u16, "data"@)
    } else if code == 2 {
        array_fault(a.data_u64, "data"@)
    } else if code == 3 {
        array_fault(a.data_f32, "data"@)
    } else {
        Some(Fault::Malformed("unknown frame dtype code "@ + decimal(code as nat)))
    }
}

/// How many samples there are.
pub open spec fn data_len(a: FrameArrays, code: u8) -> nat {
    if code == 0 {
        content(a.data_u8).len()
    } else if code == 1 {
        content(a.data_u16).len()
    } else if code == 2 {
        content(a.data_u64).len()
    } else {
        content(a.data_f32).len()
    }
}

/// Whether samples are those of an archive.
pub open spec fn data_is(data: EventFrameData, a: FrameArrays, code: u8) -> bool {
    match data {
        EventFrameData::U8(values) => code == 0 && values@ == content(a.data_u8),
        EventFrameData::U16(values) => code == 1 && values@ == content(a.data_u16),
        EventFrameData::U64(values) => code == 2 && values@ == content(a.data_u64),
        EventFrameData::F32(values) => code == 3 && values@ == content(a.data_f32),
    }
}

/// What is wrong with the arrays of a frame.
pub open spec fn frame_fault(a: FrameArrays) -> Option<Fault> {
    let shape = content(a.shape);
    let kind = content(a.kind);
    let names = content(a.channel_names);
    if array_fault(a.shape, "shape"@) is Some {
        array_fault(a.shape, "shape"@)
    } else if shape.len() != 3 {
        Some(Fault::Malformed("frame 'shape' must have exactly three elements"@))
    } else if array_fault(a.kind, "kind"@) is Some {
        array_fault(a.kind, "kind"@)
    } else if !valid_utf8(kind) {
        Some(Fault::Malformed("frame 'kind' is not valid UTF-8"@))
    } else if kind_of_tag(decode_utf8(kind)) is None {
        Some(Fault::Malformed("unknown representation kind '"@ + decode_utf8(kind) + "'"@))
    } else if array_fault(a.channel_names, "channel_names"@) is Some {
        array_fault(a.channel_names, "channel_names"@)
    } else if !valid_utf8(names) {
        Some(Fault::Malformed("frame 'channel_names' is not valid UTF-8"@))
    } else if scalar_fault(a.dtype) is Some {
        scalar_fault(a.dtype)
    } else if scalar(a.dtype) is None {
        Some(Fault::Malformed("missing frame 'dtype' code"@))
    } else if data_fault(a, scalar(a.dtype)->0) is Some {
        data_fault(a, scalar(a.dtype)->0)
    } else if data_len(a, scalar(a.dtype)->0) != (shape[0] as usize) * (shape[1] as usize) * (
    shape[2] as usize) {
        Some(Fault::Malformed("frame 'data' length does not match its shape"@))
    } else {
        None
    }
}

fn frame_data(
    code: u8,
    data_u8: ArrayRead<u8>,
    data_u16: ArrayRead<u16>,
    data_u64: ArrayRead<u64>,
    data_f32: ArrayRead<u32>,
    Ghost(a): Ghost<FrameArrays>,
) -> (data: Result<EventFrameData, IoError>)
    requires
        a.data_u8 == data_u8,
        a.data_u16 == data_u16,
        a.data_u64 == data_u64,
        a.data_f32 == data_f32,
    ensures
        match data {
            Ok(d) => data_fault(a, code) is None && data_is(d, a, code) && d.size() == data_len(
                a,
                code,
            ),
            Err(e) => data_fault(a, code) is Some && reports(e, data_fault(a, code)->0),
        },
{
    if code == 0 {
        match required(data_u8, "data") {
            Ok(values) => Ok(EventFrameData::U8(values)),
            Err(error) => Err(error),
        }
    } else if code == 1 {
        match required(data_u16, "data") {
            Ok(values) => Ok(EventFrameData::U16(values)),
            Err(error) => Err(error),
        }
    } else if code == 2 {
        match required(data_u64, "data") {
            Ok(values) => Ok(EventFrameData::U64(values)),
            Err(error) => Err(error),
        }
    } else if code == 3 {
        match required(data_f32, "data") {
            Ok(values) => Ok(EventFrameData::F32(values)),
            Err(error) => Err(error),
        }
    } else {
        Err(
            IoError::Format(
                join2("unknown frame dtype code ", decimal_string(code as u64).as_str()),
            ),
        )
    }
}

/// Whether the product of three numbers is `n`.
fn product_is(a: usize, b: usize, c: usize, n: usize) -> (yes: bool)
    ensures
        yes == (a * b * c == n),
{
    match a.checked_mul(b) {
        Some(ab) => match ab.checked_mul(c) {
            Some(abc) => abc == n,
            None => false,
        },
        None => {
            if c == 0 {
                assert(a * b * 0 == 0) by (nonlinear_arith);
                n == 0
            } else {
                assert(a * b * c >= a * b) by (nonlinear_arith)
                    requires
                        c >= 1,
                        a >= 0,
                        b >= 0,
                ;
                false
            }
        },
    }
}

/// What reading a frame comes to.
pub open spec fn frame_outcome(a: FrameArrays, frame: Result<EventFrame, IoError>) -> bool {
    match frame {
        Ok(f) => {
            &&& frame_fault(a) is None
            &&& data_is(f.samples(), a, scalar(a.dtype)->0)
            &&& f.height() == content(a.shape)[1] as usize
            &&& f.width() == content(a.shape)[2] as usize
            &&& tag_of(f.shown()) == decode_utf8(content(a.kind))
            &&& f.names() == names_in(decode_utf8(content(a.channel_names)))
        },
        Err(e) => frame_fault(a) is Some && reports(e, frame_fault(a)->0),
    }
}

/// Builds a frame from its arrays.
pub fn build_frame(arrays: FrameArrays) -> (frame: Result<EventFrame, IoError>)
    ensures
        frame_outcome(arrays, frame),
{
    let ghost given = arrays;
    let shape = match required(arrays.shape, "shape") {
        Ok(values) => values,
        Err(error) => {
            return Err(error);
        },
    };
    if shape.len() != 3 {
        return Err(
            IoError::Format("frame 'shape' must have exactly three elements".to_owned()),
        );
    }
    let channels = shape[0] as usize;
    let height = shape[1] as usize;
    let width = shape[2] as usize;
    let kind_bytes = match required(arrays.kind, "kind") {
        Ok(values) => values,
        Err(error) => {
            return Err(error);
        },
    };
    let tag = match utf8(kind_bytes.as_slice()) {
        Some(text) => text,
        None => {
            return Err(IoError::Format("frame 'kind' is not valid UTF-8".to_owned()));
        },
    };
    proof {
        encode_utf8_decode_utf8(tag@);
    }
    let kind = match RepresentationKind::from_tag(tag) {
        Some(kind) => kind,
        None => {
            return Err(
                IoError::Format(join3("unknown representation kind '", tag, "'")),
            );
        },
    };
    assert(tag_of(kind) == tag@);
    let name_bytes = match required(arrays.channel_names, "channel_names") {
        Ok(values) => values,
        Err(error) => {
            return Err(error);
        },
    };
    let names = match utf8(name_bytes.as_slice()) {
        Some(text) => text,
        None => {
            return Err(IoError::Format("frame 'channel_names' is not valid UTF-8".to_owned()));
        },
    };
    proof {
        encode_utf8_decode_utf8(names@);
    }
    let channel_names = split_names(&chars_of(names));
    let code = match first_value(arrays.dtype) {
        Ok(Some(code)) => code,
        Ok(None) => {
            return Err(IoError::Format("missing frame 'dtype' code".to_owned()));
        },
        Err(error) => {
            return Err(error);
        },
    };
    let data = match frame_data(
        code,
        arrays.data_u8,
        arrays.data_u16,
        arrays.data_u64,
        arrays.data_f32,
        Ghost(given),
    ) {
        Ok(data) => data,
        Err(error) => {
            return Err(error);
        },
    };
    if !product_is(channels, height, width, data.len()) {
        return Err(
            IoError::Format("frame 'data' length does not match its shape".to_owned()),
        );
    }
    Ok(EventFrame::from_parts(data, width, height, kind, channel_names))
}

} // verus!
