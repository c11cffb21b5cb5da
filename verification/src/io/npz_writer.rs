//! Writing streams and frames to NumPy archives.
//!
//! The npyz crate writes the arrays of integers, and the zip crate below it the archive. Arrays of
//! numbers with a fraction are handed to it as the bytes of their members.

use npyz::npz::NpzWriter;
use npyz::WriterBuilder;
use std::io::{Cursor, Write};
use vstd::prelude::*;
use vstd::string::*;
use vstd::utf8::{encode_utf8, encode_utf8_decode_utf8, encode_utf8_valid_utf8};
use zip::write::FileOptions;
use zip::CompressionMethod;

use crate::bytes::{le32_bytes, le64_bytes, push_u32, push_u64};
use crate::io::aedat4_build::encoded_len;
use crate::io::npz::{
    code_of, content, frame_outcome, frame_record, holds_stream, joined, names_round_trip,
    native_outcome, native_round_trip, npy_header, npy_header_of, npy_header_short, polarity_bytes,
    scalar, ArrayRead, FrameArrays, NativeArrays, NpyType,
};
use crate::io::npz_archive::{
    archive_fault, archive_refusal, are_columns, are_parts, entry_found, entry_i64, entry_u16,
    entry_u64, entry_u8, holds_array, refusal,
};
use crate::io::IoError;
use crate::representation::{tag_len, tag_of, tags_differ, EventFrame, EventFrameData};
use crate::stream::EventStream;

verus! {

/// An archive that is being written: `npyz::npz::NpzWriter` over bytes in memory.
#[verifier::external_body]
pub struct Archive {
    writer: NpzWriter<Cursor<Vec<u8>>>,
}

/// The content of a member of an archive.
pub ghost enum Member {
    Bytes(Seq<u8>),
    Words(Seq<u16>),
    Counts(Seq<u64>),
    Times(Seq<i64>),
    /// The bytes of the member itself.
    Raw(Seq<u8>),
}

/// What has been written to an archive, by the names of its arrays.
pub uninterp spec fn members(archive: Archive) -> Map<Seq<char>, Member>;

/// Whether an array may have a name: small letters and underscores. The reader of an archive looks
/// for a mark at a fixed place before its end; for a last name of twelve letters that place holds a
/// count of bytes, which can look like the mark.
pub open spec fn plain_name(name: Seq<char>) -> bool {
    &&& 0 < name.len() <= 64
    &&& name.len() != 12
    &&& forall|i: int| 0 <= i < name.len() ==> 'a' <= #[trigger] name[i] <= 'z' || name[i] == '_'
}

/// The most values of an array that is sure to be written. An archive cannot hold a member of more
/// than four gibibytes.
pub const SURE_LEN: usize = 0x1000_0000;

/// Whether an archive holds an array with the content of a member, and lets it be looked at: it is
/// not encrypted, and its header is a dictionary with one size. Nothing is said of a member that
/// was given by its bytes.
pub open spec fn holds_member(data: Seq<u8>, name: Seq<char>, member: Member) -> bool {
    match member {
        Member::Bytes(s) => {
            &&& refusal(data, name) is None
            &&& entry_found(data, name) == Ok::<bool, Seq<char>>(true)
            &&& entry_u8(data, name) == Ok::<Option<Seq<u8>>, Seq<char>>(Some(s))
        },
        Member::Words(s) => {
            &&& refusal(data, name) is None
            &&& entry_found(data, name) == Ok::<bool, Seq<char>>(true)
            &&& entry_u16(data, name) == Ok::<Option<Seq<u16>>, Seq<char>>(Some(s))
        },
        Member::Counts(s) => {
            &&& refusal(data, name) is None
            &&& entry_found(data, name) == Ok::<bool, Seq<char>>(true)
            &&& entry_u64(data, name) == Ok::<Option<Seq<u64>>, Seq<char>>(Some(s))
        },
        Member::Times(s) => {
            &&& refusal(data, name) is None
            &&& entry_found(data, name) == Ok::<bool, Seq<char>>(true)
            &&& entry_i64(data, name) == Ok::<Option<Seq<i64>>, Seq<char>>(Some(s))
        },
        Member::Raw(_) => true,
    }
}

/// Whether some bytes are an archive with these members and no others.
pub open spec fn holds(data: Seq<u8>, m: Map<Seq<char>, Member>) -> bool {
    &&& archive_refusal(data) is None
    &&& forall|name: Seq<char>| #[trigger]
        m.contains_key(name) ==> holds_member(data, name, m[name])
    &&& forall|name: Seq<char>|
        !m.contains_key(name) ==> refusal(data, name) is None && #[trigger] entry_found(data, name)
            == Ok::<bool, Seq<char>>(false)
}

/// Whether some bytes are what an archive is closed to. It is known of fewer than four gibibytes.
pub open spec fn closes_to(archive: Archive, data: Seq<u8>) -> bool {
    data.len() <= u32::MAX ==> holds(data, members(archive))
}

/// Whether some bytes are what an archive with these members is closed to.
pub open spec fn is_written(data: Seq<u8>, m: Map<Seq<char>, Member>) -> bool {
    exists|archive: Archive| #[trigger] closes_to(archive, data) && members(archive) == m
}

/// Begins an archive: `npyz::npz::NpzWriter::new`. Nothing has been written to it.
#[verifier::external_body]
fn begin_archive() -> (archive: Archive)
    ensures
        members(archive) == (Map::<Seq<char>, Member>::empty()),
{
    Archive { writer: NpzWriter::new(Cursor::new(Vec::new())) }
}

/// Writes an array of bytes: `npyz::npz::NpzWriter::array` and `npyz::NpyWriter::extend`, and
/// `finish`. The archive has one more member; an array that is not too long is written.
#[verifier::external_body]
fn put_bytes(archive: Archive, name: &str, values: &[u8]) -> (more: Result<Archive, String>)
    requires
        plain_name(name@),
        !members(archive).contains_key(name@),
    ensures
        values@.len() <= SURE_LEN ==> more is Ok,
        more matches Ok(a) ==> members(a) == members(archive).insert(
            name@,
            Member::Bytes(values@),
        ),
{
    let mut archive = archive;
    let options = FileOptions::default().compression_method(CompressionMethod::Stored);
    let begun = archive.writer.array::<u8>(name, options).map_err(|error| error.to_string())?;
    let sized = begun.default_dtype().shape(&[values.len() as u64]);
    let mut array = sized.begin_nd().map_err(|error| error.to_string())?;
    array.extend(values.iter().copied()).map_err(|error| error.to_string())?;
    array.finish().map_err(|error| error.to_string())?;
    Ok(archive)
}

/// Writes an array of 16-bit integers: `npyz::npz::NpzWriter::array` and `npyz::NpyWriter::extend`,
/// and `finish`. The archive has one more member; an array that is not too long is written.
#[verifier::external_body]
fn put_words(archive: Archive, name: &str, values: &[u16]) -> (more: Result<Archive, String>)
    requires
        plain_name(name@),
        !members(archive).contains_key(name@),
    ensures
        values@.len() <= SURE_LEN ==> more is Ok,
        more matches Ok(a) ==> members(a) == members(archive).insert(
            name@,
            Member::Words(values@),
        ),
{
    let mut archive = archive;
    let options = FileOptions::default().compression_method(CompressionMethod::Stored);
    let begun = archive.writer.array::<u16>(name, options).map_err(|error| error.to_string())?;
    let sized = begun.default_dtype().shape(&[values.len() as u64]);
    let mut array = sized.begin_nd().map_err(|error| error.to_string())?;
    array.extend(values.iter().copied()).map_err(|error| error.to_string())?;
    array.finish().map_err(|error| error.to_string())?;
    Ok(archive)
}

/// Writes an array of 64-bit integers: `npyz::npz::NpzWriter::array` and `npyz::NpyWriter::extend`,
/// and `finish`. The archive has one more member; an array that is not too long is written.
#[verifier::external_body]
fn put_counts(archive: Archive, name: &str, values: &[u64]) -> (more: Result<Archive, String>)
    requires
        plain_name(name@),
        !members(archive).contains_key(name@),
    ensures
        values@.len() <= SURE_LEN ==> more is Ok,
        more matches Ok(a) ==> members(a) == members(archive).insert(
            name@,
            Member::Counts(values@),
        ),
{
    let mut archive = archive;
    let options = FileOptions::default().compression_method(CompressionMethod::Stored);
    let begun = archive.writer.array::<u64>(name, options).map_err(|error| error.to_string())?;
    let sized = begun.default_dtype().shape(&[values.len() as u64]);
    let mut array = sized.begin_nd().map_err(|error| error.to_string())?;
    array.extend(values.iter().copied()).map_err(|error| error.to_string())?;
    array.finish().map_err(|error| error.to_string())?;
    Ok(archive)
}

/// Writes an array of signed 64-bit integers: `npyz::npz::NpzWriter::array` and
/// `npyz::NpyWriter::extend`, and `finish`. The archive has one more member; an array that is not
/// too long is written.
#[verifier::external_body]
fn put_times(archive: Archive, name: &str, values: &[i64]) -> (more: Result<Archive, String>)
    requires
        plain_name(name@),
        !members(archive).contains_key(name@),
    ensures
        values@.len() <= SURE_LEN ==> more is Ok,
        more matches Ok(a) ==> members(a) == members(archive).insert(
            name@,
            Member::Times(values@),
        ),
{
    let mut archive = archive;
    let options = FileOptions::default().compression_method(CompressionMethod::Stored);
    let begun = archive.writer.array::<i64>(name, options).map_err(|error| error.to_string())?;
    let sized = begun.default_dtype().shape(&[values.len() as u64]);
    let mut array = sized.begin_nd().map_err(|error| error.to_string())?;
    array.extend(values.iter().copied()).map_err(|error| error.to_string())?;
    array.finish().map_err(|error| error.to_string())?;
    Ok(archive)
}

/// Writes a member byte by byte: `zip::ZipWriter::start_file` and `write_all` on the archive of
/// `npyz::npz::NpzWriter::zip_writer`. The archive has one more member; one that is not too long is
/// written.
#[verifier::external_body]
fn put_raw(archive: Archive, name: &str, bytes: &[u8]) -> (more: Result<Archive, String>)
    requires
        plain_name(name@),
        !members(archive).contains_key(name@),
    ensures
        bytes@.len() <= 8 * SURE_LEN ==> more is Ok,
        more matches Ok(a) ==> members(a) == members(archive).insert(name@, Member::Raw(bytes@)),
{
    let mut archive = archive;
    let options = FileOptions::default().compression_method(CompressionMethod::Stored);
    let zip = archive.writer.zip_writer();
    zip.start_file(format!("{name}.npy"), options).map_err(|error| error.to_string())?;
    zip.write_all(bytes).map_err(|error| error.to_string())?;
    Ok(archive)
}

/// Closes an archive: `zip::ZipWriter::finish` on the archive of
/// `npyz::npz::NpzWriter::zip_writer`. It is done in memory, and cannot fail. Reading the bytes
/// finds each array as it was written, and no others. No entry has an extra field, so none is said
/// to be encrypted; the header of an array is `{'descr': '<u2', 'fortran_order': False, 'shape':
/// (3, ), }` with its own type and length.
#[verifier::external_body]
fn close_archive(archive: Archive) -> (closed: Result<Vec<u8>, String>)
    ensures
        closed is Ok,
        closed matches Ok(data) ==> closes_to(archive, data@),
{
    let mut archive = archive;
    let closed = archive.writer.zip_writer().finish().map_err(|error| error.to_string())?;
    Ok(closed.into_inner())
}

/// What is written of a stream: an array for each column, and one for each value that describes it.
pub open spec fn stream_members(stream: EventStream) -> Map<Seq<char>, Member> {
    let events = stream.events();
    map![
        "t"@ => Member::Times(Seq::new(events.len(), |i: int| events[i].t)),
        "x"@ => Member::Words(Seq::new(events.len(), |i: int| events[i].x)),
        "y"@ => Member::Words(Seq::new(events.len(), |i: int| events[i].y)),
        "p"@ => Member::Bytes(
            Seq::new(
                events.len(),
                |i: int|
                    if events[i].p {
                        1u8
                    } else {
                        0u8
                    },
            ),
        ),
        "width"@ => Member::Counts(seq![stream.width() as u64]),
        "height"@ => Member::Counts(seq![stream.height() as u64]),
        "timestamp_scale_ms"@ => Member::Raw(
            npy_header_of(NpyType::Double, 1) + le64_bytes(stream.scale() as int),
        ),
    ]
}

proof fn stream_names()
    ensures
        plain_name("t"@),
        plain_name("x"@),
        plain_name("y"@),
        plain_name("p"@),
        plain_name("width"@),
        plain_name("height"@),
        plain_name("timestamp_scale_ms"@),
        "t"@[0] == 't',
        "x"@[0] == 'x',
        "y"@[0] == 'y',
        "p"@[0] == 'p',
        "t"@.len() == 1,
        "x"@.len() == 1,
        "y"@.len() == 1,
        "p"@.len() == 1,
        "width"@.len() == 5,
        "height"@.len() == 6,
        "timestamp_scale_ms"@.len() == 18,
        "event_data"@.len() == 10,
{
    reveal_strlit("t");
    reveal_strlit("x");
    reveal_strlit("y");
    reveal_strlit("p");
    reveal_strlit("width");
    reveal_strlit("height");
    reveal_strlit("timestamp_scale_ms");
    reveal_strlit("event_data");
}

/// Writes a stream to an archive.
pub fn write_npz_stream(stream: &EventStream) -> (data: Result<Vec<u8>, IoError>)
    requires
        stream.wf(),
    ensures
        stream.events().len() <= SURE_LEN ==> data is Ok,
        match data {
            Ok(d) => is_written(d@, stream_members(*stream)),
            Err(e) => e is Io,
        },
{
    let (width, height) = stream.sensor_size();
    let widths: [u64; 1] = [width as u64];
    let heights: [u64; 1] = [height as u64];
    let polarities = polarity_bytes(stream);
    let mut scale = npy_header(NpyType::Double, 1);
    push_u64(&mut scale, stream.timestamp_scale_bits());
    let archive = begin_archive();
    proof {
        stream_names();
        npy_header_short(NpyType::Double, 1);
        stream.size_fits();
    }
    let ghost events = stream.events();
    let (ts, xs, ys) = (stream.ts(), stream.xs(), stream.ys());
    assert(ts@ =~= Seq::new(events.len(), |i: int| events[i].t));
    assert(xs@ =~= Seq::new(events.len(), |i: int| events[i].x));
    assert(ys@ =~= Seq::new(events.len(), |i: int| events[i].y));
    assert(widths@ =~= seq![width as u64]);
    assert(heights@ =~= seq![height as u64]);
    let archive = match put_times(archive, "t", ts) {
        Ok(more) => more,
        Err(text) => {
            return Err(IoError::Io(text));
        },
    };
    let archive = match put_words(archive, "x", xs) {
        Ok(more) => more,
        Err(text) => {
            return Err(IoError::Io(text));
        },
    };
    let archive = match put_words(archive, "y", ys) {
        Ok(more) => more,
        Err(text) => {
            return Err(IoError::Io(text));
        },
    };
    let archive = match put_bytes(archive, "p", polarities.as_slice()) {
        Ok(more) => more,
        Err(text) => {
            return Err(IoError::Io(text));
        },
    };
    let archive = match put_counts(archive, "width", &widths) {
        Ok(more) => more,
        Err(text) => {
            return Err(IoError::Io(text));
        },
    };
    let archive = match put_counts(archive, "height", &heights) {
        Ok(more) => more,
        Err(text) => {
            return Err(IoError::Io(text));
        },
    };
    let archive = match put_raw(archive, "timestamp_scale_ms", scale.as_slice()) {
        Ok(more) => more,
        Err(text) => {
            return Err(IoError::Io(text));
        },
    };
    let ghost whole = archive;
    assert(members(whole) =~= stream_members(*stream));
    match close_archive(archive) {
        Ok(data) => {
            assert(closes_to(whole, data@));
            Ok(data)
        },
        Err(text) => Err(IoError::Io(text)),
    }
}

/// A stream that is written to an archive of fewer than four gibibytes and read again is the same
/// stream. The scale of its clock is read elsewhere.
pub proof fn stream_reads_back(
    stream: EventStream,
    data: Seq<u8>,
    scale: ArrayRead<u64>,
    a: NativeArrays,
    back: Result<EventStream, IoError>,
)
    requires
        stream.wf(),
        stream.in_bounds(),
        is_written(data, stream_members(stream)),
        data.len() <= u32::MAX,
        scale matches Ok(Some(values)) && values@ == seq![stream.scale()],
        are_columns(a, data, scale),
        native_outcome(a, None, back),
    ensures
        archive_fault(data) is None,
        holds_array(data, "event_data"@) == Ok::<bool, Seq<char>>(false),
        back matches Ok(s) && s.events() == stream.events() && s.width() == stream.width()
            && s.height() == stream.height() && s.scale() == stream.scale(),
{
    stream_names();
    stream.size_fits();
    let m = stream_members(stream);
    assert(holds(data, m));
    assert(m.contains_key("t"@) && m.contains_key("x"@) && m.contains_key("y"@));
    assert(m.contains_key("p"@) && m.contains_key("width"@) && m.contains_key("height"@));
    assert(!m.contains_key("event_data"@));
    assert(holds_stream(a, stream));
    native_round_trip(a, stream);
}

/// The member with the samples of a frame.
pub open spec fn samples_member(data: EventFrameData) -> Member {
    match data {
        EventFrameData::U8(v) => Member::Bytes(v@),
        EventFrameData::U16(v) => Member::Words(v@),
        EventFrameData::U64(v) => Member::Counts(v@),
        EventFrameData::F32(v) => Member::Raw(
            npy_header_of(NpyType::Single, v@.len()) + single_bytes(v@),
        ),
    }
}

/// The bytes of single precision numbers, given by their bit patterns.
pub open spec fn single_bytes(values: Seq<u32>) -> Seq<u8>
    decreases values.len(),
{
    if values.len() == 0 {
        Seq::empty()
    } else {
        single_bytes(values.drop_last()) + le32_bytes(values.last() as int)
    }
}

/// What is written of a frame: its samples, and an array for each value that describes it.
pub open spec fn frame_members(frame: EventFrame) -> Map<Seq<char>, Member> {
    map![
        "shape"@ => Member::Counts(
            seq![frame.names().len() as u64, frame.height() as u64, frame.width() as u64],
        ),
        "kind"@ => Member::Bytes(encode_utf8(tag_of(frame.shown()))),
        "channel_names"@ => Member::Bytes(encode_utf8(joined(frame.names()))),
        "data"@ => samples_member(frame.samples()),
        "dtype"@ => Member::Bytes(seq![code_of(frame.samples())]),
    ]
}

proof fn frame_names()
    ensures
        plain_name("shape"@),
        plain_name("kind"@),
        plain_name("channel_names"@),
        plain_name("data"@),
        plain_name("dtype"@),
        "shape"@.len() == 5,
        "kind"@.len() == 4,
        "channel_names"@.len() == 13,
        "data"@.len() == 4,
        "dtype"@.len() == 5,
        "shape"@[0] == 's',
        "dtype"@[0] == 'd',
        "kind"@[0] == 'k',
        "data"@[0] == 'd',
{
    reveal_strlit("shape");
    reveal_strlit("kind");
    reveal_strlit("channel_names");
    reveal_strlit("data");
    reveal_strlit("dtype");
}

fn put_singles(archive: Archive, values: &[u32]) -> (more: Result<Archive, String>)
    requires
        !members(archive).contains_key("data"@),
    ensures
        values@.len() <= SURE_LEN ==> more is Ok,
        more matches Ok(a) ==> members(a) == members(archive).insert(
            "data"@,
            Member::Raw(npy_header_of(NpyType::Single, values@.len()) + single_bytes(values@)),
        ),
{
    proof {
        frame_names();
        npy_header_short(NpyType::Single, values.len());
    }
    let mut bytes = npy_header(NpyType::Single, values.len());
    let ghost header = bytes@;
    assert(header + single_bytes(values@.take(0)) =~= header);
    for i in 0..values.len()
        invariant
            bytes@ == header + single_bytes(values@.take(i as int)),
            single_bytes(values@.take(i as int)).len() == 4 * i,
    {
        push_u32(&mut bytes, values[i]);
        assert(values@.take(i + 1).drop_last() =~= values@.take(i as int));
        assert(bytes@ =~= header + single_bytes(values@.take(i + 1)));
    }
    assert(values@.take(values@.len() as int) =~= values@);
    put_raw(archive, "data", bytes.as_slice())
}

/// Whether a frame is sure to be written.
pub open spec fn frame_is_small(frame: EventFrame) -> bool {
    &&& frame.samples().size() <= SURE_LEN
    &&& encode_utf8(joined(frame.names())).len() <= SURE_LEN
}

/// Writes a frame to an archive.
pub fn write_npz_frame(frame: &EventFrame) -> (data: Result<Vec<u8>, IoError>)
    ensures
        frame_is_small(*frame) ==> data is Ok,
        match data {
            Ok(d) => is_written(d@, frame_members(*frame)),
            Err(e) => e is Io,
        },
{
    let record = frame_record(frame);
    let code: [u8; 1] = [record.code];
    assert(code@ =~= seq![code_of(frame.samples())]);
    proof {
        frame_names();
        tag_len(frame.shown());
        encoded_len(tag_of(frame.shown()));
    }
    let archive = begin_archive();
    let archive = match put_counts(archive, "shape", &record.shape) {
        Ok(more) => more,
        Err(text) => {
            return Err(IoError::Io(text));
        },
    };
    let archive = match put_bytes(archive, "kind", record.kind.as_str().as_bytes()) {
        Ok(more) => more,
        Err(text) => {
            return Err(IoError::Io(text));
        },
    };
    let names = record.channel_names.as_str().as_bytes();
    let archive = match put_bytes(archive, "channel_names", names) {
        Ok(more) => more,
        Err(text) => {
            return Err(IoError::Io(text));
        },
    };
    let with_samples = match frame.data() {
        EventFrameData::U8(values) => put_bytes(archive, "data", values.as_slice()),
        EventFrameData::U16(values) => put_words(archive, "data", values.as_slice()),
        EventFrameData::U64(values) => put_counts(archive, "data", values.as_slice()),
        EventFrameData::F32(values) => put_singles(archive, values.as_slice()),
    };
    let archive = match with_samples {
        Ok(more) => more,
        Err(text) => {
            return Err(IoError::Io(text));
        },
    };
    let archive = match put_bytes(archive, "dtype", &code) {
        Ok(more) => more,
        Err(text) => {
            return Err(IoError::Io(text));
        },
    };
    let ghost whole = archive;
    assert(members(whole) =~= frame_members(*frame));
    match close_archive(archive) {
        Ok(data) => {
            assert(closes_to(whole, data@));
            Ok(data)
        },
        Err(text) => Err(IoError::Io(text)),
    }
}

/// Whether samples are of the same type and equal.
pub open spec fn samples_agree(a: EventFrameData, b: EventFrameData) -> bool {
    match (a, b) {
        (EventFrameData::U8(v), EventFrameData::U8(w)) => v@ == w@,
        (EventFrameData::U16(v), EventFrameData::U16(w)) => v@ == w@,
        (EventFrameData::U64(v), EventFrameData::U64(w)) => v@ == w@,
        (EventFrameData::F32(v), EventFrameData::F32(w)) => v@ == w@,
        _ => false,
    }
}

/// A frame that is written to an archive of fewer than four gibibytes and read again is the same
/// frame, if no name of a channel holds a line feed and there is not one empty name alone. Samples
/// with a fraction are read elsewhere.
pub proof fn frame_reads_back(
    frame: EventFrame,
    data: Seq<u8>,
    data_f32: ArrayRead<u32>,
    a: FrameArrays,
    back: Result<EventFrame, IoError>,
)
    requires
        frame.wf(),
        forall|i: int, j: int|
            0 <= i < frame.names().len() && 0 <= j < frame.names()[i].len()
                ==> #[trigger] frame.names()[i][j] != '\n',
        !(frame.names().len() == 1 && frame.names()[0].len() == 0),
        is_written(data, frame_members(frame)),
        data.len() <= u32::MAX,
        frame.samples() matches EventFrameData::F32(v) ==> (data_f32 matches Ok(Some(w)) && w@
            == v@),
        are_parts(a, data, data_f32),
        frame_outcome(a, back),
    ensures
        archive_fault(data) is None,
        back matches Ok(f) && samples_agree(f.samples(), frame.samples()) && f.width()
            == frame.width() && f.height() == frame.height() && f.shown() == frame.shown()
            && f.names() == frame.names(),
{
    frame_names();
    frame.size_fits();
    let m = frame_members(frame);
    let tag = tag_of(frame.shown());
    let text = joined(frame.names());
    assert(holds(data, m));
    assert(m.contains_key("shape"@) && m.contains_key("kind"@));
    assert(m.contains_key("channel_names"@) && m.contains_key("data"@));
    assert(m.contains_key("dtype"@));
    encode_utf8_valid_utf8(tag);
    encode_utf8_valid_utf8(text);
    encode_utf8_decode_utf8(tag);
    encode_utf8_decode_utf8(text);
    names_round_trip(frame.names());
    assert(scalar(a.dtype) == Some(code_of(frame.samples())));
    let (c, h, w) = (frame.names().len() as int, frame.height(), frame.width());
    assert(c * h * w == c * (w * h)) by (nonlinear_arith);
    assert(content(a.shape) =~= seq![c as u64, h as u64, w as u64]);
    match back {
        Ok(f) => {
            tags_differ(f.shown(), frame.shown());
        },
        Err(_) => {},
    }
}

} // verus!
