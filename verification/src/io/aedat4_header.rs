//! The front of an AEDAT 4 recording: a version line, a length, and a header buffer.

use vstd::prelude::*;
use vstd::slice::slice_subrange;

use crate::bytes::{le32, read_u32};
use crate::chars::{chars_of, join3, signed_decimal, string_of, trim_end, trimmed_end};
use crate::io::aedat4_streams::{declared_streams, parse_streams, Stream};
use crate::io::compression::{named_by, Compression};
use crate::io::flatbuffer::{i32_of, i64_of, root_of, string_of_field, Table};
use crate::io::lines::{quoted, quoted_text, text_of, text_in};
use crate::io::IoError;

verus! {

/// Where the fields of an `IOHeader` table are listed.
pub const COMPRESSION: usize = 4;

pub const DATA_TABLE_POSITION: usize = 6;

pub const INFO_NODE: usize = 8;

/// The length of the version line.
pub const MAGIC_LEN: usize = 14;

/// The version line, `#!AER-DAT4.0` and a line end.
pub open spec fn magic() -> Seq<u8> {
    seq![
        0x23u8, 0x21, 0x41, 0x45, 0x52, 0x2D, 0x44, 0x41, 0x54, 0x34, 0x2E, 0x30, 0x0D, 0x0A,
    ]
}

/// The version line.
pub fn magic_bytes() -> (bytes: [u8; 14])
    ensures
        bytes@ == magic(),
{
    let bytes: [u8; 14] = [
        0x23u8, 0x21, 0x41, 0x45, 0x52, 0x2D, 0x44, 0x41, 0x54, 0x34, 0x2E, 0x30, 0x0D, 0x0A,
    ];
    assert(bytes@ =~= magic());
    bytes
}

/// What a recording's header says.
#[derive(Debug)]
pub struct Header {
    pub compression: Compression,
    /// Where the data table is; negative if there is none.
    pub data_table_position: i64,
    pub streams: Vec<Stream>,
    /// Where the first packet starts.
    pub body_offset: u64,
}

/// Whether the version line is there.
pub open spec fn has_magic(data: Seq<u8>) -> bool {
    data.len() >= 14 && data.take(14) == magic()
}

/// The length of the header buffer.
pub open spec fn header_len(data: Seq<u8>) -> int {
    le32(data, 14)
}

/// Whether all of the header buffer is there.
pub open spec fn has_header(data: Seq<u8>) -> bool {
    data.len() >= 18 && 18 + header_len(data) <= data.len()
}

/// The header buffer.
pub open spec fn header_buffer(data: Seq<u8>) -> Seq<u8> {
    data.subrange(18, 18 + header_len(data))
}

/// The document that lists the streams.
pub open spec fn info_text(b: Seq<u8>, root: int) -> Seq<char> {
    match string_of_field(b, root, 8) {
        Some(text) => text,
        None => Seq::empty(),
    }
}

/// What a readable header buffer says.
pub open spec fn header_says(b: Seq<u8>, root: int, body: int, h: Header) -> bool {
    &&& named_by(i32_of(b, root, 4)) == Some(h.compression)
    &&& h.data_table_position == i64_of(b, root, 6, -1)
    &&& h.streams@ == declared_streams(info_text(b, root))
    &&& h.body_offset == body
}

/// What the front of a recording says.
pub open spec fn front_says(data: Seq<u8>, h: Header) -> bool {
    &&& has_magic(data)
    &&& has_header(data)
    &&& root_of(header_buffer(data), 0) is Some
    &&& header_says(
        header_buffer(data),
        root_of(header_buffer(data), 0)->0,
        18 + header_len(data),
        h,
    )
}

/// The complaint about a version line that is not this format's.
pub open spec fn magic_message(line: Seq<u8>) -> Seq<char> {
    "not an AEDAT 4.0 file (version line is "@ + quoted_text(trim_end(text_in(line))) + ")"@
}

/// Why the front of a recording cannot be read.
pub open spec fn front_fault(data: Seq<u8>, e: IoError) -> bool {
    if data.len() < 14 {
        e matches IoError::Format(m) && m@
            == "not an AEDAT 4 file (too short for a version line)"@
    } else if !has_magic(data) {
        e matches IoError::Format(m) && m@ == magic_message(data.take(14))
    } else if !has_header(data) {
        e matches IoError::Io(m) && m@ == "failed to fill whole buffer"@
    } else {
        match root_of(header_buffer(data), 0) {
            None => e matches IoError::Format(m) && m@
                == "AEDAT4 header is not a readable FlatBuffer"@,
            Some(root) => {
                let value = i32_of(header_buffer(data), root, 4);
                named_by(value) is None && (e matches IoError::Unsupported(m) && m@
                    == "unknown AEDAT4 compression type "@ + signed_decimal(value))
            },
        }
    }
}

/// A read past the end of a recording.
pub(crate) fn short_read() -> (e: IoError)
    ensures
        e matches IoError::Io(m) && m@ == "failed to fill whole buffer"@,
{
    IoError::Io("failed to fill whole buffer".to_owned())
}

fn check_magic(data: &[u8]) -> (outcome: Result<(), IoError>)
    ensures
        match outcome {
            Ok(()) => has_magic(data@),
            Err(e) => !has_magic(data@) && front_fault(data@, e),
        },
{
    if data.len() < MAGIC_LEN {
        return Err(
            IoError::Format("not an AEDAT 4 file (too short for a version line)".to_owned()),
        );
    }
    let wanted = magic_bytes();
    let mut same: bool = true;
    for i in 0..MAGIC_LEN
        invariant
            wanted@ == magic(),
            data@.len() >= 14,
            same == (forall|j: int| 0 <= j < i ==> #[trigger] data@[j] == wanted@[j]),
    {
        if data[i] != wanted[i] {
            same = false;
        }
    }
    assert(data@.take(14).len() == magic().len());
    if same {
        assert(data@.take(14) =~= magic());
        return Ok(());
    }
    let line = slice_subrange(data, 0, MAGIC_LEN);
    assert(line@ =~= data@.take(14));
    proof {
        if data@.take(14) == magic() {
            assert forall|j: int| 0 <= j < 14 implies #[trigger] data@[j] == wanted@[j] by {
                assert(data@[j] == data@.take(14)[j]);
            }
        }
    }
    let text = text_of(line);
    let chars = chars_of(text.as_str());
    let seen = string_of(trimmed_end(&chars));
    let form = quoted(seen.as_str());
    Err(
        IoError::Format(
            join3("not an AEDAT 4.0 file (version line is ", form.as_str(), ")"),
        ),
    )
}

/// Reads a header buffer whose first packet starts at `body_offset`.
pub fn parse_header(buffer: &[u8], body_offset: u64) -> (header: Result<Header, IoError>)
    ensures
        match header {
            Ok(h) => root_of(buffer@, 0) is Some && header_says(
                buffer@,
                root_of(buffer@, 0)->0,
                body_offset as int,
                h,
            ),
            Err(IoError::Format(m)) => root_of(buffer@, 0) is None && m@
                == "AEDAT4 header is not a readable FlatBuffer"@,
            Err(IoError::Unsupported(m)) => {
                &&& root_of(buffer@, 0) is Some
                &&& named_by(i32_of(buffer@, root_of(buffer@, 0)->0, 4)) is None
                &&& m@ == "unknown AEDAT4 compression type "@ + signed_decimal(
                    i32_of(buffer@, root_of(buffer@, 0)->0, 4),
                )
            },
            Err(_) => false,
        },
{
    let table = match Table::root(buffer) {
        Some(table) => table,
        None => {
            return Err(IoError::Format("AEDAT4 header is not a readable FlatBuffer".to_owned()));
        },
    };
    let compression = match Compression::from_header(table.i32(COMPRESSION)) {
        Ok(compression) => compression,
        Err(error) => {
            return Err(error);
        },
    };
    let streams = match table.string(INFO_NODE) {
        Some(text) => parse_streams(text),
        None => {
            proof {
                reveal_strlit("");
                assert(""@ =~= Seq::<char>::empty());
            }
            parse_streams("")
        },
    };
    Ok(
        Header {
            compression,
            data_table_position: table.i64(DATA_TABLE_POSITION, -1),
            streams,
            body_offset,
        },
    )
}

/// Reads the front of a recording.
pub fn read_header(data: &[u8]) -> (header: Result<Header, IoError>)
    ensures
        match header {
            Ok(h) => front_says(data@, h),
            Err(e) => front_fault(data@, e),
        },
{
    match check_magic(data) {
        Ok(()) => {},
        Err(error) => {
            return Err(error);
        },
    }
    if data.len() < 18 {
        return Err(short_read());
    }
    let length: usize = read_u32(data, MAGIC_LEN) as usize;
    if length > data.len() - 18 {
        return Err(short_read());
    }
    let buffer = slice_subrange(data, 18, 18 + length);
    parse_header(buffer, 18 + length as u64)
}

} // verus!
