//! The compression of AEDAT 4 packet bodies.

use std::io::{Read, Write};

use vstd::prelude::*;

use crate::chars::{join2, signed_decimal, signed_decimal_string};
use crate::io::IoError;

verus! {

/// What an LZ4 frame decompresses to, if it does.
pub uninterp spec fn lz4_content(frame: Seq<u8>) -> Option<Seq<u8>>;

/// What a zstd frame decompresses to, if it does.
pub uninterp spec fn zstd_content(frame: Seq<u8>) -> Option<Seq<u8>>;

/// Decompresses an LZ4 frame: `lz4::Decoder`, read to its end. Whether it does, and what comes out,
/// follows from the bytes; the name stands for both. Memory is taken to suffice.
#[verifier::external_body]
fn lz4_decode(frame: &[u8]) -> (content: Result<Vec<u8>, String>)
    ensures
        match content {
            Ok(c) => lz4_content(frame@) == Some(c@),
            Err(_) => lz4_content(frame@) is None,
        },
{
    let mut decoder = match lz4::Decoder::new(frame) {
        Ok(decoder) => decoder,
        Err(error) => return Err(error.to_string()),
    };
    let mut content = Vec::new();
    match decoder.read_to_end(&mut content) {
        Ok(_) => Ok(content),
        Err(error) => Err(error.to_string()),
    }
}

/// Compresses into an LZ4 frame with the default settings: `lz4::EncoderBuilder`, into a growing
/// vector, which takes every write. The frame starts with a header, so it is not empty, and it
/// decompresses to what went in. A block of 64 KiB that does not shrink is stored as it is, with 8
/// bytes around it; the header and the end of a frame take no more than 27 bytes. So the frame is far
/// shorter than twice what went in and 64 bytes. Which frame of the possible ones it is, is left
/// unsaid: that is the codec's own business. Memory is taken to suffice.
#[verifier::external_body]
fn lz4_encode(content: &[u8]) -> (frame: Result<Vec<u8>, String>)
    ensures
        match frame {
            Ok(f) => {
                &&& lz4_content(f@) == Some(content@)
                &&& 0 < f@.len() <= 2 * content@.len() + 64
            },
            Err(_) => false,
        },
{
    let mut encoder = match lz4::EncoderBuilder::new().build(Vec::new()) {
        Ok(encoder) => encoder,
        Err(error) => return Err(error.to_string()),
    };
    if let Err(error) = encoder.write_all(content) {
        return Err(error.to_string());
    }
    match encoder.finish() {
        (frame, Ok(())) => Ok(frame),
        (_, Err(error)) => Err(error.to_string()),
    }
}

/// Decompresses zstd frames: `zstd::stream::decode_all`. Whether it does, and what comes out, follows
/// from the bytes; the name stands for both. Memory is taken to suffice.
#[verifier::external_body]
fn zstd_decode(frame: &[u8]) -> (content: Result<Vec<u8>, String>)
    ensures
        match content {
            Ok(c) => zstd_content(frame@) == Some(c@),
            Err(_) => zstd_content(frame@) is None,
        },
{
    match zstd::stream::decode_all(frame) {
        Ok(content) => Ok(content),
        Err(error) => Err(error.to_string()),
    }
}

/// Compresses into a zstd frame at a given level: `zstd::stream::encode_all`, into a growing vector,
/// which takes every write; a level out of bounds is moved to the nearest. The frame starts with a
/// header, so it is not empty, and it decompresses to what went in, whatever the level. A block that
/// does not shrink is stored as it is, with 3 bytes before it; a block that is not the last has
/// hundreds of bytes at least, and the header of a frame takes no more than 18. So the frame is far
/// shorter than twice what went in and 64 bytes. Which frame of the possible ones it is, is left
/// unsaid: that is the codec's own business. Memory is taken to suffice.
#[verifier::external_body]
fn zstd_encode(content: &[u8], level: i32) -> (frame: Result<Vec<u8>, String>)
    ensures
        match frame {
            Ok(f) => {
                &&& zstd_content(f@) == Some(content@)
                &&& 0 < f@.len() <= 2 * content@.len() + 64
            },
            Err(_) => false,
        },
{
    match zstd::stream::encode_all(content, level) {
        Ok(frame) => Ok(frame),
        Err(error) => Err(error.to_string()),
    }
}

/// How each packet body is compressed.
#[derive(Clone, Copy, Debug, PartialEq, Eq, Structural)]
pub enum Compression {
    Uncompressed,
    Lz4,
    Zstd,
}

impl Default for Compression {
    /// What DV itself writes.
    fn default() -> (c: Self)
        ensures
            c == Compression::Lz4,
    {
        Compression::Lz4
    }
}

/// What a compressed body holds.
pub open spec fn content_of(c: Compression, body: Seq<u8>) -> Option<Seq<u8>> {
    match c {
        Compression::Uncompressed => Some(body),
        Compression::Lz4 => lz4_content(body),
        Compression::Zstd => zstd_content(body),
    }
}

/// The header value naming a scheme.
pub open spec fn header_value(c: Compression) -> i32 {
    match c {
        Compression::Uncompressed => 0,
        Compression::Lz4 => 1,
        Compression::Zstd => 3,
    }
}

/// The scheme a header value names.
pub open spec fn named_by(value: int) -> Option<Compression> {
    if value == 0 {
        Some(Compression::Uncompressed)
    } else if value == 1 || value == 2 {
        Some(Compression::Lz4)
    } else if value == 3 || value == 4 {
        Some(Compression::Zstd)
    } else {
        None
    }
}

/// A scheme is named by the value written for it.
pub proof fn header_value_names(c: Compression)
    ensures
        named_by(header_value(c) as int) == Some(c),
{
}

/// The error for a body that a codec refuses; the codec's own reason ends its text.
pub open spec fn corrupt(c: Compression, e: IoError) -> bool {
    e matches IoError::Format(m) && match c {
        Compression::Uncompressed => false,
        Compression::Lz4 => "AEDAT4 LZ4 packet is corrupt: "@.is_prefix_of(m@),
        Compression::Zstd => "AEDAT4 zstd packet is corrupt: "@.is_prefix_of(m@),
    }
}

impl Compression {
    /// The header value naming this scheme.
    pub fn to_header(self) -> (value: i32)
        ensures
            value == header_value(self),
    {
        match self {
            Compression::Uncompressed => 0,
            Compression::Lz4 => 1,
            Compression::Zstd => 3,
        }
    }

    /// The scheme a header value names.
    pub fn from_header(value: i32) -> (c: Result<Self, IoError>)
        ensures
            match c {
                Ok(c) => named_by(value as int) == Some(c),
                Err(IoError::Unsupported(m)) => named_by(value as int) is None && m@
                    == "unknown AEDAT4 compression type "@ + signed_decimal(value as int),
                Err(_) => false,
            },
    {
        if value == 0 {
            Ok(Compression::Uncompressed)
        } else if value == 1 || value == 2 {
            Ok(Compression::Lz4)
        } else if value == 3 || value == 4 {
            Ok(Compression::Zstd)
        } else {
            let number = signed_decimal_string(value as i64);
            Err(IoError::Unsupported(join2("unknown AEDAT4 compression type ", number.as_str())))
        }
    }

    /// Compresses one packet body. What comes out holds the body and is not much longer; without
    /// compression it is the body itself.
    pub fn encode(self, body: &[u8]) -> (out: Result<Vec<u8>, IoError>)
        ensures
            out matches Ok(o) && content_of(self, o@) == Some(body@) && (body@.len() > 0
                ==> o@.len() > 0) && o@.len() <= 2 * body@.len() + 64,
    {
        let coded = match self {
            Compression::Uncompressed => Ok(vstd::slice::slice_to_vec(body)),
            Compression::Lz4 => lz4_encode(body),
            Compression::Zstd => zstd_encode(body, 3),
        };
        match coded {
            Ok(out) => Ok(out),
            Err(message) => Err(IoError::Io(message)),
        }
    }

    /// Decompresses one packet body; an error says that the codec refuses it. Without compression
    /// it is the body itself.
    pub fn decode(self, body: &[u8]) -> (out: Result<Vec<u8>, IoError>)
        ensures
            match out {
                Ok(o) => content_of(self, body@) == Some(o@),
                Err(e) => content_of(self, body@) is None && corrupt(self, e),
            },
    {
        match self {
            Compression::Uncompressed => Ok(vstd::slice::slice_to_vec(body)),
            Compression::Lz4 => match lz4_decode(body) {
                Ok(out) => Ok(out),
                Err(message) => Err(
                    IoError::Format(join2("AEDAT4 LZ4 packet is corrupt: ", message.as_str())),
                ),
            },
            Compression::Zstd => match zstd_decode(body) {
                Ok(out) => Ok(out),
                Err(message) => Err(
                    IoError::Format(join2("AEDAT4 zstd packet is corrupt: ", message.as_str())),
                ),
            },
        }
    }
}

} // verus!
