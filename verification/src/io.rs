//! Readers and writers of event recordings.

use vstd::prelude::*;

pub mod aedat;
pub mod aedat4;
pub mod aedat_frames;
pub mod aedat_header;
pub mod aedat_laws;
pub mod aedat_records;
pub mod aedat4_build;
pub mod aedat4_header;
pub mod aedat4_info;
pub mod aedat4_laws;
pub mod aedat4_packets;
pub mod aedat4_samples;
pub mod aedat4_sink;
pub mod aedat4_streams;
pub mod aedat4_table;
pub mod bag;
pub mod bag_laws;
pub mod codec;
pub mod column_laws;
pub mod compression;
pub mod e2vid;
pub mod evt;
pub mod evt_encode;
pub mod evt_laws;
pub mod flat_builder;
pub mod flatbuffer;
pub mod h5;
pub mod h5_layout;
pub mod header_laws;
pub mod layout_laws;
pub mod lines;
pub mod npy_text;
pub mod npz;
pub mod npz_archive;
pub mod npz_writer;
pub mod prophesee;
pub mod prophesee_raw;
pub mod raw_header;
pub mod raw_laws;
pub mod raw_sink;
pub mod record_laws;
pub mod setting_laws;
pub mod text;
pub mod text_columns;
pub mod text_laws;
pub mod text_slices;
pub mod writer_laws;

verus! {

/// Why a recording could not be read or written.
#[derive(Debug)]
pub enum IoError {
    /// A read, a write or a codec failed.
    Io(String),
    /// The content does not have the layout its format prescribes.
    Format(String),
    /// The content is well formed and uses something this crate does not handle.
    Unsupported(String),
    /// A line of a text recording does not parse; lines count from one.
    Parse { line: usize, message: String },
    /// A sensor dimension is zero or unknown.
    InvalidSensorSize,
}

} // verus!
