use std::io::{Cursor, Write};

use eventcv_core::io::npy_text::is_tame;
use eventcv_core::io::npz::{
    build_frame, frame_record, infer_size, npy_header, polarity_bytes, read_n_imagenet,
    read_native_stream, FrameArrays, NImageNetEvent, NativeArrays, NpyType, NpzEventSink,
};
use eventcv_core::io::npz_archive::{read_npz, read_npz_frame, EventData};
use eventcv_core::io::npz_writer::{write_npz_frame, write_npz_stream};
use eventcv_core::io::IoError;
use eventcv_core::representation::{EventFrame, EventFrameData, RepresentationKind};
use eventcv_core::{EventStream, EventStreamBuilder};

fn sample_stream() -> EventStream {
    let mut builder = EventStreamBuilder::new(20, 15, 0.5f64.to_bits()); // not microseconds
    for &(x, y, t, p) in &[
        (0u16, 0u16, 10i64, true),
        (19, 14, 2_000, false),
        (5, 7, 3_000, true),
    ] {
        builder.push(x, y, t, p);
    }
    builder.build()
}

/// The arrays of an archive of a stream.
fn arrays_of(stream: &EventStream) -> NativeArrays {
    let (width, height) = stream.sensor_size();
    NativeArrays {
        x: Ok(Some(stream.xs().to_vec())),
        y: Ok(Some(stream.ys().to_vec())),
        t: Ok(Some(stream.ts().to_vec())),
        p: Ok(Some(polarity_bytes(stream))),
        timestamp_scale_ms: Ok(Some(vec![stream.timestamp_scale_bits()])),
        width: Ok(Some(vec![width as u64])),
        height: Ok(Some(vec![height as u64])),
    }
}

fn assert_streams_eq(a: &EventStream, b: &EventStream) {
    assert_eq!(a.xs(), b.xs());
    assert_eq!(a.ys(), b.ys());
    assert_eq!(a.ts(), b.ts());
    assert_eq!(a.ps(), b.ps());
    assert_eq!(a.sensor_size(), b.sensor_size());
    assert_eq!(a.timestamp_scale_bits(), b.timestamp_scale_bits());
}

/// An archive of files.
fn archive_of(files: &[(&str, Vec<u8>)]) -> Vec<u8> {
    let mut zip = zip::ZipWriter::new(Cursor::new(Vec::new()));
    for (name, bytes) in files {
        let options = zip::write::FileOptions::default()
            .compression_method(zip::CompressionMethod::Stored);
        zip.start_file(format!("{name}.npy"), options).unwrap();
        zip.write_all(bytes).unwrap();
    }
    zip.finish().unwrap().into_inner()
}

/// The archive of a stream, written a window at a time.
fn write_windows(stream: &EventStream) -> Vec<u8> {
    let mut sink = NpzEventSink::create();
    let columns = sink.append(stream);
    let closing = sink.finish();
    let (width, height) = stream.sensor_size();
    let scale = f64::from_bits(stream.timestamp_scale_bits());
    let scalar = |kind, bytes: [u8; 8]| [npy_header(kind, 1), bytes.to_vec()].concat();
    archive_of(&[
        ("t", [closing.t, columns.t].concat()),
        ("x", [closing.x, columns.x].concat()),
        ("y", [closing.y, columns.y].concat()),
        ("p", [closing.p, columns.p].concat()),
        ("width", scalar(NpyType::U64, (width as u64).to_le_bytes())),
        ("height", scalar(NpyType::U64, (height as u64).to_le_bytes())),
        ("timestamp_scale_ms", scalar(NpyType::Double, scale.to_le_bytes())),
    ])
}

/// The bit patterns of an array of double precision numbers of an archive.
fn doubles(data: &[u8], name: &str) -> Result<Option<Vec<u64>>, String> {
    let mut archive = npyz::npz::NpzArchive::new(Cursor::new(data)).map_err(|e| e.to_string())?;
    let found = archive.by_name(name).map_err(|e| e.to_string())?;
    let bits = |values: Vec<f64>| values.iter().map(|value| value.to_bits()).collect();
    found
        .map(|npy| npy.into_vec::<f64>().map(bits))
        .transpose()
        .map_err(|e| e.to_string())
}

/// The bit patterns of an array of single precision numbers of an archive.
fn singles(data: &[u8], name: &str) -> Result<Option<Vec<u32>>, String> {
    let mut archive = npyz::npz::NpzArchive::new(Cursor::new(data)).map_err(|e| e.to_string())?;
    let found = archive.by_name(name).map_err(|e| e.to_string())?;
    let bits = |values: Vec<f32>| values.iter().map(|value| value.to_bits()).collect();
    found
        .map(|npy| npy.into_vec::<f32>().map(bits))
        .transpose()
        .map_err(|e| e.to_string())
}

fn no_events() -> EventData {
    EventData {
        shape: vec![],
        records: Ok((vec![], None)),
    }
}

fn read(data: &[u8]) -> Result<EventStream, IoError> {
    read_npz(data, no_events(), doubles(data, "timestamp_scale_ms"), None)
}

#[test]
fn native_stream_round_trips_exactly() {
    let stream = sample_stream();
    assert_streams_eq(&read(&write_npz_stream(&stream).unwrap()).unwrap(), &stream);
    assert_streams_eq(&read(&write_windows(&stream)).unwrap(), &stream);
    assert_streams_eq(&read_native_stream(arrays_of(&stream), None).unwrap(), &stream);
}

#[test]
fn empty_stream_round_trips() {
    let stream = EventStreamBuilder::new(8, 6, 0.001f64.to_bits()).build();
    let loaded = read(&write_npz_stream(&stream).unwrap()).unwrap();
    assert!(loaded.is_empty());
    assert_eq!(loaded.sensor_size(), (8, 6));
    let loaded = read_native_stream(arrays_of(&stream), None).unwrap();
    assert_eq!(loaded.sensor_size(), (8, 6));
}

#[test]
fn an_array_of_events_decides_the_layout() {
    let data = archive_of(&[("event_data", npy_header(NpyType::U8, 0))]);
    let event_data = EventData {
        shape: vec![1],
        records: Ok((vec![NImageNetEvent { x: 4, y: 5, t: 6, p: true }], None)),
    };
    let stream = read_npz(&data, event_data, Ok(None), None).unwrap();
    assert_eq!((stream.xs(), stream.ts()), (&[4u16][..], &[6i64][..]));
}

#[test]
fn bytes_that_are_no_archive_are_a_format_error() {
    assert!(matches!(read(b"not an archive"), Err(IoError::Format(_))));
    let frame = read_npz_frame(b"not an archive", Ok(None));
    assert!(matches!(frame, Err(IoError::Format(_))));
    match read(&archive_of(&[])) {
        Err(IoError::Format(message)) => assert_eq!(message, "missing array 'x'"),
        other => panic!("expected a format error, got {other:?}"),
    }
    // An array of another type cannot be read.
    let mistyped = archive_of(&[("x", npy_header(NpyType::I64, 0))]);
    assert!(matches!(read(&mistyped), Err(IoError::Io(_))));
}

#[test]
fn what_an_archive_does_not_say_is_inferred() {
    let mut arrays = arrays_of(&sample_stream());
    arrays.width = Ok(None);
    arrays.height = Ok(None);
    arrays.timestamp_scale_ms = Ok(None);
    let loaded = read_native_stream(arrays, None).unwrap();
    assert_eq!(loaded.sensor_size(), (20, 15));
    assert_eq!(f64::from_bits(loaded.timestamp_scale_bits()), 0.001);
    assert_eq!(infer_size(&vec![3, 1], &vec![0, 9]), (4, 10));

    let mut arrays = arrays_of(&sample_stream());
    arrays.t = Ok(None);
    assert!(matches!(read_native_stream(arrays, None), Err(IoError::Format(_))));
    let mut arrays = arrays_of(&sample_stream());
    arrays.x = Ok(Some(vec![1]));
    assert!(read_native_stream(arrays, None).is_err());
}

#[test]
fn npz_frame_round_trips_with_metadata() {
    let samples: Vec<u32> = (0..3 * 20 * 15).map(|i| (i as f32 / 3.0).to_bits()).collect();
    let names: Vec<String> = (0..3).map(|bin| format!("bin_{bin}")).collect();
    let data = EventFrameData::F32(samples.clone());
    let frame = EventFrame::from_parts(data, 20, 15, RepresentationKind::Voxel, names);
    let data = write_npz_frame(&frame).unwrap();
    let loaded = read_npz_frame(&data, singles(&data, "data")).unwrap();
    assert_eq!(loaded.shape(), frame.shape());
    assert_eq!(loaded.kind(), frame.kind());
    assert_eq!(loaded.channel_names(), frame.channel_names());
    assert_eq!(loaded.data(), frame.data());
    assert_eq!(loaded.data(), &EventFrameData::F32(samples));
    let record = frame_record(&frame);
    assert_eq!(record.shape, [3, 15, 20]);
    assert_eq!(record.code, 3);
}

#[test]
fn frames_of_integers_round_trip() {
    let names = || vec!["positive".to_owned(), "negative".to_owned()];
    for data in [
        EventFrameData::U8(vec![1, 2, 3, 4]),
        EventFrameData::U16(vec![1, 2, 3, 40_000]),
        EventFrameData::U64(vec![1, 2, 3, u64::MAX]),
    ] {
        let kind = RepresentationKind::Polarity;
        let frame = EventFrame::from_parts(data.clone(), 2, 1, kind, names());
        let archive = write_npz_frame(&frame).unwrap();
        let loaded = read_npz_frame(&archive, Ok(None)).unwrap();
        assert_eq!(loaded.data(), &data);
        assert_eq!(loaded.shape(), (2, 1, 2));
        assert_eq!(loaded.kind(), kind);
        assert_eq!(loaded.channel_names(), names());
    }
}

#[test]
fn a_frame_without_a_shape_is_a_format_error() {
    let arrays = FrameArrays {
        shape: Ok(None),
        kind: Ok(None),
        channel_names: Ok(None),
        dtype: Ok(None),
        data_u8: Ok(None),
        data_u16: Ok(None),
        data_u64: Ok(None),
        data_f32: Ok(None),
    };
    assert!(matches!(build_frame(arrays), Err(IoError::Format(_))));
}

#[test]
fn structured_records_become_events() {
    let event = |x, y, t, p| NImageNetEvent { x, y, t, p };
    let records = vec![event(1, 2, 3, true), event(639, 479, 9, false)];
    let stream = read_n_imagenet(&[2], Ok((records, None)), None).unwrap();
    assert_eq!(stream.sensor_size(), (640, 480));
    assert_eq!(stream.xs(), &[1, 639]);
    assert_eq!(stream.ps(), &[true, false]);
    let records = vec![event(640, 0, 9, true), event(1, 1, 10, true), event(0, 480, 11, true)];
    let inside = read_n_imagenet(&[3], Ok((records, None)), None).unwrap();
    assert_eq!(inside.sensor_size(), (640, 480));
    assert_eq!((inside.xs(), inside.ys(), inside.ts()), (&[1][..], &[1][..], &[10][..]));
    let unread = read_n_imagenet(&[1], Ok((vec![event(640, 0, 9, true)], Some("bad".to_owned()))), None);
    assert!(matches!(unread, Err(IoError::Format(message)) if message == "bad"));
    let wrong = read_n_imagenet(&[3, 2], Ok((vec![], None)), None);
    match wrong {
        Err(IoError::Format(message)) => {
            assert_eq!(message, "event_data must be one-dimensional")
        }
        other => panic!("expected a format error, got {other:?}"),
    }
    assert!(read_n_imagenet(&[1], Err("why".to_owned()), None).is_err());
}

#[test]
fn a_header_is_aligned_and_names_its_type() {
    let header = npy_header(NpyType::U16, 12);
    assert_eq!(header.len() % 64, 0);
    assert_eq!(&header[..8], b"\x93NUMPY\x01\x00");
    let text = String::from_utf8(header[10..].to_vec()).unwrap();
    let expected = "{'descr': '<u2', 'fortran_order': False, 'shape': (12,), }";
    assert!(text.starts_with(expected), "{text}");
    assert!(text.ends_with(" \n"));
    assert_eq!(NpyType::Double.descr(), "<f8");
}

#[test]
fn appended_windows_make_one_recording() {
    let mut sink = NpzEventSink::create();
    let columns = sink.append(&sample_stream());
    assert_eq!(columns.x, [0, 0, 19, 0, 5, 0]);
    assert_eq!(columns.y, [0, 0, 14, 0, 7, 0]);
    assert_eq!(columns.p, [1, 0, 1]);
    assert_eq!(columns.t[..8], 10i64.to_le_bytes());
    sink.append(&sample_stream());
    assert_eq!(sink.n_events(), 6);
    let closing = sink.finish();
    assert_eq!(closing.t, npy_header(NpyType::I64, 6));
    assert_eq!(closing.p, npy_header(NpyType::U8, 6));
    assert!(closing.width.ends_with(&20u64.to_le_bytes()));
    assert!(closing.height.ends_with(&15u64.to_le_bytes()));
    assert!(closing.timestamp_scale_ms.ends_with(&0.5f64.to_le_bytes()));
}

/// An archive with one stored entry, whose central header has an extra field.
fn archive_with_extra(name: &str, content: &[u8], extra: &[u8]) -> Vec<u8> {
    let mut data = b"PK\x03\x04".to_vec();
    let mut common = Vec::new();
    common.extend_from_slice(&[20, 0, 0, 0, 0, 0, 0, 0, 0x21, 0]); // version, flags, method, time, date
    common.extend_from_slice(&0u32.to_le_bytes()); // checksum
    common.extend_from_slice(&(content.len() as u32).to_le_bytes());
    common.extend_from_slice(&(content.len() as u32).to_le_bytes());
    common.extend_from_slice(&(name.len() as u16).to_le_bytes());
    data.extend_from_slice(&common);
    data.extend_from_slice(&0u16.to_le_bytes());
    data.extend_from_slice(name.as_bytes());
    data.extend_from_slice(content);
    let directory = data.len() as u32;
    data.extend_from_slice(b"PK\x01\x02");
    data.extend_from_slice(&[20, 0]);
    data.extend_from_slice(&common);
    data.extend_from_slice(&(extra.len() as u16).to_le_bytes());
    data.extend_from_slice(&[0; 10]); // comment, disk, attributes
    data.extend_from_slice(&0u32.to_le_bytes()); // where the entry starts
    data.extend_from_slice(name.as_bytes());
    data.extend_from_slice(extra);
    let size = data.len() as u32 - directory;
    data.extend_from_slice(b"PK\x05\x06");
    data.extend_from_slice(&[0, 0, 0, 0, 1, 0, 1, 0]);
    data.extend_from_slice(&size.to_le_bytes());
    data.extend_from_slice(&directory.to_le_bytes());
    data.extend_from_slice(&[0, 0]);
    data
}

#[test]
fn an_entry_that_needs_a_password_is_refused() {
    let extra = [0x01, 0x99, 7, 0, 2, 0, b'A', b'E', 3, 0, 0];
    for name in ["x.npy", "event_data.npy"] {
        let data = archive_with_extra(name, b"content", &extra);
        match read_npz(&data, no_events(), Ok(None), None) {
            Err(IoError::Io(message)) => assert_eq!(message, "Password required to decrypt file"),
            other => panic!("expected an error, got {other:?}"),
        }
    }
    let data = archive_with_extra("shape.npy", b"content", &extra);
    assert!(matches!(read_npz_frame(&data, Ok(None)), Err(IoError::Io(_))));
    // Without the field the entry is opened, and its content refused.
    let data = archive_with_extra("x.npy", b"content", &[]);
    match read_npz(&data, no_events(), Ok(None), None) {
        Err(IoError::Io(message)) => assert_ne!(message, "Password required to decrypt file"),
        other => panic!("expected an error, got {other:?}"),
    }
}

#[test]
fn an_encrypted_entry_of_a_few_bytes_is_refused() {
    let extra = [0x01, 0x99, 7, 0, 2, 0, b'A', b'E', 3, 0, 0];
    for flags in [0, 1] {
        let mut data = archive_with_extra("x.npy", b"short", &extra);
        let central = data.windows(4).position(|w| w == b"PK\x01\x02").unwrap();
        data[central + 8] = flags;
        match read_npz(&data, no_events(), Ok(None), None) {
            Err(IoError::Io(message)) => assert_eq!(message, "Password required to decrypt file"),
            other => panic!("expected an error, got {other:?}"),
        }
    }
    // Another entry of the archive does not matter.
    let data = archive_with_extra("notes.npy", b"short", &extra);
    match read_npz(&data, no_events(), Ok(None), None) {
        Err(IoError::Format(message)) => assert_eq!(message, "missing array 'x'"),
        other => panic!("expected an error, got {other:?}"),
    }
}

/// An array file with a header of the given text.
fn npy_with(text: &str, values: &[u8]) -> Vec<u8> {
    let mut file = b"\x93NUMPY\x01\x00".to_vec();
    file.extend_from_slice(&(text.len() as u16).to_le_bytes());
    file.extend_from_slice(text.as_bytes());
    file.extend_from_slice(values);
    file
}

fn read_x(text: &str) -> Result<EventStream, IoError> {
    let data = archive_of(&[("x", npy_with(text, &[1, 0, 2, 0]))]);
    read_npz(&data, no_events(), Ok(None), None)
}

#[test]
fn a_header_that_is_too_deep_or_too_large_is_refused() {
    let refused = "array header is nested too deeply or its sizes are too large";
    let shaped = |shape: &str| {
        format!("{{'descr': '<u2', 'fortran_order': False, 'shape': {shape}, }}\n")
    };
    let side = 1u64 << 40;
    for text in [
        shaped(&format!("({side}, {side})")),
        shaped(&format!("(0, {side}, {side})")),
        shaped("(0x10000000000, 0x10_000_000_000)"),
        shaped("(18446744073709551615+1, )"),
        shaped(&format!("{}{}", "[".repeat(64), "]".repeat(64))),
        shaped(&format!("({}{})", "'\\N{', ".repeat(20), "1")),
        "{".repeat(64),
    ] {
        match read_x(&text) {
            Err(IoError::Io(message)) => assert_eq!(message, refused),
            other => panic!("expected an error, got {other:?}"),
        }
        assert!(!is_tame(text.as_bytes()));
    }
    // A header that says it takes four gibibytes.
    let file = b"\x93NUMPY\x02\x00\xFF\xFF\xFF\xFF{}".to_vec();
    match read_npz(&archive_of(&[("x", file)]), no_events(), Ok(None), None) {
        Err(IoError::Io(message)) => assert_eq!(message, refused),
        other => panic!("expected an error, got {other:?}"),
    }
}

#[test]
fn a_header_within_bounds_is_read() {
    for shape in ["(2,)", "(2, 1)", "[2]", "(0x2,)", "(1+1,)", "(1_0-8,)", "(1, 1, 1, 2)"] {
        let text = format!("{{'descr': '<u2', 'fortran_order': False, 'shape': {shape}, }}\n");
        assert!(is_tame(text.as_bytes()));
        // The column was read: it is another that is missing.
        match read_x(&text) {
            Err(IoError::Format(message)) => assert_eq!(message, "missing array 'y'"),
            other => panic!("expected an error, got {other:?}"),
        }
    }
    let side = u64::MAX;
    assert!(is_tame(format!("({side}, 1, 0)").as_bytes()));
    assert!(!is_tame(format!("({side}, 2, 0)").as_bytes()));
    assert!(is_tame(b"'(((((((((((((((' '99999999999999999999'"));
    assert!(!is_tame(b"'\\' '((((((((('"));
    assert!(is_tame(b"((((((((1))))))))"));
    assert!(!is_tame(b"(((((((((1)))))))))"));
    assert!(is_tame(b"[('a', '<u2', (2, 3)), ('b', [('c', '<f8')])]"));
    assert!(is_tame(b""));
}
