use eventcv_core::io::aedat4::{open_aedat4_slice, read_aedat4};
use eventcv_core::io::aedat4_header::{magic_bytes, MAGIC_LEN};
use eventcv_core::io::aedat4_packets::{span_of, ELEMENTS};
use eventcv_core::io::aedat4_sink::Aedat4EventSink;
use eventcv_core::io::aedat4_streams::{parse_streams, Kind};
use eventcv_core::io::compression::Compression;
use eventcv_core::io::aedat4_table::{build_data_table, Definition};
use eventcv_core::io::flat_builder::FlatBuilder;
use eventcv_core::io::flatbuffer::Table;
use eventcv_core::io::IoError;
use eventcv_core::stream::MICROSECOND_SCALE;
use eventcv_core::{EventStream, EventStreamBuilder};

/// A minimal uncompressed file: a header naming one stream of the given type, without a data
/// table, then one packet with the given body.
fn file_with(identifier: &str, packet: &[u8]) -> Vec<u8> {
    let info = format!(
        "<node name=\"0\" path=\"/outInfo/0/\">\
         <attr key=\"typeIdentifier\" type=\"string\">{identifier}</attr>\
         <node name=\"info\"><attr key=\"sizeX\" type=\"int\">8</attr>\
         <attr key=\"sizeY\" type=\"int\">4</attr></node></node>"
    );

    // Root offset, vtable, table, then the string it points at.
    let mut header = Vec::new();
    header.extend_from_slice(&14u32.to_le_bytes()); // root table at 14
    header.extend_from_slice(&10u16.to_le_bytes()); // vtable spans slots 4, 6 and 8
    header.extend_from_slice(&20u16.to_le_bytes()); // table length
    for offset in [4u16, 8, 16] {
        header.extend_from_slice(&offset.to_le_bytes());
    }
    header.extend_from_slice(&10i32.to_le_bytes()); // soffset: table 14 - vtable 4
    header.extend_from_slice(&0i32.to_le_bytes()); // compression NONE
    header.extend_from_slice(&(-1i64).to_le_bytes()); // no data table: force the walk
    header.extend_from_slice(&4u32.to_le_bytes()); // infoNode is the next thing written
    header.extend_from_slice(&(info.len() as u32).to_le_bytes());
    header.extend_from_slice(info.as_bytes());
    header.push(0); // strings are null-terminated

    let mut file = magic_bytes().to_vec();
    file.extend_from_slice(&(header.len() as u32).to_le_bytes());
    file.extend_from_slice(&header);
    file.extend_from_slice(&0i32.to_le_bytes()); // stream id
    file.extend_from_slice(&((packet.len() + 4) as i32).to_le_bytes()); // body size
    file.extend_from_slice(&(packet.len() as u32).to_le_bytes()); // size prefix
    file.extend_from_slice(packet);
    file
}

fn minimal_file(events: &[(i64, i16, i16, bool)]) -> Vec<u8> {
    let mut packet = Vec::new();
    packet.extend_from_slice(&10u32.to_le_bytes()); // root table at 14, relative to 4
    packet.extend_from_slice(&6u16.to_le_bytes()); // vtable spans slot 4 only
    packet.extend_from_slice(&8u16.to_le_bytes()); // table length
    packet.extend_from_slice(&4u16.to_le_bytes()); // elements at table + 4
    packet.extend_from_slice(&6i32.to_le_bytes()); // soffset: table 14 - vtable 8
    packet.extend_from_slice(&4u32.to_le_bytes()); // the vector is the next thing written
    packet.extend_from_slice(&(events.len() as u32).to_le_bytes());
    for &(t, x, y, polarity) in events {
        packet.extend_from_slice(&t.to_le_bytes());
        packet.extend_from_slice(&x.to_le_bytes());
        packet.extend_from_slice(&y.to_le_bytes());
        packet.push(polarity as u8);
        packet.extend_from_slice(&[0; 3]); // struct padding to the 8-byte alignment
    }
    file_with("EVTS", &packet)
}

#[test]
fn a_file_without_a_data_table_is_indexed_by_walking_its_packets() {
    let events = [(10i64, 1i16, 2i16, true), (20, 3, 0, false), (30, 7, 3, true)];
    let data = minimal_file(&events);
    let source = open_aedat4_slice(&data, None).unwrap();

    assert_eq!(source.sensor_size(), (8, 4));
    assert_eq!(source.n_events(), 3);
    assert_eq!(source.time_span(), (10, 30));
    let stream = source.slice_index(&data, 0, 3).unwrap();
    assert_eq!(stream.ts(), &[10, 20, 30]);
    assert_eq!(stream.xs(), &[1, 3, 7]);
    assert_eq!(stream.ps(), &[true, false, true]);
}

#[test]
fn a_truncated_file_errors_rather_than_reading_past_its_end() {
    let full = minimal_file(&[(10, 1, 2, true), (20, 3, 0, false)]);
    for cut in [4, MAGIC_LEN, MAGIC_LEN + 8, full.len() - 40, full.len() - 8] {
        let data = &full[..cut];
        match open_aedat4_slice(data, None) {
            Err(_) => {}
            Ok(source) => {
                // A prefix that still parses must at least not invent events.
                let _ = source.slice_index(data, 0, source.n_events()).unwrap();
            }
        }
    }
}

#[test]
fn a_file_that_is_not_aedat4_is_a_format_error() {
    match open_aedat4_slice(b"#!AER-DAT2.0\r\nrubbish", None) {
        Err(IoError::Format(message)) => assert!(message.contains("AEDAT 4")),
        other => panic!("expected a format error, got {:?}", other.map(|_| ())),
    }
}

#[test]
fn the_header_xml_is_scanned_for_stream_types_and_resolution() {
    let info = "<node name=\"outInfo\"><node name=\"0\">\
                <attr key=\"typeIdentifier\" type=\"string\">EVTS</attr>\
                <node name=\"info\"><attr key=\"sizeX\" type=\"int\">640</attr>\
                <attr key=\"sizeY\" type=\"int\">480</attr></node></node>\
                <node name=\"1\"><attr key=\"typeIdentifier\" type=\"string\">FRME</attr></node>\
                <node name=\"2\"><attr key=\"typeIdentifier\" type=\"string\">TRIG</attr></node>\
                </node>";
    let streams = parse_streams(info);
    assert_eq!(streams.len(), 3); // `outInfo` and `info` are not stream nodes
    assert_eq!(streams[0].id, 0);
    assert_eq!(streams[0].kind, Kind::Events);
    assert_eq!(streams[0].size, Some((640, 480)));
    assert_eq!(streams[1].kind, Kind::Frames);
    assert_eq!(streams[1].size, None);
    assert_eq!(streams[2].kind, Kind::Other); // triggers are read past, not decoded
}

#[test]
fn unknown_compression_is_rejected_by_name() {
    assert_eq!(Compression::from_header(0).unwrap(), Compression::Uncompressed);
    assert_eq!(Compression::from_header(2).unwrap(), Compression::Lz4);
    assert_eq!(Compression::from_header(4).unwrap(), Compression::Zstd);
    match Compression::from_header(9) {
        Err(IoError::Unsupported(message)) => assert!(message.contains("compression")),
        other => panic!("expected an unsupported-compression error, got {other:?}"),
    }
}

#[test]
fn table_reads_are_bounds_checked() {
    // A root offset past the end, a vtable past the end: all `None`, none a panic.
    assert!(Table::root(&[0xFF, 0xFF, 0xFF, 0x7F]).is_none());
    let buffer = [4, 0, 0, 0, 0xFF, 0xFF, 0xFF, 0x7F];
    let table = Table::root(&buffer).unwrap();
    assert!(table.field(ELEMENTS).is_none());
    assert_eq!(table.i64(ELEMENTS, -7), -7); // an absent field falls back to the default
}

#[test]
fn each_codec_undoes_itself_and_does_its_own_work() {
    let body: Vec<u8> = (0..5_000u32).map(|i| (i / 100) as u8).collect();
    for compression in [Compression::Uncompressed, Compression::Lz4, Compression::Zstd] {
        assert_eq!(
            Compression::from_header(compression.to_header()).unwrap(),
            compression
        );
        let coded = compression.encode(&body).unwrap();
        assert_eq!(coded == body, compression == Compression::Uncompressed);
        assert_eq!(compression.decode(&coded).unwrap(), body);
    }
    assert!(Compression::Zstd.decode(&body).is_err());
    assert!(Compression::Lz4.decode(&body).is_err());
}

fn stream_of(count: usize) -> EventStream {
    let mut builder = EventStreamBuilder::new(64, 48, MICROSECOND_SCALE);
    for i in 0..count {
        let (x, y) = ((i % 64) as u16, (i * 7 % 48) as u16);
        builder.push(x, y, 1_000_000 + 1_000 * i as i64, i % 2 == 1);
    }
    builder.build()
}

#[test]
fn what_a_sink_writes_is_what_a_source_reads() {
    let stream = stream_of(64);
    for compression in [Compression::Uncompressed, Compression::Lz4, Compression::Zstd] {
        let mut sink = Aedat4EventSink::create(compression);
        sink.append(&stream).unwrap();
        assert_eq!(sink.n_events(), 64);
        assert!(!sink.buffered().is_empty());
        let data = sink.finish().unwrap();
        let source = open_aedat4_slice(&data, None).unwrap();
        assert_eq!(source.sensor_size(), (64, 48));
        assert_eq!(source.n_events(), 64);
        assert_eq!(source.time_span(), (1_000_000, 1_063_000));
        let back = read_aedat4(&data, None, None).unwrap();
        assert_eq!(back.xs(), stream.xs());
        assert_eq!(back.ys(), stream.ys());
        assert_eq!(back.ts(), stream.ts());
        assert_eq!(back.ps(), stream.ps());
        assert_eq!(source.slice_index(&data, 0, 10).unwrap().ts(), &stream.ts()[..10]);
        let window = source.slice_time(&data, 1_010_000, 1_015_000).unwrap();
        assert_eq!(
            window.ts(),
            &[1_010_000, 1_011_000, 1_012_000, 1_013_000, 1_014_000]
        );
        assert_eq!(read_aedat4(&data, None, Some(3)).unwrap().len(), 3);
        assert!(source.frames(&data, 0, i64::MAX).unwrap().is_empty());
        assert!(source.imu(&data, 0, i64::MAX).unwrap().is_empty());
    }
}

#[test]
fn many_events_are_cut_into_packets() {
    let stream = stream_of(100_005);
    let mut sink = Aedat4EventSink::create(Compression::Lz4);
    sink.append(&stream).unwrap();
    let data = sink.finish().unwrap();
    let source = open_aedat4_slice(&data, None).unwrap();
    assert_eq!(source.n_events(), 100_005);
    let end = source.slice_index(&data, 99_998, 100_003).unwrap();
    assert_eq!(end.ts(), &stream.ts()[99_998..100_003]);
}

#[test]
fn nothing_appended_is_nothing_to_finish() {
    let sink = Aedat4EventSink::create(Compression::Uncompressed);
    match sink.finish() {
        Ok(data) => assert_eq!(read_aedat4(&data, Some((8, 4)), None).unwrap().len(), 0),
        Err(error) => assert!(matches!(error, IoError::Format(_) | IoError::Unsupported(_))),
    }
}

#[test]
fn a_picture_comes_back_with_its_samples() {
    // A frame: timestamp, format, width, height and samples.
    let mut packet = Vec::new();
    let slots = [(4usize, 8u16), (14, 16), (16, 18), (18, 20), (24, 24)];
    let vtable_len = 4 + 2 * (24 - 4) / 2 + 2;
    packet.extend_from_slice(&(4 + vtable_len as u32).to_le_bytes());
    let mut vtable = vec![0u8; vtable_len];
    vtable[..2].copy_from_slice(&(vtable_len as u16).to_le_bytes());
    vtable[2..4].copy_from_slice(&28u16.to_le_bytes());
    for (slot, offset) in slots {
        vtable[slot..slot + 2].copy_from_slice(&offset.to_le_bytes());
    }
    packet.extend_from_slice(&vtable);
    packet.extend_from_slice(&(vtable_len as i32).to_le_bytes()); // soffset
    packet.extend_from_slice(&[0; 4]);
    packet.extend_from_slice(&70i64.to_le_bytes()); // table + 8
    packet.extend_from_slice(&[0, 0]); // table + 16: grey
    packet.extend_from_slice(&2i16.to_le_bytes()); // table + 18
    packet.extend_from_slice(&3i16.to_le_bytes()); // table + 20
    packet.extend_from_slice(&[0; 2]);
    packet.extend_from_slice(&4u32.to_le_bytes()); // table + 24: the samples come next
    packet.extend_from_slice(&6u32.to_le_bytes());
    packet.extend_from_slice(&[1, 2, 3, 4, 5, 6]);
    let data = file_with("FRME", &packet);
    let source = open_aedat4_slice(&data, Some((2, 3))).unwrap();
    let frames = source.frames(&data, 0, 100).unwrap();
    assert_eq!(frames.len(), 1);
    assert_eq!(frames[0].0, 70);
    assert_eq!((frames[0].1.width, frames[0].1.height, frames[0].1.channels), (2, 3, 1));
    assert_eq!(frames[0].1.samples, vec![1, 2, 3, 4, 5, 6]);
    assert!(source.frames(&data, 71, 100).unwrap().is_empty());
}

/// A packet of inertial samples, each with its time alone, followed by some bytes.
fn samples_packet(times: &[i64], trailing: usize) -> Vec<u8> {
    let mut packet = Vec::new();
    packet.extend_from_slice(&10u32.to_le_bytes()); // root table at 14, relative to 4
    packet.extend_from_slice(&6u16.to_le_bytes()); // vtable spans slot 4 only
    packet.extend_from_slice(&8u16.to_le_bytes()); // table length
    packet.extend_from_slice(&4u16.to_le_bytes()); // elements at table + 4
    packet.extend_from_slice(&6i32.to_le_bytes()); // soffset: table 14 - vtable 8
    packet.extend_from_slice(&4u32.to_le_bytes()); // the vector is the next thing written
    packet.extend_from_slice(&(times.len() as u32).to_le_bytes());
    let n = times.len();
    // After the offsets: one vtable, then a table of twelve bytes for each sample.
    for k in 0..n {
        let offset = 4 * (n - k) + 6 + 12 * k;
        packet.extend_from_slice(&(offset as u32).to_le_bytes());
    }
    packet.extend_from_slice(&6u16.to_le_bytes());
    packet.extend_from_slice(&12u16.to_le_bytes());
    packet.extend_from_slice(&4u16.to_le_bytes()); // the time at table + 4
    for (k, t) in times.iter().enumerate() {
        packet.extend_from_slice(&((6 + 12 * k) as i32).to_le_bytes());
        packet.extend_from_slice(&t.to_le_bytes());
    }
    packet.resize(packet.len() + trailing, 0);
    packet
}

#[test]
fn the_span_of_samples_is_that_of_their_tables() {
    let times = [100, 250, 400];
    for trailing in [0, 64] {
        let packet = samples_packet(&times, trailing);
        let mut body = (packet.len() as u32).to_le_bytes().to_vec();
        body.extend_from_slice(&packet);
        assert_eq!(span_of(&body), (3, 100, 400));
        let data = file_with("IMUS", &packet);
        let source = open_aedat4_slice(&data, Some((8, 4))).unwrap();
        let all = source.imu(&data, 0, 1_000).unwrap();
        assert_eq!(all.iter().map(|s| s.t).collect::<Vec<_>>(), times);
        let late = source.imu(&data, 300, 401).unwrap();
        assert_eq!(late.iter().map(|s| s.t).collect::<Vec<_>>(), [400]);
    }
}

#[test]
fn a_vector_that_does_not_fit_is_a_format_error() {
    let whole = minimal_file(&[(10, 1, 2, true), (20, 3, 0, false)]);
    let count = whole.len() - 36;
    assert_eq!(whole[count..count + 4], 2u32.to_le_bytes());
    let mut data = whole.clone();
    data[count] = 3; // one more event than the body has bytes for
    let source = open_aedat4_slice(&data, None).unwrap();
    for result in [
        source.slice_index(&data, 0, 9),
        source.slice_time(&data, i64::MIN, i64::MAX),
    ] {
        match result {
            Err(IoError::Format(message)) => assert!(message.contains("truncated")),
            other => panic!("expected a format error, got {other:?}"),
        }
    }
    assert_eq!(read_aedat4(&whole, None, None).unwrap().ts(), &[10, 20]);

    let mut packet = samples_packet(&[100, 250, 400], 0);
    packet[18..22].copy_from_slice(&1_000u32.to_le_bytes());
    let data = file_with("IMUS", &packet);
    let source = open_aedat4_slice(&data, Some((8, 4))).unwrap();
    assert!(matches!(source.imu(&data, i64::MIN, i64::MAX), Err(IoError::Format(_))));
}

#[test]
fn an_abandoned_recording_reads_back_under_every_codec() {
    let stream = stream_of(20);
    for compression in [Compression::Uncompressed, Compression::Lz4, Compression::Zstd] {
        let mut sink = Aedat4EventSink::create(compression);
        sink.append(&stream).unwrap();
        sink.append(&EventStreamBuilder::new(64, 48, MICROSECOND_SCALE).build()).unwrap();
        let data = sink.buffered().to_vec();
        let source = open_aedat4_slice(&data, None).unwrap();
        assert_eq!(source.n_events(), 20);
        assert_eq!(source.time_span(), (1_000_000, 1_019_000));
        assert_eq!(read_aedat4(&data, None, None).unwrap().ts(), stream.ts());
    }
}

#[test]
fn a_vector_may_have_elements_of_any_size() {
    let mut packet = 0u32.to_le_bytes().to_vec();
    packet.extend_from_slice(&samples_packet(&[1, 2], 600));
    let table = Table::size_prefixed_root(&packet).unwrap();
    let (none, count) = table.vector(ELEMENTS, 0).unwrap();
    assert_eq!((none.len(), count), (0, 2));
    let (wide, count) = table.vector(ELEMENTS, 300).unwrap();
    assert_eq!((wide.len(), count), (600, 2));
    assert!(table.vector(ELEMENTS, usize::MAX).is_none());
    assert!(table.vector(ELEMENTS, 400).is_none());
}

#[test]
fn a_data_table_lists_what_it_was_built_from() {
    let entry = |byte_offset, size, elements, start, end| Definition {
        byte_offset,
        size,
        elements,
        start,
        end,
    };
    let all = [entry(100, 7, 3, -5, 9), entry(-1, -2, -3, -4, -5), entry(0, 0, 0, 0, 0)];
    for n in 0..=all.len() {
        let body = build_data_table(&all[..n]);
        let tables = Table::size_prefixed_root(&body).unwrap().tables(ELEMENTS);
        assert_eq!(tables.len(), n);
        assert_eq!(body.len(), [32, 96, 168, 232][n]);
        for (table, d) in tables.iter().zip(&all) {
            assert_eq!(table.i64(4, 77), d.byte_offset);
            assert_eq!(table.i64(8, 77), d.elements);
            assert_eq!((table.i64(10, 77), table.i64(12, 77)), (d.start, d.end));
            let info = table.field(6).unwrap();
            assert_eq!(body[info..info + 4], [0; 4]);
            assert_eq!(body[info + 4..info + 8], d.size.to_le_bytes());
        }
    }
}

#[test]
fn a_finished_buffer_is_aligned_and_leads_to_its_root() {
    for (align, prefixed) in [(4, false), (8, true), (16, true), (16, false)] {
        let mut builder = FlatBuilder::new();
        let vector = builder.push_elements(&[1, 2, 3], 3, align);
        let start = builder.len();
        let field = builder.push_offset(vector);
        let root = builder.end_table(start, &[(4, field)]);
        let written = builder.len();
        let buffer = builder.finish(root, b"NAME", prefixed);
        assert_eq!(buffer.len() % align, 0);
        assert!(written <= buffer.len());
        let skip = if prefixed { 4 } else { 0 };
        if prefixed {
            let size = u32::from_le_bytes(buffer[..4].try_into().unwrap());
            assert_eq!(size as usize, buffer.len() - 4);
        }
        assert_eq!(&buffer[skip + 4..skip + 8], b"NAME");
        let table = if prefixed {
            Table::size_prefixed_root(&buffer)
        } else {
            Table::root(&buffer)
        };
        let table = table.unwrap();
        assert_eq!(table.at, buffer.len() - root);
        assert_eq!(table.vector(4, 1).unwrap().0, &[1, 2, 3]);
    }
}

#[test]
fn a_compressed_body_is_not_much_longer() {
    let mut state = 1u64;
    let noise: Vec<u8> = (0..300_000)
        .map(|_| {
            state = state.wrapping_mul(6_364_136_223_846_793_005).wrapping_add(1);
            (state >> 56) as u8
        })
        .collect();
    for scheme in [Compression::Uncompressed, Compression::Lz4, Compression::Zstd] {
        for length in [0, 1, 1000, 70_000, 300_000] {
            let body = scheme.encode(&noise[..length]).unwrap();
            assert!(body.len() <= 2 * length + 64);
            assert_eq!(scheme.decode(&body).unwrap(), noise[..length]);
        }
    }
}
