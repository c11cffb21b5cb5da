use eventcv_core::io::raw_header::EvtVersion;
use eventcv_core::io::IoError;
use eventcv_core::representation::count::EventCount;
use eventcv_core::representation::{
    EventFrame, EventFrameData, Representation, RepresentationKind,
};
use eventcv_core::ros2::{
    encode_frame, image_message, infers_more, input_shape, is_timeout, stamp_from_nanos, tensor_message,
    EventPacket, EventPublisher, EventSubscriber, Recording, Replay, ReplayReport, Ros2Error, Stamp,
};
use eventcv_core::stream::MICROSECOND_SCALE;
use eventcv_core::{EventStream, EventStreamBuilder};

fn big_endian() -> bool {
    1u16.to_ne_bytes() == 1u16.to_be_bytes()
}

fn stream() -> EventStream {
    let mut b = EventStreamBuilder::new(1280, 720, MICROSECOND_SCALE);
    for i in 0..500i64 {
        b.push(
            (i % 1280) as u16,
            (i % 720) as u16,
            1_000_000 + i * 37,
            i % 2 == 0,
        );
    }
    b.build()
}

fn encode(stream: &EventStream, seq: u64, encoding: EvtVersion) -> EventPacket {
    EventPacket::encode(stream, seq, encoding, big_endian()).unwrap()
}

/// A stream in microseconds.
fn in_microseconds(stream: &EventStream) -> EventStream {
    let factor = f64::from_bits(stream.timestamp_scale_bits()) / 0.001;
    let (width, height) = stream.sensor_size();
    let mut builder = EventStreamBuilder::new(width, height, MICROSECOND_SCALE);
    for i in 0..stream.len() {
        let e = stream.get(i);
        builder.push(e.x, e.y, (e.t as f64 * factor).round() as i64, e.p);
    }
    builder.build()
}

fn message(error: Ros2Error) -> String {
    error.message().unwrap()
}

#[test]
fn a_packet_round_trips_through_evt3() {
    let original = stream();
    let packet = encode(&original, 1, EvtVersion::Evt3);
    assert_eq!(packet.encoding, "evt3");
    assert_eq!(packet.width, 1280);
    assert_eq!(packet.height, 720);
    // The payload is encoded words, not one field per event.
    assert!(packet.events.len() < original.len() * 8);
    let back = packet.decode().unwrap();
    assert_eq!(back.len(), original.len(), "event count changed");
    assert_eq!(back.xs(), original.xs(), "x changed");
    assert_eq!(back.ys(), original.ys(), "y changed");
    assert_eq!(back.ts(), original.ts(), "timestamps changed");
    assert_eq!(back.ps(), original.ps(), "polarity changed");
}

#[test]
fn evt2_round_trips_too() {
    let original = stream();
    let packet = encode(&original, 7, EvtVersion::Evt2);
    assert_eq!(packet.encoding, "evt2");
    assert_eq!(packet.seq, 7);
    let back = packet.decode().unwrap();
    assert_eq!(back.ts(), original.ts());
    assert_eq!(back.xs(), original.xs());
}

#[test]
fn an_unknown_encoding_names_the_ones_that_work() {
    let mut packet = encode(&stream(), 1, EvtVersion::Evt3);
    packet.encoding = "libcaer".to_owned();
    let message = message(packet.decode().unwrap_err());
    assert!(message.contains("libcaer"), "{message}");
    assert!(message.contains("evt3"), "{message}");
}

#[test]
fn the_time_base_is_a_ros_time_in_nanoseconds() {
    let original = stream();
    let first_us = original.ts()[0];
    let packet = encode(&original, 1, EvtVersion::Evt3);
    assert_eq!(packet.time_base_ns(), (first_us * 1_000) as u64);
    assert_eq!(packet.stamp.sec, (first_us / 1_000_000) as i32);
    assert_eq!(packet.decode().unwrap().ts()[0], first_us);
}

#[test]
fn a_clock_offset_moves_the_base_and_nothing_else() {
    let original = stream();
    let hour_ns = 3_600 * 1_000_000_000i64;
    let packet =
        EventPacket::encode_with(&original, 1, EvtVersion::Evt3, hour_ns, "cam0", big_endian())
            .unwrap();
    assert_eq!(packet.frame_id, "cam0");
    assert_eq!(
        packet.time_base_ns(),
        (original.ts()[0] * 1_000 + hour_ns) as u64
    );
    let back = packet.decode().unwrap();
    // Every event moved by the same hour; the intervals are untouched.
    let shift = back.ts()[0] - original.ts()[0];
    assert_eq!(shift, hour_ns / 1_000);
    for (a, b) in back.ts().iter().zip(original.ts()) {
        assert_eq!(a - b, shift);
    }
}

#[test]
fn a_stream_on_another_tick_is_rescaled_not_mis_timed() {
    let mut b = EventStreamBuilder::new(64, 64, 1.0f64.to_bits());
    for i in 0..50i64 {
        b.push(i as u16, i as u16, 100 + i, i % 2 == 0);
    }
    let millis = b.build();
    let packet = encode(&in_microseconds(&millis), 1, EvtVersion::Evt3);
    // 100 ms is 100_000 us is 100_000_000 ns.
    assert_eq!(packet.time_base_ns(), 100_000_000);
    let back = packet.decode().unwrap();
    assert_eq!(back.len(), millis.len());
    assert_eq!(back.ts()[0], 100_000);
    assert_eq!(back.ts()[49], 149_000);
}

#[test]
fn a_count_frame_becomes_a_mono16_image() {
    let frame = EventCount::new(false).generate(&stream()).unwrap();
    let (encoding, sample, bytes) =
        encode_frame(frame.data(), 1, 1280, 720, big_endian()).unwrap();
    assert_eq!(encoding, "mono16");
    assert_eq!(sample, 2);
    assert_eq!(bytes.len(), 1280 * 720 * 2);
    // A count that does not fit saturates.
    let counts = EventFrameData::U64(vec![1, 70_000]);
    let (_, _, bytes) = encode_frame(&counts, 1, 2, 1, false).unwrap();
    assert_eq!(bytes, [1, 0, 0xFF, 0xFF]);
    let (_, _, bytes) = encode_frame(&counts, 1, 2, 1, true).unwrap();
    assert_eq!(bytes, [0, 1, 0xFF, 0xFF]);
}

/// Three planes of single precision samples.
fn planes() -> (EventFrame, Vec<f32>) {
    let samples: Vec<f32> = (0..3 * 1280 * 720).map(|i| i as f32 / 7.0).collect();
    let bits = samples.iter().map(|sample| sample.to_bits()).collect();
    let names = (0..3).map(|bin| format!("bin_{bin}")).collect();
    let kind = RepresentationKind::Voxel;
    let frame = EventFrame::from_parts(EventFrameData::F32(bits), 1280, 720, kind, names);
    (frame, samples)
}

#[test]
fn a_voxel_grid_is_interleaved_into_32fc3() {
    let (frame, planar) = planes();
    let (channels, height, width) = frame.shape();
    assert_eq!(channels, 3);
    let (encoding, sample, bytes) =
        encode_frame(frame.data(), channels, width, height, big_endian()).unwrap();
    assert_eq!(encoding, "32FC3");
    assert_eq!(sample, 4);
    assert_eq!(bytes.len(), width * height * 3 * 4);

    // Pixel-major, not plane-major: the three channels of pixel 0 come first.
    let pixels = width * height;
    for channel in 0..3 {
        let at = channel * 4;
        let read = f32::from_ne_bytes(bytes[at..at + 4].try_into().unwrap());
        assert_eq!(read, planar[channel * pixels]);
    }
}

#[test]
fn an_image_message_carries_the_layout_ros_expects() {
    let (frame, _) = planes();
    let image = image_message(&frame, 1_500_000_042, "cam0", big_endian()).unwrap();
    assert_eq!(image.encoding, "32FC3");
    assert_eq!((image.width, image.height), (1280, 720));
    // The step is one row of interleaved pixels, in bytes.
    assert_eq!(image.step, 1280 * 3 * 4);
    assert_eq!(image.frame_id, "cam0");
    assert_eq!(image.stamp.sec, 1);
    assert_eq!(image.stamp.nanosec, 500_000_042);
    assert_eq!(stamp_from_nanos(7), Stamp { sec: 0, nanosec: 7 });
}

#[test]
fn a_frame_without_pixels_is_not_an_image() {
    let data = EventFrameData::U8(Vec::new());
    let frame = EventFrame::from_parts(data, 0, 4, RepresentationKind::Binary, vec![]);
    match image_message(&frame, 0, "cam0", false) {
        Err(Ros2Error::Payload(text)) => assert_eq!(text, "frame has a zero dimension"),
        other => panic!("expected a payload error, got {other:?}"),
    }
    let short = EventFrameData::U8(vec![1, 2, 3]);
    let message = message(encode_frame(&short, 1, 2, 2, false).unwrap_err());
    assert!(message.contains("1x2x2"), "{message}");
}

#[test]
fn a_tensor_message_strides_the_ros_way() {
    let message = tensor_message(&[2, 3, 4], vec![0; 24], &[]).unwrap();
    let dims = &message.dim;
    assert_eq!(dims.len(), 3);
    assert_eq!(dims.iter().map(|d| d.size).collect::<Vec<_>>(), vec![2, 3, 4]);
    assert_eq!(dims.iter().map(|d| d.stride).collect::<Vec<_>>(), vec![24, 12, 4]);
    assert_eq!(
        dims.iter().map(|d| d.label.as_str()).collect::<Vec<_>>(),
        vec!["dim0", "dim1", "dim2"]
    );
    assert_eq!(message.data.len(), 24);
    let named = tensor_message(&[2], vec![0; 2], &["batch".to_owned()]).unwrap();
    assert_eq!(named.dim[0].label, "batch");
}

#[test]
fn a_tensor_message_checks_the_shape_against_the_data() {
    let message = message(tensor_message(&[2, 3], vec![0; 5], &[]).unwrap_err());
    assert!(message.contains('6'), "{message}");
    assert!(message.contains('5'), "{message}");
}

#[test]
fn a_frame_becomes_a_batched_float_input() {
    let frame = EventCount::new(false).generate(&stream()).unwrap();
    assert_eq!(input_shape(&frame), vec![1, 1, 720, 1280]);
    let EventFrameData::U64(counts) = frame.data() else {
        panic!("counts");
    };
    assert_eq!(counts.len(), 720 * 1280);
    let counted: f32 = counts.iter().map(|&count| count as f32).sum();
    assert_eq!(counted as usize, stream().len());
}

#[test]
fn too_many_channels_says_so() {
    let data = EventFrameData::F32(vec![0; 5 * 4]);
    let message = message(encode_frame(&data, 5, 2, 2, false).unwrap_err());
    assert!(message.contains("4 channels"), "{message}");
    assert!(message.contains('5'), "{message}");
}

#[test]
fn an_empty_window_is_an_empty_packet() {
    let empty = EventStreamBuilder::new(640, 480, MICROSECOND_SCALE).build();
    let packet = encode(&empty, 1, EvtVersion::Evt3);
    assert_eq!(packet.decode().unwrap().len(), 0);
}

#[test]
fn errors_say_where_they_come_from() {
    let texts = [
        (Ros2Error::Session("a".to_owned()), "ROS 2 session: a"),
        (Ros2Error::Transport("b".to_owned()), "ROS 2 transport: b"),
        (Ros2Error::Payload("c".to_owned()), "ROS 2 payload: c"),
    ];
    for (error, text) in texts {
        assert_eq!(message(error), text);
    }
    assert!(Ros2Error::Io(IoError::InvalidSensorSize).message().is_none());
    assert!(is_timeout("Receive Timed Out"));
    assert!(is_timeout("TIMEOUT"));
    assert!(!is_timeout("closed"));
}

#[test]
fn a_publisher_numbers_its_packets() {
    let mut publisher = EventPublisher::new(big_endian())
        .with_encoding(EvtVersion::Evt2)
        .with_clock_offset(0)
        .with_frame_id("cam1");
    let first = publisher.next_packet(&stream()).unwrap();
    let second = publisher.next_packet(&stream()).unwrap();
    assert_eq!((first.seq, second.seq), (1, 2));
    assert_eq!(second.frame_id, "cam1");
    assert_eq!(publisher.published(), 2);
    assert_eq!(publisher.bytes_published(), first.events.len() + second.events.len());

    let mut reception = EventSubscriber::new();
    reception.count(&first);
    let mut late = second;
    late.seq = 5;
    reception.count(&late);
    assert_eq!((reception.received(), reception.dropped()), (2, 3));
    assert_eq!(reception.last_seq, Some(5));
    assert_eq!(reception.last_time_base_ns(), late.time_base);
}

#[test]
fn windows_cover_the_recording() {
    let mut replay = Replay::new(10, 35, 10);
    let mut windows = Vec::new();
    while let Some(window) = replay.window() {
        windows.push(window);
        replay.advance(if window.0 == 20 { 0 } else { 3 });
    }
    assert_eq!(windows, [(10, 20), (20, 30), (30, 40)]);
    assert_eq!(
        replay.report(),
        ReplayReport {
            packets: 2,
            events: 6,
            empty_windows: 1
        }
    );

    let mut recording = Recording::new(Some(2));
    assert!(recording.wants_more());
    recording.take(4);
    recording.take(5);
    assert!(!recording.wants_more());
    let report = recording.finish(1);
    assert_eq!((report.packets, report.events, report.dropped), (2, 9, 1));
}

#[test]
fn a_limit_ends_inference() {
    assert!(infers_more(2, Some(3)));
    assert!(!infers_more(3, Some(3)));
    assert!(!infers_more(4, Some(3)));
    assert!(infers_more(u64::MAX, None));
}
