use eventcv_core::net::{
    datagrams, datagrams_in, decode_event, decode_into, decode_word_in, encode_event,
    encode_word_in, host_order, ByteOrder, WireFormat, MAX_PAYLOAD_BYTES, MAX_WORDS,
    NO_TIMESTAMP_FLAG,
};
use eventcv_core::stream::MICROSECOND_SCALE;
use eventcv_core::{EventStream, EventStreamBuilder};

fn sample(width: usize, height: usize, count: usize) -> EventStream {
    let mut builder = EventStreamBuilder::new(width, height, MICROSECOND_SCALE);
    for index in 0..count {
        builder.push(
            (index % width) as u16,
            (index % height) as u16,
            index as i64 * 100,
            index % 2 == 0,
        );
    }
    builder.build()
}

/// What a receiver makes of the datagrams of a stream.
fn through_the_wire(stream: &EventStream, format: WireFormat) -> EventStream {
    let (width, height) = stream.sensor_size();
    let mut builder = EventStreamBuilder::new(width, height, MICROSECOND_SCALE);
    let mut arrived = 0;
    for packet in datagrams(stream, format) {
        arrived += decode_into(&packet, format.order(host_order()), &mut builder, arrived);
    }
    builder.build()
}

#[test]
fn encoding_round_trips_through_the_word() {
    for (x, y, polarity) in [
        (0, 0, false),
        (1, 2, true),
        (639, 479, true),
        (0x7FFF, 0x7FFF, false),
    ] {
        for timestamped in [false, true] {
            let word = encode_event(x, y, polarity, timestamped);
            assert_eq!(decode_event(word), (x, y, polarity), "{x},{y},{polarity}");
            // Bit 31 must identify the mode, which is what lets a receiver tell them apart.
            assert_eq!(
                word & NO_TIMESTAMP_FLAG == 0,
                timestamped,
                "mode flag wrong for timestamped={timestamped}"
            );
        }
    }
}

#[test]
fn the_layout_matches_aestreams() {
    assert_eq!(
        encode_event(3, 5, true, false),
        ((3 | 0x8000) << 16) | (5 | 0x8000)
    );
    assert_eq!(encode_event(3, 5, false, false), ((3 | 0x8000) << 16) | 5);
    assert_eq!(encode_event(3, 5, true, true), (3 << 16) | (5 | 0x8000));
    assert_eq!(encode_event(3, 5, false, true), (3 << 16) | 5);
}

#[test]
fn byte_order_is_selectable() {
    let host = WireFormat::host_endian();
    let network = WireFormat::network_endian();
    let word = 0x1234_5678_u32;
    assert_eq!(network.encode_word(word), word.to_be_bytes());
    assert_eq!(host.encode_word(word), word.to_ne_bytes());
    assert_eq!(host.decode_word(host.encode_word(word)), word);
    assert_eq!(network.decode_word(network.encode_word(word)), word);
}

#[test]
fn the_order_of_the_host_is_its_own() {
    let word = 0x1234_5678_u32;
    assert_eq!(encode_word_in(word, host_order()), word.to_ne_bytes());
    assert_eq!(encode_word_in(word, ByteOrder::LittleEndian), word.to_le_bytes());
    assert_eq!(encode_word_in(word, ByteOrder::BigEndian), word.to_be_bytes());
    for order in [ByteOrder::LittleEndian, ByteOrder::BigEndian] {
        assert_eq!(decode_word_in(encode_word_in(word, order), order), word);
    }
}

#[test]
fn a_stream_round_trips_over_loopback() {
    let original = sample(64, 64, 500);
    let received = through_the_wire(&original, WireFormat::default());
    assert_eq!(received.len(), original.len());
    assert_eq!(received.xs(), original.xs());
    assert_eq!(received.ys(), original.ys());
    assert_eq!(received.ps(), original.ps());
    // Without timestamps on the wire, the events are timed by their arrival.
    assert_eq!(received.ts()[..3], [0, 1, 2]);
}

#[test]
fn timestamps_survive_when_the_format_carries_them() {
    let original = sample(64, 64, 200);
    let received = through_the_wire(&original, WireFormat::default().with_timestamps());
    assert_eq!(received.len(), original.len());
    assert_eq!(received.ts(), original.ts(), "timestamps must survive the wire");
}

#[test]
fn a_large_stream_is_split_across_datagrams() {
    let count = MAX_WORDS * 8;
    let original = sample(128, 128, count);
    let packets = datagrams(&original, WireFormat::default());
    assert_eq!(packets.len(), 8);
    assert!(packets.iter().all(|packet| packet.len() <= MAX_PAYLOAD_BYTES));
    assert_eq!(through_the_wire(&original, WireFormat::default()).len(), count);
}

#[test]
fn a_timestamped_event_stays_in_one_datagram() {
    let original = sample(64, 64, MAX_WORDS);
    let packets = datagrams_in(&original, true, ByteOrder::LittleEndian);
    assert!(packets.iter().all(|packet| packet.len() % 8 == 0));
    assert!(packets.iter().all(|packet| packet.len() <= MAX_PAYLOAD_BYTES));
    assert_eq!(packets.iter().map(Vec::len).sum::<usize>(), MAX_WORDS * 8);
}

#[test]
fn a_quiet_link_returns_an_empty_stream() {
    let mut builder = EventStreamBuilder::new(32, 32, MICROSECOND_SCALE);
    assert_eq!(decode_into(&[], ByteOrder::LittleEndian, &mut builder, 0), 0);
    assert!(builder.build().is_empty(), "silence is not an error");
}

#[test]
fn a_truncated_datagram_does_not_produce_a_bogus_event() {
    let format = WireFormat::default().with_timestamps();
    let mut builder = EventStreamBuilder::new(32, 32, MICROSECOND_SCALE);
    let word = encode_event(4, 4, true, true);
    let truncated = format.encode_word(word); // the data word only, no timestamp
    assert_eq!(
        decode_into(&truncated, format.order(host_order()), &mut builder, 0),
        0
    );
    assert!(builder.build().is_empty());
}

#[test]
fn coordinates_outside_the_sensor_are_dropped() {
    let format = WireFormat::default();
    let mut builder = EventStreamBuilder::new(16, 16, MICROSECOND_SCALE);
    let mut payload = Vec::new();
    for word in [
        encode_event(4, 4, true, false),     // inside
        encode_event(900, 900, true, false), // outside
    ] {
        payload.extend_from_slice(&format.encode_word(word));
    }
    decode_into(&payload, format.order(host_order()), &mut builder, 0);
    assert_eq!(builder.build().len(), 1, "only the in-bounds event survives");
}
