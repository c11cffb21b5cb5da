use eventcv_core::io::prophesee::{read_dat, CD_EVENT_SIZE};
use eventcv_core::io::IoError;

fn cd_word(x: u32, y: u32, polarity: bool) -> u32 {
    (x & 0x3FFF) | ((y & 0x3FFF) << 14) | ((polarity as u32) << 28)
}

fn record(timestamp: u32, data: u32) -> [u8; 8] {
    let mut bytes = [0u8; 8];
    bytes[0..4].copy_from_slice(&timestamp.to_le_bytes());
    bytes[4..8].copy_from_slice(&data.to_le_bytes());
    bytes
}

fn file_with(records: &[[u8; 8]]) -> Vec<u8> {
    let mut data = b"% Date 2024-01-01\n% Width 640\n% Height 480\n% Version 2\n".to_vec();
    data.extend_from_slice(&[0x00, CD_EVENT_SIZE]); // event type + size
    for record in records {
        data.extend_from_slice(record);
    }
    data
}

#[test]
fn decodes_cd_events() {
    let data = file_with(&[
        record(1_000, cd_word(10, 20, true)),
        record(1_005, cd_word(600, 400, false)),
    ]);
    let stream = read_dat(&data, None, None).unwrap();

    assert_eq!(stream.sensor_size(), (640, 480));
    assert_eq!(stream.len(), 2);
    assert_eq!(stream.xs(), &[10, 600]);
    assert_eq!(stream.ys(), &[20, 400]);
    assert_eq!(stream.ts(), &[1_000, 1_005]);
    assert_eq!(stream.ps(), &[true, false]);
}

#[test]
fn prophesee_header_only_file_is_empty() {
    let data = b"% Width 640\n% Height 480\n".to_vec();
    let stream = read_dat(&data, None, None).unwrap();
    assert!(stream.is_empty());
    assert_eq!(stream.sensor_size(), (640, 480));
}

#[test]
fn out_of_bounds_events_are_dropped() {
    let data = file_with(&[
        record(1, cd_word(1, 1, true)),
        record(2, cd_word(700, 1, true)), // x >= width -> dropped
    ]);
    assert_eq!(read_dat(&data, Some((4, 4)), None).unwrap().len(), 1);
}

#[test]
fn non_cd_event_size_is_unsupported() {
    let mut data = b"% Width 640\n% Height 480\n".to_vec();
    data.extend_from_slice(&[0x0C, 16]); // 16-byte events -> unsupported
    match read_dat(&data, None, None) {
        Err(IoError::Unsupported(message)) => assert!(message.contains("event size")),
        other => panic!("expected unsupported event-size error, got {other:?}"),
    }
}

#[test]
fn missing_geometry_without_override_is_unsupported() {
    let mut data = b"% Date 2024-01-01\n% Version 2\n".to_vec();
    data.extend_from_slice(&[0x00, CD_EVENT_SIZE]);
    data.extend_from_slice(&record(1, cd_word(1, 1, true)));
    match read_dat(&data, None, None) {
        Err(IoError::Unsupported(message)) => assert!(message.contains("sensor_size")),
        other => panic!("expected unsupported geometry error, got {other:?}"),
    }
}

#[test]
fn explicit_sensor_size_overrides_the_header() {
    let data = file_with(&[record(1, cd_word(1, 1, true))]);
    let stream = read_dat(&data, Some((1280, 720)), None).unwrap();
    assert_eq!(stream.sensor_size(), (1280, 720));
}

#[test]
fn a_cap_keeps_the_first_events() {
    let data = file_with(&[
        record(1, cd_word(1, 1, true)),
        record(2, cd_word(2, 2, true)),
    ]);
    let stream = read_dat(&data, None, Some(1)).unwrap();
    assert_eq!(stream.ts(), &[1]);
}
