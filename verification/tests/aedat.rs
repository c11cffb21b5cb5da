use eventcv_core::io::aedat::{
    open_aedat_slice, read_aedat, scan_span, AedatIndexer, AedatSliceSource, CHECKPOINT_BYTES,
};
use eventcv_core::io::aedat_frames::ImuCounts;
use eventcv_core::io::aedat_header::full_scale;
use eventcv_core::io::aedat_records::WRAP_PERIOD;
use eventcv_core::io::IoError;
use eventcv_core::representation::{EventFrame, EventFrameData};
use eventcv_core::EventStream;

const APS_SAMPLE_FLAG: u32 = 0x8000_0000;
const TYPE_FLAG: u32 = 0x0400;
const READOUT_RESET: u32 = 0;
const READOUT_SIGNAL: u32 = 1;
const READOUT_IMU: u32 = 3;

fn dvs_address(x: u32, y: u32, polarity: bool) -> u32 {
    (y << 22) | (x << 12) | ((polarity as u32) << 11)
}

fn aps_address(x: u32, y: u32, reset: bool, adc: u32) -> u32 {
    let readout = if reset { READOUT_RESET } else { READOUT_SIGNAL };
    APS_SAMPLE_FLAG | (y << 22) | (x << 12) | (readout << 10) | adc
}

fn imu_address(field: u32, reading: i16) -> u32 {
    APS_SAMPLE_FLAG | (field << 28) | (u32::from(reading as u16) << 12) | (READOUT_IMU << 10)
}

/// The seven records one IMU sample is split across: accel x/y/z, temperature, gyro x/y/z.
fn imu_records(readings: [i16; 7], timestamp: u32) -> Vec<[u8; 8]> {
    (0..7)
        .map(|field| record(imu_address(field as u32, readings[field]), timestamp))
        .collect()
}

/// One array read of a 2x2 sensor, in the order the sensor scans it.
fn aps_block(reset: bool, adc: [u32; 4], timestamp: u32) -> Vec<[u8; 8]> {
    [(0, 0), (1, 0), (0, 1), (1, 1)]
        .iter()
        .zip(adc)
        .map(|(&(x, y), adc)| record(aps_address(x, y, reset, adc), timestamp))
        .collect()
}

fn record(address: u32, timestamp: u32) -> [u8; 8] {
    let mut bytes = [0u8; 8];
    bytes[0..4].copy_from_slice(&address.to_be_bytes());
    bytes[4..8].copy_from_slice(&timestamp.to_be_bytes());
    bytes
}

fn file_with(records: &[[u8; 8]]) -> Vec<u8> {
    let mut data =
        b"#!AER-DAT2.0\r\n# AEChip: eu.seebetter.ini.chips.davis.Davis346red\r\n".to_vec();
    for record in records {
        data.extend_from_slice(record);
    }
    data
}

/// The bytes from a saved state on.
fn tail_at(data: &[u8], offset: Option<u64>) -> &[u8] {
    offset.map_or(&[], |offset| &data[offset as usize..])
}

fn slice_index(source: &AedatSliceSource, data: &[u8], i0: usize, i1: usize) -> EventStream {
    let state = source.checkpoint_for_index(i0.min(source.n_events()));
    source.slice_index(tail_at(data, state.map(|s| s.byte_offset)), i0, i1)
}

fn slice_time(source: &AedatSliceSource, data: &[u8], t0: i64, t1: i64) -> EventStream {
    let state = source.checkpoint_for_time(t0);
    source.slice_time(tail_at(data, state.map(|s| s.byte_offset)), t0, t1)
}

fn frames(source: &AedatSliceSource, data: &[u8], t0: i64, t1: i64) -> Vec<(i64, EventFrame)> {
    let state = source.checkpoint_for_time(t0);
    source.frames(tail_at(data, state.map(|s| s.byte_offset)), t0, t1)
}

fn imu(source: &AedatSliceSource, data: &[u8], t0: i64, t1: i64) -> Vec<ImuCounts> {
    let state = source.checkpoint_for_time(t0);
    source.imu(tail_at(data, state.map(|s| s.byte_offset)), t0, t1)
}

#[test]
fn decodes_dvs_events_and_skips_aps_imu_samples() {
    let data = file_with(&[
        record(dvs_address(100, 50, true), 1_000),
        record(0x8000_0000, 1_001), // APS sample (bit 31) -> skipped
        record(TYPE_FLAG | 0x1234, 1_002), // IMU/type (bit 10) -> skipped
        record(dvs_address(200, 10, false), 1_005),
    ]);
    let stream = read_aedat(&data, None, None).unwrap();

    assert_eq!(stream.sensor_size(), (346, 260)); // from the Davis346 chip line
    assert_eq!(stream.len(), 2);
    assert_eq!(stream.xs(), &[100, 200]);
    assert_eq!(stream.ys(), &[209, 249]); // raw 50/10 flipped to top-left (259 - y)
    assert_eq!(stream.ts(), &[1_000, 1_005]);
    assert_eq!(stream.ps(), &[true, false]);
}

#[test]
fn aedat_header_only_file_is_empty() {
    let stream = read_aedat(&file_with(&[]), None, None).unwrap();
    assert!(stream.is_empty());
    assert_eq!(stream.sensor_size(), (346, 260));
}

#[test]
fn out_of_bounds_events_are_dropped_by_the_builder() {
    let data = file_with(&[
        record(dvs_address(1, 1, true), 1),
        record(dvs_address(300, 5, true), 2), // x >= width -> dropped
    ]);
    let stream = read_aedat(&data, Some((4, 4)), None).unwrap();
    assert_eq!(stream.len(), 1);
    assert_eq!(stream.xs(), &[1]);
}

#[test]
fn rows_are_flipped_to_the_top_left_image_convention() {
    // The raw bottom row maps to the top, and the raw top row to 0.
    let data = file_with(&[
        record(dvs_address(0, 0, true), 1),
        record(dvs_address(1, 3, true), 2),
    ]);
    let stream = read_aedat(&data, Some((4, 4)), None).unwrap();
    assert_eq!(stream.ys(), &[3, 0]);
}

#[test]
fn max_events_caps_the_read() {
    let data = file_with(&[
        record(dvs_address(1, 1, true), 1),
        record(dvs_address(2, 2, true), 2),
        record(dvs_address(3, 3, true), 3),
    ]);
    assert_eq!(read_aedat(&data, None, Some(2)).unwrap().len(), 2);
}

#[test]
fn other_aedat_versions_are_unsupported() {
    match read_aedat(b"#!AER-DAT3.1\r\n", None, None) {
        Err(IoError::Unsupported(message)) => assert!(message.contains("AEDAT 2.0")),
        other => panic!("expected unsupported version error, got {other:?}"),
    }
}

#[test]
fn missing_header_is_a_format_error() {
    match read_aedat(b"not an aedat file", None, None) {
        Err(IoError::Format(message)) => assert!(message.contains("AER-DAT")),
        other => panic!("expected a format error, got {other:?}"),
    }
}

#[test]
fn unknown_chip_without_override_is_unsupported() {
    let mut data = b"#!AER-DAT2.0\r\n# AEChip: SomeUnknownChip\r\n".to_vec();
    data.extend_from_slice(&record(dvs_address(1, 1, true), 1));
    match read_aedat(&data, None, None) {
        Err(IoError::Unsupported(message)) => assert!(message.contains("sensor_size")),
        other => panic!("expected unsupported geometry error, got {other:?}"),
    }
}

#[test]
fn a_preferences_dump_naming_other_chips_does_not_decide_the_geometry() {
    // Every chip's preferences may be in the header; only the AEChip line counts.
    let mut data =
        b"#!AER-DAT2.0\r\n# AEChip: eu.seebetter.ini.chips.davis.Davis240C\r\n".to_vec();
    data.extend_from_slice(b"#  <entry key=\"Davis346red.APS.Run\" value=\"true\"/>\r\n");
    data.extend_from_slice(&record(dvs_address(1, 1, true), 1));
    let stream = read_aedat(&data, None, None).unwrap();
    assert_eq!(stream.sensor_size(), (240, 180));
}

#[test]
fn a_dvs128_recording_is_refused_rather_than_mis_decoded() {
    let mut data =
        b"#!AER-DAT2.0\r\n# AEChip: ch.unizh.ini.caviar.chip.retina.DVS128\r\n".to_vec();
    data.extend_from_slice(&record(dvs_address(1, 1, true), 1));
    match read_aedat(&data, None, None) {
        Err(IoError::Unsupported(message)) => assert!(message.contains("DVS128")),
        other => panic!("expected an unsupported-chip error, got {other:?}"),
    }
}

#[test]
fn the_32_bit_timestamp_clock_is_unwrapped() {
    let data = file_with(&[
        record(dvs_address(1, 1, true), u32::MAX - 1),
        record(dvs_address(2, 2, true), 5), // counter rolled over
        record(dvs_address(3, 3, true), 9),
    ]);
    let stream = read_aedat(&data, None, None).unwrap();
    assert_eq!(
        stream.ts(),
        &[i64::from(u32::MAX - 1), WRAP_PERIOD + 5, WRAP_PERIOD + 9]
    );
}

#[test]
fn aedat_slices_agree_with_a_whole_file_read() {
    let records: Vec<_> = (0..4_000u32)
        .map(|i| record(dvs_address(i % 300, i % 200, i % 2 == 0), i * 10))
        .collect();
    let data = file_with(&records);
    let source = open_aedat_slice(&data, None).unwrap();
    let whole = read_aedat(&data, None, None).unwrap();

    assert_eq!(source.n_events(), whole.len());
    assert_eq!(source.time_span(), (0, 39_990));
    assert_eq!(source.sensor_size(), (346, 260));

    let head = slice_index(&source, &data, 0, 10);
    assert_eq!(head.xs(), &whole.xs()[..10]);
    assert_eq!(head.ts(), &whole.ts()[..10]);

    let middle = slice_index(&source, &data, 3_000, 3_010);
    assert_eq!(middle.xs(), &whole.xs()[3_000..3_010]);
    assert_eq!(middle.ys(), &whole.ys()[3_000..3_010]);

    let window = slice_time(&source, &data, 1_000, 1_100);
    assert_eq!(
        window.ts(),
        &[1_000, 1_010, 1_020, 1_030, 1_040, 1_050, 1_060, 1_070, 1_080, 1_090]
    );
}

#[test]
fn slices_past_a_saved_state_agree_with_a_whole_read() {
    // Enough records for a second saved state.
    let count = (CHECKPOINT_BYTES / 8 + 500) as u32;
    let records: Vec<_> = (0..count)
        .map(|i| record(dvs_address(i % 300, i % 200, i % 2 == 0), i * 10))
        .collect();
    let data = file_with(&records);
    let source = open_aedat_slice(&data, None).unwrap();
    let last = source.n_events() - 1;
    let state = source.checkpoint_for_index(last).unwrap();
    assert!(state.event_index > 0);
    let end = slice_index(&source, &data, last - 2, last + 1);
    let t = i64::from(count - 1) * 10;
    assert_eq!(end.ts(), &[t - 20, t - 10, t]);
    assert_eq!(slice_time(&source, &data, t - 10, t + 1).ts(), &[t - 10, t]);
}

#[test]
fn indexing_by_spans_is_indexing_the_file() {
    let records: Vec<_> = (0..100u32)
        .map(|i| record(dvs_address(i, i, true), u32::MAX - 50 + i % 100))
        .collect();
    let body: Vec<u8> = records.concat();
    let mut indexer = AedatIndexer::new();
    indexer.add_span(&scan_span(&body, 346, 260), 70);
    let source = indexer.finish(346, 260, vec![]);
    assert_eq!(source.n_events(), 100);
    assert!(source.header_lines().is_empty());
    let state = source.checkpoint_for_index(50).unwrap();
    assert_eq!((state.byte_offset, state.event_index), (70, 0));
}

/// A file with one frame's worth of APS blocks and one IMU sample.
fn aps_and_imu_file(settings: &str) -> Vec<u8> {
    let mut data =
        b"#!AER-DAT2.0\r\n# AEChip: eu.seebetter.ini.chips.davis.Davis346red\r\n".to_vec();
    data.extend_from_slice(settings.as_bytes());
    let mut records = Vec::new();
    // The tail of a pair that began before this file must not be merged into what follows.
    records.push(record(aps_address(0, 0, true, 999), 5));
    records.extend(aps_block(false, [10, 20, 30, 40], 10)); // signal
    records.push(record(dvs_address(1, 1, true), 11)); // events interleave with the blocks
    records.extend(aps_block(true, [100, 100, 100, 100], 20)); // reset
    records.extend(imu_records([-16_384, 0, 0, 8_000, 16_384, 0, 0], 30));
    for record in &records {
        data.extend_from_slice(record);
    }
    data
}

#[test]
fn aps_blocks_pair_into_a_correlated_double_sampled_frame() {
    let data = aps_and_imu_file("");
    let source = open_aedat_slice(&data, Some((2, 2))).unwrap();
    let frames = frames(&source, &data, 0, i64::MAX);
    assert_eq!(frames.len(), 1);

    let (t, frame) = &frames[0];
    assert_eq!(*t, 10); // stamped with the start of the signal block
    assert_eq!(frame.shape(), (1, 2, 2));
    // Reset less signal, with the rows flipped to the top-left convention.
    assert_eq!(frame.data(), &EventFrameData::U16(vec![70, 60, 90, 80]));
}

#[test]
fn frames_outside_the_window_are_not_returned() {
    let data = aps_and_imu_file("");
    let source = open_aedat_slice(&data, Some((2, 2))).unwrap();
    assert!(frames(&source, &data, 11, i64::MAX).is_empty());
    assert!(frames(&source, &data, 0, 10).is_empty());
    assert_eq!(frames(&source, &data, 10, 11).len(), 1);
}

#[test]
fn a_frame_whose_readout_runs_past_the_window_is_still_returned() {
    let data = aps_and_imu_file("");
    let source = open_aedat_slice(&data, Some((2, 2))).unwrap();
    let frames = frames(&source, &data, 0, 15);
    assert_eq!(frames.len(), 1);
    assert_eq!(frames[0].0, 10);
}

const STANDARD_GRAVITY: f64 = 9.806_65;

#[test]
fn imu_records_decode_to_si_units() {
    let data = aps_and_imu_file("");
    let source = open_aedat_slice(&data, Some((2, 2))).unwrap();
    let samples = imu(&source, &data, 0, i64::MAX);
    assert_eq!(samples.len(), 1);

    let sample = samples[0];
    assert_eq!(sample.t, 30);
    // The default scales are those of setting 0: two g and 250 degrees per second.
    assert_eq!(full_scale(source.header_lines(), "AccelFullScale"), 0);
    let acceleration = f64::from(sample.acceleration.0) * 2.0 / 32_768.0 * STANDARD_GRAVITY;
    assert!((acceleration + STANDARD_GRAVITY).abs() < 1e-9);
    assert_eq!((sample.acceleration.1, sample.acceleration.2), (0, 0));
    assert_eq!(full_scale(source.header_lines(), "GyroFullScale"), 0);
    let rotation = (f64::from(sample.rotation.0) * 250.0 / 32_768.0).to_radians();
    assert!((rotation - 125_f64.to_radians()).abs() < 1e-9);
}

#[test]
fn the_headers_full_scale_settings_scale_the_imu() {
    // The entry that counts is the recording chip's.
    let settings = "#  <entry key=\"DAVIS240A.IMU.AccelFullScale\" value=\"3\"/>\r\n\
                    #  <entry key=\"Davis346red.IMU.AccelFullScale\" value=\"2\"/>\r\n";
    let data = aps_and_imu_file(settings);
    let source = open_aedat_slice(&data, Some((2, 2))).unwrap();
    let sample = imu(&source, &data, 0, i64::MAX)[0];
    // Setting 2 is eight g, so the same reading is four times the acceleration.
    let setting = full_scale(source.header_lines(), "AccelFullScale");
    assert_eq!(setting, 2);
    let scale = f64::from(2u32 << setting);
    let acceleration = f64::from(sample.acceleration.0) * scale / 32_768.0 * STANDARD_GRAVITY;
    assert!((acceleration + 4.0 * STANDARD_GRAVITY).abs() < 1e-9);
}

#[test]
fn formats_without_auxiliary_streams_report_none() {
    let data = file_with(&[record(dvs_address(1, 1, true), 1)]);
    let source = open_aedat_slice(&data, Some((2, 2))).unwrap();
    assert!(frames(&source, &data, 0, i64::MAX).is_empty());
    assert!(imu(&source, &data, 0, i64::MAX).is_empty());
}

#[test]
fn slicing_an_empty_body_yields_nothing() {
    let data = file_with(&[]);
    let source = open_aedat_slice(&data, None).unwrap();
    assert_eq!(source.n_events(), 0);
    assert_eq!(source.time_span(), (0, 0));
    assert!(slice_index(&source, &data, 0, 10).is_empty());
    assert!(slice_time(&source, &data, 0, 1_000).is_empty());
}
