use eventcv_core::io::e2vid::E2vidWriter;
use eventcv_core::io::IoError;
use eventcv_core::ros2::time_shift;
use eventcv_core::{EventStream, EventStreamBuilder};

fn stream() -> EventStream {
    let mut builder = EventStreamBuilder::new(640, 480, 0.001f64.to_bits());
    builder.push(10, 20, 1_500_000, true);
    builder.push(11, 21, 2_250_000, false);
    builder.build()
}

/// The times of a stream as seconds with six decimals.
fn seconds(stream: &EventStream) -> Vec<String> {
    let scale = f64::from_bits(stream.timestamp_scale_bits());
    let second = |&t: &i64| format!("{:.6}", t as f64 * scale / 1_000.0);
    stream.ts().iter().map(second).collect()
}

fn append(writer: &mut E2vidWriter, stream: &EventStream) -> (String, Result<(), IoError>) {
    writer.append(stream, &seconds(stream))
}

fn written(stream: &EventStream) -> String {
    let mut writer = E2vidWriter::create();
    let (mut text, outcome) = append(&mut writer, stream);
    outcome.unwrap();
    text.push_str(writer.finish());
    text
}

#[test]
fn writes_the_header_then_seconds_x_y_polarity() {
    let text = written(&stream());
    let mut lines = text.lines();
    assert_eq!(lines.next(), Some("640 480"));
    assert_eq!(lines.next(), Some("1.500000 10 20 1"));
    assert_eq!(lines.next(), Some("2.250000 11 21 0"));
    assert_eq!(lines.next(), None);
}

#[test]
fn appends_keep_one_header_and_count_events() {
    let mut writer = E2vidWriter::create();
    let (mut text, outcome) = append(&mut writer, &stream());
    outcome.unwrap();
    let (more, outcome) = append(&mut writer, &time_shift(&stream(), 10_000_000));
    outcome.unwrap();
    text.push_str(&more);
    assert_eq!(writer.n_events(), 4);
    text.push_str(writer.finish());
    assert_eq!(text.lines().filter(|line| *line == "640 480").count(), 1);
    assert_eq!(text.lines().count(), 5);
}

#[test]
fn an_empty_stream_still_writes_a_loadable_file() {
    let empty = EventStreamBuilder::new(346, 260, 0.001f64.to_bits()).build();
    assert_eq!(written(&empty), "346 260\n");
    assert_eq!(E2vidWriter::create().finish(), "0 0\n");
}

#[test]
fn out_of_order_timestamps_are_rejected() {
    let mut builder = EventStreamBuilder::new(64, 64, 0.001f64.to_bits());
    builder.push(1, 1, 2_000_000, true);
    builder.push(1, 1, 1_000_000, true);
    let (_, outcome) = append(&mut E2vidWriter::create(), &builder.build());
    match outcome {
        Err(IoError::Unsupported(message)) => {
            assert!(message.contains("time order"), "{message}")
        }
        other => panic!("expected a refusal, got {other:?}"),
    }
}

#[test]
fn a_second_sensor_size_is_rejected() {
    let mut writer = E2vidWriter::create();
    append(&mut writer, &stream()).1.unwrap();
    let other = EventStreamBuilder::new(346, 260, 0.001f64.to_bits()).build();
    match append(&mut writer, &other).1 {
        Err(IoError::Unsupported(message)) => {
            assert!(message.contains("one recording"), "{message}")
        }
        other => panic!("expected a refusal, got {other:?}"),
    }
}

#[test]
fn a_non_microsecond_stream_still_writes_seconds() {
    let mut builder = EventStreamBuilder::new(64, 64, 1.0f64.to_bits()); // 1 ms per unit
    builder.push(1, 1, 1500, true);
    let text = written(&builder.build());
    assert!(text.contains("1.500000 1 1 1"), "{text}");
}
