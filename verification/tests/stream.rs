use eventcv_core::stream::MICROSECOND_SCALE;
use eventcv_core::{EventStream, EventStreamBuilder};

#[test]
fn the_microsecond_scale_is_a_thousandth() {
    assert_eq!(MICROSECOND_SCALE, 0.001f64.to_bits());
}

#[test]
fn builder_drops_out_of_bounds_events_and_keeps_columns_aligned() {
    let mut builder = EventStreamBuilder::new(4, 3, 0.001f64.to_bits());

    assert!(builder.push(1, 2, 10, true));
    assert!(!builder.push(4, 0, 20, false)); // x == width -> dropped
    assert!(!builder.push(0, 3, 30, true)); // y == height -> dropped
    assert!(builder.push(3, 0, 40, false));

    let stream = builder.build();
    assert_eq!(stream.len(), 2);
    assert_eq!(stream.xs(), &[1, 3]);
    assert_eq!(stream.ys(), &[2, 0]);
    assert_eq!(stream.ts(), &[10, 40]);
    assert_eq!(stream.ps(), &[true, false]);
    assert_eq!(stream.sensor_size(), (4, 3));
}

#[test]
fn to_array2_round_trips_columns_in_xytp_order() {
    let stream = EventStream::from_rows(
        &[[1, 2, 100, 1], [3, 0, 250, 0]],
        4,
        3,
        0.001f64.to_bits(),
    );
    let events = stream.to_rows();

    assert_eq!(events.len(), 2 * 4);
    assert_eq!(events[..4], [1, 2, 100, 1]);
    assert_eq!(events[4..], [3, 0, 250, 0]);
}

#[test]
fn streams_and_columns_are_appended() {
    let mut builder = EventStreamBuilder::with_capacity(4, 3, MICROSECOND_SCALE, 8);
    assert!(builder.is_empty());
    builder.extend_from_columns(&[1, 3], &[1, 1], &[5, 6], &[true, true]);
    let first = builder.build();
    let mut builder = EventStreamBuilder::new(4, 3, MICROSECOND_SCALE);
    builder.push(0, 0, 1, false);
    builder.extend_from_stream(&first);
    assert_eq!(builder.len(), 1 + first.len());
    let all = builder.build();
    assert_eq!(all.get(1), first.get(0));
    assert_eq!(all.event(1).timestamp, 5);
    assert_eq!(all.iter().len(), all.len());
    assert_eq!(all.timestamp_scale_bits(), MICROSECOND_SCALE);

    // A smaller sensor keeps what lies on it.
    let mut builder = EventStreamBuilder::new(2, 2, MICROSECOND_SCALE);
    builder.extend_from_stream(&all);
    assert_eq!(builder.build().ts(), &[1, 5]);
}
