use eventcv_core::io::text::{
    infer_sensor_size, infer_time_unit, load_rows, peek_first_line, write_text_stream, RawRow,
    TextOptions, TextReader, TextScan, TextSliceSource, UnitGuess, TEXT_INDEX_STRIDE,
};
use eventcv_core::io::text_columns::{
    resolve_column_map, ColumnMap, ColumnOrder, EventKeys, TimeUnit,
};
use eventcv_core::io::IoError;
use eventcv_core::stream::MICROSECOND_SCALE;
use eventcv_core::{EventStream, EventStreamBuilder, RawEvent};

/// What a caller may leave open when a text is loaded.
#[derive(Default)]
struct Options {
    sensor_size: Option<(usize, usize)>,
    time_unit: Option<TimeUnit>,
    order: ColumnOrder,
    keys: Option<EventKeys>,
    max_events: Option<usize>,
}

fn to_microseconds(unit: TimeUnit, value: f64) -> i64 {
    let microseconds = match unit {
        TimeUnit::Seconds => value * 1e6,
        TimeUnit::Milliseconds => value * 1e3,
        TimeUnit::Microseconds => value,
        TimeUnit::Nanoseconds => value / 1e3,
    };
    microseconds.round() as i64
}

fn unit_of(guess: UnitGuess) -> TimeUnit {
    match guess {
        UnitGuess::Seconds => TimeUnit::Seconds,
        UnitGuess::Span { min, max } => {
            TimeUnit::infer_from_span((f64::from_bits(max) - f64::from_bits(min)) as i64)
        }
    }
}

fn read(data: &str, options: TextOptions) -> Result<EventStream, IoError> {
    let mut reader = TextReader::new(data.as_bytes(), options)?;
    let mut builder = EventStreamBuilder::new(options.width, options.height, MICROSECOND_SCALE);
    while let Some(row) = reader.next_row(true)? {
        let t = to_microseconds(options.time_unit, row.t.parse().unwrap());
        let e = row.event(t).unwrap();
        builder.push(e.x, e.y, e.t, e.p);
    }
    Ok(builder.build())
}

/// The rows of a text, with the starts of their lines.
fn raw_rows(data: &str, map: ColumnMap, has_header: bool) -> Result<Vec<(u64, RawRow)>, IoError> {
    let options = TextOptions {
        map,
        has_header,
        ..TextOptions::new(1, 1)
    };
    let mut reader = TextReader::new(data.as_bytes(), options)?;
    let mut rows = Vec::new();
    while let Some(row) = reader.next_row(false)? {
        let number = |text: &str| text.parse::<f64>().unwrap();
        let raw = RawRow {
            x: number(&row.x) as u16,
            y: number(&row.y) as u16,
            t: number(&row.t).to_bits(),
            p: number(&row.p) > 0.0,
        };
        rows.push((row.offset as u64, raw));
    }
    Ok(rows)
}

fn layout(data: &str, options: &Options) -> Result<(ColumnMap, bool), IoError> {
    let first = peek_first_line(data.as_bytes())?;
    resolve_column_map(first.as_deref(), options.order, options.keys.as_ref())
}

fn load_text(data: &str, options: &Options) -> Result<EventStream, IoError> {
    let (map, has_header) = layout(data, options)?;
    if let (Some((width, height)), Some(time_unit)) = (options.sensor_size, options.time_unit) {
        let options = TextOptions {
            width,
            height,
            time_unit,
            map,
            has_header,
        };
        return read(data, options);
    }
    let rows: Vec<RawRow> = raw_rows(data, map, has_header)?.into_iter().map(|r| r.1).collect();
    let (width, height) = options.sensor_size.unwrap_or_else(|| infer_sensor_size(&rows));
    let unit = options.time_unit.unwrap_or_else(|| unit_of(infer_time_unit(&rows)));
    let events: Vec<RawEvent> = rows
        .iter()
        .map(|r| RawEvent {
            x: r.x,
            y: r.y,
            t: to_microseconds(unit, f64::from_bits(r.t)),
            p: r.p,
        })
        .collect();
    load_rows(&events, width, height, options.max_events)
}

fn open_text_slice(data: &str, options: &Options) -> Result<TextSliceSource, IoError> {
    let (map, has_header) = layout(data, options)?;
    let mut scan = TextScan::new(options.sensor_size);
    for (offset, row) in raw_rows(data, map, has_header)? {
        scan.add(offset, &row);
    }
    let sensor = scan.sensor_size()?;
    let unit = options.time_unit.unwrap_or_else(|| unit_of(scan.unit_guess()));
    let micros = |bits: u64| to_microseconds(unit, f64::from_bits(bits));
    let times: Vec<i64> = scan.sample_times().into_iter().map(micros).collect();
    let span = scan.extent().map_or((0, 0), |(a, b)| (micros(a), micros(b)));
    Ok(scan.into_source(map, unit, sensor, &times, span))
}

fn slice_index(source: &TextSliceSource, data: &str, i0: usize, i1: usize) -> EventStream {
    let Some((offset, mut collector)) = source.slice_index(i0, i1) else {
        let (width, height) = source.sensor_size();
        return EventStreamBuilder::new(width, height, MICROSECOND_SCALE).build();
    };
    let tail = &data.as_bytes()[offset as usize..];
    let mut reader = TextReader::new(tail, source.options()).unwrap();
    while collector.wants_more() {
        let Some(row) = reader.next_row(true).unwrap() else {
            break;
        };
        let t = to_microseconds(source.time_unit(), row.t.parse().unwrap());
        collector.push(row.event(t).unwrap());
    }
    collector.finish()
}

fn slice_time(source: &TextSliceSource, data: &str, t0: i64, t1: i64) -> EventStream {
    let Some((offset, mut collector)) = source.slice_time(t0, t1) else {
        let (width, height) = source.sensor_size();
        return EventStreamBuilder::new(width, height, MICROSECOND_SCALE).build();
    };
    let tail = &data.as_bytes()[offset as usize..];
    let mut reader = TextReader::new(tail, source.options()).unwrap();
    while let Some(row) = reader.next_row(true).unwrap() {
        let t = to_microseconds(source.time_unit(), row.t.parse().unwrap());
        if !collector.push(row.event(t).unwrap()) {
            break;
        }
    }
    collector.finish()
}

#[test]
fn parses_txyp_seconds_skips_noise_and_drops_out_of_bounds() {
    let data = "0.0 1 2 1\n0.000002 3 0 0\n\n# comment\n0.00001 0 4 1\n0.00002 4 0 1\n";
    let stream = read(data, TextOptions::new(4, 5)).unwrap();

    assert_eq!(stream.len(), 3); // (4, 0) dropped: x == width
    assert_eq!(stream.xs(), &[1, 3, 0]);
    assert_eq!(stream.ys(), &[2, 0, 4]);
    assert_eq!(stream.ts(), &[0, 2, 10]);
    assert_eq!(stream.ps(), &[true, false, true]);
    assert_eq!(stream.sensor_size(), (4, 5));
    assert_eq!(f64::from_bits(stream.timestamp_scale_bits()), 0.001);
}

#[test]
fn supports_xytp_order_and_negative_polarity() {
    let options = TextOptions {
        map: ColumnMap::from_order(ColumnOrder::Xytp),
        ..TextOptions::new(8, 8)
    };
    let stream = read("1 2 0.5 -1\n", options).unwrap();

    assert_eq!(stream.xs(), &[1]);
    assert_eq!(stream.ys(), &[2]);
    assert_eq!(stream.ts(), &[500_000]); // 0.5 s -> 500000 us
    assert_eq!(stream.ps(), &[false]); // -1 -> negative
}

#[test]
fn converts_time_units_to_microseconds() {
    for (unit, raw, expected) in [
        (TimeUnit::Microseconds, "7", 7_i64),
        (TimeUnit::Milliseconds, "2", 2_000),
        (TimeUnit::Nanoseconds, "2400", 2),
    ] {
        let data = format!("{raw} 0 0 1\n");
        let options = TextOptions {
            time_unit: unit,
            ..TextOptions::new(4, 4)
        };
        assert_eq!(read(&data, options).unwrap().ts(), &[expected], "unit {unit:?}");
        assert_eq!(unit.microseconds_from_int(raw.parse().unwrap()), expected);
    }
}

#[test]
fn reports_parse_errors_with_line_numbers() {
    let error = read("0.0 1 2 1\n0.0 nope 2 1\n", TextOptions::new(4, 4)).unwrap_err();
    match error {
        IoError::Parse { line, message } => {
            assert_eq!(line, 2);
            assert_eq!(message, "invalid x: \"nope\"");
        }
        other => panic!("expected parse error, got {other:?}"),
    }
}

#[test]
fn reports_missing_fields() {
    let error = read("0.0 1 2\n", TextOptions::new(4, 4)).unwrap_err();
    assert!(matches!(error, IoError::Parse { line: 1, .. }));
}

#[test]
fn rejects_zero_sensor_size() {
    let error = TextReader::new(b"", TextOptions::new(0, 4)).err().unwrap();
    assert!(matches!(error, IoError::InvalidSensorSize));
}

#[test]
fn empty_input_yields_empty_stream() {
    let stream = read("\n\n# only comments\n", TextOptions::new(4, 4)).unwrap();
    assert!(stream.is_empty());
    assert_eq!(stream.sensor_size(), (4, 4));
}

#[test]
fn bytes_that_are_not_text_are_an_error() {
    let mut reader = TextReader::new(b"1 2 \xFF 3\n", TextOptions::new(4, 4)).unwrap();
    assert!(matches!(reader.next_row(true), Err(IoError::Io(_))));
}

#[test]
fn load_text_infers_size_and_microseconds() {
    // Integer microseconds; coordinates up to (3, 2) -> 4x3; span 5e6 -> microseconds.
    let data = "1000000 0 0 1\n3000000 3 1 0\n6000000 1 2 1\n";
    let stream = load_text(data, &Options::default()).unwrap();

    assert_eq!(stream.sensor_size(), (4, 3));
    assert_eq!(stream.len(), 3); // nothing dropped: size came from the data
    assert_eq!(stream.ts(), &[1_000_000, 3_000_000, 6_000_000]);
}

#[test]
fn load_text_infers_seconds_from_a_fractional_value() {
    let stream = load_text("0.0 0 0 1\n0.5 1 1 0\n", &Options::default()).unwrap();
    assert_eq!(stream.ts(), &[0, 500_000]); // 0.5 s -> 500000 us
}

#[test]
fn explicit_options_override_inference() {
    let options = Options {
        sensor_size: Some((4, 4)),
        time_unit: Some(TimeUnit::Microseconds),
        ..Options::default()
    };
    let stream = load_text("7 0 0 1\n", &options).unwrap();

    assert_eq!(stream.sensor_size(), (4, 4));
    assert_eq!(stream.ts(), &[7]); // explicit microseconds, not inferred
}

fn in_microseconds() -> Options {
    Options {
        time_unit: Some(TimeUnit::Microseconds),
        ..Options::default()
    }
}

#[test]
fn text_slice_source_matches_load() {
    let mut data = String::new();
    for i in 0..10 {
        data.push_str(&format!("{} {} {} {}\n", i * 1000, i, i % 5, i % 2));
    }
    let source = open_text_slice(&data, &in_microseconds()).unwrap();
    let full = load_text(&data, &in_microseconds()).unwrap();

    assert_eq!(source.n_events(), full.len());
    assert_eq!(source.sensor_size(), full.sensor_size()); // (10, 5)
    assert_eq!(source.time_span(), (0, 9000));

    assert_eq!(
        slice_time(&source, &data, 2000, 6000).ts(),
        &[2000, 3000, 4000, 5000]
    );
    assert_eq!(slice_index(&source, &data, 3, 7).ts(), &[3000, 4000, 5000, 6000]);

    let whole = slice_index(&source, &data, 0, source.n_events());
    assert_eq!(whole.xs(), full.xs());
    assert_eq!(whole.ts(), full.ts());
    assert_eq!(whole.ps(), full.ps());
}

#[test]
fn text_slice_rejects_unsorted_timestamps() {
    let data = "0 0 0 1\n5000 1 1 0\n2000 2 2 1\n";
    match open_text_slice(data, &Options::default()) {
        Err(IoError::Format(message)) => assert!(message.contains("not sorted")),
        Err(other) => panic!("expected a not-sorted error, got {other:?}"),
        Ok(_) => panic!("expected unsorted text to be rejected"),
    }
}

#[test]
fn text_slice_keeps_same_timestamp_events_spanning_the_index_stride() {
    let dense = TEXT_INDEX_STRIDE * 2 + 100;
    let mut data = String::from("0 0 0 1\n"); // one earlier event
    for _ in 0..dense {
        data.push_str("1000 1 1 1\n");
    }
    data.push_str("2000 2 2 0\n"); // one later event
    let source = open_text_slice(&data, &in_microseconds()).unwrap();

    assert_eq!(slice_time(&source, &data, 1000, 2000).len(), dense);
    // Tiling must recover every event with no drops or duplicates.
    let tiled = slice_time(&source, &data, 0, 1000).len()
        + slice_time(&source, &data, 1000, 2000).len()
        + slice_time(&source, &data, 2000, 3000).len();
    assert_eq!(tiled, source.n_events());
    // An index slice past the first sample starts at a later one.
    assert_eq!(slice_index(&source, &data, dense, dense + 9).ts(), &[1000, 2000]);
}

#[test]
fn text_slice_empty_file() {
    let data = "\n# only a comment\n";
    let source = open_text_slice(data, &Options::default()).unwrap();

    assert_eq!(source.n_events(), 0);
    assert_eq!(source.time_span(), (0, 0));
    assert!(slice_time(&source, data, 0, 1000).is_empty());
    assert!(slice_index(&source, data, 0, 10).is_empty());
}

#[test]
fn write_text_stream_round_trips_at_event_level() {
    let mut builder = EventStreamBuilder::new(16, 12, 0.001f64.to_bits());
    for &(x, y, t, p) in &[(0u16, 0u16, 5i64, true), (15, 11, 2_500_000, false)] {
        builder.push(x, y, t, p);
    }
    let stream = builder.build();
    let text = write_text_stream(&stream);
    assert_eq!(text, "5 0 0 1\n2500000 15 11 0\n");

    let options = Options {
        sensor_size: Some((16, 12)),
        time_unit: Some(TimeUnit::Microseconds),
        ..Options::default()
    };
    let loaded = load_text(&text, &options).unwrap();
    assert_eq!(loaded.xs(), stream.xs());
    assert_eq!(loaded.ys(), stream.ys());
    assert_eq!(loaded.ts(), stream.ts());
    assert_eq!(loaded.ps(), stream.ps());
    assert_eq!(loaded.sensor_size(), (16, 12));
}

#[test]
fn load_text_reads_csv_with_header_in_any_order() {
    let data = "x,y,t,p\n1,2,1000,1\n3,0,2000,0\n0,1,3000,1\n";
    let stream = load_text(data, &in_microseconds()).unwrap();

    assert_eq!(stream.len(), 3); // header skipped, three data rows
    assert_eq!(stream.xs(), &[1, 3, 0]);
    assert_eq!(stream.ys(), &[2, 0, 1]);
    assert_eq!(stream.ts(), &[1000, 2000, 3000]);
    assert_eq!(stream.ps(), &[true, false, true]);
}

#[test]
fn load_text_matches_synonym_header_names() {
    let data = "timestamp x y polarity\n1000 1 2 1\n2000 3 0 0\n";
    let stream = load_text(data, &in_microseconds()).unwrap();
    assert_eq!(stream.xs(), &[1, 3]);
    assert_eq!(stream.ts(), &[1000, 2000]);
}

#[test]
fn text_keys_override_selects_columns_by_index() {
    let options = Options {
        keys: Some(EventKeys {
            x: "0".to_owned(),
            y: "1".to_owned(),
            t: "2".to_owned(),
            p: "3".to_owned(),
        }),
        ..in_microseconds()
    };
    let stream = load_text("1 2 1000 1\n3 0 2000 0\n", &options).unwrap(); // x y t p
    assert_eq!(stream.xs(), &[1, 3]);
    assert_eq!(stream.ys(), &[2, 0]);
    assert_eq!(stream.ts(), &[1000, 2000]);
}

#[test]
fn a_key_that_names_no_column_is_a_format_error() {
    let options = Options {
        keys: Some(EventKeys {
            x: "0".to_owned(),
            y: "1".to_owned(),
            t: "when".to_owned(),
            p: "3".to_owned(),
        }),
        ..in_microseconds()
    };
    match load_text("1 2 1000 1\n", &options) {
        Err(IoError::Format(message)) => assert_eq!(
            message,
            "text key for 't' (\"when\") is neither a column index nor a header name"
        ),
        other => panic!("expected a format error, got {other:?}"),
    }
    assert!(matches!(
        load_text("a b c d\n1 2 3 4\n", &in_microseconds()),
        Err(IoError::Format(_))
    ));
}

#[test]
fn text_slice_over_headed_csv_matches_load() {
    let mut data = String::from("t,x,y,p\n");
    for i in 0..10 {
        data.push_str(&format!("{},{},{},{}\n", i * 1000, i, i % 5, i % 2));
    }
    let source = open_text_slice(&data, &in_microseconds()).unwrap();
    let full = load_text(&data, &in_microseconds()).unwrap();

    assert_eq!(source.n_events(), full.len()); // header excluded from the count
    assert_eq!(source.time_span(), (0, 9000));
    assert_eq!(slice_time(&source, &data, 2000, 5000).ts(), &[2000, 3000, 4000]);
}

#[test]
fn the_unit_is_the_finest_that_lasts_a_second() {
    for (span, unit) in [
        (999, TimeUnit::Seconds),
        (1_000, TimeUnit::Milliseconds),
        (1_000_000, TimeUnit::Microseconds),
        (651_000_000_000, TimeUnit::Nanoseconds),
        (-5, TimeUnit::Seconds),
    ] {
        assert_eq!(TimeUnit::infer_from_span(span), unit, "span {span}");
    }
}

#[test]
fn opening_infers_the_unit_from_all_rows_as_loading_does() {
    let data = "0 0 0 1\n2000 1 1 0\n2000.5 9 9 1\n";
    let options = Options {
        sensor_size: Some((2, 2)),
        ..Options::default()
    };
    let source = open_text_slice(data, &options).unwrap();
    assert_eq!(source.time_unit(), TimeUnit::Seconds);
    assert_eq!(source.n_events(), 2);
    assert_eq!(source.time_span(), (0, 2_000_000_000));
    assert_eq!(load_text(data, &options).unwrap().ts(), &[0, 2_000_000_000]);
}

#[test]
fn adjoining_windows_make_the_wide_one() {
    let mut data = String::new();
    for i in 0..9000 {
        data.push_str(&format!("{} {} 0 1\n", i / 3000, i % 7));
    }
    let options = in_microseconds();
    let source = open_text_slice(&data, &options).unwrap();
    let whole = slice_index(&source, &data, 0, source.n_events());
    for (t0, tm, t1) in [(0, 1, 3), (0, 2, 2), (1, 1, 2), (-5, 1, 9)] {
        let (a, b) = (slice_time(&source, &data, t0, tm), slice_time(&source, &data, tm, t1));
        let c = slice_time(&source, &data, t0, t1);
        assert_eq!([a.ts(), b.ts()].concat(), c.ts());
        assert_eq!([a.xs(), b.xs()].concat(), c.xs());
        let wanted = whole.ts().iter().filter(|&&t| t0 <= t && t < t1).count();
        assert_eq!(c.len(), wanted);
    }
}
