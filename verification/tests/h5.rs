use eventcv_core::io::h5::{
    add_xy_counts, chunk_len, column_max, coordinate, dtype_tag, events_read, extent_ranges, frame_parts,
    infer_sensor_size, known_sensor_size, resolve_time_unit, sample_type, scan_windows, AppendPlan, EventBlock,
    Hdf5EventSink, Hdf5FrameSink, Hdf5SliceSource, OrderCheck, RangeReader, SampleType,
    SearchStart, BLOCK, EVENT_CHUNK, SCAN_BUDGET,
};
use eventcv_core::io::h5_layout::{
    decode_column, decode_scalar, detect_compound, detect_separate, missing_dataset,
    resolve_named_columns, unresolved_message, with_fields, Columns, DatasetInfo, FieldInfo,
    NamedColumns, ScalarKind,
};
use eventcv_core::io::text_columns::{EventKeys, TimeUnit};
use eventcv_core::io::IoError;
use eventcv_core::representation::binary::Binary;
use eventcv_core::representation::{EventFrame, EventFrameData, Representation, RepresentationKind};
use eventcv_core::stream::MICROSECOND_SCALE;
use eventcv_core::{EventStream, EventStreamBuilder};

/// The columns of a recording, as they are stored.
struct Recording {
    xs: Vec<i64>,
    ys: Vec<i64>,
    ts: Vec<i64>,
    ps: Vec<bool>,
}

impl Recording {
    fn new(xs: &[i64], ys: &[i64], ts: &[i64], ps: &[bool]) -> Self {
        Recording {
            xs: xs.to_vec(),
            ys: ys.to_vec(),
            ts: ts.to_vec(),
            ps: ps.to_vec(),
        }
    }

    fn block(&self, (a, b): (usize, usize)) -> EventBlock {
        EventBlock {
            xs: self.xs[a..b].to_vec(),
            ys: self.ys[a..b].to_vec(),
            ts: self.ts[a..b].to_vec(),
            ps: self.ps[a..b].to_vec(),
        }
    }

    fn drain(&self, mut reader: RangeReader) -> EventStream {
        while let Some(range) = reader.block() {
            reader.take(&self.block(range));
        }
        reader.finish()
    }

    fn read(&self, width: usize, height: usize, unit: TimeUnit) -> EventStream {
        self.drain(RangeReader::new(0, self.ts.len(), width, height, unit))
    }

    fn open(&self, width: usize, height: usize, unit: TimeUnit) -> Result<Hdf5SliceSource, IoError> {
        let total = self.ts.len();
        let mut order = OrderCheck::new(total);
        while let Some(index) = order.next() {
            order.take(self.ts[index])?;
        }
        let (first, last) = match total {
            0 => (0, 0),
            _ => (self.ts[0], self.ts[total - 1]),
        };
        Ok(Hdf5SliceSource::new(width, height, unit, total, first, last))
    }

    fn slice_time(&self, source: &Hdf5SliceSource, t0: i64, t1: i64) -> EventStream {
        let start = match source.lower_bound_time(t0) {
            SearchStart::Found(start) => start,
            SearchStart::Search(mut search) => {
                while let Some(index) = search.probe() {
                    let t = source.time_unit().microseconds_from_int(self.ts[index]);
                    search.learn(index, t);
                }
                search.found()
            }
        };
        let mut reader = source.read_window(start, t1);
        while let Some(range) = reader.block() {
            reader.take(&self.block(range));
        }
        reader.finish()
    }

    fn slice_index(&self, source: &Hdf5SliceSource, i0: usize, i1: usize) -> EventStream {
        self.drain(source.slice_index(i0, i1))
    }
}

fn grouped() -> Recording {
    Recording::new(
        &[1, 3, 0, 4],
        &[2, 0, 1, 0],
        &[1000, 2000, 3000, 4000],
        &[true, false, true, false],
    )
}

/// Datasets of one dimension with three events each.
fn datasets(names: &[&str]) -> Vec<DatasetInfo> {
    names
        .iter()
        .map(|name| DatasetInfo {
            name: name.to_string(),
            dimensions: 1,
            len: 3,
            compound: false,
        })
        .collect()
}

#[test]
fn reads_grouped_event_datasets_and_drops_out_of_bounds() {
    let found = detect_separate(&datasets(&["events/p", "events/t", "events/x", "events/y"]));
    assert_eq!(found, Some(Columns { x: 2, y: 3, t: 1, p: 0 }));
    let stream = grouped().read(4, 4, TimeUnit::Microseconds);

    assert_eq!(stream.len(), 3); // (4, 0) dropped: x == width
    assert_eq!(stream.xs(), &[1, 3, 0]);
    assert_eq!(stream.ys(), &[2, 0, 1]);
    assert_eq!(stream.ts(), &[1000, 2000, 3000]);
    assert_eq!(stream.ps(), &[true, false, true]);
}

#[test]
fn nanosecond_timestamps_convert_to_microseconds() {
    let recording = Recording::new(&[0, 1], &[0, 1], &[1_000_000, 2_500_000], &[true, false]);
    let stream = recording.read(8, 8, TimeUnit::Nanoseconds);
    assert_eq!(stream.ts(), &[1000, 2500]); // ns -> us
}

#[test]
fn detects_synonym_columns_under_a_nested_group() {
    let names = [
        "events/x_coordinates",
        "events/y_coordinates",
        "events/timestamps",
        "events/polarities",
    ];
    let found = detect_separate(&datasets(&names));
    assert_eq!(found, Some(Columns { x: 0, y: 1, t: 2, p: 3 }));
}

#[test]
fn detects_root_level_synonyms() {
    let found = detect_separate(&datasets(&["xs", "ys", "ts", "ps"]));
    assert_eq!(found, Some(Columns { x: 0, y: 1, t: 2, p: 3 }));
}

fn keys(x: &str, y: &str, t: &str, p: &str) -> EventKeys {
    EventKeys {
        x: x.to_owned(),
        y: y.to_owned(),
        t: t.to_owned(),
        p: p.to_owned(),
    }
}

#[test]
fn keys_override_names_arbitrary_datasets() {
    let names = ["raw/aa", "raw/bb", "raw/cc", "raw/dd"];
    assert_eq!(detect_separate(&datasets(&names)), None);
    let described: Vec<String> = names.iter().map(|name| name.to_string()).collect();
    let message = unresolved_message(&described);
    assert!(message.contains("could not identify"));
    assert!(message.contains("raw/aa"));
    let named = keys("raw/aa", "raw/bb", "raw/cc", "raw/dd");
    assert!(matches!(
        resolve_named_columns(&named, [true; 4]),
        Ok(NamedColumns::Separate)
    ));
}

#[test]
fn keys_may_be_fields_of_one_dataset() {
    let named = keys("CD/a", "CD/b", "CD/c", "CD/d");
    match resolve_named_columns(&named, [false; 4]) {
        Ok(NamedColumns::Fields { dataset }) => assert_eq!(dataset, "CD"),
        other => panic!("expected fields, got {other:?}"),
    }
    let scattered = keys("CD/a", "CE/b", "CD/c", "CD/d");
    assert!(resolve_named_columns(&scattered, [false; 4]).is_err());
    let field = |name: &str, offset| FieldInfo {
        name: name.to_owned(),
        offset,
        kind: ScalarKind::Unsigned { size: 2 },
    };
    let fields = [field("d", 0), field("c", 2), field("b", 4), field("a", 6)];
    let found = with_fields(Some(&fields[..]), "CD", &named).unwrap();
    assert_eq!(found, Columns { x: 3, y: 2, t: 1, p: 0 });
    assert!(with_fields(None, "CD", &named).is_err());
    assert!(matches!(missing_dataset("CD"), IoError::Format(_)));
}

/// A record: x, y, p and t at their offsets in native layout.
fn cd_event(x: u16, y: u16, p: u8, t: i64) -> [u8; 16] {
    let mut bytes = [0; 16];
    bytes[0..2].copy_from_slice(&x.to_le_bytes());
    bytes[2..4].copy_from_slice(&y.to_le_bytes());
    bytes[4] = p;
    bytes[8..16].copy_from_slice(&t.to_le_bytes());
    bytes
}

fn cd_fields() -> Vec<FieldInfo> {
    let field = |name: &str, offset, kind| FieldInfo {
        name: name.to_owned(),
        offset,
        kind,
    };
    vec![
        field("x", 0, ScalarKind::Unsigned { size: 2 }),
        field("y", 2, ScalarKind::Unsigned { size: 2 }),
        field("p", 4, ScalarKind::Unsigned { size: 1 }),
        field("t", 8, ScalarKind::Signed { size: 8 }),
    ]
}

fn decoded(records: &[u8]) -> Recording {
    let fields = cd_fields();
    let found = detect_compound(&fields).unwrap();
    let column = |at: usize| decode_column(records, 16, fields[at].offset, fields[at].kind, false);
    Recording {
        xs: column(found.x),
        ys: column(found.y),
        ts: column(found.t),
        ps: column(found.p).into_iter().map(|p| p > 0).collect(),
    }
}

#[test]
fn detects_and_reads_a_compound_dataset() {
    let records = [
        cd_event(1, 2, 1, 1000),
        cd_event(3, 0, 0, 2000),
        cd_event(0, 1, 1, 3000),
        cd_event(4, 0, 1, 4000), // out of a 4x4 sensor -> dropped
    ];
    let recording = decoded(&records.concat());
    let stream = recording.read(4, 4, TimeUnit::Microseconds);
    assert_eq!(stream.len(), 3); // (4, 0) dropped
    assert_eq!(stream.xs(), &[1, 3, 0]);
    assert_eq!(stream.ys(), &[2, 0, 1]);
    assert_eq!(stream.ts(), &[1000, 2000, 3000]);
    assert_eq!(stream.ps(), &[true, false, true]);

    let source = recording.open(4, 4, TimeUnit::Microseconds).unwrap();
    assert_eq!(source.n_events(), 4);
    assert_eq!(recording.slice_time(&source, 2000, 4000).ts(), &[2000, 3000]);
}

#[test]
fn empty_compound_dataset_reads_empty() {
    let stream = decoded(&[]).read(4, 4, TimeUnit::Microseconds);
    assert!(stream.is_empty());
}

#[test]
fn infers_sensor_size_and_time_unit_when_unset() {
    let coordinates = [0, 1, 2, 3, 4, 5];
    let ts = [1_000_000, 2_000_000, 3_000_000, 4_000_000, 5_000_000, 6_000_000];
    let recording =
        Recording::new(&coordinates, &coordinates, &ts, &[true, false, true, false, true, false]);
    let (head, tail) = extent_ranges(6);
    let reach = |(a, b): (usize, usize)| {
        (
            column_max(&recording.xs[a..b]) as usize,
            column_max(&recording.ys[a..b]) as usize,
        )
    };
    let (width, height) = infer_sensor_size(6, reach(head), reach(tail));
    let unit = resolve_time_unit(None, None, 6, ts[0], ts[5]);
    let stream = recording.read(width, height, unit);

    assert_eq!(stream.sensor_size(), (6, 6)); // max coordinate 5 -> 6, nothing dropped
    assert_eq!(stream.len(), 6);
    assert_eq!(stream.ts(), &ts); // span 5e6 -> microseconds
    assert_eq!(
        resolve_time_unit(None, Some(TimeUnit::Seconds), 6, ts[0], ts[5]),
        TimeUnit::Seconds
    );
}

/// Six in-bounds events with strictly increasing timestamps.
fn sorted() -> Recording {
    let coordinates = [0, 1, 2, 3, 4, 5];
    Recording::new(
        &coordinates,
        &coordinates,
        &[1000, 2000, 3000, 4000, 5000, 6000],
        &[true, false, true, false, true, false],
    )
}

#[test]
fn slice_source_reports_span_and_count() {
    let source = sorted().open(8, 8, TimeUnit::Microseconds).unwrap();

    assert_eq!(source.n_events(), 6);
    assert_eq!(source.time_span(), (1000, 6000));
    assert_eq!(source.sensor_size(), (8, 8));
}

#[test]
fn slice_time_is_half_open_and_binary_searched() {
    let recording = sorted();
    let source = recording.open(8, 8, TimeUnit::Microseconds).unwrap();

    let slice = recording.slice_time(&source, 2000, 5000);
    assert_eq!(slice.ts(), &[2000, 3000, 4000]); // 5000 excluded
    assert_eq!(slice.xs(), &[1, 2, 3]);

    // A window past the end is empty; one spanning everything keeps all six.
    assert!(recording.slice_time(&source, 7000, 8000).is_empty());
    assert_eq!(recording.slice_time(&source, 0, 10_000).len(), 6);
}

#[test]
fn slice_index_clamps_out_of_range() {
    let recording = sorted();
    let source = recording.open(8, 8, TimeUnit::Microseconds).unwrap();

    assert_eq!(recording.slice_index(&source, 1, 4).ts(), &[2000, 3000, 4000]);
    assert_eq!(recording.slice_index(&source, 4, 100).ts(), &[5000, 6000]); // hi clamped
    assert!(recording.slice_index(&source, 10, 20).is_empty()); // wholly past the end
}

#[test]
fn pixel_counts_reads_xy_only_and_drops_out_of_bounds() {
    let recording = grouped();
    let mut counts = vec![0; 16];
    for (a, b) in scan_windows(4) {
        let xs: Vec<usize> = recording.xs[a..b].iter().map(|&x| coordinate(x)).collect();
        let ys: Vec<usize> = recording.ys[a..b].iter().map(|&y| coordinate(y)).collect();
        add_xy_counts(&xs, &ys, 4, 4, &mut counts);
    }
    assert_eq!(counts.len(), 16);
    assert_eq!(counts.iter().sum::<u64>(), 3); // (4, 0) dropped: x == width
    assert_eq!(counts[9], 1); // (x=1, y=2) -> 2*4 + 1
    assert_eq!(counts[3], 1); // (x=3, y=0)
    assert_eq!(counts[4], 1); // (x=0, y=1) -> 1*4 + 0
    assert_eq!(coordinate(-1), usize::MAX);
}

#[test]
fn a_large_recording_is_sampled() {
    let windows = scan_windows(SCAN_BUDGET);
    assert_eq!(windows.iter().map(|w| w.1 - w.0).sum::<usize>(), SCAN_BUDGET);
    let windows = scan_windows(SCAN_BUDGET * 2);
    assert!(windows.iter().map(|w| w.1 - w.0).sum::<usize>() <= SCAN_BUDGET);
    assert!(windows.windows(2).all(|pair| pair[0].1 <= pair[1].0));
    let (head, tail) = extent_ranges(5 * BLOCK);
    assert_eq!((head, tail), ((0, BLOCK), (4 * BLOCK, 5 * BLOCK)));
}

#[test]
fn slice_matches_full_load() {
    let recording = sorted();
    let source = recording.open(8, 8, TimeUnit::Microseconds).unwrap();
    let full = recording.read(8, 8, TimeUnit::Microseconds);

    let whole = recording.slice_index(&source, 0, source.n_events());
    assert_eq!(whole.xs(), full.xs());
    assert_eq!(whole.ts(), full.ts());
    assert_eq!(whole.ps(), full.ps());
}

#[test]
fn slice_time_handles_nonuniform_timestamps() {
    let recording = Recording::new(
        &[0, 1, 2, 3, 4, 5, 6, 7],
        &[0; 8],
        &[1, 2, 4, 8, 16, 32, 64, 1000],
        &[true; 8],
    );
    let source = recording.open(8, 8, TimeUnit::Microseconds).unwrap();

    assert_eq!(recording.slice_time(&source, 4, 33).ts(), &[4, 8, 16, 32]);
    assert_eq!(recording.slice_time(&source, 0, 2).ts(), &[1]);
    assert_eq!(recording.slice_time(&source, 64, 2000).ts(), &[64, 1000]);
    assert!(recording.slice_time(&source, 65, 1000).is_empty()); // 64 < 65, 1000 excluded
}

#[test]
fn rejects_unsorted_timestamps() {
    let recording =
        Recording::new(&[0, 1, 2], &[0, 1, 2], &[10, 20, 5], &[true, false, true]);
    match recording.open(8, 8, TimeUnit::Microseconds) {
        Err(IoError::Format(message)) => assert!(message.contains("not sorted")),
        Err(other) => panic!("expected a format error, got {other:?}"),
        Ok(_) => panic!("expected unsorted timestamps to be rejected"),
    }
}

#[test]
fn h5_frame_round_trips_with_metadata() {
    let names: Vec<String> = (0..3).map(|bin| format!("bin_{bin}")).collect();
    let data = EventFrameData::F32(vec![0; 3 * 8 * 6]);
    let frame = EventFrame::from_parts(data, 8, 6, RepresentationKind::Voxel, names.clone());
    let (channels, height, width) = frame.shape();
    let tag = dtype_tag(frame.data());
    assert_eq!(sample_type(tag).unwrap(), SampleType::F32);
    let joined = frame.channel_names().join("\n");
    let parts =
        frame_parts(&[channels, height, width], frame.kind().as_str(), &joined).unwrap();
    assert_eq!((parts.width, parts.height), (8, 6));
    assert_eq!(parts.kind, frame.kind());
    assert_eq!(parts.channel_names, names);
    assert!(frame_parts(&[2, 3], "voxel", "").is_err());
    assert!(frame_parts(&[1, 2, 3], "nothing", "").is_err());
    assert!(sample_type("i7").is_err());
}

#[test]
fn frame_sink_appends_a_stack() {
    let mut builder = EventStreamBuilder::new(4, 3, MICROSECOND_SCALE);
    builder.push(1, 1, 0, true);
    builder.push(2, 2, 10, false);
    let frame = Binary.generate(&builder.build()).unwrap();

    let mut sink = Hdf5FrameSink::open();
    assert_eq!(sink.append(&frame).unwrap(), (0, true));
    assert_eq!(sink.append(&frame).unwrap(), (0, true)); // not created, so not counted
    sink.created(&frame);
    assert_eq!(sink.append(&frame).unwrap(), (0, false)); // created but not written
    assert_eq!(sink.n_frames(), 0);
    sink.written();
    assert_eq!(sink.append(&frame).unwrap(), (1, false));
    sink.written();
    assert_eq!(sink.append(&frame).unwrap(), (2, false));
    sink.written();
    assert_eq!(sink.n_frames(), 3);

    let other = EventFrame::intensity(EventFrameData::U8(vec![0; 6]), 3, 2).unwrap();
    assert!(matches!(sink.append(&other), Err(IoError::Format(_))));
    assert_eq!(sink.n_frames(), 3);
}

#[test]
fn event_sink_appends_windows_and_round_trips() {
    let mut sink = Hdf5EventSink::open();
    let plan = |create, start, end| Some(AppendPlan { create, start, end });
    assert_eq!(sink.append(2), plan(true, 0, 2));
    assert_eq!(sink.n_events(), 0); // not written yet
    sink.created();
    assert_eq!(sink.append(2), plan(false, 0, 2));
    sink.written(&sink.append(2).unwrap());
    assert_eq!(sink.append(0), None); // an empty window does nothing
    assert_eq!(sink.append(3), plan(false, 2, 5));
    sink.written(&sink.append(3).unwrap());
    assert_eq!(sink.n_events(), 5);
}

#[test]
fn chunks_hold_at_least_one_event() {
    assert_eq!(chunk_len(0), 1);
    assert_eq!(chunk_len(7), 7);
    assert_eq!(chunk_len(EVENT_CHUNK * 2), EVENT_CHUNK);
}

#[test]
fn scalars_decode_in_both_byte_orders() {
    let bytes = [0xFF, 0xFE, 0, 0, 0, 0, 0, 0];
    let two = ScalarKind::Signed { size: 2 };
    assert_eq!(decode_scalar(&bytes, 0, two, false), i64::from(i16::from_le_bytes([0xFF, 0xFE])));
    assert_eq!(decode_scalar(&bytes, 0, two, true), i64::from(i16::from_be_bytes([0xFF, 0xFE])));
    for value in [0.0f64, 2.75, -2.75, 1e300, f64::NAN, -1e300, 123_456_789.9] {
        let kind = ScalarKind::Float { size: 8 };
        assert_eq!(decode_scalar(&value.to_le_bytes(), 0, kind, false), value as i64);
        assert_eq!(decode_scalar(&value.to_be_bytes(), 0, kind, true), value as i64);
        let single = value as f32;
        let kind = ScalarKind::Float { size: 4 };
        assert_eq!(decode_scalar(&single.to_le_bytes(), 0, kind, false), single as i64);
    }
    assert_eq!(decode_scalar(&[1], 0, ScalarKind::Boolean, false), 1);
    assert_eq!(decode_scalar(&[9], 0, ScalarKind::Other, false), 0);
}

#[test]
fn a_size_that_is_known_is_not_inferred() {
    assert_eq!(known_sensor_size(Some((3, 4)), Some(9), Some(9)), Some((3, 4)));
    assert_eq!(known_sensor_size(Some((3, 4)), None, None), Some((3, 4)));
    assert_eq!(known_sensor_size(None, Some(640), Some(480)), Some((640, 480)));
    assert_eq!(known_sensor_size(None, Some(640), None), None);
    assert_eq!(known_sensor_size(None, None, Some(480)), None);
}

#[test]
fn a_limit_caps_the_events_that_are_read() {
    assert_eq!(events_read(10, None), 10);
    assert_eq!(events_read(10, Some(3)), 3);
    assert_eq!(events_read(10, Some(30)), 10);
    assert_eq!(events_read(10, Some(0)), 0);
}
