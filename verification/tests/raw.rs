use eventcv_core::io::evt::TIME_LOOP;
use eventcv_core::io::prophesee_raw::{
    decode_words, open_raw_slice, read_raw, RawSliceSource, CHECKPOINT_BYTES,
};
use eventcv_core::io::raw_header::EvtVersion;
use eventcv_core::io::raw_sink::RawEventSink;
use eventcv_core::io::IoError;
use eventcv_core::stream::MICROSECOND_SCALE;
use eventcv_core::{EventStream, EventStreamBuilder};

fn word(kind: u16, payload: u16) -> [u8; 2] {
    ((kind << 12) | (payload & 0x0fff)).to_le_bytes()
}

fn raw(words: &[[u8; 2]]) -> Vec<u8> {
    let mut data = b"% format EVT3\n% geometry 1280x720\n".to_vec();
    for bytes in words {
        data.extend_from_slice(bytes);
    }
    data
}

fn slice_index(source: &RawSliceSource, data: &[u8], i0: usize, i1: usize) -> EventStream {
    let (start, end) = source.index_window(i0, i1);
    let end = end.map_or(data.len(), |end| end as usize);
    source.slice_index(&data[start as usize..end], i0, i1)
}

fn slice_time(source: &RawSliceSource, data: &[u8], t0: i64, t1: i64) -> EventStream {
    let (start, end) = source.time_window(t0, t1);
    let end = end.map_or(data.len(), |end| end as usize);
    source.slice_time(&data[start as usize..end], t0, t1)
}

#[test]
fn scalar_and_vector_events_decode_and_slice() {
    let data = raw(&[
        word(0x8, 1),
        word(0x6, 10),
        word(0x0, 20),
        word(0x2, 30 | 0x0800),
        word(0x3, 40),
        word(0x4, 0b1000_0000_0101),
        word(0x6, 20),
        word(0x2, 31),
    ]);
    let source = open_raw_slice(&data, None).unwrap();
    assert_eq!(source.sensor_size(), (1280, 720));
    assert_eq!(source.n_events(), 5);
    assert_eq!(source.time_span(), (4106, 4116));

    let all = slice_index(&source, &data, 0, 10);
    assert_eq!(all.xs(), &[30, 40, 42, 51, 31]);
    assert_eq!(all.ys(), &[20, 20, 20, 20, 20]);
    assert_eq!(all.ps(), &[true, false, false, false, false]);
    assert_eq!(all.ts(), &[4106, 4106, 4106, 4106, 4116]);
    assert_eq!(slice_index(&source, &data, 1, 3).xs(), &[40, 42]);
    assert_eq!(slice_time(&source, &data, 4110, 4120).xs(), &[31]);
}

#[test]
fn timestamp_high_wrap_is_monotonic() {
    let data = raw(&[
        word(0x8, 0x0fff),
        word(0x6, 0x0fff),
        word(0x0, 1),
        word(0x2, 1),
        word(0x8, 0),
        word(0x6, 2),
        word(0x2, 2),
    ]);
    let source = open_raw_slice(&data, None).unwrap();
    let events = slice_index(&source, &data, 0, 2);
    assert_eq!(events.ts(), &[TIME_LOOP - 1, TIME_LOOP + 2]);
}

#[test]
fn slices_from_a_sparse_checkpoint() {
    let mut words = vec![word(0x8, 0), word(0x6, 10), word(0x0, 4)];
    while words.len() < (CHECKPOINT_BYTES as usize / 2) - 1 {
        words.push(word(0x9, 0));
    }
    words.push(word(0x2, 7));
    words.extend([word(0x6, 20), word(0x2, 8)]);

    let data = raw(&words);
    let source = open_raw_slice(&data, None).unwrap();
    assert_eq!(source.checkpoint_len(), 2);
    assert_eq!(slice_index(&source, &data, 1, 2).xs(), &[8]);
    assert_eq!(slice_time(&source, &data, 15, 25).xs(), &[8]);
}

#[test]
fn accepts_both_encodings_and_an_explicit_geometry() {
    let size = |data: &[u8], given| open_raw_slice(data, given).unwrap().sensor_size();
    // EVT2 with a declared geometry.
    assert_eq!(size(b"% format EVT2\n% geometry 4x3\n", None), (4, 3));
    // The `% evt 2.0` spelling, which carries no `format` line at all.
    assert_eq!(size(b"% evt 2.0\n% geometry 8x6\n", None), (8, 6));
    // EVT3 with the size supplied by the caller rather than the header.
    assert_eq!(size(b"% format EVT3\n", Some((4, 3))), (4, 3));
    // An encoding that is not known is refused.
    let error = open_raw_slice(b"% format EVT4\n% geometry 4x3\n", None)
        .err()
        .expect("an unknown encoding must be refused");
    assert!(matches!(error, IoError::Unsupported(ref message) if message.contains("EVT2")));
}

/// An EVT2 word: 4-bit type, then the payload already positioned by the caller.
fn evt2_word(kind: u32, payload: u32) -> [u8; 4] {
    ((kind << 28) | (payload & 0x0FFF_FFFF)).to_le_bytes()
}

/// An EVT2 CD word: 6-bit timestamp low, 11-bit x, 11-bit y.
fn evt2_cd(polarity: bool, t_low: u32, x: u32, y: u32) -> [u8; 4] {
    evt2_word(
        u32::from(polarity),
        ((t_low & 0x3F) << 22) | ((x & 0x7FF) << 11) | (y & 0x7FF),
    )
}

fn evt2_raw(header: &str, words: &[[u8; 4]]) -> Vec<u8> {
    let mut data = header.as_bytes().to_vec();
    for bytes in words {
        data.extend_from_slice(bytes);
    }
    data
}

#[test]
fn evt2_decodes_coordinates_polarity_and_time() {
    let data = evt2_raw(
        "% evt 2.0\n% geometry 640x480\n",
        &[
            evt2_word(0x8, 100),         // TIME_HIGH -> 100 << 6 = 6400 us
            evt2_cd(true, 5, 10, 20),    // ON  at t = 6405
            evt2_cd(false, 9, 300, 400), // OFF at t = 6409
            evt2_word(0xA, 0),           // EXT_TRIGGER emits nothing
            evt2_word(0xE, 0),           // OTHERS emits nothing
            evt2_cd(true, 63, 639, 479), // the far corner, at the top of the low range
        ],
    );
    let source = open_raw_slice(&data, None).unwrap();
    assert_eq!(source.sensor_size(), (640, 480));
    assert_eq!(source.n_events(), 3);

    let stream = slice_index(&source, &data, 0, 3);
    assert_eq!(stream.xs(), &[10, 300, 639]);
    assert_eq!(stream.ys(), &[20, 400, 479]);
    assert_eq!(stream.ts(), &[6405, 6409, 6463]);
    assert_eq!(stream.ps(), &[true, false, true]);
}

#[test]
fn evt2_drops_events_before_the_first_time_high() {
    let data = evt2_raw(
        "% evt 2.0\n% geometry 64x48\n",
        &[
            evt2_cd(true, 1, 1, 1),
            evt2_cd(false, 2, 2, 2),
            evt2_word(0x8, 10),
            evt2_cd(true, 3, 3, 3),
        ],
    );
    let source = open_raw_slice(&data, None).unwrap();
    assert_eq!(source.n_events(), 1);
    assert_eq!(slice_index(&source, &data, 0, 1).xs(), &[3]);
}

#[test]
fn evt2_timestamps_stay_monotonic_across_time_high_words() {
    let mut words = Vec::new();
    for high in 1..=6u32 {
        words.push(evt2_word(0x8, high));
        for low in [0u32, 20, 63] {
            words.push(evt2_cd(true, low, high, low));
        }
    }
    let data = evt2_raw("% evt 2.0\n% geometry 64x64\n", &words);
    let source = open_raw_slice(&data, None).unwrap();
    let stream = slice_index(&source, &data, 0, source.n_events());
    assert_eq!(stream.len(), 18);
    assert!(stream.ts().windows(2).all(|w| w[0] <= w[1]));
    // The high half is shifted by six bits, so each TIME_HIGH step is 64 us.
    assert_eq!(stream.ts()[0], 64);
    assert_eq!(stream.ts()[1], 84);
}

#[test]
fn evt2_derives_the_sensor_size_when_the_header_omits_it() {
    let data = evt2_raw(
        "% evt 2.0\n",
        &[
            evt2_word(0x8, 1),
            evt2_cd(true, 0, 100, 50),
            evt2_cd(false, 1, 42, 90),
        ],
    );
    let source = open_raw_slice(&data, None).unwrap();
    assert_eq!(source.sensor_size(), (101, 91), "one past the largest coordinate");
    assert_eq!(source.n_events(), 2, "no event may be lost to a derived bound");

    // An explicit size still wins over the derivation.
    let source = open_raw_slice(&data, Some((640, 480))).unwrap();
    assert_eq!(source.sensor_size(), (640, 480));
}

#[test]
fn evt2_slices_by_index_and_by_time() {
    let mut words = vec![evt2_word(0x8, 1)];
    for i in 0..10u32 {
        words.push(evt2_cd(i % 2 == 0, i, i, i));
    }
    let data = evt2_raw("% evt 2.0\n% geometry 64x64\n", &words);
    let source = open_raw_slice(&data, None).unwrap();
    assert_eq!(source.n_events(), 10);

    let middle = slice_index(&source, &data, 3, 6);
    assert_eq!(middle.xs(), &[3, 4, 5]);

    // TIME_HIGH 1 -> 64 us, plus the low half, so events land at 64..73.
    let windowed = slice_time(&source, &data, 66, 69);
    assert_eq!(windowed.ts(), &[66, 67, 68]);
}

fn moving(count: usize) -> EventStream {
    let mut builder = EventStreamBuilder::new(1280, 720, MICROSECOND_SCALE);
    for i in 0..count {
        let (x, y) = ((i * 37 % 1280) as u16, (i / 16 * 11 % 720) as u16);
        builder.push(x, y, (i as i64 / 5) * 1_777, i % 3 == 0);
    }
    // A run of neighbours in one row at one time, as vector words carry it.
    for x in 100..140 {
        builder.push(x, 9, 1_000_000, true);
    }
    builder.build()
}

#[test]
fn what_is_written_is_what_is_read() {
    let stream = moving(300);
    for version in [EvtVersion::Evt2, EvtVersion::Evt3] {
        let mut sink = RawEventSink::to_writer(Vec::new(), version, true);
        sink.append(&stream).unwrap();
        assert_eq!(sink.n_events(), stream.len());
        let data = sink.into_inner();
        let back = read_raw(&data, None, None).unwrap();
        assert_eq!(back.sensor_size(), (1280, 720));
        assert_eq!(back.xs(), stream.xs());
        assert_eq!(back.ys(), stream.ys());
        assert_eq!(back.ts(), stream.ts());
        assert_eq!(back.ps(), stream.ps());
        assert_eq!(read_raw(&data, None, Some(7)).unwrap().len(), 7);
    }
}

#[test]
fn words_without_a_header_decode_too() {
    let stream = moving(50);
    let mut sink = RawEventSink::to_writer(Vec::new(), EvtVersion::default(), false);
    sink.append(&stream).unwrap();
    let bytes = sink.into_inner();
    assert!(!bytes.starts_with(b"%"));
    let back = decode_words(&bytes, EvtVersion::default(), 1280, 720);
    assert_eq!(back.ts(), stream.ts());
    assert_eq!(back.xs(), stream.xs());
}

#[test]
fn appending_in_pieces_is_appending_the_whole() {
    let stream = moving(200);
    let mut whole = RawEventSink::to_writer(Vec::new(), EvtVersion::Evt2, true);
    whole.append(&stream).unwrap();
    let mut pieces = RawEventSink::to_writer(Vec::new(), EvtVersion::Evt2, true);
    for half in [0..100, 100..stream.len()] {
        let mut builder = EventStreamBuilder::new(1280, 720, MICROSECOND_SCALE);
        for i in half {
            let e = stream.get(i);
            builder.push(e.x, e.y, e.t, e.p);
        }
        pieces.append(&builder.build()).unwrap();
    }
    assert_eq!(pieces.into_inner(), whole.into_inner());
}

#[test]
fn raw_events_out_of_time_order_are_refused() {
    let mut builder = EventStreamBuilder::new(4, 4, MICROSECOND_SCALE);
    builder.push(0, 0, 9, true);
    builder.push(0, 0, 5, true);
    let mut sink = RawEventSink::to_writer(Vec::new(), EvtVersion::Evt3, true);
    match sink.append(&builder.build()) {
        Err(IoError::Unsupported(message)) => assert!(message.contains("5 follows 9")),
        other => panic!("expected a refusal, got {other:?}"),
    }
    assert_eq!(sink.n_events(), 0);
}

#[test]
fn a_recording_of_windows_reads_back() {
    for version in [EvtVersion::Evt2, EvtVersion::Evt3] {
        let mut sink = RawEventSink::to_writer(Vec::new(), version, true);
        let mut times = Vec::new();
        for window in 0..3i64 {
            let mut builder = EventStreamBuilder::new(64, 48, MICROSECOND_SCALE);
            for step in 0..5i64 {
                let t = 10_000 + window * 40_000 + step * 3;
                builder.push((step * 2) as u16, window as u16, t, step % 2 == 0);
                times.push(t);
            }
            sink.append(&builder.build()).unwrap();
        }
        let back = read_raw(&sink.into_inner(), None, None).unwrap();
        assert_eq!(back.sensor_size(), (64, 48));
        assert_eq!(back.ts(), &times);
        assert_eq!(back.ys()[..6], [0, 0, 0, 0, 0, 1]);
        assert_eq!(back.xs()[..6], [0, 2, 4, 6, 8, 0]);
        assert_eq!(back.ps()[..3], [true, false, true]);
    }
}

fn written(version: EvtVersion, windows: &[EventStream]) -> Vec<u8> {
    let mut sink = RawEventSink::to_writer(Vec::new(), version, true);
    for window in windows {
        sink.append(window).unwrap();
    }
    sink.into_inner()
}

fn at_times(times: &[i64]) -> EventStream {
    let mut builder = EventStreamBuilder::new(4, 4, MICROSECOND_SCALE);
    for &t in times {
        builder.push(1, 2, t, true);
    }
    builder.build()
}

#[test]
fn a_recording_may_start_after_the_first_period_of_its_clock() {
    let data = written(EvtVersion::Evt3, &[at_times(&[20_000_000])]);
    let back = read_raw(&data, None, None).unwrap();
    assert_eq!((back.xs(), back.ys()), (&[1][..], &[2][..]));
    assert_eq!((back.ts(), back.ps()), (&[20_000_000][..], &[true][..]));

    let day = 86_400_000_000;
    let data = written(EvtVersion::Evt2, &[at_times(&[day, day + 5])]);
    assert_eq!(read_raw(&data, None, None).unwrap().ts(), &[day, day + 5]);
}

#[test]
fn a_pause_longer_than_a_period_keeps_the_time() {
    let times = [7, 40_000_000, 40_000_001, 16_777_216 * 5];
    for version in [EvtVersion::Evt2, EvtVersion::Evt3] {
        let (first, rest) = times.split_at(1);
        let data = written(version, &[at_times(first), at_times(rest)]);
        assert_eq!(read_raw(&data, None, None).unwrap().ts(), &times);
    }
    let long = [3, 200_000_000_000];
    let data = written(EvtVersion::Evt2, &[at_times(&long)]);
    assert_eq!(read_raw(&data, None, None).unwrap().ts(), &long);
}

#[test]
fn a_header_ends_at_its_last_line() {
    // The first clock word starts with the byte that marks a header line.
    let data = written(EvtVersion::Evt2, &[at_times(&[2368, 2431])]);
    let header = b"% end\n";
    let end = data.windows(header.len()).position(|w| w == header).unwrap() + header.len();
    assert_eq!(data[end], b'%');
    assert_eq!(read_raw(&data, None, None).unwrap().ts(), &[2368, 2431]);
    let source = open_raw_slice(&data, None).unwrap();
    assert_eq!(source.n_events(), 2);
    assert_eq!(source.time_span(), (2368, 2431));
}

#[test]
fn a_recording_reads_back_at_any_point() {
    for version in [EvtVersion::Evt2, EvtVersion::Evt3] {
        let mut sink = RawEventSink::to_writer(Vec::new(), version, true);
        assert!(sink.buffered().is_empty());
        sink.append(&at_times(&[5, 9])).unwrap();
        assert_eq!(read_raw(sink.buffered(), None, None).unwrap().ts(), &[5, 9]);
        let so_far = sink.buffered().to_vec();
        sink.append(&at_times(&[5_000_000])).unwrap();
        assert!(sink.buffered().starts_with(&so_far));
        assert_eq!(read_raw(sink.buffered(), None, None).unwrap().ts(), &[5, 9, 5_000_000]);
        assert_eq!(sink.buffered().to_vec(), sink.into_inner());
    }
}
