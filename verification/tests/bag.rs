use eventcv_core::io::bag::{
    cumulative_counts, decode_event_array, locate_chunk, open_bag_slice, read_event_array_header,
    select_chunks, BagIndexRecord, BagReader, ChunkMeta,
};
use eventcv_core::io::IoError;

fn meta(pos: u64, start_us: i64, end_us: i64) -> ChunkMeta {
    ChunkMeta {
        pos,
        start_us,
        end_us,
    }
}

#[test]
fn select_chunks_picks_overlapping_windows() {
    let chunks = [meta(0, 0, 100), meta(1, 100, 200), meta(2, 200, 300)];

    let picked: Vec<u64> = select_chunks(&chunks, 150, 250).iter().map(|c| c.pos).collect();
    assert_eq!(picked, [1, 2]); // [150, 250) overlaps chunks 1 and 2

    // Half-open: a window ending exactly at a chunk's start excludes it.
    let picked: Vec<u64> = select_chunks(&chunks, 0, 100).iter().map(|c| c.pos).collect();
    assert_eq!(picked, [0]);

    assert!(select_chunks(&chunks, 1000, 2000).is_empty());
}

#[test]
fn locate_chunk_finds_the_containing_chunk() {
    let counts = [0usize, 10, 25, 40]; // cumulative counts for 3 chunks

    assert_eq!(locate_chunk(&counts, 0), 0);
    assert_eq!(locate_chunk(&counts, 9), 0);
    assert_eq!(locate_chunk(&counts, 10), 1);
    assert_eq!(locate_chunk(&counts, 24), 1);
    assert_eq!(locate_chunk(&counts, 39), 2);
    assert_eq!(cumulative_counts(&[10, 15, 15]), counts);
}

/// An event array message of an 8x4 sensor.
fn message(events: &[(u16, u16, i64, bool)]) -> Vec<u8> {
    let mut data = Vec::new();
    data.extend_from_slice(&1u32.to_le_bytes()); // sequence number
    data.extend_from_slice(&[0; 8]); // stamp
    data.extend_from_slice(&3u32.to_le_bytes());
    data.extend_from_slice(b"cam");
    data.extend_from_slice(&4u32.to_le_bytes()); // height
    data.extend_from_slice(&8u32.to_le_bytes()); // width
    data.extend_from_slice(&(events.len() as u32).to_le_bytes());
    for &(x, y, t, p) in events {
        data.extend_from_slice(&x.to_le_bytes());
        data.extend_from_slice(&y.to_le_bytes());
        data.extend_from_slice(&((t / 1_000_000) as u32).to_le_bytes());
        data.extend_from_slice(&((t % 1_000_000 * 1_000) as u32).to_le_bytes());
        data.push(p as u8);
    }
    data
}

const KIND: &str = "dvs_msgs/EventArray";
const TOPIC: &str = "/davis/left/events";

#[test]
fn messages_on_the_topic_become_events() {
    let data = message(&[(1, 2, 1_000_010, true), (7, 3, 1_000_020, false), (9, 0, 3, true)]);
    assert_eq!(read_event_array_header(&data).unwrap(), (8, 4));
    let array = decode_event_array(&data).unwrap();
    assert!(array.whole);
    assert_eq!(array.events.len(), 3);

    let mut reader = BagReader::new(Some("/dvs/events"), None, None);
    reader.connection(0, "/dvs/events", KIND);
    reader.connection(1, "/other", "std_msgs/String");
    assert!(!reader.message(1, b"not an array").unwrap());
    assert!(!reader.message(0, &data).unwrap());
    let stream = reader.finish().unwrap();
    assert_eq!(stream.sensor_size(), (8, 4));
    assert_eq!(stream.xs(), &[1, 7]);
    assert_eq!(stream.ys(), &[2, 3]);
    assert_eq!(stream.ts(), &[1_000_010, 1_000_020]);
    assert_eq!(stream.ps(), &[true, false]);
}

#[test]
fn a_full_reader_stops() {
    let mut reader = BagReader::new(None, None, Some(1));
    reader.connection(4, TOPIC, KIND);
    let data = message(&[(1, 2, 10, true), (2, 2, 20, true)]);
    assert!(reader.message(4, &data).unwrap());
    assert_eq!(reader.finish().unwrap().ts(), &[10]);
}

#[test]
fn a_bag_without_events_is_a_format_error() {
    let reader = BagReader::new(None, None, None);
    assert!(matches!(reader.finish(), Err(IoError::Format(_))));
    assert!(read_event_array_header(&[0; 5]).is_err());
    assert!(decode_event_array(&[0; 30]).is_ok());
}

fn index() -> Vec<BagIndexRecord> {
    vec![
        BagIndexRecord::Connection {
            id: 2,
            topic: TOPIC.to_string(),
            kind: KIND.to_string(),
        },
        BagIndexRecord::ChunkInfo {
            pos: 500,
            start_time: 20_000,
            end_time: 40_000,
            connections: vec![2],
        },
        BagIndexRecord::ChunkInfo {
            pos: 100,
            start_time: 0,
            end_time: 19_000,
            connections: vec![2, 3],
        },
        BagIndexRecord::ChunkInfo {
            pos: 300,
            start_time: 0,
            end_time: 10_000,
            connections: vec![3],
        },
    ]
}

#[test]
fn a_bag_is_sliced_by_its_chunks() {
    let mut source = open_bag_slice(&index(), None, None).unwrap();
    let places: Vec<u64> = source.chunks().iter().map(|c| c.pos).collect();
    assert_eq!(places, [100, 500]);
    assert_eq!(source.time_span(), (0, 40));
    assert!(source.follows(2));
    assert!(!source.follows(3));
    assert_eq!(source.sensor_size(), None);
    let a = message(&[(1, 1, 5, true), (2, 1, 10, true)]);
    let b = message(&[(3, 1, 25, false), (4, 1, 30, true)]);
    source.detect_sensor(Some(&a[..])).unwrap();
    assert_eq!(source.sensor_size(), Some((8, 4)));
    assert_eq!(source.count_events(&a).unwrap(), 2);

    let (chunks, mut slice) = source.slice_time(10, 30);
    assert_eq!(chunks.len(), 2);
    slice.message(&a).unwrap();
    slice.message(&b).unwrap();
    assert_eq!(slice.finish().ts(), &[10, 25]);

    let counts = cumulative_counts(&[2, 2]);
    let (first, mut slice) = source.slice_index(&counts, 1, 3);
    assert_eq!(first, 0);
    for (chunk, data) in [&a, &b].into_iter().enumerate() {
        if !slice.begin_chunk(counts[chunk]) {
            break;
        }
        slice.message(data).unwrap();
    }
    assert_eq!(slice.finish().xs(), &[2, 3]);
}

#[test]
fn a_bag_without_the_topic_cannot_be_sliced() {
    assert!(open_bag_slice(&index(), Some("/nothing"), None).is_err());
    assert!(open_bag_slice(&[], None, None).is_err());
}
