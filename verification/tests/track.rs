use eventcv_core::representation::{EventFrame, EventFrameData};
use eventcv_core::track::{
    blobs_of, Blob, Candidate, Motion, Spotted, Track, TrackError, Tracker,
};

/// The pixels of a frame with filled squares at the given corners.
fn frame_with(
    width: usize,
    height: usize,
    corners: &[(usize, usize)],
    size: usize,
) -> EventFrame {
    let mut data = vec![0_u8; width * height];
    for &(cx, cy) in corners {
        for dy in 0..size {
            for dx in 0..size {
                let (x, y) = (cx + dx, cy + dy);
                if x < width && y < height {
                    data[y * width + x] = 1;
                }
            }
        }
    }
    EventFrame::intensity(EventFrameData::U8(data), width, height).unwrap()
}

/// Numbers the components of a frame whose pixels touch by a side or a corner, from one.
fn labels_of(frame: &EventFrame) -> Vec<u64> {
    let (_, height, width) = frame.shape();
    let EventFrameData::U8(pixels) = frame.data() else {
        panic!("a frame of bytes");
    };
    let mut labels = vec![0u64; pixels.len()];
    let mut count = 0;
    for start in 0..pixels.len() {
        if pixels[start] == 0 || labels[start] != 0 {
            continue;
        }
        count += 1;
        let mut open = vec![start];
        labels[start] = count;
        while let Some(at) = open.pop() {
            let (x, y) = (at % width, at / width);
            for ny in y.saturating_sub(1)..(y + 2).min(height) {
                for nx in x.saturating_sub(1)..(x + 2).min(width) {
                    let next = ny * width + nx;
                    if pixels[next] != 0 && labels[next] == 0 {
                        labels[next] = count;
                        open.push(next);
                    }
                }
            }
        }
    }
    labels
}

fn blobs(frame: &EventFrame, min_area: usize) -> Vec<Blob> {
    let (_, height, width) = frame.shape();
    blobs_of(&labels_of(frame), width, height, min_area)
}

fn centroid(blob: &Blob) -> (f64, f64) {
    let area = blob.area as f64;
    (blob.sum_x as f64 / area, blob.sum_y as f64 / area)
}

fn motion(x: f64, y: f64, dx: f64, dy: f64) -> Motion {
    Motion {
        x: x.to_bits(),
        y: y.to_bits(),
        dx: dx.to_bits(),
        dy: dy.to_bits(),
    }
}

fn numbers(motion: &Motion) -> (f64, f64, f64, f64) {
    (
        f64::from_bits(motion.x),
        f64::from_bits(motion.y),
        f64::from_bits(motion.dx),
        f64::from_bits(motion.dy),
    )
}

fn update(tracker: &mut Tracker, frame: &EventFrame, max_distance: f64) -> Vec<Track> {
    let blobs = blobs(frame, 4);
    let mut candidates = Vec::new();
    let mut coasted = Vec::new();
    for (track, held) in tracker.tracks().iter().enumerate() {
        let (x, y, dx, dy) = numbers(&held.motion);
        let (px, py) = (x + dx, y + dy);
        coasted.push(motion(px, py, dx, dy));
        for (blob, found) in blobs.iter().enumerate() {
            let (cx, cy) = centroid(found);
            let distance = ((cx - px).powi(2) + (cy - py).powi(2)).sqrt();
            if distance <= max_distance {
                candidates.push(Candidate {
                    distance: distance.to_bits(),
                    track,
                    blob,
                    motion: motion(cx, cy, cx - x, cy - y),
                });
            }
        }
    }
    let spotted: Vec<Spotted> = blobs
        .iter()
        .map(|blob| Spotted {
            area: blob.area,
            motion: motion(centroid(blob).0, centroid(blob).1, 0.0, 0.0),
        })
        .collect();
    tracker.associate(&candidates, &spotted, &coasted);
    tracker.tracks().to_vec()
}

#[test]
fn blobs_measure_centroid_area_and_bounds() {
    // A 4x4 square with its corner at (10, 6) has its centre of mass at (11.5, 7.5).
    let frame = frame_with(32, 32, &[(10, 6)], 4);
    let blobs = blobs(&frame, 1);
    assert_eq!(blobs.len(), 1);
    assert_eq!(blobs[0].area, 16);
    let (x, y) = centroid(&blobs[0]);
    assert!((x - 11.5).abs() < 1e-9);
    assert!((y - 7.5).abs() < 1e-9);
    let b = blobs[0];
    assert_eq!((b.x_min, b.y_min, b.x_max, b.y_max), (10, 6, 13, 9));
    assert_eq!(blobs[0].extent(), 4);
    assert_eq!(blobs[0].label, 1);
}

#[test]
fn separate_objects_are_separate_blobs() {
    let frame = frame_with(64, 64, &[(5, 5), (40, 40)], 4);
    assert_eq!(blobs(&frame, 1).len(), 2);
}

#[test]
fn min_area_filters_noise() {
    // One real object and one single-pixel speck.
    let mut data = vec![0_u8; 32 * 32];
    for dy in 0..5 {
        for dx in 0..5 {
            data[(10 + dy) * 32 + 10 + dx] = 1;
        }
    }
    data[2 * 32 + 30] = 1;
    let frame = EventFrame::intensity(EventFrameData::U8(data), 32, 32).unwrap();
    assert_eq!(blobs(&frame, 1).len(), 2);
    assert_eq!(blobs(&frame, 4).len(), 1);
}

#[test]
fn an_empty_frame_has_no_blobs() {
    let frame = frame_with(16, 16, &[], 0);
    assert!(blobs(&frame, 1).is_empty());
}

#[test]
fn a_track_keeps_its_id_while_the_object_moves() {
    let mut tracker = Tracker::new(3);
    let mut ids = Vec::new();
    for step in 0..10 {
        let frame = frame_with(96, 64, &[(5 + step * 6, 20)], 5);
        let tracks = update(&mut tracker, &frame, 20.0);
        assert_eq!(tracks.len(), 1, "step {step}");
        ids.push(tracks[0].id);
    }
    assert!(ids.windows(2).all(|w| w[0] == w[1]), "id changed: {ids:?}");
}

#[test]
fn velocity_matches_the_motion() {
    let mut tracker = Tracker::new(3);
    for step in 0..5 {
        let frame = frame_with(96, 64, &[(5 + step * 6, 20)], 5);
        update(&mut tracker, &frame, 20.0);
    }
    let (_, _, dx, dy) = numbers(&tracker.tracks()[0].motion);
    assert!((dx - 6.0).abs() < 1e-6, "vx {dx}");
    assert!(dy.abs() < 1e-6, "vy {dy}");
}

#[test]
fn two_objects_get_two_ids() {
    let mut tracker = Tracker::new(3);
    for step in 0..6 {
        let frame = frame_with(96, 64, &[(5 + step * 4, 10), (5 + step * 4, 45)], 5);
        let tracks = update(&mut tracker, &frame, 20.0);
        assert_eq!(tracks.len(), 2, "step {step}");
    }
    let ids: Vec<u64> = tracker.tracks().iter().map(|t| t.id).collect();
    assert_ne!(ids[0], ids[1]);
}

#[test]
fn a_track_survives_a_brief_disappearance() {
    let mut tracker = Tracker::new(3);
    for step in 0..4 {
        update(&mut tracker, &frame_with(96, 64, &[(5 + step * 5, 20)], 5), 20.0);
    }
    let id = tracker.tracks()[0].id;

    // Two empty frames: the track coasts rather than dying.
    for _ in 0..2 {
        update(&mut tracker, &frame_with(96, 64, &[], 0), 20.0);
    }
    assert_eq!(tracker.tracks().len(), 1);
    assert_eq!(tracker.tracks()[0].id, id, "the id must survive the gap");
    assert_eq!(tracker.tracks()[0].missed, 2);

    // The object reappears roughly where its velocity predicted.
    let tracks = update(&mut tracker, &frame_with(96, 64, &[(35, 20)], 5), 20.0);
    assert_eq!(tracks.len(), 1);
    assert_eq!(tracks[0].id, id, "and be recognised as the same object");
}

#[test]
fn a_track_dies_after_max_missed() {
    let mut tracker = Tracker::new(2);
    update(&mut tracker, &frame_with(64, 64, &[(20, 20)], 5), 20.0);
    assert_eq!(tracker.tracks().len(), 1);
    for _ in 0..3 {
        update(&mut tracker, &frame_with(64, 64, &[], 0), 20.0);
    }
    assert!(tracker.tracks().is_empty(), "the track should have expired");
}

#[test]
fn a_distant_jump_starts_a_new_track_rather_than_teleporting() {
    let mut tracker = Tracker::new(0);
    let first = update(&mut tracker, &frame_with(96, 96, &[(5, 5)], 5), 10.0)[0].id;
    let tracks = update(&mut tracker, &frame_with(96, 96, &[(80, 80)], 5), 10.0);
    assert_eq!(tracks.len(), 1);
    assert_ne!(tracks[0].id, first, "a jump too far is a new object");
}

#[test]
fn ids_are_never_reused() {
    let mut tracker = Tracker::new(0);
    let first = update(&mut tracker, &frame_with(64, 64, &[(10, 10)], 5), 20.0)[0].id;
    update(&mut tracker, &frame_with(64, 64, &[], 0), 20.0);
    let second = update(&mut tracker, &frame_with(64, 64, &[(10, 10)], 5), 20.0)[0].id;
    assert_ne!(first, second, "a new object gets a new id");

    tracker.reset();
    let third = update(&mut tracker, &frame_with(64, 64, &[(10, 10)], 5), 20.0)[0].id;
    assert!(third > second, "ids continue past a reset");
}

#[test]
fn fast_motion_is_followed_by_predicting_ahead() {
    let mut tracker = Tracker::new(3);
    let mut ids = Vec::new();
    for step in 0..6 {
        let frame = frame_with(160, 64, &[(5 + step * 15, 20)], 6);
        let tracks = update(&mut tracker, &frame, 20.0);
        assert_eq!(tracks.len(), 1, "lost the object at step {step}");
        ids.push(tracks[0].id);
    }
    assert!(ids.windows(2).all(|w| w[0] == w[1]));
}

#[test]
fn the_closest_pair_is_matched_first() {
    let mut tracker = Tracker::new(3);
    let at = |x: f64| motion(x, 0.0, 0.0, 0.0);
    let spot = |x: f64| Spotted { area: 9, motion: at(x) };
    tracker.associate(&[], &[spot(0.0), spot(10.0)], &[]);
    let pair = |track, blob, distance: f64| Candidate {
        distance: distance.to_bits(),
        track,
        blob,
        motion: at(9.0),
    };
    // The only blob is closer to the second track.
    tracker.associate(
        &[pair(0, 0, 9.0), pair(1, 0, 1.0)],
        &[spot(9.0)],
        &[at(0.0), at(10.0)],
    );
    let tracks = tracker.tracks();
    assert_eq!((tracks[0].missed, tracks[1].missed), (1, 0));
    assert_eq!((tracks[0].age, tracks[1].age), (1, 1));
    assert_eq!(TrackError::Cluster("why".to_owned()).message(), "why");
}
