use eventcv_core::representation::binary::Binary;
use eventcv_core::representation::count::EventCount;
use eventcv_core::representation::masks::{
    nonzero, order_statistics, reference_count, CountMask, RedBlue,
};
use eventcv_core::representation::point_set::{EventPointSet, Fraction, PointSet};
use eventcv_core::representation::polarity::{Polarity, PolarityAccumulator};
use eventcv_core::representation::surfaces::{AveragedTimeSurface, TimeSurface};
use eventcv_core::representation::windows::{Mcts, Tencode, VoxelGrid};
use eventcv_core::representation::{
    EventFrame, EventFrameData, Representation, RepresentationError, RepresentationKind,
};
use eventcv_core::stream::MICROSECOND_SCALE;
use eventcv_core::EventStream;

type Frame = Result<EventFrame, RepresentationError>;

fn stream_of(rows: &[[u64; 4]], width: usize, height: usize) -> EventStream {
    EventStream::from_rows(rows, width, height, MICROSECOND_SCALE)
}

fn empty_stream(width: usize, height: usize) -> EventStream {
    stream_of(&[], width, height)
}

fn scale(stream: &EventStream) -> f64 {
    f64::from_bits(stream.timestamp_scale_bits())
}

fn floats(frame: &EventFrame) -> Vec<f32> {
    match frame.data() {
        EventFrameData::F32(bits) => bits.iter().map(|&b| f32::from_bits(b)).collect(),
        other => panic!("expected single precision samples, got {other:?}"),
    }
}

fn bits_of(values: &[f32]) -> Vec<u32> {
    values.iter().map(|value| value.to_bits()).collect()
}

fn time_surface(tau_ms: f64, stream: &EventStream) -> Frame {
    let surface = TimeSurface::new(tau_ms.to_bits());
    let ages = surface.ages(stream)?;
    let decay = |age: u64| (-(age as f64 * scale(stream)) / tau_ms).exp() as f32;
    let values: Vec<f32> = ages.ages.iter().map(|age| age.map_or(0.0, decay)).collect();
    Ok(surface.frame(&ages, bits_of(&values)))
}

fn averaged_time_surface(tau_ms: f64, stream: &EventStream) -> Frame {
    let surface = AveragedTimeSurface::new(tau_ms.to_bits());
    let plan = surface.plan(stream)?;
    let mut sums = vec![0.0f64; plan.counts.len()];
    for (&cell, &age) in plan.cells.iter().zip(&plan.ages) {
        sums[cell] += (-(age as f64 * scale(stream)) / tau_ms).exp();
    }
    let mean = |(sum, &count): (&f64, &u64)| match count {
        0 => 0.0,
        count => (sum / count as f64) as f32,
    };
    let values: Vec<f32> = sums.iter().zip(&plan.counts).map(mean).collect();
    Ok(surface.frame(&plan, bits_of(&values)))
}

fn voxel(bins: usize, window_ms: f64, stream: &EventStream) -> Frame {
    let grid = VoxelGrid::new(bins, window_ms.to_bits());
    let (length, ages) = grid.ages(stream)?;
    let ages: Vec<f64> = ages.iter().map(|&age| age as f64 * scale(stream)).collect();
    let inside: Vec<bool> = ages.iter().map(|&age| !(age > window_ms)).collect();
    let (width, height) = stream.sensor_size();
    let mut values = vec![0.0f32; length];
    for step in grid.steps(stream, &inside)? {
        let position = match bins {
            1 => 0.0,
            _ => (1.0 - ages[step.event] / window_ms) * (bins - 1) as f64,
        };
        let (lower, upper) = (position.floor() as usize, position.ceil() as usize);
        let sign = if step.polarity { 1.0 } else { -1.0 };
        let plane = width * height;
        if lower == upper {
            values[lower * plane + step.pixel] += sign;
        } else {
            let weight = (position - lower as f64) as f32;
            values[lower * plane + step.pixel] += sign * (1.0 - weight);
            values[upper * plane + step.pixel] += sign * weight;
        }
    }
    Ok(grid.frame(bits_of(&values), width, height))
}

fn tencode(window_ms: f64, stream: &EventStream) -> Frame {
    let encoding = Tencode::new(window_ms.to_bits());
    let ages = encoding.ages(stream)?;
    let inside: Vec<bool> = ages
        .iter()
        .map(|&age| !(age as f64 * scale(stream) > window_ms))
        .collect();
    let winners = encoding.winners(stream, &inside)?;
    let level = |age: u64| {
        (255.0 * (age as f64 * scale(stream)) / window_ms).round().clamp(0.0, 255.0) as u8
    };
    let levels: Vec<u8> = winners
        .pixels
        .iter()
        .map(|pixel| pixel.map_or(0, |(_, age)| level(age)))
        .collect();
    Ok(encoding.frame(&winners, &levels))
}

fn mcts(surfaces: &Mcts, windows: &[f64], stream: &EventStream) -> Frame {
    let count = surfaces.window_count()?;
    assert_eq!(count, windows.len());
    let (_, ages) = surfaces.ages(stream, count)?;
    let mut weights = Vec::new();
    for age in ages {
        let age = age as f64 * scale(stream);
        for &window in windows {
            weights.push((age <= window).then_some(((1.0 - age / window) as f32).to_bits()));
        }
    }
    let mut names = Vec::new();
    for polarity in ["negative", "positive"] {
        for window in windows {
            names.push(format!("{polarity}_{window:.3}ms"));
        }
    }
    Ok(surfaces.frame(stream, count, &weights, names))
}

fn spaced_windows(max_window_ms: f64) -> Vec<f64> {
    let ratio = max_window_ms.powf(0.25);
    (0..5).map(|index| ratio.powi(index)).collect()
}

/// The linear percentile of values, as NumPy defines it.
fn percentile(values: &[u64], pct: f64) -> f64 {
    let last = values.len() - 1;
    let place = (pct / 100.0) * last as f64;
    if place >= last as f64 {
        return order_statistics(values, last).0 as f64;
    }
    let gamma = place - place.floor();
    let (lower, upper) = order_statistics(values, place.floor() as usize);
    let (lower, upper) = (lower as f64, upper as f64);
    let delta = upper - lower;
    if gamma >= 0.5 {
        upper - delta * (1.0 - gamma)
    } else {
        lower + delta * gamma
    }
}

fn count_mask(pct: f64, white: bool, stream: &EventStream) -> Frame {
    let mask = CountMask::new(pct.to_bits(), white);
    let planes = mask.counts(stream)?;
    let seen = nonzero(&planes.counts);
    let alpha = if seen.is_empty() {
        1.0
    } else {
        percentile(&seen, pct) as f32
    };
    let level = |&count: &u64| {
        let value = (count as f32).min(alpha) / alpha;
        let value = if white { 1.0 - value } else { value };
        (value * 255.0).clamp(0.0, 255.0) as u8
    };
    let levels: Vec<u8> = planes.counts.iter().map(level).collect();
    Ok(mask.frame(&planes, &levels))
}

fn strengths(counts: &[u64], pct: f64) -> Vec<f32> {
    let reached: Vec<u64> = counts.iter().map(|&count| reference_count(count)).collect();
    let seen = nonzero(&reached);
    let threshold = if seen.is_empty() {
        1.0
    } else {
        percentile(&seen, pct) as f32
    };
    reached
        .iter()
        .map(|&count| (count as f32).min(threshold) / threshold)
        .collect()
}

fn red_blue(pct: f64, stream: &EventStream) -> Frame {
    let image = RedBlue::new(pct.to_bits());
    let planes = image.counts(stream)?;
    let (positive, negative) = planes.counts.split_at(planes.counts.len() / 2);
    let mut all = strengths(positive, pct);
    all.extend(strengths(negative, pct));
    let faded: Vec<u8> = all
        .iter()
        .map(|&strength| ((1.0 - strength).clamp(0.0, 1.0) * 255.0) as u8)
        .collect();
    Ok(image.frame(planes.width, planes.height, &bits_of(&all), &faded))
}

fn value(fraction: Fraction) -> f32 {
    match fraction.whole {
        0 => 0.0,
        whole => fraction.part as f32 / whole as f32,
    }
}

fn points_of(points: &EventPointSet) -> Vec<f32> {
    let row = |point: &eventcv_core::representation::point_set::Point| {
        let sign = if point.p { 1.0 } else { -1.0 };
        [value(point.x), value(point.y), value(point.t), sign]
    };
    points.points().iter().flat_map(row).collect()
}

#[test]
fn empty_streams_produce_zero_outputs() {
    let stream = empty_stream(2, 3);

    for frame in [
        Binary.generate(&stream).unwrap(),
        EventCount::new(true).generate(&stream).unwrap(),
        voxel(9, 30.0, &stream).unwrap(),
        time_surface(30.0, &stream).unwrap(),
        averaged_time_surface(30.0, &stream).unwrap(),
        tencode(30.0, &stream).unwrap(),
        mcts(&Mcts::new(30f64.to_bits()), &spaced_windows(30.0), &stream).unwrap(),
        count_mask(99.0, false, &stream).unwrap(),
    ] {
        match frame.data() {
            EventFrameData::U8(values) => assert!(values.iter().all(|&value| value == 0)),
            EventFrameData::F32(values) => assert!(values.iter().all(|&value| value == 0)),
            _ => panic!("unexpected empty representation dtype"),
        }
        assert_eq!(frame.data().len(), frame.shape().0 * 6);
    }
    assert_eq!(PointSet.generate(&stream).unwrap().shape(), (0, 4));
}

#[test]
fn rejects_invalid_parameters_and_size_overflow() {
    let stream = empty_stream(2, 3);

    assert_eq!(
        voxel(0, 30.0, &stream).unwrap_err(),
        RepresentationError::InvalidParameter("bins")
    );
    assert_eq!(
        time_surface(f64::NAN, &stream).unwrap_err(),
        RepresentationError::InvalidParameter("tau_ms")
    );
    assert_eq!(
        tencode(0.0, &stream).unwrap_err(),
        RepresentationError::InvalidParameter("window_ms")
    );
    assert_eq!(
        mcts(&Mcts::new(0.5f64.to_bits()), &[], &stream).unwrap_err(),
        RepresentationError::InvalidParameter("max_window_ms")
    );
    assert_eq!(
        count_mask(150.0, false, &stream).unwrap_err(),
        RepresentationError::InvalidParameter("pct")
    );

    let oversized = empty_stream(usize::MAX, 2);
    assert_eq!(
        Binary.generate(&oversized).unwrap_err(),
        RepresentationError::SizeOverflow
    );
}

#[test]
fn errors_have_their_sentences() {
    for (error, sentence) in [
        (RepresentationError::InvalidParameter("bins"), "bins must be at least 1"),
        (
            RepresentationError::InvalidParameter("max_window_ms"),
            "max_window_ms must be finite and at least 1",
        ),
        (RepresentationError::InvalidParameter("pct"), "pct must be between 0 and 100"),
        (
            RepresentationError::ShapeMismatch { samples: 5, width: 2, height: 3 },
            "frame has 5 samples but 2x3 needs 6",
        ),
        (RepresentationError::Device("no device".to_owned()), "no device"),
    ] {
        assert_eq!(error.message(), sentence);
    }
}

#[test]
fn averages_all_events_at_a_pixel() {
    let stream = stream_of(&[[0, 0, 30_000, 1], [0, 0, 20_000, 1], [1, 0, 10_000, 0]], 2, 1);
    let values = floats(&averaged_time_surface(10.0, &stream).unwrap());

    let expected_mean = (1.0 + (-1.0_f32).exp()) / 2.0;
    assert!((values[0] - expected_mean).abs() < 1e-6);
    assert_eq!(values[1], 0.0); // no positive events at (1,0)
    assert!((values[3] - (-2.0_f32).exp()).abs() < 1e-6);
}

#[test]
fn a_few_events_list_the_cells_they_touch() {
    let rows = [[3, 0, 5, 1], [1, 0, 6, 0], [3, 0, 7, 1]];
    let surface = AveragedTimeSurface::new(10f64.to_bits());
    let plan = surface.plan(&stream_of(&rows, 6, 1)).unwrap();
    assert_eq!(plan.touched, Some(vec![3, 7]));
    assert_eq!(plan.cells, vec![3, 7, 3]);
    assert_eq!(plan.ages, vec![2, 1, 0]);
    assert_eq!(plan.counts[3], 2);
    let plan = surface.plan(&stream_of(&rows, 4, 1)).unwrap();
    assert_eq!(plan.touched, None);
}

#[test]
fn rejects_invalid_tau() {
    let stream = stream_of(&[[0, 0, 10, 1]], 1, 1);
    let error = averaged_time_surface(0.0, &stream).unwrap_err();
    assert_eq!(error.message(), "tau_ms must be finite and positive");
}

#[test]
fn records_single_channel_occupancy() {
    let stream = stream_of(&[[0, 0, 1, 1], [0, 0, 2, 0], [1, 1, 3, 1]], 2, 2);
    let frame = Binary.generate(&stream).unwrap();

    assert_eq!(frame.shape(), (1, 2, 2));
    assert_eq!(frame.data(), &EventFrameData::U8(vec![1, 0, 0, 1]));
}

#[test]
fn sums_both_polarities_into_one_plane() {
    let stream = stream_of(&[[0, 0, 1, 1], [0, 0, 2, 0], [1, 1, 3, 1]], 2, 2);
    let frame = EventCount::default().generate(&stream).unwrap();

    assert_eq!(frame.shape(), (1, 2, 2));
    assert_eq!(frame.data(), &EventFrameData::U64(vec![2, 0, 0, 1]));
}

#[test]
fn normalizes_the_busiest_pixel_to_full_scale() {
    let stream = stream_of(&[[0, 0, 1, 1], [0, 0, 2, 0], [1, 0, 3, 1]], 2, 1);
    let count = EventCount::new(true);
    assert!(count.is_normalized());
    let frame = count.generate(&stream).unwrap();
    assert_eq!(frame.data(), &EventFrameData::U8(vec![255, 128]));
}

const OUTSIDE: &str = "event coordinate (2, 0) exceeds sensor size 2x2";

#[test]
fn count_rejects_out_of_bounds_events() {
    let stream = stream_of(&[[2, 0, 10, 1]], 2, 2);
    let error = EventCount::default().generate(&stream).unwrap_err();
    assert_eq!(error.message(), OUTSIDE);
}

fn golden_rows() -> Vec<[u64; 4]> {
    vec![
        [5, 4, 0, 1],
        [1, 0, 1, 0],
        [6, 2, 2, 0],
        [2, 0, 3, 0],
        [1, 4, 4, 1],
        [6, 2, 5, 0],
        [5, 2, 6, 1],
        [5, 2, 7, 0],
        [7, 2, 8, 1],
        [3, 1, 9, 0],
        [6, 3, 10, 1],
        [2, 4, 11, 0],
        [4, 2, 12, 1],
        [4, 1, 13, 0],
        [1, 0, 14, 1],
        [1, 0, 15, 0],
        [1, 0, 16, 1],
        [5, 0, 17, 1],
        [4, 0, 18, 0],
        [7, 3, 19, 0],
        [5, 4, 20, 0],
        [1, 5, 21, 1],
        [7, 3, 22, 1],
        [7, 3, 23, 0],
        [5, 1, 24, 0],
        [5, 5, 25, 1],
        [1, 3, 26, 0],
        [0, 4, 27, 1],
        [2, 4, 28, 1],
        [3, 5, 29, 0],
        [0, 4, 30, 1],
        [7, 5, 31, 1],
        [3, 3, 32, 0],
        [5, 3, 33, 0],
        [1, 1, 34, 0],
        [2, 5, 35, 0],
        [0, 3, 36, 0],
        [5, 2, 37, 1],
        [6, 1, 38, 1],
        [1, 1, 39, 1],
    ]
}

const GOLDEN: [u8; 144] = [
    // red: positive counts, clipped and normalised by 2
    0, 255, 0, 0, 0, 127, 0, 0, //
    0, 127, 0, 0, 0, 0, 127, 0, //
    0, 0, 0, 0, 127, 255, 0, 127, //
    0, 0, 0, 0, 0, 0, 127, 127, //
    255, 127, 127, 0, 0, 127, 0, 0, //
    0, 127, 0, 0, 0, 127, 0, 127, //
    // green: activity of either polarity
    0, 255, 255, 0, 255, 255, 0, 0, //
    0, 255, 0, 255, 255, 255, 255, 0, //
    0, 0, 0, 0, 255, 255, 255, 255, //
    255, 255, 0, 255, 0, 255, 255, 255, //
    255, 255, 255, 0, 0, 255, 0, 0, //
    0, 255, 255, 255, 0, 255, 0, 255, //
    // blue: negative counts, at the same scale
    0, 255, 127, 0, 127, 0, 0, 0, //
    0, 127, 0, 127, 127, 127, 0, 0, //
    0, 0, 0, 0, 0, 127, 255, 0, //
    127, 127, 0, 127, 0, 127, 0, 255, //
    0, 0, 127, 0, 0, 127, 0, 0, //
    0, 0, 127, 127, 0, 0, 0, 0, //
];

#[test]
fn matches_the_reference_renderer() {
    let frame = count_mask(99.0, false, &stream_of(&golden_rows(), 8, 6)).unwrap();

    assert_eq!(frame.shape(), (3, 6, 8));
    assert_eq!(frame.data(), &EventFrameData::U8(GOLDEN.to_vec()));
}

#[test]
fn ignores_timestamps() {
    let mut rows = golden_rows();
    for row in &mut rows {
        row[2] = row[2] * 1_000_000 + 7;
    }
    let frame = count_mask(99.0, false, &stream_of(&rows, 8, 6)).unwrap();
    assert_eq!(frame.data(), &EventFrameData::U8(GOLDEN.to_vec()));
}

#[test]
fn normalizes_both_planes_by_one_pooled_percentile() {
    // Positive: one event each at x = 0, 1, 2. Negative: 4 at x = 3, 8 at x = 4, 12 at x = 5.
    let mut rows = Vec::new();
    let pixels = [(0, 1, 1), (1, 1, 1), (2, 1, 1), (3, 4, 0), (4, 8, 0), (5, 12, 0)];
    for (x, count, polarity) in pixels {
        for _ in 0..count {
            let timestamp = rows.len() as u64;
            rows.push([x, 0, timestamp, polarity]);
        }
    }
    let stream = stream_of(&rows, 6, 1);

    let frame = count_mask(99.0, false, &stream).unwrap();
    assert_eq!(
        frame.data(),
        &EventFrameData::U8(vec![
            21, 21, 21, 0, 0, 0, // red: 1 / 11.8 -> 21, not 255
            255, 255, 255, 255, 255, 255, // green: every pixel saw an event
            0, 0, 0, 86, 172, 255, // blue: 8 / 11.8 * 255 = 172.88 -> 172
        ])
    );

    let inverted = count_mask(99.0, true, &stream).unwrap();
    assert_eq!(
        inverted.data(),
        &EventFrameData::U8(vec![
            233, 233, 233, 255, 255, 255, //
            0, 0, 0, 0, 0, 0, //
            255, 255, 255, 168, 82, 0,
        ])
    );
}

#[test]
fn countmask_rejects_out_of_bounds_events() {
    let stream = stream_of(&[[2, 0, 10, 1]], 2, 2);
    let error = count_mask(99.0, false, &stream).unwrap_err();
    assert_eq!(error.message(), OUTSIDE);
}

#[test]
fn rejects_percentiles_outside_zero_to_one_hundred() {
    let stream = stream_of(&golden_rows(), 8, 6);

    for pct in [-1.0, 100.5, f64::NAN] {
        assert_eq!(
            count_mask(pct, false, &stream).unwrap_err(),
            RepresentationError::InvalidParameter("pct")
        );
    }
    assert_eq!(
        count_mask(150.0, false, &stream).unwrap_err().message(),
        "pct must be between 0 and 100"
    );
}

#[test]
fn order_statistics_are_taken_in_order() {
    let values = [7, 1, 4, 2, 3];
    assert_eq!(order_statistics(&values, 0), (1, 2));
    assert_eq!(order_statistics(&values, 3), (4, 7));
    assert_eq!(order_statistics(&values, 4), (7, 7));
    assert!((percentile(&values, 99.0) - 6.88).abs() < 1e-12);
}

#[test]
fn builds_logarithmic_windows_for_each_polarity() {
    let stream = stream_of(&[[0, 0, 14_000, 0], [0, 0, 16_000, 1]], 1, 1);
    let surfaces = Mcts::new(16f64.to_bits());
    let frame = mcts(&surfaces, &spaced_windows(16.0), &stream).unwrap();
    assert_eq!(
        floats(&frame),
        vec![0.0, 0.0, 0.5, 0.75, 0.875, 1.0, 1.0, 1.0, 1.0, 1.0]
    );
}

fn explicit(windows: &[f64]) -> Mcts {
    Mcts::with_windows(windows.iter().map(|window| window.to_bits()).collect())
}

#[test]
fn builds_explicit_windows_in_the_order_given() {
    let stream = stream_of(&[[0, 0, 14_000, 0], [0, 0, 16_000, 1]], 1, 1);
    let windows = [4.0, 8.0];
    let frame = mcts(&explicit(&windows), &windows, &stream).unwrap();

    assert_eq!(floats(&frame), vec![0.5, 0.75, 1.0, 1.0]);
    assert_eq!(
        frame.channel_names(),
        &[
            "negative_4.000ms",
            "negative_8.000ms",
            "positive_4.000ms",
            "positive_8.000ms"
        ]
    );
}

#[test]
fn rejects_invalid_explicit_windows() {
    let stream = empty_stream(1, 1);
    for windows in [vec![], vec![0.0], vec![-1.0], vec![4.0, f64::NAN]] {
        assert!(matches!(
            mcts(&explicit(&windows), &windows, &stream),
            Err(RepresentationError::InvalidParameter("windows"))
        ));
    }
}

#[test]
fn explicit_windows_on_an_empty_stream_produce_zeros() {
    let windows = [1.0, 5.0, 20.0];
    let frame = mcts(&explicit(&windows), &windows, &empty_stream(2, 1)).unwrap();

    assert_eq!(frame.shape(), (6, 1, 2));
    assert_eq!(floats(&frame), vec![0.0; 12]);
}

#[test]
fn normalizes_points_without_reordering_events() {
    let stream = stream_of(&[[1, 0, 30, 0], [0, 2, 10, 1], [1, 1, 20, 1]], 2, 3);
    let points = PointSet.generate(&stream).unwrap();

    assert_eq!(points.shape(), (3, 4));
    assert_eq!(points.columns(), ("x", "y", "t", "p"));
    assert_eq!(
        points_of(&points),
        &[1.0, 0.0, 1.0, -1.0, 0.0, 1.0, 0.0, 1.0, 1.0, 0.5, 0.5, 1.0]
    );
}

#[test]
fn zero_duration_streams_have_zero_normalized_time() {
    let stream = stream_of(&[[0, 0, 10, 1], [1, 0, 10, 0]], 2, 1);
    let points = points_of(&PointSet.generate(&stream).unwrap());

    assert_eq!(points[2], 0.0);
    assert_eq!(points[6], 0.0);
}

#[test]
fn downsample_matches_resize_then_histogram() {
    // 8x6 sensor, factor 2 -> 4x3; events on every pixel plus a pile-up, both polarities
    let mut rows = Vec::new();
    for y in 0..6u64 {
        for x in 0..8u64 {
            rows.push([x, y, x + 8 * y, (x + y) % 2]);
        }
    }
    rows.extend([[7, 5, 100, 1], [7, 5, 101, 1], [6, 4, 102, 0]]);
    let stream = stream_of(&rows, 8, 6);
    let resized: Vec<[u64; 4]> = rows.iter().map(|r| [r[0] / 2, r[1] / 2, r[2], r[3]]).collect();
    let polarity = Polarity::new(false).with_downsample(2);
    assert_eq!((polarity.downsample(), polarity.is_normalized()), (2, false));
    let fused = polarity.generate(&stream).unwrap();
    let two_pass = Polarity::new(false).generate(&stream_of(&resized, 4, 3)).unwrap();
    assert_eq!(fused.shape(), (2, 3, 4));
    assert_eq!(fused.data(), two_pass.data());
    // Pushing the events one by one gives the same frame.
    let mut acc = PolarityAccumulator::new(8, 6, 2).unwrap();
    acc.push(1, 1, 0, true);
    acc.reset();
    for event in stream.iter() {
        acc.push(event.x as u16, event.y as u16, event.timestamp as i64, event.polarity);
    }
    assert_eq!(acc.into_frame(false).data(), fused.data());
    // A factor that does not divide: 8x6 by 3 -> 3x2, every event still lands in the frame.
    let odd = Polarity::new(false).with_downsample(3).generate(&stream).unwrap();
    assert_eq!(odd.shape(), (2, 2, 3));
    assert_eq!(
        match odd.data() {
            EventFrameData::U64(v) => v.iter().sum::<u64>(),
            _ => 0,
        },
        rows.len() as u64
    );
}

#[test]
fn accumulates_and_normalizes_polarities() {
    let stream = stream_of(&[[0, 0, 10, 1], [0, 0, 11, 1], [1, 0, 12, 0]], 2, 1);

    let raw = Polarity::default().generate(&stream).unwrap();
    let normalized = Polarity::new(true).generate(&stream).unwrap();

    assert_eq!(raw.data(), &EventFrameData::U64(vec![2, 0, 0, 1]));
    assert_eq!(normalized.data(), &EventFrameData::U8(vec![255, 0, 0, 128]));
}

#[test]
fn polarity_rejects_out_of_bounds_events() {
    let stream = stream_of(&[[2, 0, 10, 1]], 2, 2);
    let error = Polarity::default().generate(&stream).unwrap_err();
    assert_eq!(error.message(), OUTSIDE);
}

#[test]
fn counts_above_uint16_are_preserved() {
    let event_count = usize::from(u16::MAX) + 1;
    let rows: Vec<[u64; 4]> = (0..event_count as u64).map(|t| [0, 0, t, 1]).collect();
    let raw = Polarity::default().generate(&stream_of(&rows, 1, 1)).unwrap();

    assert_eq!(
        raw.data(),
        &EventFrameData::U64(vec![event_count as u64, 0])
    );
}

#[test]
fn preserves_rgb_when_rendered() {
    let stream = stream_of(&[[0, 0, 0, 1], [1, 0, 0, 0]], 3, 1);
    let frame = red_blue(99.0, &stream).unwrap();
    // Red where a positive event was, blue where a negative one was, white elsewhere.
    let EventFrameData::U8(samples) = frame.data() else {
        panic!("an image of bytes");
    };
    let pixels: Vec<u8> = (0..9).map(|i| samples[i % 3 * 3 + i / 3]).collect();
    assert_eq!(pixels, vec![255, 0, 0, 0, 0, 255, 255, 255, 255]);
    assert_eq!(RepresentationKind::from_tag("redblue"), Some(frame.kind()));
    assert_eq!(frame.kind().as_str(), "redblue");
}

#[test]
fn matches_float32_count_saturation() {
    assert_eq!(reference_count((1 << 24) + 1), 16_777_216);
    assert_eq!(reference_count(u64::MAX), 16_777_216);
    assert_eq!(strengths(&[1 << 24, u64::MAX], 99.0), vec![1.0, 1.0]);
}

#[test]
fn rejects_invalid_coordinates_and_dimensions() {
    let outside = stream_of(&[[2, 0, 0, 1]], 2, 1);
    assert!(matches!(
        red_blue(99.0, &outside),
        Err(RepresentationError::EventOutOfBounds { .. })
    ));
    let oversized = empty_stream(usize::MAX, 2);
    assert_eq!(
        red_blue(99.0, &oversized).unwrap_err(),
        RepresentationError::SizeOverflow
    );
}

#[test]
fn encodes_latest_polarity_and_age() {
    let rows = [[0, 0, 10_000, 1], [1, 0, 30_000, 1], [1, 0, 30_000, 0]];
    let frame = tencode(30.0, &stream_of(&rows, 2, 1)).unwrap();
    assert_eq!(
        frame.data(),
        &EventFrameData::U8(vec![255, 0, 170, 0, 0, 255])
    );
}

#[test]
fn uses_latest_event_per_pixel_and_polarity() {
    let rows = [[0, 0, 30_000, 1], [1, 0, 20_000, 0], [0, 0, 10_000, 1]];
    let values = floats(&time_surface(10.0, &stream_of(&rows, 2, 1)).unwrap());

    assert_eq!(values[0], 1.0);
    assert_eq!(values[1], 0.0);
    assert!((values[3] - (-1.0_f32).exp()).abs() < 1e-6);
}

#[test]
fn a_timestamp_of_zero_is_an_event_not_an_empty_pixel() {
    let values = floats(&time_surface(10.0, &stream_of(&[[0, 0, 0, 1]], 2, 1)).unwrap());

    assert_eq!(values[0], 1.0); // the event, at age 0
    assert_eq!(values[1], 0.0); // no event ever landed here
    assert!(values[2..].iter().all(|&value| value == 0.0)); // nor on the negative plane
}

#[test]
fn interpolates_signed_events_between_time_bins() {
    let rows = [[0, 0, 0, 1], [0, 0, 15_000, 0], [1, 0, 30_000, 1]];
    let frame = voxel(3, 30.0, &stream_of(&rows, 2, 1)).unwrap();
    assert_eq!(floats(&frame), vec![1.0, 0.0, -1.0, 0.0, 0.0, 1.0]);
    assert_eq!(frame.channel_names(), &["bin_0", "bin_1", "bin_2"]);
}

#[test]
fn equal_timestamps_use_the_final_bin() {
    let stream = stream_of(&[[0, 0, 10, 1], [0, 0, 10, 1]], 1, 1);
    let frame = voxel(3, 30.0, &stream).unwrap();
    assert_eq!(floats(&frame), vec![0.0, 0.0, 2.0]);
}

#[test]
fn opposing_events_cancel_in_the_same_bins() {
    let stream = stream_of(&[[0, 0, 10, 1], [0, 0, 10, 0]], 1, 1);
    let frame = voxel(3, 30.0, &stream).unwrap();
    assert_eq!(floats(&frame), vec![0.0; 3]);
}

#[test]
fn tags_and_kinds_name_each_other() {
    for tag in ["binary", "count", "voxel", "mcts", "tencode", "time_surface", "polarity"] {
        if let Some(kind) = RepresentationKind::from_tag(tag) {
            assert_eq!(kind.as_str(), tag);
        }
    }
    assert_eq!(RepresentationKind::from_tag("nothing"), None);
}
