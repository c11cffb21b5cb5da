use eventcv_core::simulate::{
    block_pixel, block_seed, collect_interval, fire, simulates_more, total_frames,
    upsample_steps, Arrival, FrameClock, SimEvent, Upsample, MAX_UPSAMPLE, MAX_UPSAMPLE_CEILING, PARALLEL_SORT_THRESHOLD,
    PIXEL_BLOCK,
};

#[test]
fn max_upsample_caps_the_subdivision() {
    // The contrast of a ramp from 0.1 to 0.9 at a threshold of 0.05, one event per sub-interval.
    let log = |value: f32| (value * 255.0).ln();
    let wanted = ((log(0.9) - log(0.1)) / 0.05).ceil() as usize;
    let steps_for =
        |max_upsample| upsample_steps(Upsample::Adaptive { wanted }, max_upsample, 10_000);
    let uncapped = steps_for(MAX_UPSAMPLE);
    assert!(uncapped > 10, "this contrast asks for a subdivision, got {uncapped}");
    assert_eq!(steps_for(1), 1, "a ceiling of 1 disables subdivision");
    assert_eq!(steps_for(10), 10, "the ceiling binds below what is asked");
    assert_eq!(
        steps_for(MAX_UPSAMPLE_CEILING),
        uncapped,
        "raising the ceiling past the demand changes nothing"
    );
    assert_eq!(upsample_steps(Upsample::Off, 10, 10_000), 1);
    assert_eq!(upsample_steps(Upsample::Fixed(4), 10, 10_000), 4);
}

fn shuffled(count: usize) -> Vec<Vec<SimEvent>> {
    let event = |i: usize| {
        let t = (i * 7_919 % 10_007) as i64;
        (t, (i / 64 % 64) as u16, (i % 64) as u16, i % 2 == 0)
    };
    let all: Vec<SimEvent> = (0..count).map(event).collect();
    all.chunks(1_000).map(|chunk| chunk.to_vec()).collect()
}

#[test]
fn output_is_globally_sorted_across_pixels() {
    for count in [100, PARALLEL_SORT_THRESHOLD + 10] {
        let blocks = shuffled(count);
        let stream = collect_interval(&blocks, 64, 64);
        assert_eq!(stream.len(), count);
        assert!(stream.ts().windows(2).all(|w| w[0] <= w[1]));
        let mut expected: Vec<SimEvent> = blocks.concat();
        expected.sort_unstable();
        let found: Vec<SimEvent> = (0..count)
            .map(|i| stream.get(i))
            .map(|e| (e.t, e.y, e.x, e.p))
            .collect();
        assert_eq!(found, expected);
    }
}

#[test]
fn parallel_output_is_sorted_and_in_bounds() {
    let stream = collect_interval(&shuffled(PARALLEL_SORT_THRESHOLD + 10), 32, 64);
    assert!(!stream.is_empty());
    assert!(stream.ts().windows(2).all(|w| w[0] <= w[1]));
    assert!(stream.xs().iter().all(|&x| x < 32));
    assert!(stream.ys().iter().all(|&y| y < 64));
}

#[test]
fn every_pixel_block_is_reached() {
    let (width, height) = (288, 288);
    let mut seen = vec![0usize; width * height];
    for block in 0..(width * height).div_ceil(PIXEL_BLOCK) {
        for offset in 0..PIXEL_BLOCK.min(width * height - block * PIXEL_BLOCK) {
            let (x, y) = block_pixel(block, offset, width, height);
            seen[usize::from(y) * width + usize::from(x)] += 1;
        }
    }
    assert!(seen.iter().all(|&count| count == 1));
}

#[test]
fn the_refractory_period_thins_a_burst() {
    let mut events = Vec::new();
    let mut last = i64::MIN;
    for t in 0..100 {
        last = fire(last, t, 3, 4, true, 10, &mut events);
    }
    assert_eq!(events.len(), 10);
    assert!(events.windows(2).all(|pair| pair[1].0 - pair[0].0 >= 10));
    let mut free = Vec::new();
    let mut last = i64::MIN;
    for t in 0..100 {
        last = fire(last, t, 3, 4, false, 0, &mut free);
    }
    assert_eq!(free.len(), 100);
}

#[test]
fn the_first_frame_only_seeds_state() {
    let mut clock = FrameClock::new();
    assert_eq!(clock.arrive(1_000), Arrival::First);
    match clock.arrive(3_500) {
        Arrival::Interval { t_previous, span, .. } => assert_eq!((t_previous, span), (1_000, 2_500)),
        Arrival::First => panic!("a second frame ends an interval"),
    }
}

#[test]
fn blocks_are_seeded_apart() {
    let seeds: Vec<u64> = (0..100).map(|block| block_seed(12345, 1, block)).collect();
    let mut apart = seeds.clone();
    apart.sort_unstable();
    apart.dedup();
    assert_eq!(apart.len(), seeds.len());
    assert_ne!(block_seed(12345, 1, 0), block_seed(12345, 2, 0));
    assert_eq!(block_seed(12345, 1, 7), block_seed(12345, 1, 7));
}

#[test]
fn a_limit_shortens_the_expected_frames() {
    assert_eq!(total_frames(Some(30), Some(10)), Some(10));
    assert_eq!(total_frames(Some(5), Some(10)), Some(5));
    assert_eq!(total_frames(None, Some(10)), Some(10));
    assert_eq!(total_frames(Some(30), None), Some(30));
}

#[test]
fn timestamps_are_never_negative() {
    // A brighter frame at 5 ms after one at zero; the first crossing is put before the interval.
    let mut clock = FrameClock::new();
    assert_eq!(clock.arrive(0), Arrival::First);
    assert!(matches!(clock.arrive(5_000), Arrival::Interval { t_previous: 0, span: 5_000, .. }));
    let mut events = Vec::new();
    let mut last = i64::MIN;
    for t in [-40, -1, 0, 2_500, 5_000] {
        last = fire(last, t, 1, 2, true, 0, &mut events);
        assert_eq!(last, t);
    }
    let stream = collect_interval(&[events], 4, 4);
    assert_eq!(stream.ts(), [0, 0, 0, 2_500, 5_000]);
    assert!(stream.ts().iter().all(|&t| t >= 0));
}

#[test]
fn a_limit_ends_a_simulation() {
    assert!(simulates_more(4, Some(5)));
    assert!(!simulates_more(5, Some(5)));
    assert!(!simulates_more(0, Some(0)));
    assert!(simulates_more(usize::MAX, None));
}
