use eventcv_core::floats::{finite, fractional, greatest, least, nan, reaches};
use eventcv_core::ros2::time_shift;
use eventcv_core::stream::MICROSECOND_SCALE;
use eventcv_core::{EventStream, EventStreamBuilder};

fn stream() -> EventStream {
    let mut builder = EventStreamBuilder::new(4, 3, MICROSECOND_SCALE);
    builder.push(0, 0, 5, true);
    builder.push(3, 2, 9, false);
    builder.build()
}

#[test]
fn events_are_moved_dropped_and_clipped() {
    let moved = stream().remap(8, 8, &[Some((7, 1, 6, false)), None]);
    assert_eq!(moved.sensor_size(), (8, 8));
    assert_eq!(moved.xs(), &[7]);
    assert_eq!(moved.ps(), &[false]);
    let clipped = stream().remap(8, 8, &[Some((-1, 0, 6, true)), Some((8, 0, 7, true))]);
    assert!(clipped.is_empty());
}

#[test]
fn mirroring_twice_changes_nothing() {
    let stream = stream();
    let mirror = |s: &EventStream| {
        let xs = s.xs().iter().map(|&x| 3 - x).collect();
        s.map_columns(4, 3, xs, s.ys().to_vec(), s.ts().to_vec(), s.ps().to_vec())
    };
    let once = mirror(&stream);
    assert_eq!(once.xs(), &[3, 0]);
    assert_eq!(mirror(&once).xs(), stream.xs());
}

#[test]
fn a_shift_moves_every_time() {
    let moved = time_shift(&stream(), -5);
    assert_eq!(moved.ts(), &[0, 4]);
    assert_eq!(moved.xs(), stream().xs());
}

#[test]
fn bit_patterns_are_read_as_numbers() {
    let values = [0.0, -0.0, 0.5, 1.0, -1.5, 2.0f64.powi(60), 1e-300, 1e300];
    for a in values {
        assert_eq!(fractional(a.to_bits()), a.fract() != 0.0, "{a}");
        assert!(finite(a.to_bits()) && !nan(a.to_bits()));
        for b in values {
            assert_eq!(reaches(a.to_bits(), b.to_bits()), a >= b, "{a} {b}");
            assert_eq!(f64::from_bits(least(a.to_bits(), b.to_bits())), a.min(b));
            assert_eq!(f64::from_bits(greatest(a.to_bits(), b.to_bits())), a.max(b));
        }
    }
    assert!(nan(f64::NAN.to_bits()));
    assert!(!finite(f64::INFINITY.to_bits()));
    assert!(!reaches(f64::NAN.to_bits(), 0));
}
