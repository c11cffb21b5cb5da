use eventcv_core::mask::{fill_rect, fill_spans, span};

/// The pixels whose centres lie from `lo` to before `hi`.
fn pixels(lo: f64, hi: f64, limit: usize) -> (usize, usize) {
    let edge = |at: f64| (at - 0.5).ceil().max(0.0) as usize;
    span(edge(lo), edge(hi), limit)
}

fn rect(width: usize, height: usize, x0: f64, y0: f64, w: f64, h: f64) -> Vec<bool> {
    fill_rect(width, height, pixels(x0, x0 + w, width), pixels(y0, y0 + h, height))
}

fn ellipse(width: usize, height: usize, cx: f64, cy: f64, rx: f64, ry: f64) -> Vec<bool> {
    let mut rows = vec![Vec::new(); height];
    if rx > 0.0 && ry > 0.0 {
        let (top, bottom) = pixels(cy - ry, cy + ry, height);
        let (left, right) = pixels(cx - rx, cx + rx, width);
        for (y, row) in rows.iter_mut().enumerate().take(bottom).skip(top) {
            let dy = (y as f64 + 0.5 - cy) / ry;
            for x in left..right {
                let dx = (x as f64 + 0.5 - cx) / rx;
                if dx * dx + dy * dy <= 1.0 {
                    row.push((x, x + 1));
                }
            }
        }
    }
    fill_spans(width, height, &rows)
}

fn polygon(width: usize, height: usize, points: &[(f64, f64)]) -> Vec<bool> {
    let mut rows = vec![Vec::new(); height];
    if points.len() >= 3 {
        for (y, row) in rows.iter_mut().enumerate() {
            let line = y as f64 + 0.5;
            let mut crossings = Vec::new();
            for (index, &(x0, y0)) in points.iter().enumerate() {
                let (x1, y1) = points[(index + 1) % points.len()];
                if (y0 <= line) != (y1 <= line) {
                    crossings.push(x0 + (line - y0) / (y1 - y0) * (x1 - x0));
                }
            }
            crossings.sort_by(f64::total_cmp);
            for pair in crossings.chunks_exact(2) {
                row.push(pixels(pair[0], pair[1], width));
            }
        }
    }
    fill_spans(width, height, &rows)
}

fn kept(mask: &[bool]) -> usize {
    mask.iter().filter(|&&keep| keep).count()
}

#[test]
fn rect_keeps_exactly_its_pixels_and_clamps_off_sensor() {
    let mask = rect(8, 8, 2.0, 3.0, 3.0, 2.0);
    assert_eq!(kept(&mask), 6);
    for y in 0..8 {
        for x in 0..8 {
            let inside = (2..5).contains(&x) && (3..5).contains(&y);
            assert_eq!(mask[y * 8 + x], inside, "pixel ({x}, {y})");
        }
    }
    // A rectangle hanging off the sensor keeps the overlap; one entirely outside keeps nothing.
    assert_eq!(kept(&rect(8, 8, -4.0, -4.0, 6.0, 6.0)), 4);
    assert_eq!(kept(&rect(8, 8, 20.0, 0.0, 4.0, 4.0)), 0);
    assert_eq!(kept(&rect(8, 8, 0.0, 0.0, 0.0, 4.0)), 0); // zero width
}

#[test]
fn ellipse_keeps_the_centre_rejects_the_corners_and_has_the_right_area() {
    let (width, height, radius) = (64, 64, 20.0);
    let mask = ellipse(width, height, 32.0, 32.0, radius, radius);
    assert!(mask[32 * width + 32]);
    assert!(!mask[0]);
    assert!(!mask[(height - 1) * width + width - 1]);
    let area = std::f64::consts::PI * radius * radius;
    assert!((kept(&mask) as f64 - area).abs() < 0.03 * area, "{}", kept(&mask));
    assert!(kept(&ellipse(width, height, 32.0, 32.0, radius, radius / 2.0)) < kept(&mask));
    assert_eq!(kept(&ellipse(width, height, 32.0, 32.0, 0.0, radius)), 0);
}

#[test]
fn polygon_fills_a_rectangle_exactly_like_rect() {
    let corners = [(2.0, 3.0), (5.0, 3.0), (5.0, 5.0), (2.0, 5.0)];
    assert_eq!(polygon(8, 8, &corners), rect(8, 8, 2.0, 3.0, 3.0, 2.0));
}

#[test]
fn polygon_fills_a_triangle_by_the_even_odd_rule() {
    // The rows hold 4, 3, 2, and 1 pixels.
    let mask = polygon(8, 8, &[(0.0, 0.0), (5.0, 0.0), (0.0, 5.0)]);
    assert_eq!(kept(&mask), 4 + 3 + 2 + 1);
    assert!(mask[0]);
    assert!(!mask[3 * 8 + 3]);
    // Fewer than three points cannot enclose anything.
    assert_eq!(kept(&polygon(8, 8, &[(0.0, 0.0), (4.0, 4.0)])), 0);
}

#[test]
fn degenerate_sensors_and_coordinates_produce_an_empty_mask() {
    assert!(rect(0, 0, 0.0, 0.0, 4.0, 4.0).is_empty());
    assert!(ellipse(0, 8, 0.0, 0.0, 2.0, 2.0).is_empty());
    assert_eq!(kept(&rect(8, 8, f64::NAN, 0.0, 4.0, 4.0)), 0);
    let (start, end) = pixels(f64::INFINITY, f64::INFINITY, 8);
    assert_eq!(end - start, 0);
}
