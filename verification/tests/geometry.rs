use rsfractal::fixed::SCALE;
use rsfractal::mandelbrot::rect_from_position;
use rsfractal::range::Range;
use rsfractal::rectangle::Rectangle;
use rsfractal::vector::Vector;

#[test]
fn scale_hits_the_endpoints() {
    // Remapping the input interval's endpoints lands exactly on the
    // output interval's endpoints.
    let input = Range::new(0, 100 * SCALE);
    let output = Range::new(-2 * SCALE, 2 * SCALE);
    assert_eq!(Range::scale(&input, 0, &output), -2 * SCALE);
    assert_eq!(Range::scale(&input, 100 * SCALE, &output), 2 * SCALE);
    // and the midpoint on the midpoint, both intervals being symmetric
    assert_eq!(Range::scale(&input, 50 * SCALE, &output), 0);
}

#[test]
fn scale_follows_reversed_outputs() {
    let input = Range::new(0, 10 * SCALE);
    let output = Range::new(SCALE, -SCALE);
    assert_eq!(Range::scale(&input, 0, &output), SCALE);
    assert_eq!(Range::scale(&input, 10 * SCALE, &output), -SCALE);
}

#[test]
fn rectangle_extents_are_signed() {
    let rect = Rectangle::new(Vector::new(3 * SCALE, 5 * SCALE), Vector::new(SCALE, SCALE));
    assert_eq!(rect.width(), -2 * SCALE);
    assert_eq!(rect.height(), -4 * SCALE);
}

#[test]
fn rect_from_position_spans_the_zoom() {
    let rect = rect_from_position(&Vector::new(-SCALE / 2, 0), &Vector::new(2 * SCALE, SCALE));
    assert_eq!(rect.start, Vector::new(-SCALE / 2 - 2 * SCALE, -SCALE));
    assert_eq!(rect.end, Vector::new(-SCALE / 2 + 2 * SCALE, SCALE));
}

#[test]
fn viewport_ranges_follow_position_and_zoom() {
    let m = rsfractal::mandelbrot::Mandelbrot::default();
    let (width_range, height_range, real_range, imaginary_range) = m.ranges();
    assert_eq!(width_range.min, 0);
    assert_eq!(width_range.max, 1280 * SCALE);
    assert_eq!(height_range.min, 0);
    assert_eq!(height_range.max, 720 * SCALE);
    assert_eq!(real_range.min, m.position.x - m.zoom.x);
    assert_eq!(real_range.max, m.position.x + m.zoom.x);
    assert_eq!(imaginary_range.min, m.position.y - m.zoom.y);
    assert_eq!(imaginary_range.max, m.position.y + m.zoom.y);
}

#[test]
fn zoom_round_trip_restores_the_extents() {
    // factor and inverse are exact fixed-point reciprocals, so the
    // extents come back exactly here (the products divide evenly);
    // position is intentionally re-centred, not restored.
    let mut m = rsfractal::mandelbrot::Mandelbrot::default();
    let zx = m.zoom.x;
    let zy = m.zoom.y;
    let x = 640 * SCALE;
    let y = 360 * SCALE;
    assert!(m.try_zoom(x, y, SCALE / 4));
    assert_eq!(m.zoom.x, zx / 4);
    assert_eq!(m.zoom.y, zy / 4);
    assert!(m.try_zoom(x, y, 4 * SCALE));
    assert_eq!(m.zoom.x, zx);
    assert_eq!(m.zoom.y, zy);
}

#[test]
fn zoom_out_of_budget_is_refused() {
    let mut m = rsfractal::mandelbrot::Mandelbrot::default();
    let before_zoom = m.zoom;
    let before_position = m.position;
    // an absurd zoom-out would blow the coordinate budget
    assert!(!m.try_zoom(640 * SCALE, 360 * SCALE, i64::MAX));
    assert_eq!(m.zoom, before_zoom);
    assert_eq!(m.position, before_position);
}

#[test]
fn center_pixel_samples_the_center() {
    // the screen center maps exactly onto the viewport's plane-space
    // center: both intervals are symmetric around it
    let m = rsfractal::mandelbrot::Mandelbrot::default();
    let c = m.sample(640, 360);
    assert_eq!(c.re, m.position.x);
    assert_eq!(c.im, m.position.y);
}
