use rsfractal::fixed::SCALE;
use rsfractal::mandelbrot::Complex;
use rsfractal::mandelbrot::EscapeResult;
use rsfractal::mandelbrot::Mandelbrot;

#[test]
fn origin_is_bounded_by_short_circuit() {
    // c = 0 lies inside the main cardioid: the closed-form test catches
    // it, whatever the iteration budget.
    let m = Mandelbrot::default();
    let r = m.iterate(&Complex { re: 0, im: 0 });
    assert_eq!(r, EscapeResult::Bounded);
}

#[test]
fn bulb_center_is_bounded_by_short_circuit() {
    // c = -1 lies inside the period-2 bulb.
    let m = Mandelbrot::default();
    let r = m.iterate(&Complex { re: -SCALE, im: 0 });
    assert_eq!(r, EscapeResult::Bounded);
}

#[test]
fn far_point_escapes_within_two_iterations() {
    // c = 10 + 10i is far outside the set: with a radius-2 bailout it
    // escapes on the very first iteration.
    let mut m = Mandelbrot::default();
    m.bailout = 4 * SCALE;
    let c = Complex {
        re: 10 * SCALE,
        im: 10 * SCALE,
    };
    match m.iterate(&c) {
        EscapeResult::Escaped { iterations, z } => {
            assert!(iterations <= 2);
            assert_eq!(iterations, 1);
            assert_eq!(z, c);
        }
        EscapeResult::Bounded => panic!("a far point must escape"),
    }
}

#[test]
fn exact_cycle_is_detected_before_the_budget() {
    // Under fixed-point arithmetic the orbit of c = i enters the exact
    // two-cycle (-1 + i, -i) after two steps; with a snapshot interval
    // of one the periodicity check reports Bounded at the fourth step,
    // far before the budget runs out.
    let mut m = Mandelbrot::default();
    m.bailout = 4 * SCALE;
    m.period_length = 1;
    m.max_iterations = 100_000_000;
    let r = m.iterate(&Complex { re: 0, im: SCALE });
    assert_eq!(r, EscapeResult::Bounded);
}

#[test]
fn escape_counts_grow_toward_the_boundary() {
    // Along the real axis toward the set, later samples take at least as
    // many iterations as earlier ones.
    let mut m = Mandelbrot::default();
    m.bailout = 4 * SCALE;
    let mut last: usize = 0;
    for k in 0..8i64 {
        // c from 3 down toward 0.25, outside the set
        let c = Complex {
            re: 3 * SCALE - k * (SCALE / 4),
            im: 0,
        };
        match m.iterate(&c) {
            EscapeResult::Escaped { iterations, .. } => {
                assert!(iterations >= last);
                last = iterations;
            }
            EscapeResult::Bounded => panic!("points beyond 1/4 on the real axis escape"),
        }
    }
}

#[test]
fn smooth_value_refines_the_count() {
    // the renormalized value stays within two whole counts of the raw
    // count and is strictly positive for a just-escaped orbit
    let mut m = Mandelbrot::default();
    m.bailout = 4 * SCALE;
    let c = Complex {
        re: 10 * SCALE,
        im: 10 * SCALE,
    };
    match m.iterate(&c) {
        EscapeResult::Escaped { iterations, z } => {
            let s = m.smooth(&z, iterations);
            assert!(s > 0);
            assert!(s < (iterations as i64 + 2) * SCALE);
        }
        EscapeResult::Bounded => panic!("a far point must escape"),
    }
}
