use mandelbrot::evaluate::evaluate;
use mandelbrot::evaluate::evaluate_point;
use mandelbrot::evaluate::evaluate_point_with_radius;
use mandelbrot::evaluate::mandel_point_optimized;
use mandelbrot::evaluate::ESCAPE_SQ;
use mandelbrot::evaluate::SMOOTH_ESCAPE_SQ;
use mandelbrot::fixed::SCALE;
use mandelbrot::smooth::smooth_fraction;

#[test]
fn interior_bulb_returns_full_budget() {
    // The origin satisfies the period-2 bulb test, whatever the budget.
    assert_eq!(evaluate_point(0, 0, 1, ESCAPE_SQ), 1);
    assert_eq!(evaluate_point(0, 0, 17, ESCAPE_SQ), 17);
    assert_eq!(evaluate_point(0, 0, 1000, ESCAPE_SQ), 1000);
}

#[test]
fn interior_cardioid_test_returns_full_budget() {
    // (-1, 0) satisfies the cardioid-form test (x+1)^2 + y^2 < 1/16.
    assert_eq!(evaluate_point(-SCALE, 0, 1, ESCAPE_SQ), 1);
    assert_eq!(evaluate_point(-SCALE, 0, 123, ESCAPE_SQ), 123);
    // So does a nearby off-axis point.
    let eps = SCALE / 32;
    assert_eq!(evaluate_point(-SCALE + eps, eps, 55, ESCAPE_SQ), 55);
}

#[test]
fn far_point_escapes_at_zero() {
    // (2, 2) has squared magnitude 8 > 4: the exterior short-circuit.
    assert_eq!(evaluate_point(2 * SCALE, 2 * SCALE, 100, ESCAPE_SQ), 0);
}

#[test]
fn escape_iteration_is_exact() {
    // c = 1: the orbit is 0, 1, 2, whose square reaches 4 at step 2.
    assert_eq!(mandel_point_optimized(SCALE, 0, 100, ESCAPE_SQ), 2);
    assert_eq!(evaluate_point(SCALE, 0, 100, ESCAPE_SQ), 2);
    // c = -2: the first iterate is -2 itself, with |z|^2 = 4 already.
    assert_eq!(mandel_point_optimized(-2 * SCALE, 0, 100, ESCAPE_SQ), 1);
}

#[test]
fn zero_budget_returns_zero() {
    assert_eq!(evaluate_point(SCALE, 0, 0, ESCAPE_SQ), 0);
    assert_eq!(evaluate_point(0, 0, 0, ESCAPE_SQ), 0);
    assert_eq!(mandel_point_optimized(SCALE, 0, 0, ESCAPE_SQ), 0);
}

#[test]
fn budget_is_never_exceeded() {
    for it in [0u32, 1, 2, 5, 30] {
        assert!(evaluate_point(SCALE / 4, SCALE / 3, it, ESCAPE_SQ) <= it);
    }
}

#[test]
fn evaluate_reports_the_stopping_magnitude() {
    // Interior short-circuits stop with magnitude zero.
    assert_eq!(evaluate_point_with_radius(0, 0, 50, ESCAPE_SQ), (50, 0));
    // The exterior short-circuit reports the point's own magnitude:
    // |2 + 2i|^2 = 8.
    assert_eq!(
        evaluate_point_with_radius(2 * SCALE, 2 * SCALE, 50, ESCAPE_SQ),
        (0, 8 * SCALE)
    );
    // c = 1 stops at z = 2 with |z|^2 = 4.
    assert_eq!(evaluate_point_with_radius(SCALE, 0, 50, ESCAPE_SQ), (2, 4 * SCALE));
}

#[test]
fn evaluate_reports_no_fraction_unless_asked() {
    let r = evaluate(2 * SCALE, 2 * SCALE, 100, ESCAPE_SQ, false);
    assert_eq!(r.iteration, 0);
    assert_eq!(r.smooth_fraction, None);
}

#[test]
fn evaluate_reports_no_fraction_for_interior() {
    let r = evaluate(0, 0, 100, ESCAPE_SQ, true);
    assert_eq!(r.iteration, 100);
    assert_eq!(r.smooth_fraction, None);
}

#[test]
fn evaluate_reports_fraction_for_escaping_point() {
    // (2, 2) stops at squared magnitude 8, far below the smoothing
    // formula's unit band: the fraction clamps to zero.
    let r = evaluate(2 * SCALE, 2 * SCALE, 100, ESCAPE_SQ, true);
    assert_eq!(r.iteration, 0);
    assert_eq!(r.smooth_fraction, Some(0));
}

#[test]
fn smooth_fraction_anchors() {
    // At the widened escape threshold (256.0) the fraction is zero;
    // near the threshold's square it saturates.
    assert_eq!(smooth_fraction(SMOOTH_ESCAPE_SQ), 0);
    assert_eq!(smooth_fraction(0x100_0000_0000), 255);
    // Below one unit the formula is cut off.
    assert_eq!(smooth_fraction(100), 0);
    assert_eq!(smooth_fraction(0), 0);
}

#[test]
fn smooth_fraction_is_monotone_across_the_annulus() {
    let mut last = 0u8;
    let mut r2 = SMOOTH_ESCAPE_SQ;
    while r2 <= 0x100_0000_0000 {
        let f = smooth_fraction(r2);
        assert!(f >= last);
        last = f;
        r2 += 0x8000_0000;
    }
    assert_eq!(last, 255);
}

#[test]
fn smooth_fraction_interior_values() {
    // r2 = 512.0 = 2^33 raw gives log2(log2(r2)/2) - 2 = log2(1.125),
    // whose first eight binary digits are 43/256.
    assert_eq!(smooth_fraction(0x2_0000_0000), 43);
    // r2 = 4096.0 = 2^36 raw gives log2(1.5), 149/256.
    assert_eq!(smooth_fraction(0x10_0000_0000), 149);
}
