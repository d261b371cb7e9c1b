use mandelbrot::adaptive::optimal_iterations;
use mandelbrot::fixed::SCALE;
use mandelbrot::full::render_full;
use mandelbrot::full::RenderRequest;
use mandelbrot::palette::ColorPalette;
use mandelbrot::viewport::center_zoom_of;
use mandelbrot::viewport::viewport_from_center_zoom;
use mandelbrot::viewport::Viewport;

#[test]
fn optimal_iterations_at_unit_zoom_is_the_base() {
    assert_eq!(optimal_iterations(SCALE, 100, 1000), 100);
}

#[test]
fn optimal_iterations_grows_by_half_base_per_decade() {
    assert_eq!(optimal_iterations(10 * SCALE, 100, 1000), 150);
    assert_eq!(optimal_iterations(100 * SCALE, 100, 1000), 200);
    assert_eq!(optimal_iterations(1000 * SCALE, 100, 1000), 250);
}

#[test]
fn optimal_iterations_clamps_low_zoom_to_one() {
    assert_eq!(optimal_iterations(SCALE / 2, 100, 1000), 100);
    assert_eq!(optimal_iterations(0, 100, 1000), 100);
    assert_eq!(optimal_iterations(-5, 100, 1000), 100);
}

#[test]
fn optimal_iterations_never_exceeds_the_ceiling() {
    assert_eq!(optimal_iterations(100 * SCALE, 100, 120), 120);
    for e in 0..12u32 {
        let zoom = SCALE.saturating_mul(10i64.saturating_pow(e));
        assert!(optimal_iterations(zoom, 100, 300) <= 300);
    }
}

#[test]
fn optimal_iterations_is_monotone_in_zoom() {
    let mut last = 0u32;
    for e in 0..12u32 {
        let zoom = SCALE.saturating_mul(10i64.saturating_pow(e));
        let v = optimal_iterations(zoom, 100, 10_000);
        assert!(v >= last);
        last = v;
    }
}

#[test]
fn palette_ramp_values() {
    let palette = ColorPalette::new();
    assert_eq!(palette.color(0), (0, 0, 0));
    assert_eq!(palette.color(127), (255, 126, 0));
    assert_eq!(palette.color(191), (255, 255, 0));
    assert_eq!(palette.color(255), (255, 255, 255));
    // Red ramps over the lower half: index 64 maps to 64 * 255 / 127.
    assert_eq!(palette.color(64), (128, 0, 0));
}

#[test]
fn render_full_interior_view_is_opaque_black() {
    // A tiny rectangle around the origin lies inside the period-2
    // bulb: every pixel is interior.
    let req = RenderRequest {
        min_real: -(SCALE / 64),
        max_real: SCALE / 64,
        min_imag: -(SCALE / 64),
        max_imag: SCALE / 64,
        canvas_width: 4,
        canvas_height: 4,
        max_iterations: 25,
        smooth_rendering: false,
        block_size: 1,
    };
    let r = render_full(&req);
    assert_eq!(r.width, 4);
    assert_eq!(r.height, 4);
    assert_eq!(r.image_data.len(), 4 * 4 * 4);
    for p in 0..16 {
        assert_eq!(&r.image_data[4 * p..4 * p + 4], &[0, 0, 0, 255]);
    }
}

#[test]
fn render_full_escaping_view_uses_the_palette() {
    // A sliver just right of c = 1: every point escapes at iteration
    // 2, which maps to palette entry 2 = (4, 0, 0).
    let req = RenderRequest {
        min_real: SCALE,
        max_real: SCALE + 16,
        min_imag: 0,
        max_imag: 16,
        canvas_width: 2,
        canvas_height: 2,
        max_iterations: 100,
        smooth_rendering: false,
        block_size: 1,
    };
    let r = render_full(&req);
    for p in 0..4 {
        assert_eq!(&r.image_data[4 * p..4 * p + 4], &[4, 0, 0, 255]);
    }
}

#[test]
fn render_full_is_idempotent() {
    let req = RenderRequest {
        min_real: -2 * SCALE,
        max_real: SCALE,
        min_imag: -SCALE,
        max_imag: SCALE,
        canvas_width: 6,
        canvas_height: 4,
        max_iterations: 40,
        smooth_rendering: false,
        block_size: 1,
    };
    let a = render_full(&req);
    let b = render_full(&req);
    assert_eq!(a.image_data, b.image_data);
}

#[test]
fn render_full_smooth_is_opaque_and_deterministic() {
    let req = RenderRequest {
        min_real: -2 * SCALE,
        max_real: SCALE,
        min_imag: -SCALE,
        max_imag: SCALE,
        canvas_width: 6,
        canvas_height: 4,
        max_iterations: 40,
        smooth_rendering: true,
        block_size: 1,
    };
    let a = render_full(&req);
    let b = render_full(&req);
    assert_eq!(a.image_data, b.image_data);
    assert_eq!(a.image_data.len(), 6 * 4 * 4);
    for p in 0..24 {
        assert_eq!(a.image_data[4 * p + 3], 255);
    }
}

#[test]
fn viewport_round_trips_through_center_and_zoom() {
    // [-2, 2] x [-1.5, 1.5] on an 800-wide canvas: center 0, zoom 200.
    let view = Viewport {
        min_real: -2 * SCALE,
        max_real: 2 * SCALE,
        min_imag: -(3 * SCALE) / 2,
        max_imag: (3 * SCALE) / 2,
    };
    let (cx, cy, zoom) = center_zoom_of(&view, 800);
    assert_eq!(cx, 0);
    assert_eq!(cy, 0);
    assert_eq!(zoom, 200 * SCALE);
    // Mapping back through the pixel-to-plane map recovers the real
    // axis exactly; the imaginary axis is anchored the same way the
    // row map is (half the canvas width above the center).
    let back = viewport_from_center_zoom(cx, cy, zoom, 800, 600);
    assert_eq!(back.min_real, -2 * SCALE);
    assert_eq!(back.max_real, 2 * SCALE);
    assert_eq!(back.min_imag, -2 * SCALE);
    assert_eq!(back.max_imag, SCALE);
}
