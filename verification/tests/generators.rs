use mandelbrot::evaluate::evaluate_point;
use mandelbrot::evaluate::ESCAPE_SQ;
use mandelbrot::fixed::SCALE;
use mandelbrot::gray::gray_value;
use mandelbrot::mapping::pixel_to_plane;
use mandelbrot::render::mandel_generate_image;
use mandelbrot::render::mandel_generate_rgba_image;
use mandelbrot::pool::render_segment_pooled;
use mandelbrot::pool::PixelPool;
use mandelbrot::segment::render_segment;
use mandelbrot::segment::render_segment_with_smooth;

// A small view with a mix of interior and escaping pixels: center
// (-0.5, 0), three pixels per unit, on an 8-wide canvas.
const CX: i64 = -SCALE / 2;
const CY: i64 = 0;
const ZOOM: i64 = 3 * SCALE;

#[test]
fn pixel_mapping_is_the_affine_transform() {
    // At zoom 1 (one pixel per unit), pixel p of an 8-wide canvas maps
    // to center + (p - 4).
    assert_eq!(pixel_to_plane(0, SCALE, 8, 0), -4 * SCALE);
    assert_eq!(pixel_to_plane(0, SCALE, 8, 4), 0);
    assert_eq!(pixel_to_plane(0, SCALE, 8, 7), 3 * SCALE);
    assert_eq!(pixel_to_plane(5 * SCALE, SCALE, 8, 4), 5 * SCALE);
    // Magnification divides the midline offset.
    assert_eq!(pixel_to_plane(0, 2 * SCALE, 8, 6), SCALE);
}

#[test]
fn generate_image_is_idempotent() {
    let a = mandel_generate_image(CX, CY, ZOOM, 50, 8, 8, 0);
    let b = mandel_generate_image(CX, CY, ZOOM, 50, 8, 8, 0);
    assert_eq!(a.data(), b.data());
    assert_eq!(a.min_iter(), b.min_iter());
    assert_eq!(a.max_iter(), b.max_iter());
}

#[test]
fn generate_image_has_one_byte_per_pixel() {
    let r = mandel_generate_image(CX, CY, ZOOM, 50, 8, 6, 0);
    assert_eq!(r.data().len(), 8 * 6);
}

#[test]
fn rgba_image_carries_grayscale_on_color_channels() {
    let gray = mandel_generate_image(CX, CY, ZOOM, 50, 8, 8, 0);
    let rgba = mandel_generate_rgba_image(CX, CY, ZOOM, 50, 8, 8, 0);
    let g = gray.data();
    assert_eq!(rgba.len(), 4 * g.len());
    for (i, &v) in g.iter().enumerate() {
        assert_eq!(rgba[4 * i], v);
        assert_eq!(rgba[4 * i + 1], v);
        assert_eq!(rgba[4 * i + 2], v);
        assert_eq!(rgba[4 * i + 3], 255);
    }
}

#[test]
fn all_interior_view_falls_back_to_full_range() {
    // Zoomed deep onto the origin every pixel lies in the period-2
    // bulb: the sampled range falls back to 0..max and the interior
    // renders black.
    let r = mandel_generate_image(0, 0, 1000 * SCALE, 30, 8, 8, 0);
    assert_eq!(r.min_iter(), 0);
    assert_eq!(r.max_iter(), 30);
    assert!(r.data().iter().all(|&b| b == 0));
}

#[test]
fn gray_value_maps_the_range() {
    // Interior renders black.
    assert_eq!(gray_value(100, 10, 20, 100), 0);
    // A degenerate range renders mid-gray.
    assert_eq!(gray_value(15, 12, 12, 100), 128);
    // The range ends map to the ends of the inverted scale.
    assert_eq!(gray_value(10, 10, 20, 100), 255);
    assert_eq!(gray_value(20, 10, 20, 100), 0);
    assert_eq!(gray_value(15, 10, 20, 100), 128);
    // Values outside the sampled range clamp.
    assert_eq!(gray_value(5, 10, 20, 100), 255);
    assert_eq!(gray_value(40, 10, 20, 100), 0);
}

#[test]
fn segment_render_is_idempotent() {
    let a = render_segment(0, 8, 8, CX, CY, ZOOM, 50, false, 1);
    let b = render_segment(0, 8, 8, CX, CY, ZOOM, 50, false, 1);
    assert_eq!(a, b);
}

#[test]
fn segments_compose_into_the_full_image() {
    // Contiguous disjoint segments concatenate to the one-call render.
    let full = render_segment(0, 8, 8, CX, CY, ZOOM, 50, false, 1);
    let top = render_segment(0, 3, 8, CX, CY, ZOOM, 50, false, 1);
    let bottom = render_segment(3, 5, 8, CX, CY, ZOOM, 50, false, 1);
    let mut joined = top.clone();
    joined.extend_from_slice(&bottom);
    assert_eq!(joined, full);
}

#[test]
fn segments_compose_under_block_processing() {
    // Blocks belong to the logical image, so composition holds even
    // when the split row is not a block boundary.
    let full = render_segment(0, 8, 8, CX, CY, ZOOM, 50, false, 2);
    let top = render_segment(0, 3, 8, CX, CY, ZOOM, 50, false, 2);
    let bottom = render_segment(3, 5, 8, CX, CY, ZOOM, 50, false, 2);
    let mut joined = top.clone();
    joined.extend_from_slice(&bottom);
    assert_eq!(joined, full);
}

#[test]
fn dynamic_range_is_local_to_a_segment() {
    // The dynamic-range generator normalizes against the range sampled
    // from its own rows, so rendering a view as two segments shifts
    // the contrast of each half: the concatenation is not the one-call
    // render. (The raw segment path, which applies no normalization,
    // composes exactly.)
    let full = mandel_generate_image(CX, CY, ZOOM, 50, 8, 8, 0);
    let top = mandel_generate_image(CX, CY, ZOOM, 50, 8, 4, 0);
    let bottom = mandel_generate_image(CX, CY, ZOOM, 50, 8, 4, 4);
    let mut joined = top.data().to_vec();
    joined.extend_from_slice(&bottom.data());
    assert_ne!(joined, full.data().to_vec());
}

#[test]
fn unit_blocks_evaluate_every_pixel() {
    // With block size one, each byte is its own pixel's evaluation.
    let seg = render_segment(0, 8, 8, CX, CY, ZOOM, 50, false, 1);
    for y in 0u32..8 {
        for x in 0u32..8 {
            let px = pixel_to_plane(CX, ZOOM, 8, x);
            let py = pixel_to_plane(CY, ZOOM, 8, y);
            let it = evaluate_point(px, py, 50, ESCAPE_SQ);
            assert_eq!(seg[(y * 8 + x) as usize], (it % 255) as u8);
        }
    }
}

#[test]
fn blocks_are_uniform() {
    let seg = render_segment(0, 8, 8, CX, CY, ZOOM, 50, false, 4);
    for y in 0usize..8 {
        for x in 0usize..8 {
            let rep = (y / 4 * 4) * 8 + (x / 4 * 4);
            assert_eq!(seg[y * 8 + x], seg[rep]);
        }
    }
}

#[test]
fn pooled_render_matches_and_scratch_never_shrinks() {
    let mut pool = PixelPool::new();
    let direct = render_segment(0, 8, 8, CX, CY, ZOOM, 50, false, 1);
    let pooled = render_segment_pooled(&mut pool, 0, 8, 8, CX, CY, ZOOM, 50, false, 1);
    assert_eq!(pooled, direct);
    assert!(pool.buffer.len() >= 64);
    // A smaller render reuses the grown scratch without shrinking it.
    let small = render_segment_pooled(&mut pool, 0, 2, 4, CX, CY, ZOOM, 50, false, 1);
    assert_eq!(small, render_segment(0, 2, 4, CX, CY, ZOOM, 50, false, 1));
    assert_eq!(small.len(), 8);
    assert!(pool.buffer.len() >= 64);
}

#[test]
fn smooth_segment_matches_plain_segment() {
    let plain = render_segment(0, 8, 8, CX, CY, ZOOM, 50, true, 1);
    let (mandel, smooth) = render_segment_with_smooth(0, 8, 8, CX, CY, ZOOM, 50, true, 1);
    assert_eq!(mandel, plain);
    assert_eq!(smooth.len(), plain.len());
}

#[test]
fn smooth_bytes_are_zero_for_interior_pixels() {
    let (mandel, smooth) = render_segment_with_smooth(0, 8, 8, CX, CY, ZOOM, 10, true, 1);
    for i in 0..mandel.len() {
        if mandel[i] == 10 % 255 {
            // The budget here is 10, so byte 10 marks interior pixels.
            assert_eq!(smooth[i], 0);
        }
    }
}
