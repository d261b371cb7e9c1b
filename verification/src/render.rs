//! The raster / segment generator.
//!
//! A segment is a horizontal slice of a logical image: `height` rows of
//! `width` pixels, starting at absolute row `start_line`. The generator
//! first samples the segment to discover its iteration range, then maps
//! every pixel through the evaluator and the dynamic-range grayscale,
//! producing one byte per pixel — or four (R, G, B, opaque A, all three
//! channels carrying the grayscale) for direct blitting.

use vstd::prelude::*;
use vstd::arithmetic::div_mod::lemma_fundamental_div_mod_converse;
use crate::evaluate::evaluate_point;
use crate::evaluate::ESCAPE_SQ;
use crate::gray::gray_of;
use crate::gray::gray_value;
use crate::mapping::wf_view;
use crate::mapping::wf_raster;
use crate::mapping::pixel_to_plane;
use crate::range::pixel_iterations;
use crate::range::range_post;
use crate::range::sample_iteration_range;

verus! {

/// Result of one grayscale segment render: the pixel bytes and the
/// iteration range the dynamic color mapping used.
pub struct MandelbrotResult {
    pub data: Vec<u8>,
    pub min_iter: u32,
    pub max_iter: u32,
}

impl MandelbrotResult {
    /// A snapshot of the pixel bytes.
    pub fn data(&self) -> (r: Vec<u8>)
        ensures
            r@ == self.data@,
    {
        self.data.clone()
    }

    /// The least escape iteration the sampling pass found.
    pub fn min_iter(&self) -> (r: u32)
        ensures
            r == self.min_iter,
    {
        self.min_iter
    }

    /// The greatest escape iteration the sampling pass found.
    pub fn max_iter(&self) -> (r: u32)
        ensures
            r == self.max_iter,
    {
        self.max_iter
    }
}

/// The grayscale bytes of a segment, pixel by pixel in row-major
/// order, under the iteration range `mn .. mx`.
pub open spec fn seg_gray_bytes(
    cx: int,
    cy: int,
    zoom: int,
    w: int,
    start: int,
    h: int,
    mn: nat,
    mx: nat,
    max: nat,
) -> Seq<u8> {
    Seq::new(
        (w * h) as nat,
        |i: int|
            gray_of(pixel_iterations(cx, cy, zoom, w, max, i % w, start + i / w), mn, mx, max),
    )
}

/// The RGBA bytes of a segment: each pixel's grayscale byte on the
/// three color channels, with an opaque alpha channel.
pub open spec fn seg_rgba_bytes(
    cx: int,
    cy: int,
    zoom: int,
    w: int,
    start: int,
    h: int,
    mn: nat,
    mx: nat,
    max: nat,
) -> Seq<u8> {
    Seq::new(
        (4 * (w * h)) as nat,
        |i: int|
            if i % 4 == 3 {
                255u8
            } else {
                gray_of(
                    pixel_iterations(cx, cy, zoom, w, max, (i / 4) % w, start + (i / 4) / w),
                    mn,
                    mx,
                    max,
                )
            },
    )
}

/// Fills a segment's grayscale bytes under a given iteration range.
#[verifier::rlimit(60)]
fn fill_gray(
    center_x: i64,
    center_y: i64,
    zoom: i64,
    max_iterations: u32,
    width: u32,
    height: u32,
    start_line: u32,
    min_iter: u32,
    max_iter: u32,
) -> (r: Vec<u8>)
    requires
        wf_view(center_x as int, center_y as int, zoom as int),
        wf_raster(width as int, start_line as int, height as int),
        min_iter <= max_iter,
    ensures
        r@ == seg_gray_bytes(
            center_x as int,
            center_y as int,
            zoom as int,
            width as int,
            start_line as int,
            height as int,
            min_iter as nat,
            max_iter as nat,
            max_iterations as nat,
        ),
{
    let ghost cx = center_x as int;
    let ghost cy = center_y as int;
    let ghost zm = zoom as int;
    let ghost w = width as int;
    let ghost start = start_line as int;
    let ghost h = height as int;
    let ghost max = max_iterations as nat;
    let ghost goal = seg_gray_bytes(cx, cy, zm, w, start, h, min_iter as nat, max_iter as nat, max);
    let mut buf: Vec<u8> = Vec::new();
    let mut y: u32 = 0;
    while y < height
        invariant
            wf_view(cx, cy, zm),
            wf_raster(w, start, h),
            cx == center_x as int,
            cy == center_y as int,
            zm == zoom as int,
            w == width as int,
            start == start_line as int,
            h == height as int,
            max == max_iterations as nat,
            min_iter <= max_iter,
            goal == seg_gray_bytes(cx, cy, zm, w, start, h, min_iter as nat, max_iter as nat, max),
            y <= height,
            buf@.len() == y * w,
            forall|i: int| 0 <= i < buf@.len() ==> buf@[i] == goal[i],
        decreases height - y,
    {
        let mut x: u32 = 0;
        while x < width
            invariant
                wf_view(cx, cy, zm),
                wf_raster(w, start, h),
                cx == center_x as int,
                cy == center_y as int,
                zm == zoom as int,
                w == width as int,
                start == start_line as int,
                h == height as int,
                max == max_iterations as nat,
                min_iter <= max_iter,
                goal == seg_gray_bytes(
                    cx,
                    cy,
                    zm,
                    w,
                    start,
                    h,
                    min_iter as nat,
                    max_iter as nat,
                    max,
                ),
                y < height,
                x <= width,
                buf@.len() == y * w + x,
                forall|i: int| 0 <= i < buf@.len() ==> buf@[i] == goal[i],
            decreases width - x,
        {
            let px = pixel_to_plane(center_x, zoom, width, x);
            let py = pixel_to_plane(center_y, zoom, width, y + start_line);
            let iteration = evaluate_point(px, py, max_iterations, ESCAPE_SQ);
            let g = gray_value(iteration, min_iter, max_iter, max_iterations);
            proof {
                let i = y as int * w + x as int;
                lemma_fundamental_div_mod_converse(i, w, y as int, x as int);
                assert(0 <= i < w * h) by (nonlinear_arith)
                    requires
                        i == y as int * w + x as int,
                        0 <= (x as int) < w,
                        0 <= (y as int) < h,
                ;
                assert(goal[i] == g);
            }
            buf.push(g);
            x = x + 1;
        }
        y = y + 1;
        proof {
            assert(buf@.len() == y * w) by (nonlinear_arith)
                requires
                    buf@.len() == (y - 1) * w + w,
            ;
        }
    }
    proof {
        assert(buf@.len() == goal.len()) by (nonlinear_arith)
            requires
                buf@.len() == y as int * w,
                goal.len() == (w * h) as nat,
                y as int == h,
        ;
        assert(buf@ =~= goal);
    }
    buf
}

/// Single unified grayscale segment generator: samples the segment for
/// its iteration range, then maps every pixel through the evaluator and
/// the dynamic-range grayscale. Returns the bytes together with the
/// range, for the caller's color mapping.
pub fn mandel_generate_image(
    center_x: i64,
    center_y: i64,
    zoom: i64,
    max_iterations: u32,
    width: u32,
    height: u32,
    start_line: u32,
) -> (r: MandelbrotResult)
    requires
        wf_view(center_x as int, center_y as int, zoom as int),
        wf_raster(width as int, start_line as int, height as int),
    ensures
        range_post(
            center_x as int,
            center_y as int,
            zoom as int,
            width as int,
            start_line as int,
            height as int,
            max_iterations as nat,
            r.min_iter as nat,
            r.max_iter as nat,
        ),
        r.data@ == seg_gray_bytes(
            center_x as int,
            center_y as int,
            zoom as int,
            width as int,
            start_line as int,
            height as int,
            r.min_iter as nat,
            r.max_iter as nat,
            max_iterations as nat,
        ),
{
    let (min_iter, max_iter) = sample_iteration_range(
        center_x,
        center_y,
        zoom,
        max_iterations,
        width,
        height,
        start_line,
    );
    let data = fill_gray(
        center_x,
        center_y,
        zoom,
        max_iterations,
        width,
        height,
        start_line,
        min_iter,
        max_iter,
    );
    MandelbrotResult { data, min_iter, max_iter }
}

/// Expands grayscale bytes to RGBA: each byte onto the three color
/// channels, with opaque alpha.
fn expand_gray_to_rgba(gray: &Vec<u8>) -> (r: Vec<u8>)
    ensures
        r@.len() == 4 * gray@.len(),
        forall|i: int|
            0 <= i < r@.len() ==> r@[i] == (if i % 4 == 3 {
                255u8
            } else {
                gray@[i / 4]
            }),
{
    let mut buf: Vec<u8> = Vec::new();
    let mut p: usize = 0;
    while p < gray.len()
        invariant
            p <= gray@.len(),
            buf@.len() == 4 * p,
            forall|i: int|
                0 <= i < buf@.len() ==> buf@[i] == (if i % 4 == 3 {
                    255u8
                } else {
                    gray@[i / 4]
                }),
        decreases gray@.len() - p,
    {
        let g = gray[p];
        proof {
            let base = 4 * p as int;
            lemma_fundamental_div_mod_converse(base, 4, p as int, 0);
            lemma_fundamental_div_mod_converse(base + 1, 4, p as int, 1);
            lemma_fundamental_div_mod_converse(base + 2, 4, p as int, 2);
            lemma_fundamental_div_mod_converse(base + 3, 4, p as int, 3);
        }
        buf.push(g);
        buf.push(g);
        buf.push(g);
        buf.push(255);
        p = p + 1;
    }
    buf
}

/// Direct RGBA segment generator: the grayscale segment, blitted onto
/// the three color channels with opaque alpha, ready for display.
pub fn mandel_generate_rgba_image(
    center_x: i64,
    center_y: i64,
    zoom: i64,
    max_iterations: u32,
    width: u32,
    height: u32,
    start_line: u32,
) -> (r: Vec<u8>)
    requires
        wf_view(center_x as int, center_y as int, zoom as int),
        wf_raster(width as int, start_line as int, height as int),
    ensures
        exists|mn: nat, mx: nat|
            {
                &&& #[trigger] range_post(
                    center_x as int,
                    center_y as int,
                    zoom as int,
                    width as int,
                    start_line as int,
                    height as int,
                    max_iterations as nat,
                    mn,
                    mx,
                )
                &&& r@ == seg_rgba_bytes(
                    center_x as int,
                    center_y as int,
                    zoom as int,
                    width as int,
                    start_line as int,
                    height as int,
                    mn,
                    mx,
                    max_iterations as nat,
                )
            },
{
    let ghost cx = center_x as int;
    let ghost zm = zoom as int;
    let ghost w = width as int;
    let ghost h = height as int;
    let result = mandel_generate_image(
        center_x,
        center_y,
        zoom,
        max_iterations,
        width,
        height,
        start_line,
    );
    let rgba = expand_gray_to_rgba(&result.data);
    proof {
        let goal = seg_rgba_bytes(
            cx,
            center_y as int,
            zm,
            w,
            start_line as int,
            h,
            result.min_iter as nat,
            result.max_iter as nat,
            max_iterations as nat,
        );
        assert forall|i: int| 0 <= i < goal.len() implies rgba@[i] == goal[i] by {
            if i % 4 != 3 {
                vstd::arithmetic::div_mod::lemma_div_pos_is_pos(i, 4);
                vstd::arithmetic::div_mod::lemma_div_is_ordered(i, 4 * (w * h) - 1, 4);
                lemma_fundamental_div_mod_converse(4 * (w * h) - 1, 4, w * h - 1, 3);
            }
        }
        assert(rgba@ =~= goal);
    }
    rgba
}

} // verus!
