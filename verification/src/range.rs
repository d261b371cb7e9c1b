//! The sampling pass that discovers a view's iteration range.
//!
//! Before coloring, the generator probes a fixed-stride grid of pixels
//! (stride 8 for wide canvases, 4 for narrow ones) and records the
//! least and greatest escape iteration among the *escaping* samples —
//! interior samples, which report the full budget, are excluded. If no
//! sample escapes, the range falls back to `0 .. max_iterations`.

use vstd::prelude::*;
use crate::evaluate::point_iterations;
use crate::evaluate::evaluate_point;
use crate::evaluate::ESCAPE_SQ;
use crate::mapping::map_coord;
use crate::mapping::wf_view;
use crate::mapping::wf_raster;
use crate::mapping::pixel_to_plane;

verus! {

/// Sampling stride: adaptive to the canvas width.
pub open spec fn sample_step(w: int) -> int {
    if w > 64 {
        8
    } else {
        4
    }
}

/// Whether `(x, y)` is a grid sample of a `w` by `h` raster.
pub open spec fn is_sample(w: int, h: int, x: int, y: int) -> bool {
    &&& 0 <= x < w
    &&& 0 <= y < h
    &&& x % sample_step(w) == 0
    &&& y % sample_step(w) == 0
}

/// Escape iteration of the pixel at column `x` and absolute row `ay`,
/// under the standard escape radius.
pub open spec fn pixel_iterations(
    cx: int,
    cy: int,
    zoom: int,
    w: int,
    max: nat,
    x: int,
    ay: int,
) -> nat {
    point_iterations(
        map_coord(cx, zoom, w, x),
        map_coord(cy, zoom, w, ay),
        ESCAPE_SQ as int,
        max,
    )
}

/// Whether `(x, y)` lies strictly before the scan position `(xb, yb)`
/// in row-major sampling order.
pub open spec fn scanned_before(x: int, y: int, xb: int, yb: int) -> bool {
    y < yb || (y == yb && x < xb)
}

/// What the sampling pass reports: over the escaping samples of the
/// segment, `mn` and `mx` are attained bounds; with no escaping sample
/// the range falls back to the full budget.
pub open spec fn range_post(
    cx: int,
    cy: int,
    zoom: int,
    w: int,
    start: int,
    h: int,
    max: nat,
    mn: nat,
    mx: nat,
) -> bool {
    &&& mn <= mx <= max
    &&& (forall|x: int, y: int|
        is_sample(w, h, x, y) ==> #[trigger] pixel_iterations(cx, cy, zoom, w, max, x, start + y)
            == max) ==> (mn == 0 && mx == max)
    &&& (exists|x: int, y: int|
        is_sample(w, h, x, y) && #[trigger] pixel_iterations(cx, cy, zoom, w, max, x, start + y)
            < max) ==> {
        &&& mx < max
        &&& (exists|x: int, y: int|
            is_sample(w, h, x, y) && #[trigger] pixel_iterations(
                cx,
                cy,
                zoom,
                w,
                max,
                x,
                start + y,
            ) == mn)
        &&& (exists|x: int, y: int|
            is_sample(w, h, x, y) && #[trigger] pixel_iterations(
                cx,
                cy,
                zoom,
                w,
                max,
                x,
                start + y,
            ) == mx)
        &&& (forall|x: int, y: int|
            is_sample(w, h, x, y) && #[trigger] pixel_iterations(cx, cy, zoom, w, max, x, start + y)
                < max ==> mn <= pixel_iterations(cx, cy, zoom, w, max, x, start + y) <= mx)
    }
}

/// Scans the sample grid of a segment and reports the least and
/// greatest escape iteration among escaping samples, falling back to
/// the full budget when every sample is interior.
#[verifier::rlimit(100)]
pub fn sample_iteration_range(
    center_x: i64,
    center_y: i64,
    zoom: i64,
    max_iterations: u32,
    width: u32,
    height: u32,
    start_line: u32,
) -> (r: (u32, u32))
    requires
        wf_view(center_x as int, center_y as int, zoom as int),
        wf_raster(width as int, start_line as int, height as int),
    ensures
        range_post(
            center_x as int,
            center_y as int,
            zoom as int,
            width as int,
            start_line as int,
            height as int,
            max_iterations as nat,
            r.0 as nat,
            r.1 as nat,
        ),
{
    let ghost cx = center_x as int;
    let ghost cy = center_y as int;
    let ghost zm = zoom as int;
    let ghost w = width as int;
    let ghost start = start_line as int;
    let ghost h = height as int;
    let ghost max = max_iterations as nat;
    let sample_stride: u32 = if width > 64 {
        8
    } else {
        4
    };
    let mut min_iter: u32 = max_iterations;
    let mut max_iter: u32 = 0;
    let mut y: u32 = 0;
    while y < height
        invariant
            wf_view(cx, cy, zm),
            wf_raster(w, start, h),
            cx == center_x as int,
            cy == center_y as int,
            zm == zoom as int,
            w == width as int,
            start == start_line as int,
            h == height as int,
            max == max_iterations as nat,
            sample_stride as int == sample_step(w),
            y % sample_stride == 0,
            min_iter <= max_iterations,
            min_iter == max_iterations ==> max_iter == 0,
            forall|sx: int, sy: int|
                is_sample(w, h, sx, sy) && scanned_before(sx, sy, 0, y as int)
                    && #[trigger] pixel_iterations(cx, cy, zm, w, max, sx, start + sy) < max
                    ==> min_iter as nat <= pixel_iterations(cx, cy, zm, w, max, sx, start + sy)
                    <= max_iter as nat,
            min_iter < max_iterations ==> exists|sx: int, sy: int|
                is_sample(w, h, sx, sy) && scanned_before(sx, sy, 0, y as int)
                    && #[trigger] pixel_iterations(cx, cy, zm, w, max, sx, start + sy)
                    == min_iter as nat,
            min_iter < max_iterations ==> max_iter < max_iterations && exists|sx: int, sy: int|
                is_sample(w, h, sx, sy) && scanned_before(sx, sy, 0, y as int)
                    && #[trigger] pixel_iterations(cx, cy, zm, w, max, sx, start + sy)
                    == max_iter as nat,
            min_iter == max_iterations ==> forall|sx: int, sy: int|
                is_sample(w, h, sx, sy) && scanned_before(sx, sy, 0, y as int)
                    ==> #[trigger] pixel_iterations(cx, cy, zm, w, max, sx, start + sy) == max,
        decreases height + 8 - y,
    {
        let mut x: u32 = 0;
        while x < width
            invariant
                wf_view(cx, cy, zm),
                wf_raster(w, start, h),
                cx == center_x as int,
                cy == center_y as int,
                zm == zoom as int,
                w == width as int,
                start == start_line as int,
                h == height as int,
                max == max_iterations as nat,
                sample_stride as int == sample_step(w),
                y % sample_stride == 0,
                x % sample_stride == 0,
                y < height,
                x <= width + 8,
                min_iter <= max_iterations,
                min_iter == max_iterations ==> max_iter == 0,
                forall|sx: int, sy: int|
                    is_sample(w, h, sx, sy) && scanned_before(sx, sy, x as int, y as int)
                        && #[trigger] pixel_iterations(cx, cy, zm, w, max, sx, start + sy) < max
                        ==> min_iter as nat <= pixel_iterations(cx, cy, zm, w, max, sx, start + sy)
                        <= max_iter as nat,
                min_iter < max_iterations ==> exists|sx: int, sy: int|
                    is_sample(w, h, sx, sy) && scanned_before(sx, sy, x as int, y as int)
                        && #[trigger] pixel_iterations(cx, cy, zm, w, max, sx, start + sy)
                        == min_iter as nat,
                min_iter < max_iterations ==> max_iter < max_iterations && exists|sx: int, sy: int|
                    is_sample(w, h, sx, sy) && scanned_before(sx, sy, x as int, y as int)
                        && #[trigger] pixel_iterations(cx, cy, zm, w, max, sx, start + sy)
                        == max_iter as nat,
                min_iter == max_iterations ==> forall|sx: int, sy: int|
                    is_sample(w, h, sx, sy) && scanned_before(sx, sy, x as int, y as int)
                        ==> #[trigger] pixel_iterations(cx, cy, zm, w, max, sx, start + sy) == max,
            decreases width + 8 - x,
        {
            let px = pixel_to_plane(center_x, zoom, width, x);
            let py = pixel_to_plane(center_y, zoom, width, y + start_line);
            let iteration = evaluate_point(px, py, max_iterations, ESCAPE_SQ);
            proof {
                assert(is_sample(w, h, x as int, y as int));
                assert(iteration as nat == pixel_iterations(
                    cx,
                    cy,
                    zm,
                    w,
                    max,
                    x as int,
                    start + y as int,
                ));
            }
            if iteration < max_iterations {
                if iteration < min_iter {
                    min_iter = iteration;
                }
                if iteration > max_iter {
                    max_iter = iteration;
                }
            }
            proof {
                assert forall|sx: int, sy: int|
                    is_sample(w, h, sx, sy) && scanned_before(sx, sy, x as int + sample_step(w), y as int)
                    implies scanned_before(sx, sy, x as int, y as int) || (sx == x as int && sy
                    == y as int) by {
                    if sy == y as int && x as int <= sx && sx < x as int + sample_step(w) {
                        if sx != x as int {
                            assert(sx % sample_step(w) == 0);
                            assert(x as int % sample_step(w) == 0);
                            assert(false) by {
                                vstd::arithmetic::div_mod::lemma_fundamental_div_mod(
                                    sx,
                                    sample_step(w),
                                );
                                vstd::arithmetic::div_mod::lemma_fundamental_div_mod(
                                    x as int,
                                    sample_step(w),
                                );
                            }
                        }
                    }
                }
            }
            x = x + sample_stride;
        }
        proof {
            assert forall|sx: int, sy: int|
                is_sample(w, h, sx, sy) && scanned_before(sx, sy, 0, y as int + sample_step(w))
                implies scanned_before(sx, sy, x as int, y as int) by {
                if sy == y as int {
                    assert(sx < w <= x as int);
                } else if (y as int) < sy && sy < y as int + sample_step(w) {
                    assert(sy % sample_step(w) == 0);
                    assert(y as int % sample_step(w) == 0);
                    assert(false) by {
                        vstd::arithmetic::div_mod::lemma_fundamental_div_mod(sy, sample_step(w));
                        vstd::arithmetic::div_mod::lemma_fundamental_div_mod(
                            y as int,
                            sample_step(w),
                        );
                    }
                }
            }
        }
        y = y + sample_stride;
    }
    proof {
        assert forall|sx: int, sy: int| is_sample(w, h, sx, sy) implies scanned_before(
            sx,
            sy,
            0,
            y as int,
        ) by {}
    }
    if min_iter == max_iterations {
        (0, max_iterations)
    } else {
        (min_iter, max_iter)
    }
}

} // verus!
