//! Raw segment rendering with block processing.
//!
//! This generator writes one raw byte per pixel: the escape iteration
//! reduced mod 255, with no range normalization — the fast path for a
//! host that applies its own color mapping. To amortize evaluation
//! cost, pixels may be processed in square blocks: each block of the
//! *logical* image (so that segments tile losslessly) is evaluated once
//! at its top-left pixel, and every pixel of the block carries that
//! value. A block size of one evaluates every pixel.

use vstd::prelude::*;
use vstd::arithmetic::div_mod::lemma_fundamental_div_mod;
use vstd::arithmetic::div_mod::lemma_fundamental_div_mod_converse;
use crate::evaluate::point_iterations;
use crate::evaluate::evaluate_point;
use crate::evaluate::ESCAPE_SQ;
use crate::evaluate::SMOOTH_ESCAPE_SQ;
use crate::mapping::map_coord;
use crate::mapping::wf_view;
use crate::mapping::wf_raster;
use crate::mapping::pixel_to_plane;

verus! {

/// Escape iteration of the pixel at column `x` and absolute row `ay`,
/// under an arbitrary escape threshold.
pub open spec fn pixel_iterations_at(
    cx: int,
    cy: int,
    zoom: int,
    w: int,
    esc: int,
    max: nat,
    x: int,
    ay: int,
) -> nat {
    point_iterations(map_coord(cx, zoom, w, x), map_coord(cy, zoom, w, ay), esc, max)
}

/// Raw byte of an escape iteration: the iteration reduced mod 255.
pub open spec fn raw_byte(it: nat) -> u8 {
    (it % 255) as u8
}

/// First coordinate of the block of side `k` that contains `v`.
pub open spec fn block_rep(v: int, k: int) -> int {
    (v / k) * k
}

/// The escape threshold a segment render uses: widened when smooth
/// coloring is requested, to spread the final iterate.
pub open spec fn segment_esc(smooth: bool) -> int {
    if smooth {
        SMOOTH_ESCAPE_SQ as int
    } else {
        ESCAPE_SQ as int
    }
}

/// The raw bytes of a segment under block processing: each pixel
/// carries the value of the top-left pixel of its block of the logical
/// image.
pub open spec fn seg_raw_bytes(
    cx: int,
    cy: int,
    zoom: int,
    w: int,
    start: int,
    h: int,
    esc: int,
    max: nat,
    k: int,
) -> Seq<u8> {
    Seq::new(
        (w * h) as nat,
        |i: int|
            raw_byte(
                pixel_iterations_at(
                    cx,
                    cy,
                    zoom,
                    w,
                    esc,
                    max,
                    block_rep(i % w, k),
                    block_rep(start + i / w, k),
                ),
            ),
    )
}

/// Rounding a coordinate down to its block representative keeps it
/// within `0 ..= v`.
pub proof fn lemma_block_rep_range(v: int, k: int)
    requires
        0 <= v,
        1 <= k,
    ensures
        0 <= block_rep(v, k) <= v,
        v % k == 0 ==> block_rep(v, k) == v,
{
    lemma_fundamental_div_mod(v, k);
    vstd::arithmetic::div_mod::lemma_div_pos_is_pos(v, k);
    assert(0 <= (v / k) * k) by (nonlinear_arith)
        requires
            0 <= v / k,
            1 <= k,
    ;
    assert((v / k) * k == k * (v / k)) by (nonlinear_arith);
}

/// Consecutive columns that share a block share the representative.
pub proof fn lemma_block_rep_stable(v: int, k: int)
    requires
        1 <= k,
        1 <= v,
        v % k != 0,
    ensures
        block_rep(v, k) == block_rep(v - 1, k),
{
    lemma_fundamental_div_mod(v, k);
    let q = v / k;
    let r = v % k;
    assert(q * k == k * q) by (nonlinear_arith);
    lemma_fundamental_div_mod_converse(v - 1, k, q, r - 1);
}

/// Renders one raw segment: `segment_height` rows of `canvas_width`
/// pixels starting at absolute row `start_line`, viewed from center
/// `(screen_x, screen_y)` at the given magnification, evaluated once
/// per block of side `block_size` and written as iteration mod 255.
#[verifier::rlimit(100)]
pub fn render_segment(
    start_line: u32,
    segment_height: u32,
    canvas_width: u32,
    screen_x: i64,
    screen_y: i64,
    zoom: i64,
    max_iterations: u32,
    smooth: bool,
    block_size: u32,
) -> (r: Vec<u8>)
    requires
        wf_view(screen_x as int, screen_y as int, zoom as int),
        wf_raster(canvas_width as int, start_line as int, segment_height as int),
        1 <= block_size,
    ensures
        r@ == seg_raw_bytes(
            screen_x as int,
            screen_y as int,
            zoom as int,
            canvas_width as int,
            start_line as int,
            segment_height as int,
            segment_esc(smooth),
            max_iterations as nat,
            block_size as int,
        ),
{
    let ghost cx = screen_x as int;
    let ghost cy = screen_y as int;
    let ghost zm = zoom as int;
    let ghost w = canvas_width as int;
    let ghost start = start_line as int;
    let ghost h = segment_height as int;
    let ghost max = max_iterations as nat;
    let ghost k = block_size as int;
    let ghost esc = segment_esc(smooth);
    let escape_squared: i64 = if smooth {
        SMOOTH_ESCAPE_SQ
    } else {
        ESCAPE_SQ
    };
    let ghost goal = seg_raw_bytes(cx, cy, zm, w, start, h, esc, max, k);
    let mut buf: Vec<u8> = Vec::new();
    let mut y: u32 = 0;
    while y < segment_height
        invariant
            wf_view(cx, cy, zm),
            wf_raster(w, start, h),
            cx == screen_x as int,
            cy == screen_y as int,
            zm == zoom as int,
            w == canvas_width as int,
            start == start_line as int,
            h == segment_height as int,
            max == max_iterations as nat,
            k == block_size as int,
            1 <= k,
            esc == segment_esc(smooth),
            escape_squared as int == esc,
            goal == seg_raw_bytes(cx, cy, zm, w, start, h, esc, max, k),
            y <= segment_height,
            buf@.len() == y * w,
            forall|i: int| 0 <= i < buf@.len() ==> buf@[i] == goal[i],
        decreases segment_height - y,
    {
        let ay: u32 = y + start_line;
        proof {
            lemma_block_rep_range(ay as int, k);
            lemma_fundamental_div_mod(ay as int, k);
        }
        let ay_rep: u32 = (ay / block_size) * block_size;
        proof {
            assert(ay_rep as int == block_rep(ay as int, k));
        }
        let row_y = pixel_to_plane(screen_y, zoom, canvas_width, ay_rep);
        let mut x: u32 = 0;
        let mut cur: u8 = 0;
        while x < canvas_width
            invariant
                wf_view(cx, cy, zm),
                wf_raster(w, start, h),
                cx == screen_x as int,
                cy == screen_y as int,
                zm == zoom as int,
                w == canvas_width as int,
                start == start_line as int,
                h == segment_height as int,
                max == max_iterations as nat,
                k == block_size as int,
                1 <= k,
                esc == segment_esc(smooth),
                escape_squared as int == esc,
                goal == seg_raw_bytes(cx, cy, zm, w, start, h, esc, max, k),
                y < segment_height,
                ay as int == y as int + start,
                ay_rep as int == block_rep(ay as int, k),
                row_y as int == map_coord(cy, zm, w, ay_rep as int),
                -crate::fixed::COORD_BOUND <= row_y <= crate::fixed::COORD_BOUND,
                x <= canvas_width,
                buf@.len() == y * w + x,
                forall|i: int| 0 <= i < buf@.len() ==> buf@[i] == goal[i],
                x > 0 ==> cur == raw_byte(
                    pixel_iterations_at(
                        cx,
                        cy,
                        zm,
                        w,
                        esc,
                        max,
                        block_rep(x - 1, k),
                        block_rep(ay as int, k),
                    ),
                ),
            decreases canvas_width - x,
        {
            if x % block_size == 0 {
                proof {
                    lemma_block_rep_range(x as int, k);
                }
                let col_x = pixel_to_plane(screen_x, zoom, canvas_width, x);
                let iteration = evaluate_point(col_x, row_y, max_iterations, escape_squared);
                cur = (iteration % 255) as u8;
                proof {
                    assert(cur == raw_byte(
                        pixel_iterations_at(
                            cx,
                            cy,
                            zm,
                            w,
                            esc,
                            max,
                            block_rep(x as int, k),
                            block_rep(ay as int, k),
                        ),
                    ));
                }
            } else {
                proof {
                    lemma_block_rep_stable(x as int, k);
                }
            }
            proof {
                let i = y as int * w + x as int;
                lemma_fundamental_div_mod_converse(i, w, y as int, x as int);
                assert(0 <= i < w * h) by (nonlinear_arith)
                    requires
                        i == y as int * w + x as int,
                        0 <= (x as int) < w,
                        0 <= (y as int) < h,
                ;
                assert(goal[i] == cur);
            }
            buf.push(cur);
            x = x + 1;
        }
        y = y + 1;
        proof {
            assert(buf@.len() == y * w) by (nonlinear_arith)
                requires
                    buf@.len() == (y - 1) * w + w,
            ;
        }
    }
    proof {
        assert(buf@.len() == goal.len()) by (nonlinear_arith)
            requires
                buf@.len() == y as int * w,
                goal.len() == (w * h) as nat,
                y as int == h,
        ;
        assert(buf@ =~= goal);
    }
    buf
}

/// Smooth fraction byte of the pixel at column `x` and absolute row
/// `ay`: the smoothing formula at the pixel's stopping magnitude for an
/// escaping pixel, zero for an interior one.
pub open spec fn pixel_smooth_at(
    cx: int,
    cy: int,
    zoom: int,
    w: int,
    esc: int,
    max: nat,
    x: int,
    ay: int,
) -> u8 {
    if pixel_iterations_at(cx, cy, zoom, w, esc, max, x, ay) < max {
        crate::evaluate::smooth_byte(map_coord(cx, zoom, w, x), map_coord(cy, zoom, w, ay), esc, max)
    } else {
        0
    }
}

/// The smooth fraction bytes of a segment under block processing.
pub open spec fn seg_smooth_bytes(
    cx: int,
    cy: int,
    zoom: int,
    w: int,
    start: int,
    h: int,
    esc: int,
    max: nat,
    k: int,
) -> Seq<u8> {
    Seq::new(
        (w * h) as nat,
        |i: int|
            pixel_smooth_at(
                cx,
                cy,
                zoom,
                w,
                esc,
                max,
                block_rep(i % w, k),
                block_rep(start + i / w, k),
            ),
    )
}

/// Renders one raw segment together with the smooth fraction bytes of
/// its pixels: two parallel byte arrays, one iteration byte and one
/// fraction byte per pixel.
#[verifier::rlimit(100)]
pub fn render_segment_with_smooth(
    start_line: u32,
    segment_height: u32,
    canvas_width: u32,
    screen_x: i64,
    screen_y: i64,
    zoom: i64,
    max_iterations: u32,
    smooth: bool,
    block_size: u32,
) -> (r: (Vec<u8>, Vec<u8>))
    requires
        wf_view(screen_x as int, screen_y as int, zoom as int),
        wf_raster(canvas_width as int, start_line as int, segment_height as int),
        1 <= block_size,
    ensures
        r.0@ == seg_raw_bytes(
            screen_x as int,
            screen_y as int,
            zoom as int,
            canvas_width as int,
            start_line as int,
            segment_height as int,
            segment_esc(smooth),
            max_iterations as nat,
            block_size as int,
        ),
        r.1@ == seg_smooth_bytes(
            screen_x as int,
            screen_y as int,
            zoom as int,
            canvas_width as int,
            start_line as int,
            segment_height as int,
            segment_esc(smooth),
            max_iterations as nat,
            block_size as int,
        ),
{
    let ghost cx = screen_x as int;
    let ghost cy = screen_y as int;
    let ghost zm = zoom as int;
    let ghost w = canvas_width as int;
    let ghost start = start_line as int;
    let ghost h = segment_height as int;
    let ghost max = max_iterations as nat;
    let ghost k = block_size as int;
    let ghost esc = segment_esc(smooth);
    let escape_squared: i64 = if smooth {
        SMOOTH_ESCAPE_SQ
    } else {
        ESCAPE_SQ
    };
    let ghost goal_m = seg_raw_bytes(cx, cy, zm, w, start, h, esc, max, k);
    let ghost goal_s = seg_smooth_bytes(cx, cy, zm, w, start, h, esc, max, k);
    let mut buf_m: Vec<u8> = Vec::new();
    let mut buf_s: Vec<u8> = Vec::new();
    let mut y: u32 = 0;
    while y < segment_height
        invariant
            wf_view(cx, cy, zm),
            wf_raster(w, start, h),
            cx == screen_x as int,
            cy == screen_y as int,
            zm == zoom as int,
            w == canvas_width as int,
            start == start_line as int,
            h == segment_height as int,
            max == max_iterations as nat,
            k == block_size as int,
            1 <= k,
            esc == segment_esc(smooth),
            escape_squared as int == esc,
            goal_m == seg_raw_bytes(cx, cy, zm, w, start, h, esc, max, k),
            goal_s == seg_smooth_bytes(cx, cy, zm, w, start, h, esc, max, k),
            y <= segment_height,
            buf_m@.len() == y * w,
            buf_s@.len() == y * w,
            forall|i: int| 0 <= i < buf_m@.len() ==> buf_m@[i] == goal_m[i],
            forall|i: int| 0 <= i < buf_s@.len() ==> buf_s@[i] == goal_s[i],
        decreases segment_height - y,
    {
        let ay: u32 = y + start_line;
        proof {
            lemma_block_rep_range(ay as int, k);
            lemma_fundamental_div_mod(ay as int, k);
        }
        let ay_rep: u32 = (ay / block_size) * block_size;
        let row_y = pixel_to_plane(screen_y, zoom, canvas_width, ay_rep);
        let mut x: u32 = 0;
        let mut cur_m: u8 = 0;
        let mut cur_s: u8 = 0;
        while x < canvas_width
            invariant
                wf_view(cx, cy, zm),
                wf_raster(w, start, h),
                cx == screen_x as int,
                cy == screen_y as int,
                zm == zoom as int,
                w == canvas_width as int,
                start == start_line as int,
                h == segment_height as int,
                max == max_iterations as nat,
                k == block_size as int,
                1 <= k,
                esc == segment_esc(smooth),
                escape_squared as int == esc,
                goal_m == seg_raw_bytes(cx, cy, zm, w, start, h, esc, max, k),
                goal_s == seg_smooth_bytes(cx, cy, zm, w, start, h, esc, max, k),
                y < segment_height,
                ay as int == y as int + start,
                ay_rep as int == block_rep(ay as int, k),
                row_y as int == map_coord(cy, zm, w, ay_rep as int),
                -crate::fixed::COORD_BOUND <= row_y <= crate::fixed::COORD_BOUND,
                x <= canvas_width,
                buf_m@.len() == y * w + x,
                buf_s@.len() == y * w + x,
                forall|i: int| 0 <= i < buf_m@.len() ==> buf_m@[i] == goal_m[i],
                forall|i: int| 0 <= i < buf_s@.len() ==> buf_s@[i] == goal_s[i],
                x > 0 ==> cur_m == raw_byte(
                    pixel_iterations_at(
                        cx,
                        cy,
                        zm,
                        w,
                        esc,
                        max,
                        block_rep(x - 1, k),
                        block_rep(ay as int, k),
                    ),
                ),
                x > 0 ==> cur_s == pixel_smooth_at(
                    cx,
                    cy,
                    zm,
                    w,
                    esc,
                    max,
                    block_rep(x - 1, k),
                    block_rep(ay as int, k),
                ),
            decreases canvas_width - x,
        {
            if x % block_size == 0 {
                proof {
                    lemma_block_rep_range(x as int, k);
                }
                let col_x = pixel_to_plane(screen_x, zoom, canvas_width, x);
                let result = crate::evaluate::evaluate(
                    col_x,
                    row_y,
                    max_iterations,
                    escape_squared,
                    true,
                );
                cur_m = (result.iteration % 255) as u8;
                cur_s = match result.smooth_fraction {
                    Some(b) => b,
                    None => 0,
                };
            } else {
                proof {
                    lemma_block_rep_stable(x as int, k);
                }
            }
            proof {
                let i = y as int * w + x as int;
                lemma_fundamental_div_mod_converse(i, w, y as int, x as int);
                assert(0 <= i < w * h) by (nonlinear_arith)
                    requires
                        i == y as int * w + x as int,
                        0 <= (x as int) < w,
                        0 <= (y as int) < h,
                ;
                assert(goal_m[i] == cur_m);
                assert(goal_s[i] == cur_s);
            }
            buf_m.push(cur_m);
            buf_s.push(cur_s);
            x = x + 1;
        }
        y = y + 1;
        proof {
            assert(buf_m@.len() == y * w) by (nonlinear_arith)
                requires
                    buf_m@.len() == (y - 1) * w + w,
            ;
        }
    }
    proof {
        assert(buf_m@.len() == goal_m.len()) by (nonlinear_arith)
            requires
                buf_m@.len() == y as int * w,
                goal_m.len() == (w * h) as nat,
                y as int == h,
        ;
        assert(buf_m@ =~= goal_m);
        assert(buf_s@ =~= goal_s);
    }
    (buf_m, buf_s)
}

} // verus!
