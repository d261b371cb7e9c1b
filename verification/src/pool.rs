//! The worker-local pixel buffer pool.
//!
//! A host that renders tile after tile on one worker can hand the same
//! scratch buffer to every call instead of allocating each time. The
//! pool's scratch is validated for size before each reuse, grows on
//! demand, never shrinks, and is never handed out: the caller receives
//! an immutable snapshot, fully written for the current call, so a
//! partially-written scratch is never observable.

use vstd::prelude::*;
use vstd::pervasive::VecAdditionalExecFns;
use vstd::arithmetic::div_mod::lemma_fundamental_div_mod;
use vstd::arithmetic::div_mod::lemma_fundamental_div_mod_converse;
use crate::evaluate::evaluate_point;
use crate::evaluate::ESCAPE_SQ;
use crate::evaluate::SMOOTH_ESCAPE_SQ;
use crate::fixed::COORD_BOUND;
use crate::mapping::map_coord;
use crate::mapping::wf_view;
use crate::mapping::wf_raster;
use crate::mapping::pixel_to_plane;
use crate::segment::seg_raw_bytes;
use crate::segment::segment_esc;
use crate::segment::pixel_iterations_at;
use crate::segment::raw_byte;
use crate::segment::block_rep;
use crate::segment::lemma_block_rep_range;
use crate::segment::lemma_block_rep_stable;

verus! {

/// One worker's reusable scratch buffer.
pub struct PixelPool {
    pub buffer: Vec<u8>,
}

impl PixelPool {
    /// A fresh pool with no scratch allocated yet.
    pub fn new() -> (r: PixelPool)
        ensures
            r.buffer@.len() == 0,
    {
        PixelPool { buffer: Vec::new() }
    }
}

/// Renders one raw segment through a worker's pool: the scratch is
/// grown to the segment's size if it is smaller (and kept if it is
/// larger), every byte of the segment is written for this call, and a
/// snapshot of exactly the segment's bytes is returned.
#[verifier::rlimit(100)]
pub fn render_segment_pooled(
    pool: &mut PixelPool,
    start_line: u32,
    segment_height: u32,
    canvas_width: u32,
    screen_x: i64,
    screen_y: i64,
    zoom: i64,
    max_iterations: u32,
    smooth: bool,
    block_size: u32,
) -> (r: Vec<u8>)
    requires
        wf_view(screen_x as int, screen_y as int, zoom as int),
        wf_raster(canvas_width as int, start_line as int, segment_height as int),
        1 <= block_size,
        canvas_width * segment_height <= 0x4000_0000,
    ensures
        r@ == seg_raw_bytes(
            screen_x as int,
            screen_y as int,
            zoom as int,
            canvas_width as int,
            start_line as int,
            segment_height as int,
            segment_esc(smooth),
            max_iterations as nat,
            block_size as int,
        ),
        old(pool).buffer@.len() <= final(pool).buffer@.len(),
        r@.len() <= final(pool).buffer@.len(),
{
    let ghost cx = screen_x as int;
    let ghost cy = screen_y as int;
    let ghost zm = zoom as int;
    let ghost w = canvas_width as int;
    let ghost start = start_line as int;
    let ghost h = segment_height as int;
    let ghost max = max_iterations as nat;
    let ghost k = block_size as int;
    let ghost esc = segment_esc(smooth);
    let escape_squared: i64 = if smooth {
        SMOOTH_ESCAPE_SQ
    } else {
        ESCAPE_SQ
    };
    let ghost goal = seg_raw_bytes(cx, cy, zm, w, start, h, esc, max, k);
    let needed: usize = (canvas_width as usize) * (segment_height as usize);
    proof {
        assert(needed == w * h) by (nonlinear_arith)
            requires
                needed == (canvas_width as usize) * (segment_height as usize),
                canvas_width as usize == w,
                segment_height as usize == h,
        ;
    }
    while pool.buffer.len() < needed
        invariant
            old(pool).buffer@.len() <= pool.buffer@.len(),
        decreases needed - pool.buffer@.len(),
    {
        pool.buffer.push(0);
    }
    let mut y: u32 = 0;
    while y < segment_height
        invariant
            wf_view(cx, cy, zm),
            wf_raster(w, start, h),
            cx == screen_x as int,
            cy == screen_y as int,
            zm == zoom as int,
            w == canvas_width as int,
            start == start_line as int,
            h == segment_height as int,
            max == max_iterations as nat,
            k == block_size as int,
            1 <= k,
            esc == segment_esc(smooth),
            escape_squared as int == esc,
            goal == seg_raw_bytes(cx, cy, zm, w, start, h, esc, max, k),
            needed == w * h,
            needed <= pool.buffer@.len(),
            old(pool).buffer@.len() <= pool.buffer@.len(),
            y <= segment_height,
            forall|i: int| 0 <= i < y * w ==> pool.buffer@[i] == goal[i],
        decreases segment_height - y,
    {
        let ay: u32 = y + start_line;
        proof {
            lemma_block_rep_range(ay as int, k);
            lemma_fundamental_div_mod(ay as int, k);
        }
        let ay_rep: u32 = (ay / block_size) * block_size;
        let row_y = pixel_to_plane(screen_y, zoom, canvas_width, ay_rep);
        let mut x: u32 = 0;
        let mut cur: u8 = 0;
        while x < canvas_width
            invariant
                wf_view(cx, cy, zm),
                wf_raster(w, start, h),
                cx == screen_x as int,
                cy == screen_y as int,
                zm == zoom as int,
                w == canvas_width as int,
                start == start_line as int,
                h == segment_height as int,
                max == max_iterations as nat,
                k == block_size as int,
                1 <= k,
                esc == segment_esc(smooth),
                escape_squared as int == esc,
                goal == seg_raw_bytes(cx, cy, zm, w, start, h, esc, max, k),
                needed == w * h,
                needed <= pool.buffer@.len(),
                old(pool).buffer@.len() <= pool.buffer@.len(),
                y < segment_height,
                ay as int == y as int + start,
                ay_rep as int == block_rep(ay as int, k),
                row_y as int == map_coord(cy, zm, w, ay_rep as int),
                -COORD_BOUND <= row_y <= COORD_BOUND,
                x <= canvas_width,
                forall|i: int| 0 <= i < y * w + x ==> pool.buffer@[i] == goal[i],
                x > 0 ==> cur == raw_byte(
                    pixel_iterations_at(
                        cx,
                        cy,
                        zm,
                        w,
                        esc,
                        max,
                        block_rep(x - 1, k),
                        block_rep(ay as int, k),
                    ),
                ),
            decreases canvas_width - x,
        {
            if x % block_size == 0 {
                proof {
                    lemma_block_rep_range(x as int, k);
                }
                let col_x = pixel_to_plane(screen_x, zoom, canvas_width, x);
                let iteration = evaluate_point(col_x, row_y, max_iterations, escape_squared);
                cur = (iteration % 255) as u8;
            } else {
                proof {
                    lemma_block_rep_stable(x as int, k);
                }
            }
            proof {
                let i = y as int * w + x as int;
                lemma_fundamental_div_mod_converse(i, w, y as int, x as int);
                assert(0 <= i && i < w * h) by (nonlinear_arith)
                    requires
                        i == y as int * w + x as int,
                        0 <= (x as int) < w,
                        0 <= (y as int) < h,
                ;
                assert(goal[i] == cur);
            }
            let idx: usize = (y as usize) * (canvas_width as usize) + (x as usize);
            pool.buffer.set(idx, cur);
            x = x + 1;
        }
        y = y + 1;
        proof {
            assert((y - 1) * w + w == y * w) by (nonlinear_arith);
        }
    }
    let mut out: Vec<u8> = Vec::new();
    let mut i: usize = 0;
    while i < needed
        invariant
            needed == w * h,
            needed <= pool.buffer@.len(),
            goal == seg_raw_bytes(cx, cy, zm, w, start, h, esc, max, k),
            forall|j: int| 0 <= j < needed ==> pool.buffer@[j] == goal[j],
            i <= needed,
            out@.len() == i,
            forall|j: int| 0 <= j < i ==> out@[j] == goal[j],
        decreases needed - i,
    {
        let b = pool.buffer[i];
        out.push(b);
        i = i + 1;
    }
    proof {
        assert(out@ =~= goal);
    }
    out
}

} // verus!
