//! The laws of the generator, stated and proved once for all inputs:
//! determinism of a render, lossless composition of segments into the
//! full image, uniformity of processed blocks, and the degenerate
//! all-interior fallback.

use vstd::prelude::*;
use vstd::arithmetic::div_mod::lemma_fundamental_div_mod_converse;
use vstd::arithmetic::div_mod::lemma_hoist_over_denominator;
use vstd::arithmetic::div_mod::lemma_mod_multiples_vanish;
use crate::evaluate::escaped;
use crate::evaluate::escape_from;
use crate::evaluate::point_iterations;
use crate::range::is_sample;
use crate::range::pixel_iterations;
use crate::range::range_post;
use crate::render::seg_gray_bytes;
use crate::segment::seg_raw_bytes;
use crate::segment::pixel_iterations_at;
use crate::segment::raw_byte;
use crate::segment::block_rep;

verus! {

/// The escape loop reports at most its fuel.
pub proof fn lemma_escape_from_le(zr: int, zi: int, x: int, y: int, esc: int, fuel: nat)
    ensures
        escape_from(zr, zi, x, y, esc, fuel) <= fuel,
    decreases fuel,
{
    if fuel > 0 && !escaped(zr, zi, esc) {
        lemma_escape_from_le(
            crate::evaluate::step_re(zr, zi, x),
            crate::evaluate::step_im(zr, zi, y),
            x,
            y,
            esc,
            (fuel - 1) as nat,
        );
    }
}

/// The evaluator reports at most the budget.
pub proof fn lemma_point_iterations_le_max(x: int, y: int, esc: int, max: nat)
    ensures
        point_iterations(x, y, esc, max) <= max,
{
    lemma_escape_from_le(0, 0, x, y, esc, max);
}

/// The iteration range a sampling pass reports is pinned uniquely by
/// the segment's parameters: two passes over the same segment agree.
pub proof fn lemma_range_post_unique(
    cx: int,
    cy: int,
    zoom: int,
    w: int,
    start: int,
    h: int,
    max: nat,
    mn1: nat,
    mx1: nat,
    mn2: nat,
    mx2: nat,
)
    requires
        range_post(cx, cy, zoom, w, start, h, max, mn1, mx1),
        range_post(cx, cy, zoom, w, start, h, max, mn2, mx2),
    ensures
        mn1 == mn2,
        mx1 == mx2,
{
    if exists|x: int, y: int|
        is_sample(w, h, x, y) && #[trigger] pixel_iterations(cx, cy, zoom, w, max, x, start + y)
            < max {
        assert(mn1 == mn2 && mx1 == mx2) by {
            let (ax, ay) = choose|x: int, y: int|
                is_sample(w, h, x, y) && #[trigger] pixel_iterations(
                    cx,
                    cy,
                    zoom,
                    w,
                    max,
                    x,
                    start + y,
                ) == mn1;
            let (bx, by) = choose|x: int, y: int|
                is_sample(w, h, x, y) && #[trigger] pixel_iterations(
                    cx,
                    cy,
                    zoom,
                    w,
                    max,
                    x,
                    start + y,
                ) == mx1;
            let (px, py) = choose|x: int, y: int|
                is_sample(w, h, x, y) && #[trigger] pixel_iterations(
                    cx,
                    cy,
                    zoom,
                    w,
                    max,
                    x,
                    start + y,
                ) == mn2;
            let (qx, qy) = choose|x: int, y: int|
                is_sample(w, h, x, y) && #[trigger] pixel_iterations(
                    cx,
                    cy,
                    zoom,
                    w,
                    max,
                    x,
                    start + y,
                ) == mx2;
            assert(mn2 <= mn1 <= mx2);
            assert(mn1 <= mn2 <= mx1);
            assert(mx1 <= mx2 && mx2 <= mx1);
        }
    } else {
        assert forall|x: int, y: int| is_sample(w, h, x, y) implies #[trigger] pixel_iterations(
            cx,
            cy,
            zoom,
            w,
            max,
            x,
            start + y,
        ) == max by {
            lemma_point_iterations_le_max(
                crate::mapping::map_coord(cx, zoom, w, x),
                crate::mapping::map_coord(cy, zoom, w, start + y),
                crate::evaluate::ESCAPE_SQ as int,
                max,
            );
        }
    }
}

/// Idempotence of the grayscale generator: two renders of the same
/// segment report the same range and byte-identical output.
pub proof fn lemma_render_deterministic(
    cx: int,
    cy: int,
    zoom: int,
    w: int,
    start: int,
    h: int,
    max: nat,
    mn1: nat,
    mx1: nat,
    d1: Seq<u8>,
    mn2: nat,
    mx2: nat,
    d2: Seq<u8>,
)
    requires
        range_post(cx, cy, zoom, w, start, h, max, mn1, mx1),
        d1 == seg_gray_bytes(cx, cy, zoom, w, start, h, mn1, mx1, max),
        range_post(cx, cy, zoom, w, start, h, max, mn2, mx2),
        d2 == seg_gray_bytes(cx, cy, zoom, w, start, h, mn2, mx2, max),
    ensures
        mn1 == mn2,
        mx1 == mx2,
        d1 == d2,
{
    lemma_range_post_unique(cx, cy, zoom, w, start, h, max, mn1, mx1, mn2, mx2);
}

/// Idempotence of the raw segment generator: its bytes are a pure
/// function of the segment's parameters.
pub proof fn lemma_segment_deterministic(
    cx: int,
    cy: int,
    zoom: int,
    w: int,
    start: int,
    h: int,
    esc: int,
    max: nat,
    k: int,
    d1: Seq<u8>,
    d2: Seq<u8>,
)
    requires
        d1 == seg_raw_bytes(cx, cy, zoom, w, start, h, esc, max, k),
        d2 == seg_raw_bytes(cx, cy, zoom, w, start, h, esc, max, k),
    ensures
        d1 == d2,
{
}

/// Splitting a render at any row boundary is lossless: the bytes of a
/// segment of `h1 + h2` rows are the concatenation of the bytes of its
/// first `h1` rows and its last `h2` rows, for the same view and range.
pub proof fn lemma_gray_segments_compose(
    cx: int,
    cy: int,
    zoom: int,
    w: int,
    start: int,
    h1: int,
    h2: int,
    mn: nat,
    mx: nat,
    max: nat,
)
    requires
        0 <= w,
        0 <= h1,
        0 <= h2,
    ensures
        seg_gray_bytes(cx, cy, zoom, w, start, h1 + h2, mn, mx, max) == seg_gray_bytes(
            cx,
            cy,
            zoom,
            w,
            start,
            h1,
            mn,
            mx,
            max,
        ) + seg_gray_bytes(cx, cy, zoom, w, start + h1, h2, mn, mx, max),
{
    let a = seg_gray_bytes(cx, cy, zoom, w, start, h1 + h2, mn, mx, max);
    let b = seg_gray_bytes(cx, cy, zoom, w, start, h1, mn, mx, max);
    let c = seg_gray_bytes(cx, cy, zoom, w, start + h1, h2, mn, mx, max);
    assert(w * (h1 + h2) == w * h1 + w * h2) by (nonlinear_arith);
    assert(0 <= w * h1 && 0 <= w * h2) by (nonlinear_arith)
        requires
            0 <= w,
            0 <= h1,
            0 <= h2,
    ;
    assert forall|i: int| 0 <= i < a.len() implies a[i] == (b + c)[i] by {
        if i >= w * h1 {
            let j = i - w * h1;
            assert(0 < w) by (nonlinear_arith)
                requires
                    0 <= w,
                    w * h1 <= i,
                    i < w * h1 + w * h2,
            ;
            lemma_row_shift(i, j, w, h1);
        }
    }
    assert(a =~= b + c);
}

/// The same, for the raw generator with block processing: blocks are
/// blocks of the logical image, so any row split composes losslessly.
pub proof fn lemma_raw_segments_compose(
    cx: int,
    cy: int,
    zoom: int,
    w: int,
    start: int,
    h1: int,
    h2: int,
    esc: int,
    max: nat,
    k: int,
)
    requires
        0 <= w,
        0 <= h1,
        0 <= h2,
    ensures
        seg_raw_bytes(cx, cy, zoom, w, start, h1 + h2, esc, max, k) == seg_raw_bytes(
            cx,
            cy,
            zoom,
            w,
            start,
            h1,
            esc,
            max,
            k,
        ) + seg_raw_bytes(cx, cy, zoom, w, start + h1, h2, esc, max, k),
{
    let a = seg_raw_bytes(cx, cy, zoom, w, start, h1 + h2, esc, max, k);
    let b = seg_raw_bytes(cx, cy, zoom, w, start, h1, esc, max, k);
    let c = seg_raw_bytes(cx, cy, zoom, w, start + h1, h2, esc, max, k);
    assert(w * (h1 + h2) == w * h1 + w * h2) by (nonlinear_arith);
    assert(0 <= w * h1 && 0 <= w * h2) by (nonlinear_arith)
        requires
            0 <= w,
            0 <= h1,
            0 <= h2,
    ;
    assert forall|i: int| 0 <= i < a.len() implies a[i] == (b + c)[i] by {
        if i >= w * h1 {
            let j = i - w * h1;
            assert(0 < w) by (nonlinear_arith)
                requires
                    0 <= w,
                    w * h1 <= i,
                    i < w * h1 + w * h2,
            ;
            lemma_row_shift(i, j, w, h1);
        }
    }
    assert(a =~= b + c);
}

/// Index arithmetic of the split: the pixel `j` of the second part is
/// the pixel `i = j + h1 * w` of the whole, in the same column and
/// `h1` rows further down.
proof fn lemma_row_shift(i: int, j: int, w: int, h1: int)
    requires
        0 < w,
        0 <= h1,
        0 <= j,
        i == j + w * h1,
    ensures
        i % w == j % w,
        i / w == h1 + j / w,
{
    lemma_mod_multiples_vanish(h1, j, w);
    lemma_hoist_over_denominator(j, h1, w as nat);
    assert(j + h1 * w == j + w * h1) by (nonlinear_arith);
}

/// Block uniformity: two pixels of a segment that share a block of the
/// logical image carry the same byte.
pub proof fn lemma_block_uniform(
    cx: int,
    cy: int,
    zoom: int,
    w: int,
    start: int,
    h: int,
    esc: int,
    max: nat,
    k: int,
    x1: int,
    y1: int,
    x2: int,
    y2: int,
)
    requires
        0 < w,
        1 <= k,
        0 <= x1 < w,
        0 <= x2 < w,
        0 <= y1 < h,
        0 <= y2 < h,
        x1 / k == x2 / k,
        (start + y1) / k == (start + y2) / k,
    ensures
        seg_raw_bytes(cx, cy, zoom, w, start, h, esc, max, k)[y1 * w + x1] == seg_raw_bytes(
            cx,
            cy,
            zoom,
            w,
            start,
            h,
            esc,
            max,
            k,
        )[y2 * w + x2],
{
    lemma_fundamental_div_mod_converse(y1 * w + x1, w, y1, x1);
    lemma_fundamental_div_mod_converse(y2 * w + x2, w, y2, x2);
    assert(0 <= y1 * w + x1 < w * h && 0 <= y2 * w + x2 < w * h) by (nonlinear_arith)
        requires
            0 < w,
            0 <= x1 < w,
            0 <= x2 < w,
            0 <= y1 < h,
            0 <= y2 < h,
    ;
}

/// With a block size of one, every pixel of the raw segment carries its
/// own evaluation.
pub proof fn lemma_block_one_exact(
    cx: int,
    cy: int,
    zoom: int,
    w: int,
    start: int,
    h: int,
    esc: int,
    max: nat,
    i: int,
)
    requires
        0 < w,
        0 <= h,
        0 <= start,
        0 <= i < w * h,
    ensures
        seg_raw_bytes(cx, cy, zoom, w, start, h, esc, max, 1)[i] == raw_byte(
            pixel_iterations_at(cx, cy, zoom, w, esc, max, i % w, start + i / w),
        ),
{
    lemma_block_rep_one(i % w);
    vstd::arithmetic::div_mod::lemma_mod_division_less_than_divisor(i, w);
    vstd::arithmetic::div_mod::lemma_div_pos_is_pos(i, w);
    lemma_block_rep_one(start + i / w);
}

/// Blocks of side one are single pixels.
proof fn lemma_block_rep_one(v: int)
    requires
        0 <= v,
    ensures
        block_rep(v, 1) == v,
{
    lemma_fundamental_div_mod_converse(v, 1, v, 0);
    assert((v / 1) * 1 == v / 1) by (nonlinear_arith);
}

/// The degenerate sampling case: when every sampled pixel is interior,
/// the reported range falls back to the full budget, and the interior
/// pixels of the output render black.
pub proof fn lemma_all_interior_fallback(
    cx: int,
    cy: int,
    zoom: int,
    w: int,
    start: int,
    h: int,
    max: nat,
    mn: nat,
    mx: nat,
)
    requires
        range_post(cx, cy, zoom, w, start, h, max, mn, mx),
        forall|x: int, y: int|
            is_sample(w, h, x, y) ==> #[trigger] pixel_iterations(cx, cy, zoom, w, max, x, start + y)
                == max,
    ensures
        mn == 0,
        mx == max,
        forall|i: int|
            0 <= i < w * h && #[trigger] pixel_iterations(cx, cy, zoom, w, max, i % w, start + i / w)
                == max ==> seg_gray_bytes(cx, cy, zoom, w, start, h, mn, mx, max)[i] == 0,
{
}

} // verus!
