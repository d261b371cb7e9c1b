//! The affine map from raster pixels to plane coordinates.
//!
//! A pixel column `p` of a canvas of width `w`, viewed with center `c`
//! and magnification `zoom` (raw fixed-point, pixels per unit), lies at
//! the plane coordinate `c + (p - w/2) / zoom`. Rows use the same map —
//! with the canvas *width* as the half-offset reference for both axes,
//! which keeps pixels square on a square canvas and is kept for parity
//! with the original behaviour.

use vstd::prelude::*;
use vstd::arithmetic::div_mod::lemma_div_is_ordered_by_denominator;
use vstd::arithmetic::div_mod::lemma_div_multiples_vanish;
use crate::fixed::fdiv;
use crate::fixed::fix_div;
use crate::fixed::lemma_mul_abs_bound;
use crate::fixed::lemma_div_magnitude;
use crate::fixed::SCALE;
use crate::fixed::HALF_SCALE;
use crate::fixed::COORD_BOUND;

verus! {

/// Largest center-coordinate magnitude (raw) the generators accept:
/// 2^17 units, far beyond any view of the set.
pub const CENTER_BOUND: i64 = 0x200_0000_0000;

/// Largest canvas dimension (columns, or absolute rows) the generators
/// accept.
pub const MAX_DIM: u32 = 65536;

/// A well-formed view: bounded center, magnification of at least one
/// pixel per unit.
pub open spec fn wf_view(cx: int, cy: int, zoom: int) -> bool {
    &&& -CENTER_BOUND <= cx <= CENTER_BOUND
    &&& -CENTER_BOUND <= cy <= CENTER_BOUND
    &&& SCALE as int <= zoom
}

/// A well-formed raster segment: bounded width, and the segment's rows
/// lie within the bounded logical image.
pub open spec fn wf_raster(w: int, start: int, h: int) -> bool {
    &&& 0 <= w <= MAX_DIM
    &&& 0 <= h
    &&& 0 <= start
    &&& start + h <= MAX_DIM
}

/// Raw fixed-point offset of pixel `p` from the canvas midline.
pub open spec fn pixel_offset(p: int, w: int) -> int {
    p * SCALE - w * HALF_SCALE
}

/// Plane coordinate of pixel `p`: the scaled midline offset, divided by
/// the magnification, shifted by the center.
pub open spec fn map_coord(c: int, zoom: int, w: int, p: int) -> int {
    c + fdiv(pixel_offset(p, w), zoom)
}

/// A scaled quotient by a divisor of at least one unit keeps the
/// dividend's magnitude, give or take the floor step.
pub proof fn lemma_fdiv_small(a: int, b: int, ba: int)
    requires
        -ba <= a <= ba,
        0 <= ba,
        SCALE as int <= b,
    ensures
        -ba - 1 <= fdiv(a, b) <= ba,
{
    let s = SCALE as int;
    lemma_mul_abs_bound(a, s, ba, s);
    lemma_div_magnitude(a * s, b, ba * s);
    assert(0 <= ba * s) by (nonlinear_arith)
        requires
            0 <= ba,
            0 < s,
    ;
    lemma_div_is_ordered_by_denominator(ba * s, s, b);
    lemma_div_multiples_vanish(ba, s);
    assert(ba * s == s * ba) by (nonlinear_arith);
}

/// The mapped coordinate of a pixel of a well-formed view and raster is
/// a valid evaluator coordinate.
pub proof fn lemma_map_in_bounds(c: int, zoom: int, w: int, p: int)
    requires
        -CENTER_BOUND <= c <= CENTER_BOUND,
        SCALE as int <= zoom,
        0 <= w <= MAX_DIM,
        0 <= p <= MAX_DIM,
    ensures
        -COORD_BOUND <= map_coord(c, zoom, w, p) <= COORD_BOUND,
{
    lemma_fdiv_small(pixel_offset(p, w), zoom, 0x100_0000_0000);
}

/// Maps one pixel index to its plane coordinate.
pub fn pixel_to_plane(c: i64, zoom: i64, width: u32, p: u32) -> (r: i64)
    requires
        -CENTER_BOUND <= c <= CENTER_BOUND,
        SCALE <= zoom,
        width <= MAX_DIM,
        p <= MAX_DIM,
    ensures
        r as int == map_coord(c as int, zoom as int, width as int, p as int),
        -COORD_BOUND <= r <= COORD_BOUND,
{
    let off: i64 = (p as i64) * SCALE - (width as i64) * HALF_SCALE;
    proof {
        lemma_fdiv_small(off as int, zoom as int, 0x100_0000_0000);
        lemma_map_in_bounds(c as int, zoom as int, width as int, p as int);
    }
    let d = fix_div(off, zoom);
    c + d
}

} // verus!
