//! The two viewport forms and their interconversion.
//!
//! A view is either a plane rectangle (`min/max` on each axis) or a
//! center with a magnification (`zoom`, pixels per unit, derived as
//! canvas width over plane width). Both forms describe the same view;
//! the conversions here are exact on the fixed-point grid.

use vstd::prelude::*;
use vstd::arithmetic::div_mod::lemma_hoist_over_denominator;
use vstd::arithmetic::div_mod::lemma_div_pos_is_pos;
use crate::fixed::SCALE;
use crate::fixed::fdiv;
use crate::fixed::fix_div;
use crate::fixed::lemma_div_magnitude;
use crate::fixed::lemma_mul_abs_bound;
use crate::mapping::map_coord;
use crate::mapping::pixel_to_plane;
use crate::mapping::CENTER_BOUND;
use crate::mapping::MAX_DIM;

verus! {

/// A view as a plane rectangle.
pub struct Viewport {
    pub min_real: i64,
    pub max_real: i64,
    pub min_imag: i64,
    pub max_imag: i64,
}

impl Viewport {
    /// A well-formed rectangle: nonempty on both axes, within the
    /// representable range, and at least 1/65536 of a unit wide, the
    /// narrowest view the fixed-point magnification can express.
    pub open spec fn wf(&self) -> bool {
        &&& -CENTER_BOUND <= self.min_real
        &&& self.min_real < self.max_real
        &&& self.max_real <= CENTER_BOUND
        &&& -CENTER_BOUND <= self.min_imag
        &&& self.min_imag < self.max_imag
        &&& self.max_imag <= CENTER_BOUND
        &&& self.max_real - self.min_real >= 0x100
    }
}

/// Midpoint of an interval, on the fixed-point grid.
pub open spec fn center_of(lo: int, hi: int) -> int {
    (lo + hi) / 2
}

/// Magnification of an interval viewport: canvas width over plane
/// width.
pub open spec fn zoom_of(width: int, min_real: int, max_real: int) -> int {
    fdiv(width * SCALE, max_real - min_real)
}

/// Midpoint of an interval.
fn midpoint(lo: i64, hi: i64) -> (r: i64)
    requires
        -CENTER_BOUND <= lo < hi <= CENTER_BOUND,
    ensures
        r as int == center_of(lo as int, hi as int),
        -CENTER_BOUND <= r <= CENTER_BOUND,
{
    let d: i64 = hi - lo;
    proof {
        assert(d as u64 == d as int);
    }
    let half: i64 = ((d as u64) / 2) as i64;
    proof {
        lemma_hoist_over_denominator(d as int, lo as int, 2);
        lemma_div_pos_is_pos(d as int, 2);
        vstd::arithmetic::div_mod::lemma_div_nonincreasing(d as int, 2);
    }
    lo + half
}

/// Center and magnification of an interval viewport, for a canvas of
/// the given width.
pub fn center_zoom_of(view: &Viewport, canvas_width: u32) -> (r: (i64, i64, i64))
    requires
        view.wf(),
        0 < canvas_width <= MAX_DIM,
    ensures
        r.0 as int == center_of(view.min_real as int, view.max_real as int),
        r.1 as int == center_of(view.min_imag as int, view.max_imag as int),
        r.2 as int == zoom_of(canvas_width as int, view.min_real as int, view.max_real as int),
{
    let cx = midpoint(view.min_real, view.max_real);
    let cy = midpoint(view.min_imag, view.max_imag);
    let num: i64 = (canvas_width as i64) * SCALE;
    proof {
        let d = view.max_real as int - view.min_real as int;
        lemma_mul_abs_bound(num as int, SCALE as int, 0x100_0000_0000, SCALE as int);
        lemma_div_magnitude(num as int * SCALE as int, d, 0x100_0000_0000int * 0x100_0000);
        assert(0x100_0000_0000int * 0x100_0000 == 0x1_0000_0000_0000_0000int) by (
        nonlinear_arith);
        assert((0x1_0000_0000_0000_0000int) / d <= 0x1_0000_0000_0000_0000int / 0x100) by {
            vstd::arithmetic::div_mod::lemma_div_is_ordered_by_denominator(
                0x1_0000_0000_0000_0000,
                0x100,
                d,
            );
        }
        assert(0x1_0000_0000_0000_0000int / 0x100 == 0x100_0000_0000_0000int) by {
            vstd::arithmetic::div_mod::lemma_div_multiples_vanish(0x100_0000_0000_0000, 0x100);
            assert(0x100int * 0x100_0000_0000_0000 == 0x1_0000_0000_0000_0000int) by (
            nonlinear_arith);
        }
    }
    let zoom = fix_div(num, view.max_real - view.min_real);
    (cx, cy, zoom)
}

/// The interval viewport seen by a canvas of `width` by `height`
/// pixels from a center at the given magnification: the images of the
/// raster's corner pixels under the pixel-to-plane map.
pub fn viewport_from_center_zoom(
    center_x: i64,
    center_y: i64,
    zoom: i64,
    width: u32,
    height: u32,
) -> (r: Viewport)
    requires
        -CENTER_BOUND <= center_x <= CENTER_BOUND,
        -CENTER_BOUND <= center_y <= CENTER_BOUND,
        SCALE <= zoom,
        0 < width <= MAX_DIM,
        0 < height <= MAX_DIM,
    ensures
        r.min_real as int == map_coord(center_x as int, zoom as int, width as int, 0),
        r.max_real as int == map_coord(center_x as int, zoom as int, width as int, width as int),
        r.min_imag as int == map_coord(center_y as int, zoom as int, width as int, 0),
        r.max_imag as int == map_coord(center_y as int, zoom as int, width as int, height as int),
{
    let min_real = pixel_to_plane(center_x, zoom, width, 0);
    let max_real = pixel_to_plane(center_x, zoom, width, width);
    let min_imag = pixel_to_plane(center_y, zoom, width, 0);
    let max_imag = pixel_to_plane(center_y, zoom, width, height);
    Viewport { min_real, max_real, min_imag, max_imag }
}

} // verus!
