//! Full-image RGBA rendering from an explicit plane interval.
//!
//! A [`RenderRequest`] carries the viewport as a plane rectangle
//! together with the canvas size, the iteration budget, the smoothing
//! flag (which widens the escape radius) and the block size. The
//! renderer maps each pixel affinely into the rectangle, evaluates one
//! point per block, and writes palette colors — opaque black for
//! interior points — as RGBA bytes ready for display.

use vstd::prelude::*;
use vstd::arithmetic::div_mod::lemma_fundamental_div_mod;
use vstd::arithmetic::div_mod::lemma_fundamental_div_mod_converse;
use vstd::arithmetic::div_mod::lemma_div_pos_is_pos;
use vstd::arithmetic::div_mod::lemma_div_is_ordered;
use crate::evaluate::point_iterations;
use crate::evaluate::ESCAPE_SQ;
use crate::evaluate::SMOOTH_ESCAPE_SQ;
use crate::fixed::COORD_BOUND;
use crate::mapping::CENTER_BOUND;
use crate::mapping::MAX_DIM;
use crate::palette::ColorPalette;
use crate::palette::palette_color;
use crate::palette::palette_color_of;
use crate::segment::block_rep;
use crate::segment::segment_esc;
use crate::segment::lemma_block_rep_range;
use crate::segment::lemma_block_rep_stable;

verus! {

/// One full-image render request: an explicit plane rectangle, the
/// canvas size, the iteration budget, the smoothing flag, and the
/// block size.
pub struct RenderRequest {
    pub min_real: i64,
    pub max_real: i64,
    pub min_imag: i64,
    pub max_imag: i64,
    pub canvas_width: u32,
    pub canvas_height: u32,
    pub max_iterations: u32,
    pub smooth_rendering: bool,
    pub block_size: u32,
}

/// What a full-image render returns: the RGBA bytes and the canvas
/// size they are laid out for.
pub struct RenderResult {
    pub image_data: Vec<u8>,
    pub width: u32,
    pub height: u32,
}

impl RenderRequest {
    /// A well-formed request: a nonempty plane rectangle within the
    /// representable range, a nonempty bounded canvas, and a positive
    /// block size.
    pub open spec fn wf(&self) -> bool {
        &&& -CENTER_BOUND <= self.min_real
        &&& self.min_real < self.max_real
        &&& self.max_real <= CENTER_BOUND
        &&& -CENTER_BOUND <= self.min_imag
        &&& self.min_imag < self.max_imag
        &&& self.max_imag <= CENTER_BOUND
        &&& 0 < self.canvas_width <= MAX_DIM
        &&& 0 < self.canvas_height <= MAX_DIM
        &&& 1 <= self.block_size
    }
}

/// Plane coordinate of pixel `p` of `extent` pixels spanning the
/// interval from `lo` to `hi`.
pub open spec fn interval_coord(lo: int, hi: int, extent: int, p: int) -> int {
    lo + (p * (hi - lo)) / extent
}

/// Maps one pixel index into a plane interval.
fn interval_to_plane(lo: i64, hi: i64, extent: u32, p: u32) -> (r: i64)
    requires
        -CENTER_BOUND <= lo,
        lo < hi,
        hi <= CENTER_BOUND,
        0 < extent <= MAX_DIM,
        p < extent,
    ensures
        r as int == interval_coord(lo as int, hi as int, extent as int, p as int),
        lo <= r < hi,
        -COORD_BOUND <= r <= COORD_BOUND,
{
    let delta: i64 = hi - lo;
    proof {
        assert(delta as u64 == delta as int);
        assert((p as u64) * (delta as u64) < 0x8000_0000_0000_0000) by (nonlinear_arith)
            requires
                p as u64 <= 0xFFFF,
                delta as u64 <= 0x400_0000_0000,
        ;
        assert(0 <= (p as int) * (delta as int)) by (nonlinear_arith)
            requires
                0 <= p as int,
                0 <= delta as int,
        ;
    }
    let num: u64 = (p as u64) * (delta as u64);
    let q: u64 = num / (extent as u64);
    proof {
        let pd = (p as int) * (delta as int);
        let e = extent as int;
        let d = delta as int;
        lemma_div_pos_is_pos(pd, e);
        assert(pd <= e * d - d) by (nonlinear_arith)
            requires
                0 <= p as int,
                p as int <= e - 1,
                0 < d,
                0 < e,
                pd == (p as int) * d,
        ;
        lemma_div_is_ordered(pd, e * d - 1, e);
        assert(e * d - 1 == (d - 1) * e + (e - 1)) by (nonlinear_arith);
        lemma_fundamental_div_mod_converse(e * d - 1, e, d - 1, e - 1);
    }
    lo + (q as i64)
}

/// Escape iteration of pixel `(px, py)` of a request's canvas: the
/// pixel's block representative is mapped into the plane rectangle and
/// evaluated under the request's escape threshold.
pub open spec fn full_pixel_iter(req: RenderRequest, px: int, py: int) -> nat {
    point_iterations(
        interval_coord(
            req.min_real as int,
            req.max_real as int,
            req.canvas_width as int,
            block_rep(px, req.block_size as int),
        ),
        interval_coord(
            req.min_imag as int,
            req.max_imag as int,
            req.canvas_height as int,
            block_rep(py, req.block_size as int),
        ),
        segment_esc(req.smooth_rendering),
        req.max_iterations as nat,
    )
}

/// Smooth fraction byte of pixel `(px, py)` of a request's canvas, at
/// the same block representative the iteration uses.
pub open spec fn full_pixel_smooth(req: RenderRequest, px: int, py: int) -> u8 {
    crate::evaluate::smooth_byte(
        interval_coord(
            req.min_real as int,
            req.max_real as int,
            req.canvas_width as int,
            block_rep(px, req.block_size as int),
        ),
        interval_coord(
            req.min_imag as int,
            req.max_imag as int,
            req.canvas_height as int,
            block_rep(py, req.block_size as int),
        ),
        segment_esc(req.smooth_rendering),
        req.max_iterations as nat,
    )
}

/// One color channel interpolated between two palette entries by a
/// fraction in 256ths: at fraction zero it is the first entry exactly.
pub open spec fn lerp_channel(a: u8, b: u8, f: u8) -> u8 {
    ((a * (256 - f) + b * f) / 256) as u8
}

/// The smoothed color of an escape iteration: the palette entries of
/// the iteration and its successor (wrapping at 255), interpolated by
/// the smooth fraction. Interior points stay black.
pub open spec fn smooth_color(it: nat, f: u8, max: nat) -> (u8, u8, u8) {
    if it >= max {
        (0, 0, 0)
    } else {
        let i1 = (it % 255) as int;
        let i2 = ((it + 1) % 255) as int;
        (
            lerp_channel(crate::palette::pal_red(i1), crate::palette::pal_red(i2), f),
            lerp_channel(crate::palette::pal_green(i1), crate::palette::pal_green(i2), f),
            lerp_channel(crate::palette::pal_blue(i1), crate::palette::pal_blue(i2), f),
        )
    }
}

/// The color of pixel `(px, py)` of a request: plain or smoothed
/// palette color, as the request asks.
pub open spec fn full_pixel_color(req: RenderRequest, px: int, py: int) -> (u8, u8, u8) {
    if req.smooth_rendering {
        smooth_color(
            full_pixel_iter(req, px, py),
            full_pixel_smooth(req, px, py),
            req.max_iterations as nat,
        )
    } else {
        palette_color(full_pixel_iter(req, px, py), req.max_iterations as nat)
    }
}

/// The RGBA bytes of a full-image render, in row-major order, four
/// bytes per pixel: the (possibly smoothed) palette color of the
/// pixel's escape iteration and an opaque alpha channel.
pub open spec fn full_rgba_bytes(req: RenderRequest) -> Seq<u8> {
    let w = req.canvas_width as int;
    let h = req.canvas_height as int;
    Seq::new(
        (4 * (w * h)) as nat,
        |b: int|
            {
                let p = b / 4;
                let c = full_pixel_color(req, p % w, p / w);
                if b % 4 == 0 {
                    c.0
                } else if b % 4 == 1 {
                    c.1
                } else if b % 4 == 2 {
                    c.2
                } else {
                    255u8
                }
            },
    )
}

/// Interpolates one color channel.
fn lerp_channel_exec(a: u8, b: u8, f: u8) -> (r: u8)
    ensures
        r == lerp_channel(a, b, f),
{
    proof {
        assert(0 <= (a as int) * (256 - f as int) <= 255 * (256 - f as int)) by (nonlinear_arith)
            requires
                0 <= a as int <= 255,
                0 <= f as int <= 255,
        ;
        assert(0 <= (b as int) * (f as int) <= 255 * (f as int)) by (nonlinear_arith)
            requires
                0 <= b as int <= 255,
                0 <= f as int <= 255,
        ;
    }
    let num: u32 = (a as u32) * (256 - f as u32) + (b as u32) * (f as u32);
    proof {
        assert(num <= 255 * 256);
        vstd::arithmetic::div_mod::lemma_div_is_ordered(num as int, 255int * 256, 256);
        vstd::arithmetic::div_mod::lemma_div_multiples_vanish(255, 256);
    }
    (num / 256) as u8
}

/// Maps one escape iteration and smooth fraction through the palette
/// with interpolation.
fn smooth_color_of(palette: &ColorPalette, it: u32, f: u8, max: u32) -> (r: (u8, u8, u8))
    requires
        palette.wf(),
    ensures
        r == smooth_color(it as nat, f, max as nat),
{
    if it >= max {
        (0, 0, 0)
    } else {
        let c1 = palette.color((it % 255) as u8);
        let c2 = palette.color(((it + 1) % 255) as u8);
        proof {
            assert((it + 1) as nat % 255 == ((it as nat) + 1) % 255);
        }
        (
            lerp_channel_exec(c1.0, c2.0, f),
            lerp_channel_exec(c1.1, c2.1, f),
            lerp_channel_exec(c1.2, c2.2, f),
        )
    }
}

/// Renders one full image as RGBA palette colors.
#[verifier::rlimit(100)]
pub fn render_full(request: &RenderRequest) -> (r: RenderResult)
    requires
        request.wf(),
    ensures
        r.width == request.canvas_width,
        r.height == request.canvas_height,
        r.image_data@ == full_rgba_bytes(*request),
{
    let ghost req = *request;
    let ghost w = request.canvas_width as int;
    let ghost h = request.canvas_height as int;
    let ghost max = request.max_iterations as nat;
    let ghost k = request.block_size as int;
    let ghost goal = full_rgba_bytes(req);
    let palette = ColorPalette::new();
    let escape_squared: i64 = if request.smooth_rendering {
        SMOOTH_ESCAPE_SQ
    } else {
        ESCAPE_SQ
    };
    let width = request.canvas_width;
    let height = request.canvas_height;
    let block_size = request.block_size;
    let mut buf: Vec<u8> = Vec::new();
    let mut py: u32 = 0;
    while py < height
        invariant
            req == *request,
            req.wf(),
            w == req.canvas_width as int,
            h == req.canvas_height as int,
            max == req.max_iterations as nat,
            k == req.block_size as int,
            goal == full_rgba_bytes(req),
            palette.wf(),
            escape_squared as int == segment_esc(req.smooth_rendering),
            width == req.canvas_width,
            height == req.canvas_height,
            block_size == req.block_size,
            py <= height,
            buf@.len() == 4 * (py * w),
            forall|b: int| 0 <= b < buf@.len() ==> buf@[b] == goal[b],
        decreases height - py,
    {
        proof {
            lemma_block_rep_range(py as int, k);
            lemma_fundamental_div_mod(py as int, k);
        }
        let py_rep: u32 = (py / block_size) * block_size;
        let iy = interval_to_plane(
            request.min_imag,
            request.max_imag,
            request.canvas_height,
            py_rep,
        );
        let mut px: u32 = 0;
        let mut cur: (u8, u8, u8) = (0, 0, 0);
        while px < width
            invariant
                req == *request,
                req.wf(),
                w == req.canvas_width as int,
                h == req.canvas_height as int,
                max == req.max_iterations as nat,
                k == req.block_size as int,
                goal == full_rgba_bytes(req),
                palette.wf(),
                escape_squared as int == segment_esc(req.smooth_rendering),
                width == req.canvas_width,
                height == req.canvas_height,
                block_size == req.block_size,
                py < height,
                py_rep as int == block_rep(py as int, k),
                iy as int == interval_coord(
                    req.min_imag as int,
                    req.max_imag as int,
                    h,
                    py_rep as int,
                ),
                -COORD_BOUND <= iy <= COORD_BOUND,
                px <= width,
                buf@.len() == 4 * (py * w + px),
                forall|b: int| 0 <= b < buf@.len() ==> buf@[b] == goal[b],
                px > 0 ==> cur == full_pixel_color(req, px - 1, py as int),
            decreases width - px,
        {
            if px % block_size == 0 {
                proof {
                    lemma_block_rep_range(px as int, k);
                }
                let ix = interval_to_plane(
                    request.min_real,
                    request.max_real,
                    request.canvas_width,
                    px,
                );
                let result = crate::evaluate::evaluate(
                    ix,
                    iy,
                    request.max_iterations,
                    escape_squared,
                    request.smooth_rendering,
                );
                let fraction = match result.smooth_fraction {
                    Some(b) => b,
                    None => 0,
                };
                cur = if request.smooth_rendering {
                    smooth_color_of(&palette, result.iteration, fraction, request.max_iterations)
                } else {
                    palette_color_of(&palette, result.iteration, request.max_iterations)
                };
            } else {
                proof {
                    lemma_block_rep_stable(px as int, k);
                }
            }
            proof {
                let p = py as int * w + px as int;
                lemma_fundamental_div_mod_converse(p, w, py as int, px as int);
                assert(0 <= p && p < w * h) by (nonlinear_arith)
                    requires
                        p == py as int * w + px as int,
                        0 <= (px as int) < w,
                        0 <= (py as int) < h,
                ;
                let base = 4 * p;
                lemma_fundamental_div_mod_converse(base, 4, p, 0);
                lemma_fundamental_div_mod_converse(base + 1, 4, p, 1);
                lemma_fundamental_div_mod_converse(base + 2, 4, p, 2);
                lemma_fundamental_div_mod_converse(base + 3, 4, p, 3);
                assert(cur == full_pixel_color(req, px as int, py as int));
            }
            buf.push(cur.0);
            buf.push(cur.1);
            buf.push(cur.2);
            buf.push(255);
            px = px + 1;
        }
        py = py + 1;
        proof {
            assert(4 * ((py - 1) * w + w) == 4 * (py * w)) by (nonlinear_arith);
        }
    }
    proof {
        assert(buf@.len() == goal.len()) by (nonlinear_arith)
            requires
                buf@.len() == 4 * (py as int * w),
                goal.len() == (4 * (w * h)) as nat,
                py as int == h,
        ;
        assert(buf@ =~= goal);
    }
    RenderResult { image_data: buf, width, height }
}

} // verus!
