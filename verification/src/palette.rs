//! The color palette: 256 precomputed RGB triples on a fixed
//! piecewise-linear ramp. Red ramps to full over the lower half of the
//! index range and then holds; green starts ramping at 64 and holds
//! from 192; blue ramps over the top quarter. The palette is stateless
//! and recomputable; one instance serves all coloring calls.

use vstd::prelude::*;
use vstd::arithmetic::div_mod::lemma_div_is_ordered;
use vstd::arithmetic::div_mod::lemma_div_multiples_vanish;
use vstd::arithmetic::div_mod::lemma_div_pos_is_pos;

verus! {

/// Red channel of palette entry `i`: ramps 0 to 255 over the lower
/// half, then holds.
pub open spec fn pal_red(i: int) -> u8 {
    if i < 128 {
        ((i * 255) / 127) as u8
    } else {
        255
    }
}

/// Green channel of palette entry `i`: zero below 64, ramps to 255 by
/// 192, then holds.
pub open spec fn pal_green(i: int) -> u8 {
    if i < 64 {
        0
    } else if i < 192 {
        (((i - 64) * 255) / 127) as u8
    } else {
        255
    }
}

/// Blue channel of palette entry `i`: zero below 192, then ramps to
/// 255.
pub open spec fn pal_blue(i: int) -> u8 {
    if i < 192 {
        0
    } else {
        (((i - 192) * 255) / 63) as u8
    }
}

/// A scaled ramp value stays within the byte range.
proof fn lemma_ramp_bound(p: int, cap: int)
    requires
        0 <= p <= cap,
        0 < cap,
    ensures
        0 <= (p * 255) / cap <= 255,
{
    assert(0 <= p * 255 <= cap * 255) by (nonlinear_arith)
        requires
            0 <= p <= cap,
    ;
    lemma_div_pos_is_pos(p * 255, cap);
    lemma_div_is_ordered(p * 255, cap * 255, cap);
    lemma_div_multiples_vanish(255, cap);
    assert(cap * 255 == 255 * cap) by (nonlinear_arith);
}

/// The 256-entry palette, as 768 consecutive RGB bytes.
pub struct ColorPalette {
    pub rgb: Vec<u8>,
}

impl ColorPalette {
    /// Every entry carries its ramp values.
    pub open spec fn wf(&self) -> bool {
        &&& self.rgb@.len() == 768
        &&& forall|j: int|
            0 <= j < 256 ==> #[trigger] self.rgb@[3 * j] == pal_red(j) && self.rgb@[3 * j + 1]
                == pal_green(j) && self.rgb@[3 * j + 2] == pal_blue(j)
    }

    /// Builds the palette from the ramp formulas.
    pub fn new() -> (r: ColorPalette)
        ensures
            r.wf(),
    {
        let mut rgb: Vec<u8> = Vec::new();
        let mut i: u32 = 0;
        while i < 256
            invariant
                i <= 256,
                rgb@.len() == 3 * i,
                forall|j: int|
                    0 <= j < i ==> #[trigger] rgb@[3 * j] == pal_red(j) && rgb@[3 * j + 1]
                        == pal_green(j) && rgb@[3 * j + 2] == pal_blue(j),
            decreases 256 - i,
        {
            let red: u8 = if i < 128 {
                proof {
                    lemma_ramp_bound(i as int, 127);
                }
                ((i * 255) / 127) as u8
            } else {
                255
            };
            let green: u8 = if i < 64 {
                0
            } else if i < 192 {
                proof {
                    lemma_ramp_bound(i as int - 64, 127);
                }
                (((i - 64) * 255) / 127) as u8
            } else {
                255
            };
            let blue: u8 = if i < 192 {
                0
            } else {
                proof {
                    lemma_ramp_bound(i as int - 192, 63);
                }
                (((i - 192) * 255) / 63) as u8
            };
            rgb.push(red);
            rgb.push(green);
            rgb.push(blue);
            i = i + 1;
        }
        ColorPalette { rgb }
    }

    /// Looks one entry up.
    pub fn color(&self, idx: u8) -> (r: (u8, u8, u8))
        requires
            self.wf(),
        ensures
            r.0 == pal_red(idx as int),
            r.1 == pal_green(idx as int),
            r.2 == pal_blue(idx as int),
    {
        let base: usize = 3 * (idx as usize);
        (self.rgb[base], self.rgb[base + 1], self.rgb[base + 2])
    }
}

/// The color of an escape iteration: opaque black for interior points,
/// otherwise the palette entry of the iteration reduced mod 255.
pub open spec fn palette_color(it: nat, max: nat) -> (u8, u8, u8) {
    if it >= max {
        (0, 0, 0)
    } else {
        (
            pal_red((it % 255) as int),
            pal_green((it % 255) as int),
            pal_blue((it % 255) as int),
        )
    }
}

/// Maps one escape iteration through the palette.
pub fn palette_color_of(palette: &ColorPalette, it: u32, max: u32) -> (r: (u8, u8, u8))
    requires
        palette.wf(),
    ensures
        r == palette_color(it as nat, max as nat),
{
    if it >= max {
        (0, 0, 0)
    } else {
        palette.color((it % 255) as u8)
    }
}

} // verus!
