//! Dynamic-range grayscale mapping.
//!
//! An escape iteration is normalized against the discovered range
//! `min_iter .. max_iter`, scaled to a byte, clamped, and inverted, so
//! that slower escapes render darker. Interior points render black; a
//! degenerate single-value range renders mid-gray. Pixels outside the
//! sampled range (the sampling grid is sparse) clamp to the ends of
//! the byte scale.

use vstd::prelude::*;
use vstd::arithmetic::div_mod::lemma_fundamental_div_mod_converse;

verus! {

/// Clamps an integer to the byte range.
pub open spec fn clamp_255(n: int) -> int {
    if n < 0 {
        0
    } else if n > 255 {
        255
    } else {
        n
    }
}

/// Grayscale byte of an escape iteration under the range `mn .. mx`:
/// black for interior, mid-gray for a degenerate range, otherwise the
/// inverted clamped linear normalization.
pub open spec fn gray_of(it: nat, mn: nat, mx: nat, max: nat) -> u8 {
    if it >= max {
        0
    } else if mn == mx {
        128
    } else {
        (255 - clamp_255(((it - mn) * 255) / (mx - mn))) as u8
    }
}

/// A negative dividend with a positive divisor has a negative floor
/// quotient.
proof fn lemma_neg_div_neg(p: int, d: int)
    requires
        p < 0,
        0 < d,
    ensures
        p / d < 0,
{
    vstd::arithmetic::div_mod::lemma_div_is_ordered(p, -1, d);
    lemma_fundamental_div_mod_converse(-1, d, -1, d - 1);
}

/// Computes the grayscale byte of one pixel.
pub fn gray_value(iteration: u32, min_iter: u32, max_iter: u32, max_iterations: u32) -> (r: u8)
    requires
        min_iter <= max_iter,
    ensures
        r == gray_of(iteration as nat, min_iter as nat, max_iter as nat, max_iterations as nat),
{
    if iteration >= max_iterations {
        0
    } else if min_iter == max_iter {
        128
    } else if iteration <= min_iter {
        proof {
            if iteration == min_iter {
                assert((iteration as int - min_iter as int) * 255 == 0);
                vstd::arithmetic::div_mod::lemma_div_of0(max_iter as int - min_iter as int);
            }
            if (iteration as int) < min_iter as int {
                lemma_neg_div_neg(
                    (iteration as int - min_iter as int) * 255,
                    max_iter as int - min_iter as int,
                );
                assert((iteration as int - min_iter as int) * 255 < 0) by (nonlinear_arith)
                    requires
                        (iteration as int) - (min_iter as int) < 0,
                ;
            }
        }
        255
    } else {
        let num: u64 = ((iteration - min_iter) as u64) * 255;
        let den: u64 = (max_iter - min_iter) as u64;
        let q: u64 = num / den;
        let c: u64 = if q > 255 {
            255
        } else {
            q
        };
        (255 - c) as u8
    }
}

} // verus!
