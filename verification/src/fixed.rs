//! Fixed-point arithmetic for the complex plane.
//!
//! A coordinate value `v` is carried as the `i64` raw integer
//! `round(v * SCALE)`, with `SCALE = 2^24`. The spec functions [`fmul`]
//! and [`fdiv`] give the exact integer meaning of the two scaled
//! operations: the mathematical product or quotient, rounded toward
//! negative infinity.

use vstd::prelude::*;
use vstd::arithmetic::div_mod::lemma_fundamental_div_mod;
use vstd::arithmetic::div_mod::lemma_fundamental_div_mod_converse;
use vstd::arithmetic::div_mod::lemma_div_is_ordered;
use vstd::arithmetic::div_mod::lemma_div_nonincreasing;

verus! {

/// One unit (the real number 1.0) in raw fixed-point form: 2^24.
pub const SCALE: i64 = 0x100_0000;

/// Half a unit (0.5) in raw fixed-point form.
pub const HALF_SCALE: i64 = 0x80_0000;

/// Largest coordinate magnitude (raw) the point evaluator accepts,
/// 2^18 units: ample for any viewport of the set, and small enough that
/// every square computed on the way stays inside `i64`.
pub const COORD_BOUND: i64 = 0x400_0000_0000;

/// Largest escape-radius-squared (raw) the point evaluator accepts,
/// 2^10 units.
pub const ESC_BOUND: i64 = 0x4_0000_0000;

/// Largest operand magnitude (raw) `fix_mul` accepts: 2^43, so the
/// scaled product is below 2^62.
pub const MUL_BOUND: i64 = 0x800_0000_0000;

/// Magnitude bound (raw) maintained for the iteration variables of the
/// escape loop: `ESC_BOUND` of them from the squares, `COORD_BOUND`
/// from the added coordinate, with margin (2^42 + 2^36).
pub const Z_BOUND: i64 = 0x410_0000_0000;

/// Exact meaning of fixed-point multiplication: the scaled product,
/// rounded toward negative infinity.
pub open spec fn fmul(a: int, b: int) -> int {
    (a * b) / (SCALE as int)
}

/// Exact meaning of fixed-point division by a positive divisor: the
/// scaled quotient, rounded toward negative infinity.
pub open spec fn fdiv(a: int, b: int) -> int {
    (a * SCALE) / b
}

/// Floor division of a signed value by a positive divisor, carried out
/// on unsigned machine words (exec division on signed words truncates
/// toward zero, which is not the Euclidean quotient).
fn floor_div_i128(p: i128, d: i128) -> (q: i128)
    requires
        0 < d,
        -0x4000_0000_0000_0000_0000_0000_0000_0000 < p
            < 0x4000_0000_0000_0000_0000_0000_0000_0000,
    ensures
        q == p as int / d as int,
{
    if p >= 0 {
        let pu: u128 = p as u128;
        let du: u128 = d as u128;
        let qu: u128 = pu / du;
        proof {
            lemma_div_nonincreasing(pu as int, du as int);
        }
        qu as i128
    } else {
        let m: u128 = (-p) as u128;
        let du: u128 = d as u128;
        let q1: u128 = m / du;
        let r: u128 = m % du;
        proof {
            lemma_fundamental_div_mod(m as int, du as int);
            lemma_div_nonincreasing(m as int, du as int);
        }
        if r == 0 {
            proof {
                assert(p as int == (-(q1 as int)) * (d as int) + 0) by (nonlinear_arith)
                    requires
                        m as int == d as int * (q1 as int) + (r as int),
                        r as int == 0,
                        p as int == -(m as int),
                ;
                lemma_fundamental_div_mod_converse(p as int, d as int, -(q1 as int), 0);
            }
            -(q1 as i128)
        } else {
            proof {
                assert(p as int == (-(q1 as int) - 1) * (d as int) + (d as int - r as int))
                    by (nonlinear_arith)
                    requires
                        m as int == d as int * (q1 as int) + (r as int),
                        p as int == -(m as int),
                ;
                lemma_fundamental_div_mod_converse(
                    p as int,
                    d as int,
                    -(q1 as int) - 1,
                    d as int - r as int,
                );
            }
            -((q1 + 1) as i128)
        }
    }
}

/// Fixed-point multiplication: `r` is the scaled product of `a` and
/// `b`, rounded toward negative infinity.
pub fn fix_mul(a: i64, b: i64) -> (r: i64)
    requires
        -MUL_BOUND <= a <= MUL_BOUND,
        -MUL_BOUND <= b <= MUL_BOUND,
    ensures
        r == fmul(a as int, b as int),
{
    proof {
        lemma_mul_abs_bound(a as int, b as int, MUL_BOUND as int, MUL_BOUND as int);
        lemma_div_magnitude(a as int * b as int, SCALE as int, 0x40_0000_0000_0000_0000_0000);
    }
    let p: i128 = (a as i128) * (b as i128);
    let q: i128 = floor_div_i128(p, SCALE as i128);
    q as i64
}

/// Fixed-point division by a positive divisor: `r` is the scaled
/// quotient of `a` by `b`, rounded toward negative infinity. The
/// caller shows that the quotient fits the word.
pub fn fix_div(a: i64, b: i64) -> (r: i64)
    requires
        0 < b,
        -0x4000_0000_0000_0000 < fdiv(a as int, b as int) < 0x4000_0000_0000_0000,
    ensures
        r == fdiv(a as int, b as int),
{
    proof {
        lemma_mul_abs_bound(a as int, SCALE as int, 0x8000_0000_0000_0000, SCALE as int);
    }
    let p: i128 = (a as i128) * (SCALE as i128);
    let q: i128 = floor_div_i128(p, b as i128);
    q as i64
}

/// The magnitude of a product is bounded by the product of the
/// operands' magnitude bounds.
pub proof fn lemma_mul_abs_bound(a: int, b: int, ba: int, bb: int)
    requires
        -ba <= a <= ba,
        -bb <= b <= bb,
    ensures
        -(ba * bb) <= a * b <= ba * bb,
{
    assert(-(ba * bb) <= a * b <= ba * bb) by (nonlinear_arith)
        requires
            -ba <= a <= ba,
            -bb <= b <= bb,
    ;
}

/// The floor quotient of a bounded dividend by a positive divisor is
/// bounded by the quotient of the bound, give or take the floor step.
pub proof fn lemma_div_magnitude(p: int, d: int, bp: int)
    requires
        0 < d,
        -bp <= p <= bp,
        0 <= bp,
    ensures
        -(bp / d) - 1 <= p / d <= bp / d,
{
    lemma_div_is_ordered(p, bp, d);
    lemma_div_is_ordered(-bp, p, d);
    lemma_div_magnitude_neg(bp, d);
}

/// Floor division of a negated bound loses at most one step.
proof fn lemma_div_magnitude_neg(bp: int, d: int)
    requires
        0 < d,
        0 <= bp,
    ensures
        (-bp) / d >= -(bp / d) - 1,
{
    lemma_fundamental_div_mod(bp, d);
    let q = bp / d;
    let r = bp % d;
    if r == 0 {
        assert(-bp == (-q) * d + 0) by (nonlinear_arith)
            requires
                bp == d * q + r,
                r == 0,
        ;
        lemma_fundamental_div_mod_converse(-bp, d, -q, 0);
    } else {
        assert(-bp == (-q - 1) * d + (d - r)) by (nonlinear_arith)
            requires
                bp == d * q + r,
        ;
        lemma_fundamental_div_mod_converse(-bp, d, -q - 1, d - r);
    }
}

} // verus!
