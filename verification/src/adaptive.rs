//! Adaptive iteration budget.
//!
//! Deeper zooms need more iterations to resolve boundary detail. The
//! budget grows from its base by half of the base per decade of
//! magnification — `base * (1 + floor(log10(zoom)) / 2)`, with zooms
//! below one counting as one — and never exceeds the caller's ceiling.

use vstd::prelude::*;
use vstd::arithmetic::div_mod::lemma_div_is_ordered;
use vstd::arithmetic::div_mod::lemma_div_decreases;
use vstd::arithmetic::div_mod::lemma_div_pos_is_pos;
use vstd::arithmetic::div_mod::lemma_div_multiples_vanish;
use crate::fixed::SCALE;

verus! {

/// Integer part of the base-10 logarithm of a positive value (zero for
/// zero).
pub open spec fn floor_log10(v: nat) -> nat
    decreases v,
{
    if v < 10 {
        0
    } else {
        1 + floor_log10((v / 10) as nat)
    }
}

/// The adaptive budget: the base, plus half the base per decade of
/// magnification, clamped to the ceiling.
pub open spec fn optimal_iterations_spec(zoom: int, base: nat, max: nat) -> nat {
    let z = if zoom < SCALE as int {
        SCALE as int
    } else {
        zoom
    };
    let d = floor_log10((z / (SCALE as int)) as nat);
    let raw = base + (base * d) / 2;
    if raw > max {
        max
    } else {
        raw
    }
}

/// Powers of ten.
pub open spec fn pow10(n: nat) -> nat
    decreases n,
{
    if n == 0 {
        1
    } else {
        10 * pow10((n - 1) as nat)
    }
}

/// A power of ten outgrows its exponent.
proof fn lemma_pow10_gt(n: nat)
    ensures
        n < pow10(n),
    decreases n,
{
    if n > 0 {
        lemma_pow10_gt((n - 1) as nat);
        assert(10 * pow10((n - 1) as nat) >= 10 * n - 10 + 10) by (nonlinear_arith)
            requires
                pow10((n - 1) as nat) >= n,
        ;
    }
}

/// Computes the adaptive iteration budget for a magnification.
pub fn optimal_iterations(zoom: i64, base_iterations: u32, max_iterations: u32) -> (r: u32)
    ensures
        r as nat == optimal_iterations_spec(
            zoom as int,
            base_iterations as nat,
            max_iterations as nat,
        ),
{
    let z: i64 = if zoom < SCALE {
        SCALE
    } else {
        zoom
    };
    let mut v: u64 = (z as u64) / (SCALE as u64);
    let ghost v0 = v as nat;
    proof {
        lemma_div_is_ordered(SCALE as int, z as int, SCALE as int);
        lemma_div_multiples_vanish(1, SCALE as int);
    }
    let mut d: u64 = 0;
    proof {
        assert(pow10(0) == 1);
    }
    while v >= 10
        invariant
            1 <= v,
            v as nat * pow10(d as nat) <= v0,
            v0 <= u64::MAX,
            floor_log10(v0) == d + floor_log10(v as nat),
        decreases v,
    {
        proof {
            lemma_div_decreases(v as int, 10);
            lemma_div_pos_is_pos(v as int, 10);
            assert(v as int / 10 >= 1) by {
                lemma_div_is_ordered(10, v as int, 10);
                lemma_div_multiples_vanish(1, 10);
            }
            vstd::arithmetic::div_mod::lemma_fundamental_div_mod(v as int, 10);
            let vq = (v as int / 10) as nat;
            assert(10 * vq <= v as nat);
            assert(vq * pow10((d + 1) as nat) <= v as nat * pow10(d as nat)) by (nonlinear_arith)
                requires
                    10 * vq <= v as nat,
                    pow10((d + 1) as nat) == 10 * pow10(d as nat),
                    0 <= pow10(d as nat),
            ;
            lemma_pow10_gt((d + 1) as nat);
            assert(d + 1 < pow10((d + 1) as nat) <= vq * pow10((d + 1) as nat)) by (
            nonlinear_arith)
                requires
                    1 <= vq,
                    d + 1 < pow10((d + 1) as nat),
            ;
        }
        v = v / 10;
        d = d + 1;
    }
    proof {
        lemma_pow10_gt(d as nat);
        assert(d < v0) by (nonlinear_arith)
            requires
                1 <= v as nat,
                v as nat * pow10(d as nat) <= v0,
                (d as nat) < pow10(d as nat),
        ;
        assert((base_iterations as int) * (d as int) < 0x1_0000_0000_0000_0000_0000_0000) by (
        nonlinear_arith)
            requires
                0 <= base_iterations as int,
                base_iterations as int <= 0xFFFF_FFFF,
                0 <= d as int,
                d as int <= 0xFFFF_FFFF_FFFF_FFFF,
        ;
    }
    let raw: u128 = base_iterations as u128 + (base_iterations as u128 * d as u128) / 2;
    if raw > max_iterations as u128 {
        max_iterations
    } else {
        raw as u32
    }
}

/// The integer base-10 logarithm is monotone.
pub proof fn lemma_floor_log10_monotone(a: nat, b: nat)
    requires
        a <= b,
    ensures
        floor_log10(a) <= floor_log10(b),
    decreases b,
{
    if a >= 10 {
        lemma_div_is_ordered(a as int, b as int, 10);
        lemma_div_decreases(b as int, 10);
        lemma_floor_log10_monotone((a / 10) as nat, (b / 10) as nat);
    }
}

/// The budget never exceeds the ceiling, and never falls below the
/// base while the base itself fits the ceiling.
pub proof fn lemma_optimal_iterations_bounds(zoom: int, base: nat, max: nat)
    ensures
        optimal_iterations_spec(zoom, base, max) <= max,
        base <= max ==> base <= optimal_iterations_spec(zoom, base, max),
{
    let z = if zoom < SCALE as int {
        SCALE as int
    } else {
        zoom
    };
    let d = floor_log10((z / (SCALE as int)) as nat);
    assert(0 <= base * d) by (nonlinear_arith);
    lemma_div_pos_is_pos((base * d) as int, 2);
}

/// The budget is monotone in the magnification.
pub proof fn lemma_optimal_iterations_monotone(z1: int, z2: int, base: nat, max: nat)
    requires
        z1 <= z2,
    ensures
        optimal_iterations_spec(z1, base, max) <= optimal_iterations_spec(z2, base, max),
{
    let s = SCALE as int;
    let za = if z1 < s {
        s
    } else {
        z1
    };
    let zb = if z2 < s {
        s
    } else {
        z2
    };
    lemma_div_is_ordered(za, zb, s);
    lemma_div_pos_is_pos(za, s);
    let da = floor_log10((za / s) as nat);
    let db = floor_log10((zb / s) as nat);
    lemma_floor_log10_monotone((za / s) as nat, (zb / s) as nat);
    assert(base * da <= base * db) by (nonlinear_arith)
        requires
            da <= db,
            0 <= base,
    ;
    lemma_div_is_ordered((base * da) as int, (base * db) as int, 2);
    assert(0 <= base * da) by (nonlinear_arith);
    lemma_div_pos_is_pos((base * da) as int, 2);
}

} // verus!
