//! Smooth (continuous) coloring.
//!
//! The classic smoothing formula, `log2(log2(|z|) / log2(escape)) `
//! rescaled — here `log2(log2(r2) / 2) - 2`, for the squared magnitude
//! `r2` of the iterate at escape — removes color banding by estimating
//! the fractional position between one iteration and the next. The
//! library computes it on the fixed-point grid: a base-2 logarithm with
//! eight fractional bits, extracted digit by digit by repeated
//! squaring of the normalized mantissa. With the widened smooth escape
//! radius (256.0), the fraction spans the whole byte range across one
//! iteration's annulus: it is 0 when `r2` is exactly the escape
//! threshold and saturates at 255 near the threshold's square.

use vstd::prelude::*;
use vstd::arithmetic::power2::pow2;
use vstd::arithmetic::power2::lemma2_to64;
use vstd::arithmetic::power2::lemma_pow2_adds;
use vstd::arithmetic::power2::lemma_pow2_pos;
use vstd::arithmetic::div_mod::lemma_div_is_ordered;
use vstd::arithmetic::div_mod::lemma_div_decreases;
use vstd::arithmetic::div_mod::lemma_div_pos_is_pos;
use vstd::arithmetic::div_mod::lemma_div_multiples_vanish;
use vstd::arithmetic::div_mod::lemma_div_denominator;
use vstd::arithmetic::div_mod::lemma_fundamental_div_mod;
use crate::fixed::SCALE;

verus! {

/// Integer part of the base-2 logarithm of a positive value (zero for
/// zero).
pub open spec fn ilog2(v: nat) -> nat
    decreases v,
{
    if v < 2 {
        0
    } else {
        1 + ilog2((v / 2) as nat)
    }
}

/// The integer base-2 logarithm brackets its argument between two
/// consecutive powers of two.
pub proof fn lemma_ilog2_bounds(v: nat)
    requires
        1 <= v,
    ensures
        pow2(ilog2(v)) <= v < pow2(ilog2(v) + 1),
    decreases v,
{
    lemma2_to64();
    if v < 2 {
    } else {
        lemma_div_decreases(v as int, 2);
        lemma_div_pos_is_pos(v as int, 2);
        assert(v / 2 >= 1) by {
            lemma_div_is_ordered(2, v as int, 2);
            lemma_div_multiples_vanish(1, 2);
        }
        lemma_ilog2_bounds((v / 2) as nat);
        let e = ilog2((v / 2) as nat);
        lemma_fundamental_div_mod(v as int, 2);
        lemma_pow2_adds(e, 1);
        lemma_pow2_adds(e + 1, 1);
    }
}

/// The normalized 32-bit mantissa of a positive value: the value
/// scaled by a power of two into `[2^31, 2^32)`.
pub open spec fn mant31(v: nat) -> nat {
    (v * pow2(31)) / pow2(ilog2(v))
}

/// Fractional base-2 logarithm digits of a normalized mantissa `m`
/// (representing `m / 2^31` in `[1, 2)`): `n` binary digits extracted
/// by repeated squaring.
pub open spec fn frac_bits(m: nat, n: nat) -> nat
    decreases n,
{
    if n == 0 {
        0
    } else {
        let m2 = m * m;
        if m2 >= pow2(63) {
            pow2((n - 1) as nat) + frac_bits(m2 / pow2(32), (n - 1) as nat)
        } else {
            frac_bits(m2 / pow2(31), (n - 1) as nat)
        }
    }
}

/// The base-2 logarithm with eight fractional bits: `256 * log2(v)`,
/// rounded down digit by digit.
pub open spec fn log2_fix8(v: nat) -> int {
    (ilog2(v) * 256 + frac_bits(mant31(v), 8)) as int
}

/// Computes the integer part of the base-2 logarithm.
fn ilog2_exec(v: u64) -> (e: u32)
    requires
        1 <= v,
    ensures
        e as nat == ilog2(v as nat),
        e <= 63,
{
    let mut m: u64 = v;
    let mut e: u32 = 0;
    proof {
        lemma2_to64();
        assert(pow2(0) * (v as nat) == v as nat) by (nonlinear_arith)
            requires
                pow2(0) == 1,
        ;
    }
    while m >= 2
        invariant
            1 <= m,
            e <= 63,
            ilog2(v as nat) == e + ilog2(m as nat),
            pow2(e as nat) * (m as nat) <= v as nat,
            v <= 0xFFFF_FFFF_FFFF_FFFF,
        decreases m,
    {
        proof {
            lemma2_to64();
            lemma_div_decreases(m as int, 2);
            lemma_div_pos_is_pos(m as int, 2);
            assert(m as int / 2 >= 1) by {
                lemma_div_is_ordered(2, m as int, 2);
                lemma_div_multiples_vanish(1, 2);
            }
            lemma_fundamental_div_mod(m as int, 2);
            lemma_pow2_adds(e as nat, 1);
            let mq = (m as nat) / 2;
            assert(pow2((e + 1) as nat) * mq <= pow2(e as nat) * (m as nat)) by (nonlinear_arith)
                requires
                    pow2((e + 1) as nat) == pow2(e as nat) * pow2(1),
                    pow2(1) == 2,
                    2 * mq <= m as nat,
                    0 <= pow2(e as nat),
            ;
            assert(pow2((e + 1) as nat) <= pow2((e + 1) as nat) * mq) by (nonlinear_arith)
                requires
                    1 <= mq,
                    0 <= pow2((e + 1) as nat),
            ;
            if e + 1 > 63 {
                if e + 1 > 64 {
                    vstd::arithmetic::power2::lemma_pow2_strictly_increases(64, (e + 1) as nat);
                }
                vstd::arithmetic::power2::lemma2_to64_rest();
                assert(false);
            }
        }
        m = m / 2;
        e = e + 1;
    }
    e
}

/// Normalizes a positive value to its 32-bit mantissa.
fn mant31_exec(v: u64, e: u32) -> (r: u64)
    requires
        1 <= v,
        e as nat == ilog2(v as nat),
        e <= 63,
    ensures
        r as nat == mant31(v as nat),
        0x8000_0000 <= r < 0x1_0000_0000,
{
    proof {
        lemma2_to64();
        lemma_ilog2_bounds(v as nat);
    }
    let mut m: u64 = v;
    if e >= 31 {
        proof {
            lemma_div_multiples_vanish(v as int, 1);
        }
        let mut c: u32 = e - 31;
        while c > 0
            invariant
                e as nat == ilog2(v as nat),
                31 <= e <= 63,
                c <= e - 31,
                m as nat == (v as nat) / pow2((e - 31 - c) as nat),
                1 <= v <= 0xFFFF_FFFF_FFFF_FFFF,
            decreases c,
        {
            proof {
                let j = (e - 31 - c) as nat;
                lemma_pow2_pos(j);
                lemma_div_denominator(v as int, pow2(j) as int, 2);
                lemma_pow2_adds(j, 1);
                lemma2_to64();
            }
            m = m / 2;
            c = c - 1;
        }
        proof {
            let j = (e - 31) as nat;
            lemma_pow2_pos(j);
            lemma_pow2_adds(31, j);
            lemma_div_denominator((v as nat * pow2(31)) as int, pow2(31) as int, pow2(j) as int);
            lemma_div_multiples_vanish(v as int, pow2(31) as int);
            assert(v as nat * pow2(31) == pow2(31) * v as nat) by (nonlinear_arith);
            lemma_mant31_range(v as nat);
        }
        m
    } else {
        proof {
            assert((v as nat) * pow2(0) == v as nat) by (nonlinear_arith)
                requires
                    pow2(0) == 1,
            ;
        }
        let mut c: u32 = 31 - e;
        while c > 0
            invariant
                e as nat == ilog2(v as nat),
                e < 31,
                c <= 31 - e,
                m as nat == (v as nat) * pow2((31 - e - c) as nat),
                m < pow2((32 - c) as nat),
                1 <= v <= 0xFFFF_FFFF_FFFF_FFFF,
            decreases c,
        {
            proof {
                let j = (31 - e - c) as nat;
                lemma_pow2_adds(j, 1);
                lemma2_to64();
                vstd::arithmetic::power2::lemma_pow2_strictly_increases(
                    (32 - c) as nat,
                    (33 - c) as nat,
                );
                assert((m as nat) * 2 == (v as nat) * pow2((j + 1) as nat)) by (nonlinear_arith)
                    requires
                        m as nat == (v as nat) * pow2(j),
                        pow2((j + 1) as nat) == pow2(j) * 2,
                ;
                assert((m as nat) * 2 < pow2((33 - c) as nat)) by (nonlinear_arith)
                    requires
                        m < pow2((32 - c) as nat),
                        pow2((33 - c) as nat) == pow2((32 - c) as nat) * 2,
                ;
                lemma_pow2_adds((32 - c) as nat, 1);
            }
            m = m * 2;
            c = c - 1;
        }
        proof {
            let j = (31 - e) as nat;
            lemma_pow2_adds(e as nat, j);
            assert((v as nat) * pow2(31) == ((v as nat) * pow2(j)) * pow2(e as nat)) by (
            nonlinear_arith)
                requires
                    pow2(31) == pow2(j) * pow2(e as nat),
            ;
            lemma_pow2_pos(e as nat);
            lemma_div_multiples_vanish(((v as nat) * pow2(j)) as int, pow2(e as nat) as int);
            assert(((v as nat) * pow2(j)) * pow2(e as nat) == pow2(e as nat) * ((v as nat) * pow2(
                j,
            ))) by (nonlinear_arith);
            lemma_mant31_range(v as nat);
        }
        m
    }
}

/// The mantissa lies in `[2^31, 2^32)`.
proof fn lemma_mant31_range(v: nat)
    requires
        1 <= v,
    ensures
        pow2(31) <= mant31(v) < pow2(32),
{
    let e = ilog2(v);
    lemma_ilog2_bounds(v);
    lemma_pow2_pos(e);
    lemma_pow2_pos(31);
    lemma_pow2_pos(32);
    assert(pow2(e) * pow2(31) <= v * pow2(31)) by (nonlinear_arith)
        requires
            pow2(e) <= v,
            0 <= pow2(31),
    ;
    lemma_div_is_ordered((pow2(e) * pow2(31)) as int, (v * pow2(31)) as int, pow2(e) as int);
    lemma_div_multiples_vanish(pow2(31) as int, pow2(e) as int);
    assert(pow2(e + 1) * pow2(31) == pow2(e) * pow2(32)) by {
        lemma_pow2_adds(e + 1, 31);
        lemma_pow2_adds(e, 32);
        assert(e + 1 + 31 == e + 32);
    }
    assert(v * pow2(31) < pow2(e) * pow2(32)) by (nonlinear_arith)
        requires
            v < pow2(e + 1),
            pow2(e + 1) * pow2(31) == pow2(e) * pow2(32),
            0 < pow2(31),
    ;
    lemma_div_small_quotient((v * pow2(31)) as int, pow2(e) as int, pow2(32) as int);
}

/// A dividend below `d * b` has a floor quotient below `b`.
proof fn lemma_div_small_quotient(x: int, d: int, b: int)
    requires
        0 < d,
        0 < b,
        0 <= x,
        x < d * b,
    ensures
        x / d < b,
{
    lemma_fundamental_div_mod(x, d);
    assert(x / d < b) by (nonlinear_arith)
        requires
            x == d * (x / d) + x % d,
            0 <= x % d,
            x < d * b,
            0 < d,
    ;
}

/// Extracts eight fractional base-2 digits from a normalized mantissa.
fn frac_bits_exec(m0: u64) -> (r: u32)
    requires
        0x8000_0000 <= m0 < 0x1_0000_0000,
    ensures
        r as nat == frac_bits(m0 as nat, 8),
        r < 256,
{
    let mut m: u64 = m0;
    let mut acc: u32 = 0;
    let mut j: u32 = 0;
    proof {
        lemma2_to64();
        vstd::arithmetic::power2::lemma2_to64_rest();
    }
    while j < 8
        invariant
            0x8000_0000 <= m < 0x1_0000_0000,
            j <= 8,
            acc < pow2(j as nat),
            acc * pow2((8 - j) as nat) + frac_bits(m as nat, (8 - j) as nat) == frac_bits(
                m0 as nat,
                8,
            ),
        decreases 8 - j,
    {
        proof {
            lemma2_to64();
            vstd::arithmetic::power2::lemma2_to64_rest();
            assert((m as nat) * (m as nat) < 0x1_0000_0000_0000_0000) by (nonlinear_arith)
                requires
                    m < 0x1_0000_0000,
            ;
            assert(0x4000_0000_0000_0000 <= (m as nat) * (m as nat)) by (nonlinear_arith)
                requires
                    0x8000_0000 <= m as nat,
            ;
        }
        let m2: u64 = m * m;
        let ghost n = (8 - j) as nat;
        proof {
            let m2n = (m as nat) * (m as nat);
            lemma_div_pos_is_pos(m2n as int, pow2(32) as int);
            lemma_div_pos_is_pos(m2n as int, pow2(31) as int);
            if m2n >= pow2(63) {
                lemma_div_is_ordered(pow2(63) as int, m2n as int, pow2(32) as int);
                lemma_pow2_adds(31, 32);
                lemma_div_multiples_vanish(pow2(31) as int, pow2(32) as int);
                lemma_div_small_quotient(m2n as int, pow2(32) as int, pow2(32) as int);
                lemma_pow2_adds(32, 32);
            } else {
                lemma_div_is_ordered(pow2(62) as int, m2n as int, pow2(31) as int);
                lemma_pow2_adds(31, 31);
                lemma_div_multiples_vanish(pow2(31) as int, pow2(31) as int);
                lemma_div_small_quotient(m2n as int, pow2(31) as int, pow2(32) as int);
                lemma_pow2_adds(31, 32);
            }
            lemma_pow2_adds((7 - j) as nat, 1);
            assert((2 * acc + 1) * pow2((7 - j) as nat) == acc * pow2(n) + pow2((7 - j) as nat))
                by (nonlinear_arith)
                requires
                    pow2(n) == pow2((7 - j) as nat) * 2,
            ;
            assert((2 * acc) * pow2((7 - j) as nat) == acc * pow2(n)) by (nonlinear_arith)
                requires
                    pow2(n) == pow2((7 - j) as nat) * 2,
            ;
        }
        if m2 >= 0x8000_0000_0000_0000 {
            acc = acc * 2 + 1;
            m = m2 / 0x1_0000_0000;
        } else {
            acc = acc * 2;
            m = m2 / 0x8000_0000;
        }
        j = j + 1;
    }
    proof {
        lemma2_to64();
        assert(acc * pow2(0) == acc) by (nonlinear_arith)
            requires
                pow2(0) == 1,
        ;
        assert(frac_bits(m as nat, 0) == 0);
    }
    acc
}

/// Computes the base-2 logarithm with eight fractional bits.
fn log2_fix8_exec(v: u64) -> (r: u64)
    requires
        1 <= v,
    ensures
        r as int == log2_fix8(v as nat),
        r <= 0x4000,
{
    let e = ilog2_exec(v);
    let m = mant31_exec(v, e);
    proof {
        lemma2_to64();
    }
    let f = frac_bits_exec(m);
    (e as u64) * 256 + (f as u64)
}

/// The smooth fraction of the squared magnitude `r2` at escape, as a
/// byte: `256 * (log2(log2(r2) / 2) - 2)`, clamped to the byte range.
/// Zero for any `r2` below one unit.
pub open spec fn smooth_fraction_spec(r2: int) -> int {
    if r2 < SCALE {
        0
    } else {
        let l = log2_fix8(r2 as nat) - 6144;
        let hf = l / 2;
        if hf < 1 {
            0
        } else {
            let t = log2_fix8(hf as nat) - 2560;
            if t < 0 {
                0
            } else if t > 255 {
                255
            } else {
                t
            }
        }
    }
}

/// Computes the smooth fraction byte of an escape magnitude.
pub fn smooth_fraction(r2: i64) -> (b: u8)
    ensures
        b as int == smooth_fraction_spec(r2 as int),
{
    if r2 < SCALE {
        return 0;
    }
    proof {
        lemma2_to64();
        lemma_ilog2_bounds(r2 as nat);
        if ilog2(r2 as nat) < 24 {
            if ilog2(r2 as nat) + 1 < 24 {
                vstd::arithmetic::power2::lemma_pow2_strictly_increases(
                    ilog2(r2 as nat) + 1,
                    24,
                );
            }
            assert(false);
        }
    }
    let l_raw = log2_fix8_exec(r2 as u64);
    let l: u64 = l_raw - 6144;
    let hf: u64 = l / 2;
    if hf < 1 {
        return 0;
    }
    let t_raw = log2_fix8_exec(hf);
    if t_raw < 2560 {
        return 0;
    }
    let t: u64 = t_raw - 2560;
    if t > 255 {
        255
    } else {
        t as u8
    }
}

/// At the widened escape threshold itself the smooth fraction is zero:
/// the smoothed color is exactly the iteration's own color, with no
/// jump at the iteration boundary.
pub proof fn lemma_smooth_zero_at_threshold()
    ensures
        smooth_fraction_spec(crate::evaluate::SMOOTH_ESCAPE_SQ as int) == 0,
{
    lemma2_to64();
    lemma_ilog2_pow2(32);
    lemma_log2_fix8_pow2(32);
    lemma_log2_fix8_pow2(10);
}

/// Near the square of the widened escape threshold the smooth fraction
/// saturates: the byte scale spans exactly one iteration's annulus.
pub proof fn lemma_smooth_full_at_annulus_end()
    ensures
        smooth_fraction_spec(0x100_0000_0000) == 255,
{
    lemma2_to64();
    vstd::arithmetic::power2::lemma2_to64_rest();
    lemma_ilog2_pow2(40);
    lemma_log2_fix8_pow2(40);
    lemma_log2_fix8_pow2(11);
}

/// The fixed-point logarithm is exact on powers of two.
pub proof fn lemma_log2_fix8_pow2(n: nat)
    ensures
        log2_fix8(pow2(n)) == n * 256,
{
    lemma_ilog2_pow2(n);
    lemma_pow2_pos(n);
    lemma_pow2_adds(n, 31);
    lemma_div_multiples_vanish(pow2(31) as int, pow2(n) as int);
    assert(pow2(n) * pow2(31) == pow2(n + 31)) by {
        lemma_pow2_adds(n, 31);
    }
    assert(mant31(pow2(n)) == pow2(31));
    lemma_frac_bits_exact(8);
    lemma2_to64();
}

/// The integer base-2 logarithm of a power of two is its exponent.
pub proof fn lemma_ilog2_pow2(n: nat)
    ensures
        ilog2(pow2(n)) == n,
    decreases n,
{
    lemma2_to64();
    lemma_pow2_pos(n);
    if n == 0 {
    } else {
        lemma_ilog2_pow2((n - 1) as nat);
        lemma_pow2_adds((n - 1) as nat, 1);
        vstd::arithmetic::power2::lemma_pow2_strictly_increases(0, n);
        lemma_div_multiples_vanish(pow2((n - 1) as nat) as int, 2);
        assert(pow2(n) == 2 * pow2((n - 1) as nat)) by (nonlinear_arith)
            requires
                pow2(n) == pow2((n - 1) as nat) * 2,
        ;
    }
}

/// Fractional digits stay below their positional weight.
proof fn lemma_frac_bits_lt(m: nat, n: nat)
    ensures
        frac_bits(m, n) < pow2(n),
    decreases n,
{
    lemma2_to64();
    if n == 0 {
        lemma_pow2_pos(0);
    } else {
        let m2 = m * m;
        lemma_pow2_adds((n - 1) as nat, 1);
        if m2 >= pow2(63) {
            lemma_frac_bits_lt(m2 / pow2(32), (n - 1) as nat);
        } else {
            lemma_frac_bits_lt(m2 / pow2(31), (n - 1) as nat);
        }
    }
}

/// Digit extraction is monotone on normalized mantissas.
proof fn lemma_frac_bits_monotone(m1: nat, m2: nat, n: nat)
    requires
        pow2(31) <= m1 <= m2,
        m2 < pow2(32),
    ensures
        frac_bits(m1, n) <= frac_bits(m2, n),
    decreases n,
{
    lemma2_to64();
    vstd::arithmetic::power2::lemma2_to64_rest();
    if n > 0 {
        let s1 = m1 * m1;
        let s2 = m2 * m2;
        assert(pow2(62) == pow2(31) * pow2(31)) by {
            lemma_pow2_adds(31, 31);
        }
        assert(pow2(64) == pow2(32) * pow2(32)) by {
            lemma_pow2_adds(32, 32);
        }
        assert(s1 <= s2) by (nonlinear_arith)
            requires
                0 <= m1 <= m2,
                s1 == m1 * m1,
                s2 == m2 * m2,
        ;
        assert(pow2(62) <= s1) by (nonlinear_arith)
            requires
                pow2(31) <= m1,
                pow2(62) == pow2(31) * pow2(31),
                s1 == m1 * m1,
        ;
        assert(s2 < pow2(64)) by (nonlinear_arith)
            requires
                m2 < pow2(32),
                pow2(64) == pow2(32) * pow2(32),
                0 <= m2,
                s2 == m2 * m2,
        ;
        lemma_pow2_pos(31);
        lemma_pow2_pos(32);
        if s1 >= pow2(63) && s2 >= pow2(63) {
            lemma_next_mant_range(s1, 32);
            lemma_next_mant_range(s2, 32);
            lemma_div_is_ordered(s1 as int, s2 as int, pow2(32) as int);
            lemma_frac_bits_monotone(s1 / pow2(32), s2 / pow2(32), (n - 1) as nat);
        } else if s1 < pow2(63) && s2 < pow2(63) {
            lemma_next_mant_range(s1, 31);
            lemma_next_mant_range(s2, 31);
            lemma_div_is_ordered(s1 as int, s2 as int, pow2(31) as int);
            lemma_frac_bits_monotone(s1 / pow2(31), s2 / pow2(31), (n - 1) as nat);
        } else {
            lemma_frac_bits_lt(s1 / pow2(31), (n - 1) as nat);
        }
    }
}

/// The requantized square of a normalized mantissa is normalized
/// again: dividing a square from `[2^(31+sh), 2^(32+sh))` by `2^sh`
/// lands in `[2^31, 2^32)`.
proof fn lemma_next_mant_range(s: nat, sh: nat)
    requires
        pow2(31 + sh) <= s,
        s < pow2(32 + sh),
    ensures
        pow2(31) <= s / pow2(sh) < pow2(32),
{
    lemma_pow2_pos(sh);
    lemma_pow2_pos(31);
    lemma_pow2_pos(32);
    lemma_pow2_adds(sh, 31);
    lemma_pow2_adds(sh, 32);
    lemma_div_is_ordered((pow2(sh) * pow2(31)) as int, s as int, pow2(sh) as int);
    lemma_div_multiples_vanish(pow2(31) as int, pow2(sh) as int);
    lemma_div_small_quotient(s as int, pow2(sh) as int, pow2(32) as int);
}

/// The integer base-2 logarithm is monotone.
proof fn lemma_ilog2_monotone(a: nat, b: nat)
    requires
        a <= b,
    ensures
        ilog2(a) <= ilog2(b),
    decreases b,
{
    if a >= 2 {
        lemma_div_is_ordered(a as int, b as int, 2);
        lemma_div_decreases(b as int, 2);
        lemma_ilog2_monotone((a / 2) as nat, (b / 2) as nat);
    }
}

/// The fixed-point base-2 logarithm is monotone.
pub proof fn lemma_log2_fix8_monotone(v1: nat, v2: nat)
    requires
        1 <= v1 <= v2,
    ensures
        log2_fix8(v1) <= log2_fix8(v2),
{
    lemma2_to64();
    let e1 = ilog2(v1);
    let e2 = ilog2(v2);
    lemma_ilog2_monotone(v1, v2);
    lemma_mant31_range(v1);
    lemma_mant31_range(v2);
    if e1 == e2 {
        lemma_pow2_pos(e1);
        assert(v1 * pow2(31) <= v2 * pow2(31)) by (nonlinear_arith)
            requires
                v1 <= v2,
                0 <= pow2(31),
        ;
        lemma_div_is_ordered((v1 * pow2(31)) as int, (v2 * pow2(31)) as int, pow2(e1) as int);
        lemma_frac_bits_monotone(mant31(v1), mant31(v2), 8);
    } else {
        lemma_frac_bits_lt(mant31(v1), 8);
        assert(e1 * 256 + frac_bits(mant31(v1), 8) < (e1 + 1) * 256) by (nonlinear_arith)
            requires
                frac_bits(mant31(v1), 8) < 256,
        ;
        assert((e1 + 1) * 256 <= e2 * 256) by (nonlinear_arith)
            requires
                e1 + 1 <= e2,
        ;
    }
}

/// The smooth fraction never decreases as the stopping magnitude
/// grows: within an iteration's annulus the smoothed color moves one
/// way, so iteration boundaries join without a jump.
pub proof fn lemma_smooth_fraction_monotone(r2a: int, r2b: int)
    requires
        r2a <= r2b,
    ensures
        smooth_fraction_spec(r2a) <= smooth_fraction_spec(r2b),
{
    lemma2_to64();
    if SCALE <= r2a {
        let la = log2_fix8(r2a as nat) - 6144;
        let lb = log2_fix8(r2b as nat) - 6144;
        lemma_log2_fix8_monotone(r2a as nat, r2b as nat);
        lemma_div_is_ordered(la, lb, 2);
        let ha = la / 2;
        let hb = lb / 2;
        if 1 <= ha {
            lemma_log2_fix8_monotone(ha as nat, hb as nat);
        }
    }
}

/// An exact mantissa (a power of two) has no fractional digits.
proof fn lemma_frac_bits_exact(n: nat)
    ensures
        frac_bits(pow2(31), n) == 0,
    decreases n,
{
    lemma2_to64();
    vstd::arithmetic::power2::lemma2_to64_rest();
    if n > 0 {
        assert(pow2(31) * pow2(31) == pow2(62)) by {
            lemma_pow2_adds(31, 31);
        }
        vstd::arithmetic::power2::lemma_pow2_strictly_increases(62, 63);
        lemma_div_multiples_vanish(pow2(31) as int, pow2(31) as int);
        lemma_frac_bits_exact((n - 1) as nat);
    }
}

} // verus!
