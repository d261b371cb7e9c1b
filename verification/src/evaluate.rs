//! The escape-time point evaluator.
//!
//! Given a point `c = x + i y` of the plane, the evaluator iterates
//! `z <- z^2 + c` from `z = 0` until the squared magnitude of `z`
//! reaches the escape threshold, and reports the iteration at which
//! that happened, capped by the iteration budget. Two closed-form
//! interior tests and one coarse exterior test skip the loop:
//!
//! - points with `(x+1)^2 + y^2 < 1/16` (main cardioid test) or with
//!   `x^2 + y^2 < 1/4` and `x > -3/4` (period-2 bulb test) report the
//!   full budget at once;
//! - points whose own squared magnitude already exceeds the threshold
//!   report iteration zero. This tests distance from the origin rather
//!   than the first iterate — a deliberate speed-over-precision
//!   trade-off kept for output parity.

use vstd::prelude::*;
use vstd::arithmetic::div_mod::lemma_fundamental_div_mod;
use vstd::arithmetic::div_mod::lemma_div_pos_is_pos;
use crate::fixed::fmul;
use crate::fixed::lemma_mul_abs_bound;
use crate::fixed::lemma_div_magnitude;
use crate::fixed::fix_mul;
use crate::fixed::SCALE;
use crate::fixed::COORD_BOUND;
use crate::fixed::ESC_BOUND;
use crate::fixed::Z_BOUND;

verus! {

/// Escape radius squared for standard rendering: 4.0 in raw form.
pub const ESCAPE_SQ: i64 = 0x400_0000;

/// Escape radius squared used when smooth coloring is requested: 256.0
/// in raw form, which spreads the last iterate over a wider annulus.
pub const SMOOTH_ESCAPE_SQ: i64 = 0x1_0000_0000;

/// 1/16 in raw form: the main cardioid test radius squared.
pub const CARDIOID_RSQ: i64 = 0x10_0000;

/// 1/4 in raw form: the period-2 bulb test radius squared.
pub const BULB_RSQ: i64 = 0x40_0000;

/// 3/4 in raw form: the bulb test's lower bound on the real part.
pub const THREE_QUARTERS: i64 = 0xC0_0000;

/// Scaled square of a raw value.
pub open spec fn fsq(a: int) -> int {
    fmul(a, a)
}

/// The real part of `z^2 + c` for `z = zr + i zi`, `c = x + i y`.
pub open spec fn step_re(zr: int, zi: int, x: int) -> int {
    fmul(zr, zr) - fmul(zi, zi) + x
}

/// The imaginary part of `z^2 + c` for `z = zr + i zi`, `c = x + i y`.
pub open spec fn step_im(zr: int, zi: int, y: int) -> int {
    2 * fmul(zr, zi) + y
}

/// Whether the iterate `(zr, zi)` has reached the escape threshold.
pub open spec fn escaped(zr: int, zi: int, esc: int) -> bool {
    fsq(zr) + fsq(zi) >= esc
}

/// Number of further iterations of `z <- z^2 + c` (for `c = x + i y`),
/// starting from `(zr, zi)`, before the iterate reaches the escape
/// threshold, capped by `fuel`.
pub open spec fn escape_from(zr: int, zi: int, x: int, y: int, esc: int, fuel: nat) -> nat
    decreases fuel,
{
    if fuel == 0 {
        0
    } else if escaped(zr, zi, esc) {
        0
    } else {
        1 + escape_from(step_re(zr, zi, x), step_im(zr, zi, y), x, y, esc, (fuel - 1) as nat)
    }
}

/// Escape iteration of the point `c = x + i y` from `z = 0`, capped by
/// `max_iterations`. The cap itself signals "did not escape".
pub open spec fn escape_iter(x: int, y: int, esc: int, max_iterations: nat) -> nat {
    escape_from(0, 0, x, y, esc, max_iterations)
}

/// Main cardioid test: `(x+1)^2 + y^2 < 1/16`.
pub open spec fn in_cardioid(x: int, y: int) -> bool {
    fsq(x + SCALE) + fsq(y) < CARDIOID_RSQ
}

/// Period-2 bulb test: `x^2 + y^2 < 1/4` and `x > -3/4`.
pub open spec fn in_bulb(x: int, y: int) -> bool {
    fsq(x) + fsq(y) < BULB_RSQ && x > -THREE_QUARTERS
}

/// Coordinates the evaluator accepts.
pub open spec fn valid_point(x: int, y: int) -> bool {
    -COORD_BOUND <= x <= COORD_BOUND && -COORD_BOUND <= y <= COORD_BOUND
}

/// Escape thresholds the evaluator accepts.
pub open spec fn valid_esc(esc: int) -> bool {
    0 <= esc <= ESC_BOUND
}

/// What the evaluator reports for a point: the full budget inside
/// either closed-form interior region; zero past the origin-distance
/// exterior test; otherwise the capped escape iteration.
pub open spec fn point_iterations(x: int, y: int, esc: int, max_iterations: nat) -> nat {
    if in_cardioid(x, y) || in_bulb(x, y) {
        max_iterations
    } else if fsq(x) + fsq(y) > esc {
        0
    } else {
        escape_iter(x, y, esc, max_iterations)
    }
}

/// A scaled square is nonnegative, and bounded by the scaled square of
/// the operand's bound.
pub proof fn lemma_fsq_bounds(a: int, b: int)
    requires
        -b <= a <= b,
        0 <= b,
    ensures
        0 <= fsq(a) <= (b * b) / (SCALE as int),
{
    assert(0 <= a * a) by (nonlinear_arith);
    lemma_div_pos_is_pos(a * a, SCALE as int);
    lemma_mul_abs_bound(a, a, b, b);
    lemma_div_magnitude(a * a, SCALE as int, b * b);
    assert(0 <= (b * b)) by (nonlinear_arith);
}

/// The literal form of [`lemma_fsq_bounds`]: for a bound `b` whose
/// scaled square is exactly the literal `m`, the scaled square of the
/// operand is at most `m`.
pub proof fn lemma_fsq_literal_bound(a: int, b: int, m: int)
    requires
        -b <= a <= b,
        0 <= b,
        b * b == m * (SCALE as int),
    ensures
        0 <= fsq(a) <= m,
{
    lemma_fsq_bounds(a, b);
    assert((b * b) / (SCALE as int) == m) by {
        vstd::arithmetic::div_mod::lemma_div_multiples_vanish(m, SCALE as int);
        assert(m * (SCALE as int) == (SCALE as int) * m) by (nonlinear_arith);
    }
}

/// When the squares of the iterate still sum below the threshold, the
/// scaled cross product `zr * zi` is bounded by the threshold too.
proof fn lemma_cross_bound(zr: int, zi: int, esc: int)
    requires
        0 <= fmul(zr, zr),
        0 <= fmul(zi, zi),
        fmul(zr, zr) + fmul(zi, zi) < esc,
    ensures
        -esc - 2 <= fmul(zr, zi) <= esc + 1,
{
    let s = SCALE as int;
    let q1 = fmul(zr, zr);
    let q2 = fmul(zi, zi);
    lemma_fundamental_div_mod(zr * zr, s);
    lemma_fundamental_div_mod(zi * zi, s);
    assert(zr * zr == s * q1 + (zr * zr) % s);
    assert(zi * zi == s * q2 + (zi * zi) % s);
    assert(zr * zr + zi * zi < s * (q1 + q2 + 2)) by {
        assert(s * (q1 + q2 + 2) == s * q1 + s * q2 + 2 * s) by (nonlinear_arith);
    }
    assert(s * (q1 + q2 + 2) <= s * (esc + 1)) by (nonlinear_arith)
        requires
            q1 + q2 + 2 <= esc + 1,
            s == SCALE as int,
    ;
    assert(2 * (zr * zi) <= zr * zr + zi * zi) by (nonlinear_arith);
    assert(-2 * (zr * zi) <= zr * zr + zi * zi) by (nonlinear_arith);
    lemma_div_magnitude(zr * zi, s, s * (esc + 1));
    assert((s * (esc + 1)) / s == esc + 1) by {
        vstd::arithmetic::div_mod::lemma_div_multiples_vanish(esc + 1, s);
    }
}

/// The core escape loop, without short-circuits: iterates `z <- z^2 + c`
/// up to the budget and reports the iteration at which the squared
/// magnitude first reached the threshold.
pub fn mandel_point_optimized(x_norm: i64, y_norm: i64, iter_max: u32, escape_squared: i64) -> (r:
    u32)
    requires
        valid_point(x_norm as int, y_norm as int),
        valid_esc(escape_squared as int),
    ensures
        r <= iter_max,
        r as nat == escape_iter(
            x_norm as int,
            y_norm as int,
            escape_squared as int,
            iter_max as nat,
        ),
{
    let mut zr: i64 = 0;
    let mut zi: i64 = 0;
    let mut iteration: u32 = 0;
    while iteration < iter_max
        invariant
            valid_point(x_norm as int, y_norm as int),
            valid_esc(escape_squared as int),
            iteration <= iter_max,
            -Z_BOUND <= zr <= Z_BOUND,
            -Z_BOUND <= zi <= Z_BOUND,
            escape_iter(x_norm as int, y_norm as int, escape_squared as int, iter_max as nat)
                == iteration as nat + escape_from(
                zr as int,
                zi as int,
                x_norm as int,
                y_norm as int,
                escape_squared as int,
                (iter_max - iteration) as nat,
            ),
        decreases iter_max - iteration,
    {
        proof {
            assert(Z_BOUND as int * Z_BOUND as int == 0x1081_0000_0000_0000int * (SCALE as int))
                by (nonlinear_arith);
            lemma_fsq_literal_bound(zr as int, Z_BOUND as int, 0x1081_0000_0000_0000);
            lemma_fsq_literal_bound(zi as int, Z_BOUND as int, 0x1081_0000_0000_0000);
        }
        let zr_sq = fix_mul(zr, zr);
        let zi_sq = fix_mul(zi, zi);
        if zr_sq + zi_sq >= escape_squared {
            return iteration;
        }
        proof {
            lemma_cross_bound(zr as int, zi as int, escape_squared as int);
        }
        let zr_new = zr_sq - zi_sq + x_norm;
        zi = 2 * fix_mul(zr, zi) + y_norm;
        zr = zr_new;
        iteration = iteration + 1;
    }
    iteration
}

/// The point evaluator: interior short-circuits, exterior
/// short-circuit, then the core escape loop.
pub fn evaluate_point(x: i64, y: i64, max_iterations: u32, escape_radius_squared: i64) -> (r: u32)
    requires
        valid_point(x as int, y as int),
        valid_esc(escape_radius_squared as int),
    ensures
        r <= max_iterations,
        r as nat == point_iterations(
            x as int,
            y as int,
            escape_radius_squared as int,
            max_iterations as nat,
        ),
{
    proof {
        assert((COORD_BOUND as int + SCALE as int) * (COORD_BOUND as int + SCALE as int)
            == 0x1000_0800_0100_0000int * (SCALE as int)) by (nonlinear_arith);
        assert(COORD_BOUND as int * COORD_BOUND as int == 0x1000_0000_0000_0000int * (
        SCALE as int)) by (nonlinear_arith);
        lemma_fsq_literal_bound(
            x as int + SCALE as int,
            COORD_BOUND as int + SCALE as int,
            0x1000_0800_0100_0000,
        );
        lemma_fsq_literal_bound(x as int, COORD_BOUND as int, 0x1000_0000_0000_0000);
        lemma_fsq_literal_bound(y as int, COORD_BOUND as int, 0x1000_0000_0000_0000);
    }
    let xp = x + SCALE;
    if fix_mul(xp, xp) + fix_mul(y, y) < CARDIOID_RSQ {
        return max_iterations;
    }
    let mag = fix_mul(x, x) + fix_mul(y, y);
    if mag < BULB_RSQ && x > -THREE_QUARTERS {
        return max_iterations;
    }
    if mag > escape_radius_squared {
        return 0;
    }
    mandel_point_optimized(x, y, max_iterations, escape_radius_squared)
}

/// Squared magnitude of the iterate at which the escape loop stopped:
/// at the first escape, or at fuel exhaustion.
pub open spec fn escape_r2_from(zr: int, zi: int, x: int, y: int, esc: int, fuel: nat) -> int
    decreases fuel,
{
    if fuel == 0 {
        fsq(zr) + fsq(zi)
    } else if escaped(zr, zi, esc) {
        fsq(zr) + fsq(zi)
    } else {
        escape_r2_from(step_re(zr, zi, x), step_im(zr, zi, y), x, y, esc, (fuel - 1) as nat)
    }
}

/// Squared magnitude at which the evaluator stopped for a point: zero
/// for the interior short-circuits, the point's own squared magnitude
/// for the exterior short-circuit, and the loop's stopping magnitude
/// otherwise.
pub open spec fn point_r2(x: int, y: int, esc: int, max_iterations: nat) -> int {
    if in_cardioid(x, y) || in_bulb(x, y) {
        0
    } else if fsq(x) + fsq(y) > esc {
        fsq(x) + fsq(y)
    } else {
        escape_r2_from(0, 0, x, y, esc, max_iterations)
    }
}

/// The core escape loop, also reporting the squared magnitude at which
/// it stopped.
fn escape_state(x_norm: i64, y_norm: i64, iter_max: u32, escape_squared: i64) -> (r: (u32, i64))
    requires
        valid_point(x_norm as int, y_norm as int),
        valid_esc(escape_squared as int),
    ensures
        r.0 <= iter_max,
        r.0 as nat == escape_iter(
            x_norm as int,
            y_norm as int,
            escape_squared as int,
            iter_max as nat,
        ),
        r.1 as int == escape_r2_from(
            0,
            0,
            x_norm as int,
            y_norm as int,
            escape_squared as int,
            iter_max as nat,
        ),
        0 <= r.1,
{
    let mut zr: i64 = 0;
    let mut zi: i64 = 0;
    let mut iteration: u32 = 0;
    while iteration < iter_max
        invariant
            valid_point(x_norm as int, y_norm as int),
            valid_esc(escape_squared as int),
            iteration <= iter_max,
            -Z_BOUND <= zr <= Z_BOUND,
            -Z_BOUND <= zi <= Z_BOUND,
            escape_iter(x_norm as int, y_norm as int, escape_squared as int, iter_max as nat)
                == iteration as nat + escape_from(
                zr as int,
                zi as int,
                x_norm as int,
                y_norm as int,
                escape_squared as int,
                (iter_max - iteration) as nat,
            ),
            escape_r2_from(
                0,
                0,
                x_norm as int,
                y_norm as int,
                escape_squared as int,
                iter_max as nat,
            ) == escape_r2_from(
                zr as int,
                zi as int,
                x_norm as int,
                y_norm as int,
                escape_squared as int,
                (iter_max - iteration) as nat,
            ),
        decreases iter_max - iteration,
    {
        proof {
            assert(Z_BOUND as int * Z_BOUND as int == 0x1081_0000_0000_0000int * (SCALE as int))
                by (nonlinear_arith);
            lemma_fsq_literal_bound(zr as int, Z_BOUND as int, 0x1081_0000_0000_0000);
            lemma_fsq_literal_bound(zi as int, Z_BOUND as int, 0x1081_0000_0000_0000);
        }
        let zr_sq = fix_mul(zr, zr);
        let zi_sq = fix_mul(zi, zi);
        if zr_sq + zi_sq >= escape_squared {
            return (iteration, zr_sq + zi_sq);
        }
        proof {
            lemma_cross_bound(zr as int, zi as int, escape_squared as int);
        }
        let zr_new = zr_sq - zi_sq + x_norm;
        zi = 2 * fix_mul(zr, zi) + y_norm;
        zr = zr_new;
        iteration = iteration + 1;
    }
    proof {
        assert(Z_BOUND as int * Z_BOUND as int == 0x1081_0000_0000_0000int * (SCALE as int)) by (
        nonlinear_arith);
        lemma_fsq_literal_bound(zr as int, Z_BOUND as int, 0x1081_0000_0000_0000);
        lemma_fsq_literal_bound(zi as int, Z_BOUND as int, 0x1081_0000_0000_0000);
    }
    let zr_sq = fix_mul(zr, zr);
    let zi_sq = fix_mul(zi, zi);
    (iteration, zr_sq + zi_sq)
}

/// The point evaluator, also reporting the squared magnitude at which
/// it stopped: zero for the interior short-circuits, the point's own
/// squared magnitude for the exterior one, and the escaping iterate's
/// squared magnitude otherwise.
pub fn evaluate_point_with_radius(
    x: i64,
    y: i64,
    max_iterations: u32,
    escape_radius_squared: i64,
) -> (r: (u32, i64))
    requires
        valid_point(x as int, y as int),
        valid_esc(escape_radius_squared as int),
    ensures
        r.0 <= max_iterations,
        r.0 as nat == point_iterations(
            x as int,
            y as int,
            escape_radius_squared as int,
            max_iterations as nat,
        ),
        r.1 as int == point_r2(
            x as int,
            y as int,
            escape_radius_squared as int,
            max_iterations as nat,
        ),
{
    proof {
        assert((COORD_BOUND as int + SCALE as int) * (COORD_BOUND as int + SCALE as int)
            == 0x1000_0800_0100_0000int * (SCALE as int)) by (nonlinear_arith);
        assert(COORD_BOUND as int * COORD_BOUND as int == 0x1000_0000_0000_0000int * (
        SCALE as int)) by (nonlinear_arith);
        lemma_fsq_literal_bound(
            x as int + SCALE as int,
            COORD_BOUND as int + SCALE as int,
            0x1000_0800_0100_0000,
        );
        lemma_fsq_literal_bound(x as int, COORD_BOUND as int, 0x1000_0000_0000_0000);
        lemma_fsq_literal_bound(y as int, COORD_BOUND as int, 0x1000_0000_0000_0000);
    }
    let xp = x + SCALE;
    if fix_mul(xp, xp) + fix_mul(y, y) < CARDIOID_RSQ {
        return (max_iterations, 0);
    }
    let mag = fix_mul(x, x) + fix_mul(y, y);
    if mag < BULB_RSQ && x > -THREE_QUARTERS {
        return (max_iterations, 0);
    }
    if mag > escape_radius_squared {
        return (0, mag);
    }
    escape_state(x, y, max_iterations, escape_radius_squared)
}

/// What one point evaluation reports: the escape iteration, and — when
/// smoothing was requested and the point escaped within the budget —
/// the smooth fraction byte.
pub struct EscapeResult {
    pub iteration: u32,
    pub smooth_fraction: Option<u8>,
}

/// The smooth fraction byte of a point: the smoothing formula applied
/// to the squared magnitude at which the evaluator stopped.
pub open spec fn smooth_byte(x: int, y: int, esc: int, max_iterations: nat) -> u8 {
    crate::smooth::smooth_fraction_spec(point_r2(x, y, esc, max_iterations)) as u8
}

/// The full point evaluator: the escape iteration of
/// [`evaluate_point`], together with the smooth fraction when it was
/// asked for and the point escaped within the budget.
pub fn evaluate(
    x: i64,
    y: i64,
    max_iterations: u32,
    escape_radius_squared: i64,
    want_smooth: bool,
) -> (r: EscapeResult)
    requires
        valid_point(x as int, y as int),
        valid_esc(escape_radius_squared as int),
    ensures
        r.iteration <= max_iterations,
        r.iteration as nat == point_iterations(
            x as int,
            y as int,
            escape_radius_squared as int,
            max_iterations as nat,
        ),
        r.smooth_fraction == (if want_smooth && r.iteration < max_iterations {
            Some(smooth_byte(x as int, y as int, escape_radius_squared as int, max_iterations as nat))
        } else {
            Option::<u8>::None
        }),
{
    proof {
        assert((COORD_BOUND as int + SCALE as int) * (COORD_BOUND as int + SCALE as int)
            == 0x1000_0800_0100_0000int * (SCALE as int)) by (nonlinear_arith);
        assert(COORD_BOUND as int * COORD_BOUND as int == 0x1000_0000_0000_0000int * (
        SCALE as int)) by (nonlinear_arith);
        lemma_fsq_literal_bound(
            x as int + SCALE as int,
            COORD_BOUND as int + SCALE as int,
            0x1000_0800_0100_0000,
        );
        lemma_fsq_literal_bound(x as int, COORD_BOUND as int, 0x1000_0000_0000_0000);
        lemma_fsq_literal_bound(y as int, COORD_BOUND as int, 0x1000_0000_0000_0000);
    }
    let xp = x + SCALE;
    if fix_mul(xp, xp) + fix_mul(y, y) < CARDIOID_RSQ {
        return EscapeResult { iteration: max_iterations, smooth_fraction: None };
    }
    let mag = fix_mul(x, x) + fix_mul(y, y);
    if mag < BULB_RSQ && x > -THREE_QUARTERS {
        return EscapeResult { iteration: max_iterations, smooth_fraction: None };
    }
    let (iteration, r2) = if mag > escape_radius_squared {
        (0, mag)
    } else {
        escape_state(x, y, max_iterations, escape_radius_squared)
    };
    let smooth_fraction = if want_smooth && iteration < max_iterations {
        Some(crate::smooth::smooth_fraction(r2))
    } else {
        None
    };
    EscapeResult { iteration, smooth_fraction }
}

/// Inside either closed-form interior region the evaluator reports the
/// full iteration budget, whatever the budget and threshold are.
pub proof fn lemma_interior_full_budget(x: int, y: int, esc: int, max_iterations: nat)
    requires
        in_cardioid(x, y) || in_bulb(x, y),
    ensures
        point_iterations(x, y, esc, max_iterations) == max_iterations,
{
}

/// A point whose own squared magnitude exceeds the threshold, and that
/// no interior test claims, is reported escaped at iteration zero.
pub proof fn lemma_exterior_zero(x: int, y: int, esc: int, max_iterations: nat)
    requires
        !in_cardioid(x, y),
        !in_bulb(x, y),
        fsq(x) + fsq(y) > esc,
    ensures
        point_iterations(x, y, esc, max_iterations) == 0,
{
}

} // verus!
