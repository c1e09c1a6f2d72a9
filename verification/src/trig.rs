//! Fixed-point trigonometry.
//!
//! `sin_fp` and `cos_fp` evaluate sine and cosine of an angle given in ticks
//! (radians scaled by `UNIT`), returning the result scaled by `UNIT`.  The
//! angle is reduced to a quadrant and the octant value is computed with a
//! truncated Taylor polynomial in integer arithmetic, so the functions are
//! deterministic: equal inputs give equal outputs on every path, which is
//! what lets independently derived lattice coordinates coincide.

use vstd::prelude::*;

use vstd::arithmetic::div_mod::lemma_div_is_ordered;
use vstd::arithmetic::div_mod::lemma_fundamental_div_mod;
use vstd::arithmetic::div_mod::lemma_fundamental_div_mod_converse;
use vstd::arithmetic::div_mod::lemma_mod_bound;
use vstd::arithmetic::mul::lemma_mul_inequality;

use crate::fixed::fdiv;
use crate::fixed::muli;
use crate::fixed::HALF_PI_FP;
use crate::fixed::QUARTER_PI_FP;
use crate::fixed::TWO_PI_FP;
use crate::fixed::UNIT;

verus! {

/// The squared angle scaled down to ticks: `y^2 / UNIT`.
pub open spec fn poly_t(y: int) -> int {
    (y * y) / (UNIT as int)
}

/// Innermost Horner factor of the sine polynomial.
pub open spec fn sin_g6(y: int) -> int {
    UNIT - poly_t(y) / 156
}

pub open spec fn sin_g5(y: int) -> int {
    UNIT - (poly_t(y) * sin_g6(y)) / (110 * (UNIT as int))
}

pub open spec fn sin_g4(y: int) -> int {
    UNIT - (poly_t(y) * sin_g5(y)) / (72 * (UNIT as int))
}

pub open spec fn sin_g3(y: int) -> int {
    UNIT - (poly_t(y) * sin_g4(y)) / (42 * (UNIT as int))
}

pub open spec fn sin_g2(y: int) -> int {
    UNIT - (poly_t(y) * sin_g3(y)) / (20 * (UNIT as int))
}

pub open spec fn sin_g1(y: int) -> int {
    UNIT - (poly_t(y) * sin_g2(y)) / (6 * (UNIT as int))
}

/// Sine of an angle `y` in `[0, pi/4]` ticks, as a Horner evaluation of the
/// Taylor polynomial through the thirteenth power.
pub open spec fn sin_poly_spec(y: int) -> int {
    (y * sin_g1(y)) / (UNIT as int)
}

/// Innermost Horner factor of the cosine polynomial.
pub open spec fn cos_c6(y: int) -> int {
    UNIT - poly_t(y) / 132
}

pub open spec fn cos_c5(y: int) -> int {
    UNIT - (poly_t(y) * cos_c6(y)) / (90 * (UNIT as int))
}

pub open spec fn cos_c4(y: int) -> int {
    UNIT - (poly_t(y) * cos_c5(y)) / (56 * (UNIT as int))
}

pub open spec fn cos_c3(y: int) -> int {
    UNIT - (poly_t(y) * cos_c4(y)) / (30 * (UNIT as int))
}

pub open spec fn cos_c2(y: int) -> int {
    UNIT - (poly_t(y) * cos_c3(y)) / (12 * (UNIT as int))
}

/// Cosine of an angle `y` in `[0, pi/4]` ticks, as a Horner evaluation of
/// the Taylor polynomial through the twelfth power.
pub open spec fn cos_poly_spec(y: int) -> int {
    UNIT - (poly_t(y) * cos_c2(y)) / (2 * (UNIT as int))
}

/// Sine on `[0, pi/2)` ticks, folding the upper octant onto cosine.
pub open spec fn base_sin_spec(z: int) -> int {
    if z <= QUARTER_PI_FP {
        sin_poly_spec(z)
    } else {
        cos_poly_spec(HALF_PI_FP - z)
    }
}

/// Cosine on `[0, pi/2)` ticks, folding the upper octant onto sine.
pub open spec fn base_cos_spec(z: int) -> int {
    if z <= QUARTER_PI_FP {
        cos_poly_spec(z)
    } else {
        sin_poly_spec(HALF_PI_FP - z)
    }
}

/// Sine of an angle in `[0, 2*pi)` ticks, by quadrant reduction.
pub open spec fn sin_fp_spec(x: int) -> int {
    let q: int = x / (HALF_PI_FP as int);
    let z: int = x % (HALF_PI_FP as int);
    if q == 0 {
        base_sin_spec(z)
    } else if q == 1 {
        base_cos_spec(z)
    } else if q == 2 {
        -base_sin_spec(z)
    } else {
        -base_cos_spec(z)
    }
}

/// Cosine of an angle in `[0, 2*pi)` ticks, by quadrant reduction.
pub open spec fn cos_fp_spec(x: int) -> int {
    let q: int = x / (HALF_PI_FP as int);
    let z: int = x % (HALF_PI_FP as int);
    if q == 0 {
        base_cos_spec(z)
    } else if q == 1 {
        -base_sin_spec(z)
    } else if q == 2 {
        -base_cos_spec(z)
    } else {
        base_sin_spec(z)
    }
}

/// Range facts for every factor of the sine polynomial on `[0, pi/4]`.
pub(crate) proof fn lemma_sin_chain(y: int)
    requires
        0 <= y <= QUARTER_PI_FP as int,
    ensures
        0 <= y * y <= 61_685_027_507_209_309_956,
        0 <= poly_t(y) <= 6_168_502_750,
        9_900_000_000 <= sin_g6(y) <= UNIT,
        9_900_000_000 <= sin_g5(y) <= UNIT,
        9_900_000_000 <= sin_g4(y) <= UNIT,
        9_800_000_000 <= sin_g3(y) <= UNIT,
        9_600_000_000 <= sin_g2(y) <= UNIT,
        8_900_000_000 <= sin_g1(y) <= UNIT,
        0 <= sin_poly_spec(y) <= y,
        10 * sin_poly_spec(y) >= 8 * y - 10,
{
    let s: int = UNIT as int;
    assert(0 <= y * y <= 61_685_027_507_209_309_956) by (nonlinear_arith)
        requires
            0 <= y <= 7_853_981_634,
    ;
    let t: int = poly_t(y);
    lemma_div_is_ordered(0, y * y, s);
    lemma_div_is_ordered(y * y, 61_685_027_507_209_309_956, s);
    assert(0 <= t <= 6_168_502_750);

    lemma_div_is_ordered(0, t, 156);
    lemma_div_is_ordered(t, 6_168_502_750, 156);
    assert(9_900_000_000 <= sin_g6(y) <= s);

    assert(0 <= t * sin_g6(y) <= 61_685_027_500_000_000_000) by (nonlinear_arith)
        requires
            0 <= t <= 6_168_502_750,
            0 <= sin_g6(y) <= 10_000_000_000,
    ;
    lemma_div_is_ordered(0, t * sin_g6(y), 110 * s);
    lemma_div_is_ordered(t * sin_g6(y), 61_685_027_500_000_000_000, 110 * s);
    assert(9_900_000_000 <= sin_g5(y) <= s);

    assert(0 <= t * sin_g5(y) <= 61_685_027_500_000_000_000) by (nonlinear_arith)
        requires
            0 <= t <= 6_168_502_750,
            0 <= sin_g5(y) <= 10_000_000_000,
    ;
    lemma_div_is_ordered(0, t * sin_g5(y), 72 * s);
    lemma_div_is_ordered(t * sin_g5(y), 61_685_027_500_000_000_000, 72 * s);
    assert(9_900_000_000 <= sin_g4(y) <= s);

    assert(0 <= t * sin_g4(y) <= 61_685_027_500_000_000_000) by (nonlinear_arith)
        requires
            0 <= t <= 6_168_502_750,
            0 <= sin_g4(y) <= 10_000_000_000,
    ;
    lemma_div_is_ordered(0, t * sin_g4(y), 42 * s);
    lemma_div_is_ordered(t * sin_g4(y), 61_685_027_500_000_000_000, 42 * s);
    assert(9_800_000_000 <= sin_g3(y) <= s);

    assert(0 <= t * sin_g3(y) <= 61_685_027_500_000_000_000) by (nonlinear_arith)
        requires
            0 <= t <= 6_168_502_750,
            0 <= sin_g3(y) <= 10_000_000_000,
    ;
    lemma_div_is_ordered(0, t * sin_g3(y), 20 * s);
    lemma_div_is_ordered(t * sin_g3(y), 61_685_027_500_000_000_000, 20 * s);
    assert(9_600_000_000 <= sin_g2(y) <= s);

    assert(0 <= t * sin_g2(y) <= 61_685_027_500_000_000_000) by (nonlinear_arith)
        requires
            0 <= t <= 6_168_502_750,
            0 <= sin_g2(y) <= 10_000_000_000,
    ;
    lemma_div_is_ordered(0, t * sin_g2(y), 6 * s);
    lemma_div_is_ordered(t * sin_g2(y), 61_685_027_500_000_000_000, 6 * s);
    assert(8_900_000_000 <= sin_g1(y) <= s);

    let g1: int = sin_g1(y);
    assert(0 <= y * g1) by (nonlinear_arith)
        requires
            0 <= y,
            0 <= g1,
    ;
    lemma_mul_inequality(8_900_000_000, g1, y);
    lemma_mul_inequality(g1, s, y);
    lemma_div_is_ordered(0, y * g1, s);
    lemma_div_is_ordered(y * g1, s * y, s);
    lemma_fundamental_div_mod_converse(s * y, s, y, 0);
    assert(sin_poly_spec(y) <= y);
    lemma_fundamental_div_mod(y * g1, s);
    lemma_mod_bound(y * g1, s);
    assert(s * sin_poly_spec(y) >= 8_900_000_000 * y - s + 1);
    assert(10 * sin_poly_spec(y) >= 8 * y - 10);
}

/// Range facts for every factor of the cosine polynomial on `[0, pi/4]`.
pub(crate) proof fn lemma_cos_chain(y: int)
    requires
        0 <= y <= QUARTER_PI_FP as int,
    ensures
        0 <= y * y <= 61_685_027_507_209_309_956,
        0 <= poly_t(y) <= 6_168_502_750,
        9_900_000_000 <= cos_c6(y) <= UNIT,
        9_900_000_000 <= cos_c5(y) <= UNIT,
        9_800_000_000 <= cos_c4(y) <= UNIT,
        9_700_000_000 <= cos_c3(y) <= UNIT,
        9_400_000_000 <= cos_c2(y) <= UNIT,
        6_900_000_000 <= cos_poly_spec(y) <= UNIT,
{
    let s: int = UNIT as int;
    assert(0 <= y * y <= 61_685_027_507_209_309_956) by (nonlinear_arith)
        requires
            0 <= y <= 7_853_981_634,
    ;
    let t: int = poly_t(y);
    lemma_div_is_ordered(0, y * y, s);
    lemma_div_is_ordered(y * y, 61_685_027_507_209_309_956, s);
    assert(0 <= t <= 6_168_502_750);

    lemma_div_is_ordered(0, t, 132);
    lemma_div_is_ordered(t, 6_168_502_750, 132);
    assert(9_900_000_000 <= cos_c6(y) <= s);

    assert(0 <= t * cos_c6(y) <= 61_685_027_500_000_000_000) by (nonlinear_arith)
        requires
            0 <= t <= 6_168_502_750,
            0 <= cos_c6(y) <= 10_000_000_000,
    ;
    lemma_div_is_ordered(0, t * cos_c6(y), 90 * s);
    lemma_div_is_ordered(t * cos_c6(y), 61_685_027_500_000_000_000, 90 * s);
    assert(9_900_000_000 <= cos_c5(y) <= s);

    assert(0 <= t * cos_c5(y) <= 61_685_027_500_000_000_000) by (nonlinear_arith)
        requires
            0 <= t <= 6_168_502_750,
            0 <= cos_c5(y) <= 10_000_000_000,
    ;
    lemma_div_is_ordered(0, t * cos_c5(y), 56 * s);
    lemma_div_is_ordered(t * cos_c5(y), 61_685_027_500_000_000_000, 56 * s);
    assert(9_800_000_000 <= cos_c4(y) <= s);

    assert(0 <= t * cos_c4(y) <= 61_685_027_500_000_000_000) by (nonlinear_arith)
        requires
            0 <= t <= 6_168_502_750,
            0 <= cos_c4(y) <= 10_000_000_000,
    ;
    lemma_div_is_ordered(0, t * cos_c4(y), 30 * s);
    lemma_div_is_ordered(t * cos_c4(y), 61_685_027_500_000_000_000, 30 * s);
    assert(9_700_000_000 <= cos_c3(y) <= s);

    assert(0 <= t * cos_c3(y) <= 61_685_027_500_000_000_000) by (nonlinear_arith)
        requires
            0 <= t <= 6_168_502_750,
            0 <= cos_c3(y) <= 10_000_000_000,
    ;
    lemma_div_is_ordered(0, t * cos_c3(y), 12 * s);
    lemma_div_is_ordered(t * cos_c3(y), 61_685_027_500_000_000_000, 12 * s);
    assert(9_400_000_000 <= cos_c2(y) <= s);

    assert(0 <= t * cos_c2(y) <= 61_685_027_500_000_000_000) by (nonlinear_arith)
        requires
            0 <= t <= 6_168_502_750,
            0 <= cos_c2(y) <= 10_000_000_000,
    ;
    lemma_div_is_ordered(0, t * cos_c2(y), 2 * s);
    lemma_div_is_ordered(t * cos_c2(y), 61_685_027_500_000_000_000, 2 * s);
    assert(6_900_000_000 <= cos_poly_spec(y) <= s);
}

/// Evaluates the sine polynomial on `[0, pi/4]` ticks.
fn sin_poly(y: i64) -> (r: i64)
    requires
        0 <= y <= QUARTER_PI_FP,
    ensures
        r == sin_poly_spec(y as int),
        0 <= r <= y,
{
    proof {
        lemma_sin_chain(y as int);
    }
    let s: i128 = UNIT as i128;
    let yw: i128 = y as i128;
    let t: i128 = fdiv(muli(yw, yw), s);
    let g6: i128 = s - fdiv(t, 156);
    let g5: i128 = s - fdiv(muli(t, g6), 110 * s);
    let g4: i128 = s - fdiv(muli(t, g5), 72 * s);
    let g3: i128 = s - fdiv(muli(t, g4), 42 * s);
    let g2: i128 = s - fdiv(muli(t, g3), 20 * s);
    let g1: i128 = s - fdiv(muli(t, g2), 6 * s);
    let r: i128 = fdiv(muli(yw, g1), s);
    r as i64
}

/// Evaluates the cosine polynomial on `[0, pi/4]` ticks.
fn cos_poly(y: i64) -> (r: i64)
    requires
        0 <= y <= QUARTER_PI_FP,
    ensures
        r == cos_poly_spec(y as int),
        0 <= r <= UNIT,
{
    proof {
        lemma_cos_chain(y as int);
    }
    let s: i128 = UNIT as i128;
    let yw: i128 = y as i128;
    let t: i128 = fdiv(muli(yw, yw), s);
    let c6: i128 = s - fdiv(t, 132);
    let c5: i128 = s - fdiv(muli(t, c6), 90 * s);
    let c4: i128 = s - fdiv(muli(t, c5), 56 * s);
    let c3: i128 = s - fdiv(muli(t, c4), 30 * s);
    let c2: i128 = s - fdiv(muli(t, c3), 12 * s);
    let r: i128 = s - fdiv(muli(t, c2), 2 * s);
    r as i64
}

/// Sine on `[0, pi/2)` ticks.
fn base_sin(z: i64) -> (r: i64)
    requires
        0 <= z < HALF_PI_FP,
    ensures
        r == base_sin_spec(z as int),
        0 <= r <= UNIT,
{
    if z <= QUARTER_PI_FP {
        sin_poly(z)
    } else {
        proof {
            lemma_cos_chain(HALF_PI_FP - z as int);
        }
        cos_poly(HALF_PI_FP - z)
    }
}

/// Cosine on `[0, pi/2)` ticks.
fn base_cos(z: i64) -> (r: i64)
    requires
        0 <= z < HALF_PI_FP,
    ensures
        r == base_cos_spec(z as int),
        0 <= r <= UNIT,
{
    if z <= QUARTER_PI_FP {
        cos_poly(z)
    } else {
        proof {
            lemma_sin_chain(HALF_PI_FP - z as int);
        }
        sin_poly(HALF_PI_FP - z)
    }
}

/// Sine of an angle in `[0, 2*pi)` ticks, scaled by `UNIT`.
pub(crate) fn sin_fp(x: i64) -> (r: i64)
    requires
        0 <= x < TWO_PI_FP,
    ensures
        r == sin_fp_spec(x as int),
        -UNIT <= r <= UNIT,
{
    let q: i128 = fdiv(x as i128, HALF_PI_FP as i128);
    proof {
        let xi: int = x as int;
        let d: int = HALF_PI_FP as int;
        lemma_fundamental_div_mod(xi, d);
        lemma_mod_bound(xi, d);
        lemma_div_is_ordered(0, xi, d);
        lemma_div_is_ordered(xi, (TWO_PI_FP - 1) as int, d);
        assert((q as int) * d == d * (xi / d));
    }
    let z: i64 = (x as i128 - q * (HALF_PI_FP as i128)) as i64;
    if q == 0 {
        base_sin(z)
    } else if q == 1 {
        base_cos(z)
    } else if q == 2 {
        -base_sin(z)
    } else {
        -base_cos(z)
    }
}

/// Cosine of an angle in `[0, 2*pi)` ticks, scaled by `UNIT`.
pub(crate) fn cos_fp(x: i64) -> (r: i64)
    requires
        0 <= x < TWO_PI_FP,
    ensures
        r == cos_fp_spec(x as int),
        -UNIT <= r <= UNIT,
{
    let q: i128 = fdiv(x as i128, HALF_PI_FP as i128);
    proof {
        let xi: int = x as int;
        let d: int = HALF_PI_FP as int;
        lemma_fundamental_div_mod(xi, d);
        lemma_mod_bound(xi, d);
        lemma_div_is_ordered(0, xi, d);
        lemma_div_is_ordered(xi, (TWO_PI_FP - 1) as int, d);
        assert((q as int) * d == d * (xi / d));
    }
    let z: i64 = (x as i128 - q * (HALF_PI_FP as i128)) as i64;
    if q == 0 {
        base_cos(z)
    } else if q == 1 {
        -base_sin(z)
    } else if q == 2 {
        -base_cos(z)
    } else {
        base_sin(z)
    }
}

/// Lower bound on the sine of `pi/n` ticks for any side count `n` between
/// three and `SIDES_MAX`: the divisor in circumradius and apothem
/// computations is strictly positive.
pub(crate) proof fn lemma_sin_fp_lb(x: int)
    requires
        31_415 <= x <= 10_471_975_512,
    ensures
        25_000 <= sin_fp_spec(x) <= UNIT,
{
    let d: int = HALF_PI_FP as int;
    lemma_fundamental_div_mod_converse(x, d, 0, x);
    if x <= QUARTER_PI_FP {
        lemma_sin_chain(x);
    } else {
        lemma_cos_chain(d - x);
    }
}

/// Lower bound on the cosine of `pi/n` ticks for any side count `n` of at
/// least three.
pub(crate) proof fn lemma_cos_fp_lb(x: int)
    requires
        0 <= x <= 10_471_975_512,
    ensures
        4_000_000_000 <= cos_fp_spec(x) <= UNIT,
{
    let d: int = HALF_PI_FP as int;
    lemma_fundamental_div_mod_converse(x, d, 0, x);
    if x <= QUARTER_PI_FP {
        lemma_cos_chain(x);
    } else {
        lemma_sin_chain(d - x);
    }
}

} // verus!
