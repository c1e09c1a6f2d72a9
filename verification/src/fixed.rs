//! Fixed-point arithmetic helpers.
//!
//! A real-valued coordinate or angle is represented as an `i64` holding the
//! value scaled by `UNIT` (`10^10`), so one unit of pattern space is
//! `UNIT` ticks.  Comparing points for lattice purposes quantizes
//! coordinates to `10^-6` units, i.e. to multiples of `QUANTUM` ticks.

use vstd::prelude::*;

use vstd::arithmetic::div_mod::lemma_div_is_ordered;
use vstd::arithmetic::div_mod::lemma_fundamental_div_mod;
use vstd::arithmetic::div_mod::lemma_fundamental_div_mod_converse;
use vstd::arithmetic::div_mod::lemma_mod_bound;

verus! {

/// Number of ticks in one unit of pattern space.
pub const UNIT: i64 = 10_000_000_000;

/// Ticks per quantization step: points are compared after rounding to
/// multiples of this (`10^-6` units, matching a six-decimal precision).
pub const QUANTUM: i64 = 10_000;

/// The angle pi in ticks (pi scaled by `UNIT`, rounded to nearest).
pub const PI_FP: i64 = 31_415_926_536;

/// The angle 2*pi in ticks.
pub const TWO_PI_FP: i64 = 62_831_853_072;

/// The angle pi/2 in ticks.
pub const HALF_PI_FP: i64 = 15_707_963_268;

/// The angle pi/4 in ticks.
pub const QUARTER_PI_FP: i64 = 7_853_981_634;

/// Largest side count a shape may have: beyond this the circumradius of a
/// unit-edged polygon can no longer be represented in coordinate ticks.
pub const SIDES_MAX: i32 = 1_000_000;

/// Largest coordinate magnitude (in ticks) a stored shape center may have.
/// This keeps every derived vertex and adjacent center representable.
pub const COORD_MAX: i64 = 4_000_000_000_000_000_000;

/// Largest magnitude (in ticks) accepted for an inset margin.
pub const MARGIN_MAX: i64 = 1_000_000_000_000_000;

/// Largest coordinate magnitude (in ticks) a vertex derived from a stored
/// center can reach.
pub const VERTEX_MAX: i64 = 4_020_000_000_000_000_000;

/// Largest coordinate magnitude (in ticks) accepted for the corners of a
/// dual polygon when computing its inset outline.
pub const DUAL_COORD_MAX: i64 = 1_000_000_000_000_000;

/// Coordinates are divided by this before the line intersection of the
/// inset computation, so that its degree-three products stay representable.
pub const INSET_SCALE: i64 = 1_024;

/// Floor division of `a` by a positive divisor `b`; for a positive divisor
/// this coincides with the Euclidean quotient of specification arithmetic.
pub open spec fn spec_fdiv(a: int, b: int) -> int {
    a / b
}

/// Flooring division on `i128`, agreeing with the Euclidean quotient of
/// specification arithmetic for positive divisors.
pub fn fdiv(a: i128, b: i128) -> (r: i128)
    requires
        b > 0,
        a != i128::MIN,
    ensures
        r == spec_fdiv(a as int, b as int),
{
    if a >= 0 {
        let q: u128 = (a as u128) / (b as u128);
        q as i128
    } else {
        let na: u128 = (-a) as u128;
        let q: u128 = (na + (b as u128) - 1) / (b as u128);
        proof {
            let nai: int = na as int;
            let bi: int = b as int;
            let qi: int = q as int;
            lemma_fundamental_div_mod(nai + bi - 1, bi);
            lemma_mod_bound(nai + bi - 1, bi);
            assert(qi == (nai + bi - 1) / bi);
            assert(bi * qi >= nai && bi * qi <= nai + bi - 1) by {
                assert(nai + bi - 1 == bi * ((nai + bi - 1) / bi) + (nai + bi - 1) % bi);
                assert(0 <= (nai + bi - 1) % bi < bi);
            }
            assert(qi <= nai) by (nonlinear_arith)
                requires
                    bi >= 1,
                    nai >= 0,
                    qi >= 0,
                    bi * qi <= nai + bi - 1,
            ;
            assert(0 <= a + bi * qi < bi);
            assert(a as int == (-qi) * bi + (a + bi * qi)) by (nonlinear_arith);
            lemma_fundamental_div_mod_converse(a as int, bi, -qi, a + bi * qi);
        }
        -(q as i128)
    }
}

/// Bound on the operands of `muli`, chosen so that the product of two
/// operands always fits in an `i128`.
pub const MUL_BOUND: i128 = 4_611_686_018_427_387_904;

/// Multiplication on `i128` for operands of at most 62 bits of magnitude;
/// the product of two such operands cannot overflow.
pub fn muli(a: i128, b: i128) -> (r: i128)
    requires
        -MUL_BOUND <= a <= MUL_BOUND,
        -MUL_BOUND <= b <= MUL_BOUND,
    ensures
        r == (a as int) * (b as int),
{
    proof {
        assert((a as int) * (b as int) <= (MUL_BOUND as int) * (MUL_BOUND as int)
            && (a as int) * (b as int) >= -((MUL_BOUND as int) * (MUL_BOUND as int)))
            by (nonlinear_arith)
            requires
                -MUL_BOUND <= a as int <= MUL_BOUND,
                -MUL_BOUND <= b as int <= MUL_BOUND,
        ;
    }
    a * b
}

/// Remainder of `a` modulo `2*pi` ticks, in `[0, TWO_PI_FP)`.
pub open spec fn spec_norm_angle(a: int) -> int {
    a % (TWO_PI_FP as int)
}

/// Normalizes an angle in ticks into `[0, TWO_PI_FP)`.
pub fn norm_angle(a: i128) -> (r: i64)
    requires
        i128::MIN + (TWO_PI_FP as i128) < a < i128::MAX - (TWO_PI_FP as i128),
    ensures
        r == spec_norm_angle(a as int),
        0 <= r < TWO_PI_FP,
{
    let q: i128 = fdiv(a, TWO_PI_FP as i128);
    proof {
        let ai: int = a as int;
        let d: int = TWO_PI_FP as int;
        lemma_fundamental_div_mod(ai, d);
        lemma_mod_bound(ai, d);
        assert((q as int) * d == d * (ai / d));
        assert(d * (ai / d) == ai - ai % d);
    }
    let r: i128 = a - q * (TWO_PI_FP as i128);
    r as i64
}

/// Floor division for an arbitrary nonzero divisor.
pub open spec fn spec_qdiv(a: int, b: int) -> int {
    if b > 0 {
        a / b
    } else {
        (-a) / (-b)
    }
}

/// Flooring division on `i128` for a nonzero divisor of either sign.
pub fn qdivi(a: i128, b: i128) -> (r: i128)
    requires
        b != 0,
        a != i128::MIN,
        -a != i128::MIN,
        b != i128::MIN,
    ensures
        r == spec_qdiv(a as int, b as int),
{
    if b > 0 {
        fdiv(a, b)
    } else {
        fdiv(-a, -b)
    }
}

/// The nonnegative integer square root: the unique `r >= 0` with
/// `r^2 <= n < (r + 1)^2`.
pub open spec fn spec_isqrt(n: int) -> int {
    choose|r: int| r >= 0 && #[trigger] (r * r) <= n < (r + 1) * (r + 1)
}

/// The integer square root is unique.
pub(crate) proof fn lemma_isqrt_unique(n: int, a: int, b: int)
    requires
        a >= 0,
        b >= 0,
        a * a <= n < (a + 1) * (a + 1),
        b * b <= n < (b + 1) * (b + 1),
    ensures
        a == b,
{
    assert(a == b) by (nonlinear_arith)
        requires
            a >= 0,
            b >= 0,
            a * a <= n < (a + 1) * (a + 1),
            b * b <= n < (b + 1) * (b + 1),
    ;
}

/// Computes the integer square root by binary search.
pub fn isqrt(n: i128) -> (r: i128)
    requires
        0 <= n < 0x4000_0000_0000_0000_0000_0000_0000_0000,
    ensures
        r == spec_isqrt(n as int),
        0 <= r <= 9_223_372_036_854_775_807,
        r * r <= n < (r + 1) * (r + 1),
{
    let mut lo: i128 = 0;
    let mut hi: i128 = 9_223_372_036_854_775_807;
    while lo < hi
        invariant
            0 <= lo <= hi <= 9_223_372_036_854_775_807,
            lo * lo <= n,
            n < (hi + 1) * (hi + 1),
        decreases hi - lo,
    {
        let mid: i128 = lo + fdiv(hi - lo + 1, 2);
        proof {
            lemma_div_is_ordered(2, hi - lo + 1, 2);
            lemma_div_is_ordered(hi - lo + 1, 2 * (hi - lo), 2);
            lemma_fundamental_div_mod_converse(2 * (hi - lo), 2, hi - lo, 0);
            assert(lo < mid <= hi);
            assert(mid * mid < 0x4000_0000_0000_0000_0000_0000_0000_0000) by (nonlinear_arith)
                requires
                    0 <= mid <= 9_223_372_036_854_775_807,
            ;
        }
        let sq: i128 = mid * mid;
        if sq <= n {
            lo = mid;
        } else {
            hi = mid - 1;
        }
    }
    proof {
        let ni: int = n as int;
        let w: int = lo as int;
        assert(ni < (w + 1) * (w + 1));
        assert(exists|r: int| r >= 0 && #[trigger] (r * r) <= ni < (r + 1) * (r + 1)) by {
            assert(w >= 0 && w * w <= ni < (w + 1) * (w + 1));
        }
        lemma_isqrt_unique(ni, w, spec_isqrt(ni));
    }
    lo
}

/// A coordinate rounded to the nearest multiple of `QUANTUM` ticks
/// (half away from zero), expressed in quantization steps.
pub open spec fn spec_quantize(v: int) -> int {
    if v >= 0 {
        (v + 5_000) / (QUANTUM as int)
    } else {
        -((-v + 5_000) / (QUANTUM as int))
    }
}

/// Rounds a coordinate in ticks to its quantization step.
pub fn quantize(v: i64) -> (r: i64)
    ensures
        r == spec_quantize(v as int),
{
    let w: i128 = v as i128;
    let q: i128 = if w >= 0 {
        let d: i128 = fdiv(w + 5_000, QUANTUM as i128);
        proof {
            lemma_div_is_ordered(0, w + 5_000, QUANTUM as int);
            lemma_div_is_ordered(w + 5_000, i64::MAX as int + 5_000, QUANTUM as int);
        }
        d
    } else {
        let d: i128 = fdiv(-w + 5_000, QUANTUM as i128);
        proof {
            lemma_div_is_ordered(0, -w + 5_000, QUANTUM as int);
            lemma_div_is_ordered(-w + 5_000, -(i64::MIN as int) + 5_000, QUANTUM as int);
        }
        -d
    };
    q as i64
}

} // verus!
