//! Fixed-point arithmetic shared by the whole crate.
//!
//! A level of 1.0 (full scale) is represented by the integer [`SCALE`]; every
//! signal level, ratio, time and gain in the crate is an `i64` in these units.
//! Products of two fixed-point values are divided by [`SCALE`] again, rounding
//! toward zero, which keeps the arithmetic sign-symmetric the way the mirrored
//! positive/negative branches of the compressor expect.

use vstd::prelude::*;

verus! {

use vstd::arithmetic::div_mod::{lemma_div_is_ordered, lemma_div_multiples_vanish, lemma_div_pos_is_pos};
use vstd::math::abs;

/// Fixed-point representation of 1.0: all levels, ratios, times (seconds) and
/// gains are integers in units of `1 / SCALE`.
pub const SCALE: i64 = 1_000_000;

/// Division rounding toward zero, the rounding used by every fixed-point
/// operation of the engine.  (`/` on `int` rounds toward negative infinity,
/// which would break the sign symmetry of the compressor's two branches.)
pub open spec fn tdiv(a: int, b: int) -> int
    recommends
        b > 0,
{
    if a >= 0 {
        a / b
    } else {
        -((-a) / b)
    }
}

/// Truncating division undoes an exact multiple: `tdiv(a * b, b) == a`.
pub proof fn lemma_tdiv_exact(a: int, b: int)
    requires
        b > 0,
    ensures
        tdiv(a * b, b) == a,
{
    assert(a * b == b * a) by (nonlinear_arith);
    lemma_div_multiples_vanish(a, b);
    if a * b < 0 {
        assert(-(a * b) == b * (-a)) by (nonlinear_arith);
        lemma_div_multiples_vanish(-a, b);
    }
}

/// The magnitude of a truncating quotient never exceeds the magnitude bound of
/// the dividend divided by the divisor.
pub proof fn lemma_tdiv_bound(a: int, b: int, m: int)
    requires
        b > 0,
        abs(a) <= m * b,
    ensures
        -m <= tdiv(a, b) <= m,
        abs(tdiv(a, b)) <= m,
{
    assert(m >= 0) by (nonlinear_arith)
        requires
            b > 0,
            0 <= m * b,
    ;
    assert(m * b == b * m) by (nonlinear_arith);
    lemma_div_multiples_vanish(m, b);
    if a >= 0 {
        lemma_div_is_ordered(a, m * b, b);
        lemma_div_pos_is_pos(a, b);
    } else {
        lemma_div_is_ordered(-a, m * b, b);
        lemma_div_pos_is_pos(-a, b);
    }
}

/// Scales a wide intermediate sum back down by [`SCALE`], rounding toward
/// zero.
pub fn scale_down(n: i128) -> (r: i64)
    requires
        -(i64::MAX as int) * (SCALE as int) <= n <= (i64::MAX as int) * (SCALE as int),
    ensures
        r == tdiv(n as int, SCALE as int),
{
    proof {
        assert((i64::MAX as int) * (SCALE as int) == (SCALE as int) * (i64::MAX as int))
            by (nonlinear_arith);
        lemma_div_multiples_vanish(i64::MAX as int, SCALE as int);
    }
    if n >= 0 {
        let q: u128 = (n as u128) / (SCALE as u128);
        proof {
            lemma_div_is_ordered(n as int, (i64::MAX as int) * (SCALE as int), SCALE as int);
            lemma_div_pos_is_pos(n as int, SCALE as int);
        }
        q as i64
    } else {
        let m: u128 = (-n) as u128;
        let q: u128 = m / (SCALE as u128);
        proof {
            lemma_div_is_ordered(m as int, (i64::MAX as int) * (SCALE as int), SCALE as int);
            lemma_div_pos_is_pos(m as int, SCALE as int);
        }
        -(q as i64)
    }
}

/// Fixed-point multiplication: `a * b` scaled back down by [`SCALE`],
/// rounding toward zero.
pub fn scale_mul(a: i64, b: i64) -> (r: i64)
    requires
        -(i64::MAX as int) * (SCALE as int) <= a * b <= (i64::MAX as int) * (SCALE as int),
    ensures
        r == tdiv(a * b, SCALE as int),
{
    let negative = (a < 0) != (b < 0);
    let am: u128 = if a >= 0 {
        a as u128
    } else {
        (-(a as i128)) as u128
    };
    let bm: u128 = if b >= 0 {
        b as u128
    } else {
        (-(b as i128)) as u128
    };
    proof {
        assert(am == abs(a as int));
        assert(bm == abs(b as int));
        assert(am * bm == abs(a as int * b as int) && am * bm <= (i64::MAX as int) * (
        SCALE as int)) by (nonlinear_arith)
            requires
                am == abs(a as int),
                bm == abs(b as int),
                -(i64::MAX as int) * (SCALE as int) <= a as int * b as int <= (i64::MAX as int) * (
                SCALE as int),
        ;
    }
    let magnitude: u128 = am * bm;
    let q: u128 = magnitude / (SCALE as u128);
    proof {
        lemma_div_is_ordered(magnitude as int, (i64::MAX as int) * (SCALE as int), SCALE as int);
        assert((i64::MAX as int) * (SCALE as int) == (SCALE as int) * (i64::MAX as int))
            by (nonlinear_arith);
        lemma_div_multiples_vanish(i64::MAX as int, SCALE as int);
        assert(q <= i64::MAX);
        lemma_div_pos_is_pos(magnitude as int, SCALE as int);
        assert(((a < 0) == (b < 0)) ==> a as int * b as int >= 0) by (nonlinear_arith);
        assert(((a < 0) != (b < 0)) ==> a as int * b as int <= 0) by (nonlinear_arith);
        let p = a as int * b as int;
        if p >= 0 {
            assert(magnitude == p);
        } else {
            assert(magnitude == -p);
        }
    }
    if negative {
        proof {
            if a as int * b as int >= 0 {
                assert(a as int * b as int == 0);
                assert(q == 0);
            }
        }
        -(q as i64)
    } else {
        q as i64
    }
}

} // verus!
