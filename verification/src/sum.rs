//! Addition and subtraction of binary64 numbers.

use vstd::prelude::*;
use vstd::arithmetic::power2::*;
use vstd::arithmetic::mul::*;
use crate::binary64::{
    INFINITY, QUIET_NAN, POSITIVE_ZERO, SIGN_BIT, HIDDEN_BIT, quanta, value, magnitude,
    is_negative, is_nan, is_infinite, is_finite, negated, split, join, decode, lemma_quanta_zero,
    lemma_quanta_increasing,
};
use crate::rounding::{
    FINE, in_cell, is_rounded, round_to_nearest, lemma_rounded_unique, lemma_rounding_exact,
};
use crate::wide::{TWO_64, TWO_124, power_of_two, lemma_pow2_wide};

verus! {

/// The pattern `r` is the sum of `a` and `b`.
///
/// A NaN operand, and the sum of two infinities of opposite sign, give the
/// quiet NaN. An infinity plus anything else is that infinity. Otherwise the
/// exact sum is rounded; where it is zero, the result is negative zero if
/// both operands are negative (zeros), positive zero otherwise.
pub open spec fn is_sum(a: u64, b: u64, r: u64) -> bool {
    if is_nan(a) || is_nan(b) {
        r == QUIET_NAN
    } else if is_infinite(a) && is_infinite(b) {
        if is_negative(a) == is_negative(b) {
            r == a
        } else {
            r == QUIET_NAN
        }
    } else if is_infinite(a) {
        r == a
    } else if is_infinite(b) {
        r == b
    } else {
        is_rounded(value(a) + value(b), 1, is_negative(a) && is_negative(b), r)
    }
}

/// The pattern `r` is `a` less `b`: the sum of `a` and the negation of `b`.
pub open spec fn is_difference(a: u64, b: u64, r: u64) -> bool {
    is_sum(a, negated(b), r)
}

/// The sum is determined: no two patterns are both the sum of `a` and `b`.
pub proof fn lemma_sum_unique(a: u64, b: u64, r1: u64, r2: u64)
    requires
        is_sum(a, b, r1),
        is_sum(a, b, r2),
    ensures
        r1 == r2,
{
    if is_finite(a) && is_finite(b) {
        lemma_rounded_unique(value(a) + value(b), 1, is_negative(a) && is_negative(b), r1, r2);
    }
}

/// The difference is determined likewise.
pub proof fn lemma_difference_unique(a: u64, b: u64, r1: u64, r2: u64)
    requires
        is_difference(a, b, r1),
        is_difference(a, b, r2),
    ensures
        r1 == r2,
{
    lemma_sum_unique(a, negated(b), r1, r2);
}

/// Addition commutes.
pub proof fn lemma_sum_commutes(a: u64, b: u64, r: u64)
    ensures
        is_sum(a, b, r) == is_sum(b, a, r),
{
}

/// Adding a zero changes nothing, but that negative zero plus positive zero
/// is positive zero.
pub proof fn lemma_sum_with_zero(a: u64)
    requires
        !is_nan(a),
    ensures
        is_sum(a, SIGN_BIT, a),
        a != SIGN_BIT ==> is_sum(a, POSITIVE_ZERO, a),
{
    if is_finite(a) {
        let m = magnitude(a);
        lemma_quanta_zero(0);
        lemma_quanta_zero(m);
        lemma_rounding_exact(quanta(m), 1, m);
    }
}

/// A finite number less itself is positive zero.
pub proof fn lemma_difference_of_equals(a: u64)
    requires
        is_finite(a),
    ensures
        is_difference(a, a, POSITIVE_ZERO),
{
}

/// The larger operand's exponent exceeds the smaller one's by more than this
/// where the smaller one can only decide the direction of rounding.
pub const NEAR: u32 = 66;

/// The places by which the larger significand is scaled up in that case.
pub const HEADROOM: u32 = 13;

/// The exact sum or difference of two magnitudes whose exponents lie near
/// each other is a grid point.
proof fn lemma_near_cell(sh: u64, xh: u32, sl: u64, xl: u32, adding: bool, big: u128, m: u128)
    requires
        xl <= xh <= 2046,
        big == sh * pow2((xh - xl) as nat),
        adding ==> m == big + sl,
        !adding ==> m == big - sl,
    ensures
        adding ==> in_cell(
            (sh * pow2(xh as nat) + sl * pow2(xl as nat)) as nat,
            1,
            m,
            (xl + FINE) as u32,
            false,
        ),
        !adding ==> in_cell(
            (sh * pow2(xh as nat) - sl * pow2(xl as nat)) as nat,
            1,
            m,
            (xl + FINE) as u32,
            false,
        ),
{
    let pg = pow2((xh - xl) as nat) as int;
    let pl = pow2(xl as nat) as int;
    let ph = pow2(xh as nat) as int;
    let f = pow2(FINE as nat) as int;
    let w = pow2((xl + FINE) as nat) as int;
    lemma_pow2_adds((xh - xl) as nat, xl as nat);
    lemma_pow2_adds(xl as nat, FINE as nat);
    lemma_pow2_pos((xl + FINE) as nat);
    assert(ph == pg * pl);
    assert(w == pl * f);
    assert(big * pl == sh * ph) by (nonlinear_arith)
        requires
            big == sh * pg,
            ph == pg * pl,
    ;
    assert(sl * pl >= 0) by (nonlinear_arith)
        requires
            sl >= 0,
            pl >= 0,
    ;
    assert(w * 1 == w);
    assert((m + 1) * w == m * w + w) by (nonlinear_arith);
    if adding {
        assert(m * w == (sh * ph + sl * pl) * f) by (nonlinear_arith)
            requires
                m == big + sl,
                big * pl == sh * ph,
                w == pl * f,
        ;
    } else {
        assert(m * w == (sh * ph - sl * pl) * f) by (nonlinear_arith)
            requires
                m == big - sl,
                big * pl == sh * ph,
                w == pl * f,
        ;
        assert(sh * ph - sl * pl >= 0) by (nonlinear_arith)
            requires
                big >= sl,
                pl >= 0,
                big * pl == sh * ph,
        ;
    }
}

/// A significand scaled up to the exponent of a smaller-or-equal operand.
proof fn lemma_scaled_up(sh: u64, xh: u32, xl: u32, big: u128)
    requires
        xl <= xh,
        big == sh * pow2((xh - xl) as nat),
    ensures
        big * pow2(xl as nat) == sh * pow2(xh as nat),
{
    lemma_pow2_adds((xh - xl) as nat, xl as nat);
    lemma_mul_is_associative(sh as int, pow2((xh - xl) as nat) as int, pow2(xl as nat) as int);
}

/// Where the exponents lie far apart, the smaller magnitude is less than one
/// step of the grid that the larger one is scaled to.
proof fn lemma_far_cell(sh: u64, xh: u32, sl: u64, xl: u32, adding: bool, m: u128)
    requires
        xl + NEAR < xh <= 2046,
        sl < 2 * HIDDEN_BIT,
        sh >= HIDDEN_BIT,
        adding || sl == 0 ==> m == sh * 8192,
        !adding && sl != 0 ==> m == sh * 8192 - 1,
    ensures
        sh * pow2(xh as nat) >= sl * pow2(xl as nat),
        adding ==> in_cell(
            (sh * pow2(xh as nat) + sl * pow2(xl as nat)) as nat,
            1,
            m,
            (xh - HEADROOM + FINE) as u32,
            sl != 0,
        ),
        !adding ==> in_cell(
            (sh * pow2(xh as nat) - sl * pow2(xl as nat)) as nat,
            1,
            m,
            (xh - HEADROOM + FINE) as u32,
            sl != 0,
        ),
{
    let pl = pow2(xl as nat) as int;
    let ph = pow2(xh as nat) as int;
    let f = pow2(FINE as nat) as int;
    let x = (xh - HEADROOM + FINE) as nat;
    let w = pow2(x) as int;
    let qh = sh * ph;
    let ql = sl * pl;
    lemma2_to64();
    lemma_pow2_wide();
    lemma_pow2_pos(xl as nat);
    lemma_pow2_pos(FINE as nat);
    lemma_pow2_pos(x);
    // One grid step is 2^-13 of the larger operand's unit.
    lemma_pow2_adds(13, x);
    lemma_pow2_adds(xh as nat, FINE as nat);
    assert(8192 * w == ph * f);
    assert((sh * 8192) * w == qh * f) by (nonlinear_arith)
        requires
            8192 * w == ph * f,
            qh == sh * ph,
    ;
    // The smaller operand is below 2^(53 + xl), at most half a grid step.
    lemma_pow2_adds(53, xl as nat);
    lemma_pow2_adds((53 + xl) as nat, FINE as nat);
    lemma_pow2_strictly_increases((53 + xl + FINE) as nat, x);
    assert(ql * f < w) by (nonlinear_arith)
        requires
            ql == sl * pl,
            sl < 2 * HIDDEN_BIT,
            pl > 0,
            f > 0,
            ((2 * HIDDEN_BIT) * pl) * f < w,
    ;
    assert(ql * f >= 0 && (sl != 0 ==> ql * f > 0)) by (nonlinear_arith)
        requires
            ql == sl * pl,
            sl >= 0,
            pl > 0,
            f > 0,
    ;
    assert(sl == 0 ==> ql * f == 0) by (nonlinear_arith)
        requires
            ql == sl * pl,
    ;
    assert(qh * f >= w) by (nonlinear_arith)
        requires
            (sh * 8192) * w == qh * f,
            sh >= 1,
            w > 0,
    ;
    assert(qh >= ql) by (nonlinear_arith)
        requires
            qh * f >= w,
            ql * f < w,
            f > 0,
    ;
    assert(w * 1 == w);
    assert((m + 1) * w == m * w + w) by (nonlinear_arith);
    assert((qh + ql) * f == qh * f + ql * f) by (nonlinear_arith);
    assert((qh - ql) * f == qh * f - ql * f) by (nonlinear_arith);
    if !adding && sl != 0 {
        assert(m * w == (sh * 8192) * w - w) by (nonlinear_arith)
            requires
                m == sh * 8192 - 1,
        ;
    }
}

/// Puts the exact sum (`adding`) or difference of two magnitudes on the fine
/// grid. The first magnitude, `sh * 2^xh`, is the larger one.
fn aligned(sh: u64, xh: u32, sl: u64, xl: u32, adding: bool) -> (cell: (u128, u32, bool))
    requires
        xl <= xh <= 2046,
        0 < sh < 2 * HIDDEN_BIT,
        sl < 2 * HIDDEN_BIT,
        xh > 0 ==> sh >= HIDDEN_BIT,
        !adding ==> sh * pow2(xh as nat) > sl * pow2(xl as nat),
    ensures
        0 < cell.0 < TWO_124,
        cell.2 ==> cell.0 >= TWO_64,
        63 <= cell.1 <= 8000,
        adding ==> in_cell(
            (sh * pow2(xh as nat) + sl * pow2(xl as nat)) as nat,
            1,
            cell.0,
            cell.1,
            cell.2,
        ),
        !adding ==> in_cell(
            (sh * pow2(xh as nat) - sl * pow2(xl as nat)) as nat,
            1,
            cell.0,
            cell.1,
            cell.2,
        ),
{
    let gap: u32 = xh - xl;
    if gap <= NEAR {
        let scale: u128 = power_of_two(gap);
        proof {
            lemma_pow2_wide();
            lemma_pow2_pos(gap as nat);
            if gap < NEAR {
                lemma_pow2_strictly_increases(gap as nat, NEAR as nat);
            }
            assert(0 < sh * scale < TWO_124 - 2 * HIDDEN_BIT) by (nonlinear_arith)
                requires
                    0 < sh < 2 * HIDDEN_BIT,
                    0 < scale <= 0x4_0000_0000_0000_0000,
            ;
        }
        let big: u128 = (sh as u128) * scale;
        proof {
            lemma_scaled_up(sh, xh, xl, big);
            if !adding {
                lemma_pow2_pos(xl as nat);
                lemma_mul_strict_inequality_converse(
                    sl as int,
                    big as int,
                    pow2(xl as nat) as int,
                );
            }
        }
        let m: u128 = if adding {
            big + sl as u128
        } else {
            big - sl as u128
        };
        proof {
            lemma_near_cell(sh, xh, sl, xl, adding, big, m);
        }
        (m, xl + FINE, false)
    } else {
        let big: u128 = (sh as u128) * 8192;
        let inexact: bool = sl != 0;
        let m: u128 = if adding || !inexact {
            big
        } else {
            big - 1
        };
        proof {
            lemma_far_cell(sh, xh, sl, xl, adding, m);
        }
        (m, xh - HEADROOM + FINE, inexact)
    }
}

/// Adds two numbers.
pub fn sum(a: u64, b: u64) -> (r: u64)
    ensures
        is_sum(a, b, r),
{
    let (na, ma) = split(a);
    let (nb, mb) = split(b);
    if ma > INFINITY || mb > INFINITY {
        return QUIET_NAN;
    }
    if ma == INFINITY {
        if mb == INFINITY && na != nb {
            return QUIET_NAN;
        }
        return a;
    }
    if mb == INFINITY {
        return b;
    }
    // Both are finite; take the one of larger magnitude first.
    let (nh, mh, nl, ml) = if ma >= mb {
        (na, ma, nb, mb)
    } else {
        (nb, mb, na, ma)
    };
    let adding: bool = nh == nl;
    proof {
        lemma_quanta_zero(mh);
        lemma_quanta_zero(ml);
        if ml < mh {
            lemma_quanta_increasing(ml, mh);
        }
    }
    if mh == 0 {
        return join(na && nb, 0);
    }
    if !adding && mh == ml {
        return POSITIVE_ZERO;
    }
    let (sh, xh) = decode(mh);
    let (sl, xl) = decode(ml);
    let ghost n: nat = if adding {
        quanta(mh) + quanta(ml)
    } else {
        (quanta(mh) - quanta(ml)) as nat
    };
    let (m, x, inexact) = aligned(sh, xh, sl, xl, adding);
    let rounded: u64 = round_to_nearest(m, x, inexact, Ghost(n), Ghost(1));
    join(nh, rounded)
}

/// The number with the opposite sign.
pub fn negate(a: u64) -> (r: u64)
    ensures
        r == negated(a),
{
    let (negative, m) = split(a);
    join(!negative, m)
}

/// Subtracts `b` from `a`.
pub fn difference(a: u64, b: u64) -> (r: u64)
    ensures
        is_difference(a, b, r),
{
    sum(a, negate(b))
}

} // verus!
