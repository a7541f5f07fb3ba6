//! Division of binary64 numbers.

use vstd::prelude::*;
use vstd::arithmetic::power2::*;
use vstd::arithmetic::mul::*;
use vstd::arithmetic::div_mod::*;
use crate::binary64::{
    INFINITY, QUIET_NAN, HIDDEN_BIT, ONE, quanta, value, with_sign, magnitude, is_negative,
    is_nan, is_infinite, is_finite, is_zero, split, join, decode, lemma_quanta_zero,
    lemma_quanta_of_one_and_two,
};
use crate::rounding::{
    FINE, in_cell, is_rounded, round_to_nearest, lemma_rounded_unique, lemma_rounding_exact,
};
use crate::wide::{TWO_64, TWO_124, power_of_two, bit_length, lemma_pow2_wide};

verus! {

/// The pattern `r` is the quotient of `a` by `b`.
///
/// A NaN operand, infinity by infinity and zero by zero give the quiet NaN.
/// An infinity by a finite number, and a nonzero number by zero, give an
/// infinity; a finite number by an infinity gives a zero. Otherwise the exact
/// quotient is rounded. The sign is always the exclusive or of the operands'
/// signs.
pub open spec fn is_quotient(a: u64, b: u64, r: u64) -> bool {
    let negative = is_negative(a) != is_negative(b);
    if is_nan(a) || is_nan(b) {
        r == QUIET_NAN
    } else if is_infinite(a) {
        if is_infinite(b) {
            r == QUIET_NAN
        } else {
            r == with_sign(negative, INFINITY)
        }
    } else if is_infinite(b) {
        r == with_sign(negative, 0)
    } else if is_zero(b) {
        if is_zero(a) {
            r == QUIET_NAN
        } else {
            r == with_sign(negative, INFINITY)
        }
    } else {
        is_rounded(value(a) * pow2(1074), value(b), negative, r)
    }
}

/// The quotient is determined: no two patterns are both the quotient of `a`
/// by `b`.
pub proof fn lemma_quotient_unique(a: u64, b: u64, r1: u64, r2: u64)
    requires
        is_quotient(a, b, r1),
        is_quotient(a, b, r2),
    ensures
        r1 == r2,
{
    if is_finite(a) && is_finite(b) && !is_zero(b) {
        lemma_quanta_zero(magnitude(b));
        lemma_rounded_unique(
            value(a) * pow2(1074),
            value(b),
            is_negative(a) != is_negative(b),
            r1,
            r2,
        );
    }
}

/// Dividing by one changes nothing.
pub proof fn lemma_quotient_by_one(a: u64)
    requires
        !is_nan(a),
    ensures
        is_quotient(a, ONE, a),
{
    if is_finite(a) {
        let m = magnitude(a);
        let unit = pow2(1074);
        lemma_quanta_of_one_and_two();
        lemma_quanta_zero(m);
        lemma_pow2_pos(1074);
        lemma_rounding_exact(quanta(m) * unit, unit, m);
        if m == 0 {
            lemma_mul_basics(unit as int);
        } else {
            lemma_scaled_sign(is_negative(a), quanta(m), unit);
        }
    }
}

/// 2^70: the dividend's significand is scaled up by it, which leaves the
/// whole quotient with seventy bits or one more.
pub const TWO_70: u128 = 0x40_0000_0000_0000_0000;

/// Scales a significand up until its leading bit is bit 52.
fn normalized(s: u64) -> (parts: (u64, u32))
    requires
        0 < s < 2 * HIDDEN_BIT,
    ensures
        parts.1 <= 52,
        parts.0 == s * pow2(parts.1 as nat),
        HIDDEN_BIT <= parts.0 < 2 * HIDDEN_BIT,
{
    let len: u32 = bit_length(s as u128);
    proof {
        lemma_pow2_wide();
        if len >= 54 {
            if len > 54 {
                lemma_pow2_strictly_increases(53, (len - 1) as nat);
            }
            assert(false);
        }
    }
    let lift: u32 = 53 - len;
    let scale: u128 = power_of_two(lift);
    proof {
        lemma_pow2_adds((len - 1) as nat, lift as nat);
        lemma_pow2_adds(len as nat, lift as nat);
        lemma_mul_inequality(pow2((len - 1) as nat) as int, s as int, scale as int);
        lemma_pow2_pos(lift as nat);
        lemma_mul_strict_inequality(s as int, pow2(len as nat) as int, scale as int);
    }
    (((s as u128) * scale) as u64, lift)
}

/// A magnitude scaled by a positive factor keeps its sign.
proof fn lemma_scaled_sign(na: bool, qa: nat, p: nat)
    by (nonlinear_arith)
    requires
        qa > 0,
        p > 0,
    ensures
        ({
            let va = if na { -(qa as int) } else { qa as int };
            &&& va * p != 0
            &&& (va * p < 0) == na
            &&& (if va * p < 0 { -(va * p) } else { va * p }) == qa * p
        }),
{
}

/// The whole quotient of the scaled significands, with the exponents that
/// were set aside, names the cell of the fine grid that the exact quotient
/// lies in.
proof fn lemma_quotient_cell(
    sa: u64,
    xa: u32,
    la: u32,
    ta: u64,
    sb: u64,
    xb: u32,
    lb: u32,
    tb: u64,
    m: u128,
    rem: u128,
    x: u32,
)
    requires
        ta == sa * pow2(la as nat),
        tb == sb * pow2(lb as nat),
        HIDDEN_BIT <= ta < 2 * HIDDEN_BIT,
        HIDDEN_BIT <= tb < 2 * HIDDEN_BIT,
        ta * TWO_70 == m * tb + rem,
        rem < tb,
        la <= 52,
        lb <= 52,
        x + la + xb == xa + lb + 2204,
    ensures
        TWO_64 <= m < TWO_124,
        in_cell(
            (sa * pow2(xa as nat) * pow2(1074)) as nat,
            (sb * pow2(xb as nat)) as nat,
            m,
            x,
            rem != 0,
        ),
{
    let c = (x + xb - lb) as nat;
    let pc = pow2(c) as int;
    let f = pow2(FINE as nat) as int;
    let width = (pow2(x as nat) * (sb * pow2(xb as nat))) as int;
    let scaled = (sa * pow2(xa as nat) * pow2(1074) * f) as int;
    let num = ta * TWO_70;
    lemma_pow2_wide();
    lemma_pow2_pos(c);
    // The divisor, scaled to the grid, is one cell's width.
    assert(tb * pc == width) by {
        lemma_pow2_adds(lb as nat, c);
        lemma_pow2_adds(x as nat, xb as nat);
        let pl = pow2(lb as nat) as int;
        let px = pow2(x as nat) as int;
        let pb = pow2(xb as nat) as int;
        assert((sb * pl) * pc == px * (sb * pb)) by (nonlinear_arith)
            requires
                pl * pc == px * pb,
        ;
    }
    // The dividend, scaled alike, is the exact numerator on the grid.
    assert(num * pc == scaled) by {
        lemma_pow2_adds(64, 6);
        lemma2_to64();
        lemma_pow2_adds(la as nat, 70);
        lemma_pow2_adds((la + 70) as nat, c);
        lemma_pow2_adds(xa as nat, 1074);
        lemma_pow2_adds((xa + 1074) as nat, FINE as nat);
        let pl = pow2(la as nat) as int;
        let pa = pow2(xa as nat) as int;
        let pq = pow2(1074) as int;
        assert(((sa * pl) * TWO_70) * pc == ((sa * pa) * pq) * f) by (nonlinear_arith)
            requires
                (pl * TWO_70) * pc == (pa * pq) * f,
        ;
    }
    assert(num * pc == m * width + rem * pc) by (nonlinear_arith)
        requires
            num == m * tb + rem,
            tb * pc == width,
    ;
    assert(0 <= rem * pc < width && (rem != 0 ==> rem * pc > 0)) by (nonlinear_arith)
        requires
            0 <= rem < tb,
            pc > 0,
            tb * pc == width,
    ;
    assert((m + 1) * width == m * width + width) by (nonlinear_arith);
    assert(TWO_64 <= m < TWO_124) by (nonlinear_arith)
        requires
            ta * TWO_70 == m * tb + rem,
            0 <= rem < tb,
            0x0010_0000_0000_0000 <= ta < 0x0020_0000_0000_0000,
            0x0010_0000_0000_0000 <= tb < 0x0020_0000_0000_0000,
            TWO_70 == 0x40_0000_0000_0000_0000,
            TWO_64 == 0x1_0000_0000_0000_0000,
            TWO_124 == 0x1000_0000_0000_0000_0000_0000_0000_0000,
            m >= 0,
    ;
}

/// Divides `a` by `b`.
pub fn quotient(a: u64, b: u64) -> (r: u64)
    ensures
        is_quotient(a, b, r),
{
    let (na, ma) = split(a);
    let (nb, mb) = split(b);
    let negative: bool = na != nb;
    if ma > INFINITY || mb > INFINITY {
        return QUIET_NAN;
    }
    if ma == INFINITY {
        if mb == INFINITY {
            return QUIET_NAN;
        }
        return join(negative, INFINITY);
    }
    if mb == INFINITY {
        return join(negative, 0);
    }
    if mb == 0 {
        if ma == 0 {
            return QUIET_NAN;
        }
        return join(negative, INFINITY);
    }
    if ma == 0 {
        proof {
            lemma_quanta_zero(ma);
            lemma_mul_basics(pow2(1074) as int);
        }
        return join(negative, 0);
    }
    let (sa, xa) = decode(ma);
    let (sb, xb) = decode(mb);
    let (ta, la) = normalized(sa);
    let (tb, lb) = normalized(sb);
    let num: u128 = (ta as u128) * TWO_70;
    let m: u128 = num / (tb as u128);
    let rem: u128 = num % (tb as u128);
    let x: u32 = (xa + lb + (1074 + FINE - 70)) - (la + xb);
    let ghost n = quanta(ma) * pow2(1074);
    let ghost d = quanta(mb);
    proof {
        lemma_fundamental_div_mod(num as int, tb as int);
        lemma_mul_is_commutative(tb as int, m as int);
        lemma_quotient_cell(sa, xa, la, ta, sb, xb, lb, tb, m, rem, x);
        lemma_quanta_zero(ma);
        lemma_quanta_zero(mb);
        lemma_pow2_pos(1074);
        lemma_scaled_sign(na, quanta(ma), pow2(1074));
    }
    let rounded: u64 = round_to_nearest(m, x, rem != 0, Ghost(n), Ghost(d));
    join(negative, rounded)
}

} // verus!
