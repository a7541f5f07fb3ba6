//! Multiplication of binary64 numbers.

use vstd::prelude::*;
use vstd::arithmetic::power2::*;
use vstd::arithmetic::mul::*;
use crate::binary64::{
    INFINITY, QUIET_NAN, HIDDEN_BIT, ONE, quanta, value, with_sign, magnitude, is_negative,
    is_nan, is_infinite, is_finite, is_zero, split, join, decode, lemma_quanta_zero,
    lemma_quanta_of_one_and_two,
};
use crate::rounding::{
    FINE, in_cell, is_rounded, round_to_nearest, lemma_rounded_unique, lemma_rounding_exact,
};

verus! {

/// The pattern `r` is the product of `a` and `b`.
///
/// A NaN operand, and zero times infinity, give the quiet NaN. An infinity
/// times anything else is an infinity. Otherwise the exact product, which is
/// a whole number of 2^-2148, is rounded. The sign is always the exclusive or
/// of the operands' signs.
pub open spec fn is_product(a: u64, b: u64, r: u64) -> bool {
    let negative = is_negative(a) != is_negative(b);
    if is_nan(a) || is_nan(b) {
        r == QUIET_NAN
    } else if is_infinite(a) || is_infinite(b) {
        if is_zero(a) || is_zero(b) {
            r == QUIET_NAN
        } else {
            r == with_sign(negative, INFINITY)
        }
    } else {
        is_rounded(value(a) * value(b), pow2(1074) as int, negative, r)
    }
}

/// The product is determined: no two patterns are both the product of `a`
/// and `b`.
pub proof fn lemma_product_unique(a: u64, b: u64, r1: u64, r2: u64)
    requires
        is_product(a, b, r1),
        is_product(a, b, r2),
    ensures
        r1 == r2,
{
    if is_finite(a) && is_finite(b) {
        lemma_pow2_pos(1074);
        lemma_rounded_unique(
            value(a) * value(b),
            pow2(1074) as int,
            is_negative(a) != is_negative(b),
            r1,
            r2,
        );
    }
}

/// Multiplication commutes.
pub proof fn lemma_product_commutes(a: u64, b: u64, r: u64)
    ensures
        is_product(a, b, r) == is_product(b, a, r),
{
    lemma_mul_is_commutative(value(a), value(b));
}

/// Multiplying by one changes nothing.
pub proof fn lemma_product_by_one(a: u64)
    requires
        !is_nan(a),
    ensures
        is_product(a, ONE, a),
{
    if is_finite(a) {
        let m = magnitude(a);
        let unit = pow2(1074);
        lemma_quanta_of_one_and_two();
        lemma_quanta_zero(m);
        lemma_pow2_pos(1074);
        lemma_rounding_exact(quanta(m) * unit, unit, m);
        if m == 0 {
            lemma_mul_basics(unit as int);
        } else {
            lemma_product_sign(is_negative(a), quanta(m), false, unit);
        }
    }
}

/// The product of two signed magnitudes is negative where the signs differ,
/// and its size is the product of the magnitudes.
proof fn lemma_product_sign(na: bool, qa: nat, nb: bool, qb: nat)
    by (nonlinear_arith)
    requires
        qa > 0,
        qb > 0,
    ensures
        ({
            let va = if na { -(qa as int) } else { qa as int };
            let vb = if nb { -(qb as int) } else { qb as int };
            &&& va * vb != 0
            &&& (va * vb < 0) == (na != nb)
            &&& (if va * vb < 0 { -(va * vb) } else { va * vb }) == qa * qb
        }),
{
}

/// The product of the significands, with the sum of the exponents, is the
/// exact product on the fine grid.
proof fn lemma_product_cell(sa: nat, xa: nat, sb: nat, xb: nat)
    ensures
        (sa * sb) * (pow2(xa + xb + 126) * pow2(1074)) == ((sa * pow2(xa)) * (sb * pow2(xb))) * pow2(
            1200,
        ),
{
    let pa = pow2(xa);
    let pb = pow2(xb);
    let f = pow2(1200);
    lemma_pow2_adds(xa + xb + 126, 1074);
    lemma_pow2_adds(xa + xb, 1200);
    lemma_pow2_adds(xa, xb);
    assert(pow2(xa + xb + 126) * pow2(1074) == (pa * pb) * f);
    assert((sa * sb) * ((pa * pb) * f) == ((sa * pa) * (sb * pb)) * f) by (nonlinear_arith);
}

/// Multiplies two numbers.
pub fn product(a: u64, b: u64) -> (r: u64)
    ensures
        is_product(a, b, r),
{
    let (na, ma) = split(a);
    let (nb, mb) = split(b);
    let negative: bool = na != nb;
    if ma > INFINITY || mb > INFINITY {
        return QUIET_NAN;
    }
    if ma == INFINITY || mb == INFINITY {
        if ma == 0 || mb == 0 {
            return QUIET_NAN;
        }
        return join(negative, INFINITY);
    }
    if ma == 0 || mb == 0 {
        proof {
            lemma_quanta_zero(ma);
            lemma_quanta_zero(mb);
            lemma_mul_basics(value(a));
            lemma_mul_basics(value(b));
        }
        return join(negative, 0);
    }
    let (sa, xa) = decode(ma);
    let (sb, xb) = decode(mb);
    proof {
        lemma_mul_strict_upper_bound(sa as int, 2 * HIDDEN_BIT, sb as int, 2 * HIDDEN_BIT);
        lemma_mul_strictly_positive(sa as int, sb as int);
    }
    let m: u128 = (sa as u128) * (sb as u128);
    let x: u32 = xa + xb + (FINE - 1074);
    let ghost n = quanta(ma) * quanta(mb);
    let ghost d = pow2(1074);
    proof {
        lemma_pow2_pos(1074);
        lemma_product_cell(sa as nat, xa as nat, sb as nat, xb as nat);
        lemma_mul_is_distributive_add_other_way((pow2(x as nat) * d) as int, m as int, 1);
        lemma_pow2_pos(x as nat);
        lemma_mul_strictly_positive(pow2(x as nat) as int, d as int);
        assert(in_cell(n, d, m, x, false));
    }
    let rounded: u64 = round_to_nearest(m, x, false, Ghost(n), Ghost(d));
    proof {
        lemma_quanta_zero(ma);
        lemma_quanta_zero(mb);
        lemma_product_sign(na, quanta(ma), nb, quanta(mb));
    }
    join(negative, rounded)
}

} // verus!
