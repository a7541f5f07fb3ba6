//! The IEEE 754 binary64 interchange format, read as plain integers.
//!
//! A number is held as its 64-bit pattern: one sign bit, eleven exponent
//! bits, fifty-two fraction bits. Every finite binary64 number is a whole
//! multiple of the smallest positive one, 2^-1074, so the magnitude of a
//! finite number is modelled by a natural number: its count of such quanta.

use vstd::prelude::*;
use vstd::arithmetic::power2::*;
use vstd::arithmetic::mul::*;

verus! {

/// The sign bit on its own: the pattern of negative zero.
pub const SIGN_BIT: u64 = 0x8000_0000_0000_0000;

/// The pattern of positive zero.
pub const POSITIVE_ZERO: u64 = 0;

/// The pattern of positive infinity; as a magnitude, the largest one that is
/// not a NaN.
pub const INFINITY: u64 = 0x7ff0_0000_0000_0000;

/// The quiet NaN that every invalid operation returns.
pub const QUIET_NAN: u64 = 0x7ff8_0000_0000_0000;

/// 2^52: the weight of the lowest exponent bit, and the implicit leading bit
/// of a normal significand.
pub const HIDDEN_BIT: u64 = 0x0010_0000_0000_0000;

/// The pattern of 1.0.
pub const ONE: u64 = 0x3ff0_0000_0000_0000;

/// The pattern of 2.0.
pub const TWO: u64 = 0x4000_0000_0000_0000;

/// The pattern without its sign bit.
pub open spec fn magnitude(x: u64) -> u64 {
    if x >= SIGN_BIT {
        (x - SIGN_BIT) as u64
    } else {
        x
    }
}

/// Whether the sign bit is set (it may be set on a zero, an infinity, a NaN).
pub open spec fn is_negative(x: u64) -> bool {
    x >= SIGN_BIT
}

/// The pattern with magnitude `m` and the given sign.
pub open spec fn with_sign(negative: bool, m: u64) -> u64
    recommends
        m < SIGN_BIT,
{
    if negative {
        (m + SIGN_BIT) as u64
    } else {
        m
    }
}

/// The pattern of the number with the opposite sign.
pub open spec fn negated(x: u64) -> u64 {
    with_sign(!is_negative(x), magnitude(x))
}

/// Not a number: the exponent field is all ones and the fraction is not zero.
pub open spec fn is_nan(x: u64) -> bool {
    magnitude(x) > INFINITY
}

/// Positive or negative infinity.
pub open spec fn is_infinite(x: u64) -> bool {
    magnitude(x) == INFINITY
}

/// Zero, subnormal or normal.
pub open spec fn is_finite(x: u64) -> bool {
    magnitude(x) < INFINITY
}

/// Positive or negative zero: exactly the patterns that compare equal to 0.0.
pub open spec fn is_zero(x: u64) -> bool {
    magnitude(x) == 0
}

/// The significand of the magnitude `m`: the fraction, with the implicit
/// leading bit where the number is normal.
pub open spec fn significand(m: u64) -> nat {
    if m < HIDDEN_BIT {
        m as nat
    } else {
        (HIDDEN_BIT + m % HIDDEN_BIT) as nat
    }
}

/// The power of two, counted in quanta, that the significand of `m` is
/// multiplied by: 0 for a subnormal, the exponent field less one otherwise.
pub open spec fn exponent(m: u64) -> nat {
    if m < HIDDEN_BIT {
        0
    } else {
        (m / HIDDEN_BIT - 1) as nat
    }
}

/// The magnitude `m` counted in quanta of 2^-1074.
///
/// The same formula puts `INFINITY` at 2^2098 quanta, that is at 2^1024,
/// where the next binade would begin: rounding treats it as that number.
pub open spec fn quanta(m: u64) -> nat {
    significand(m) * pow2(exponent(m))
}

/// The finite number `x` as a signed count of quanta.
pub open spec fn value(x: u64) -> int
    recommends
        is_finite(x),
{
    if is_negative(x) {
        -(quanta(magnitude(x)) as int)
    } else {
        quanta(magnitude(x)) as int
    }
}

/// Splits a pattern into its sign and its magnitude.
pub fn split(x: u64) -> (parts: (bool, u64))
    ensures
        parts.0 == is_negative(x),
        parts.1 == magnitude(x),
        parts.1 < SIGN_BIT,
        with_sign(parts.0, parts.1) == x,
{
    if x >= SIGN_BIT {
        (true, x - SIGN_BIT)
    } else {
        (false, x)
    }
}

/// Puts a sign on a magnitude.
pub fn join(negative: bool, m: u64) -> (x: u64)
    requires
        m < SIGN_BIT,
    ensures
        x == with_sign(negative, m),
        is_negative(x) == negative,
        magnitude(x) == m,
{
    if negative {
        m + SIGN_BIT
    } else {
        m
    }
}

/// Reads the significand and the exponent of a magnitude.
pub fn decode(m: u64) -> (parts: (u64, u32))
    requires
        m < SIGN_BIT,
    ensures
        parts.0 == significand(m),
        parts.1 == exponent(m),
        parts.0 < 2 * HIDDEN_BIT,
        parts.1 <= 2046,
        parts.1 > 0 ==> parts.0 >= HIDDEN_BIT,
        (parts.0 == 0) == (m == 0),
{
    if m < HIDDEN_BIT {
        (m, 0)
    } else {
        let field: u64 = m / HIDDEN_BIT;
        (HIDDEN_BIT + m % HIDDEN_BIT, (field - 1) as u32)
    }
}

/// A larger pattern is a larger magnitude.
pub proof fn lemma_quanta_increasing(m1: u64, m2: u64)
    requires
        m1 < m2,
    ensures
        quanta(m1) < quanta(m2),
{
    let s1 = significand(m1) as int;
    let s2 = significand(m2) as int;
    let x1 = exponent(m1);
    let x2 = exponent(m2);
    let p1 = pow2(x1) as int;
    let p2 = pow2(x2) as int;
    lemma_pow2_pos(x1);
    lemma_pow2_pos(x2);
    assert(x1 <= x2);
    if x1 == x2 {
        assert(s1 < s2);
        lemma_mul_strict_inequality(s1, s2, p1);
    } else {
        assert(s1 < 2 * HIDDEN_BIT);
        assert(s2 >= HIDDEN_BIT);
        lemma_pow2_unfold(x1 + 1);
        if x1 + 1 < x2 {
            lemma_pow2_strictly_increases(x1 + 1, x2);
        }
        assert(2 * p1 <= p2);
        lemma_mul_strict_inequality(s1, 2 * HIDDEN_BIT as int, p1);
        lemma_mul_inequality(HIDDEN_BIT as int, s2, p2);
        assert(s1 * p1 < (2 * HIDDEN_BIT) * p1);
        assert(HIDDEN_BIT * p2 <= s2 * p2);
    }
}

/// A pattern that is no smaller is a magnitude that is no smaller.
pub proof fn lemma_quanta_monotonic(m1: u64, m2: u64)
    requires
        m1 <= m2,
    ensures
        quanta(m1) <= quanta(m2),
{
    if m1 < m2 {
        lemma_quanta_increasing(m1, m2);
    }
}

/// Zero is the only magnitude of no quanta.
pub proof fn lemma_quanta_zero(m: u64)
    ensures
        (quanta(m) == 0) == (m == 0),
{
    if m > 0 {
        lemma_quanta_increasing(0, m);
    } else {
        assert(significand(m) == 0);
        lemma_mul_basics(pow2(exponent(m)) as int);
    }
}

/// One is 2^1074 quanta, and two is twice as many.
pub proof fn lemma_quanta_of_one_and_two()
    ensures
        quanta(ONE) == pow2(1074),
        quanta(TWO) == 2 * pow2(1074),
{
    lemma2_to64_rest();
    lemma_pow2_adds(52, 1022);
    lemma_pow2_adds(52, 1023);
    lemma_pow2_unfold(1075);
    assert(significand(ONE) == HIDDEN_BIT && exponent(ONE) == 1022);
    assert(significand(TWO) == HIDDEN_BIT && exponent(TWO) == 1023);
}

/// The pattern `x * 2^52 + q` is `q * 2^x` quanta, and the pattern after it
/// is `(q + 1) * 2^x` quanta: adding one to a pattern steps to the next
/// magnitude, across the binade's end too.
pub proof fn lemma_quanta_of_floor(q: nat, x: nat)
    requires
        x <= 2045,
        q < 2 * HIDDEN_BIT,
        x > 0 ==> q >= HIDDEN_BIT,
    ensures
        x * HIDDEN_BIT + q < INFINITY,
        quanta((x * HIDDEN_BIT + q) as u64) == q * pow2(x),
        quanta((x * HIDDEN_BIT + q + 1) as u64) == (q + 1) * pow2(x),
{
    let m = (x * HIDDEN_BIT + q) as u64;
    let next = (m + 1) as u64;
    lemma2_to64();
    if q < HIDDEN_BIT {
        assert(x == 0);
        assert(m == q);
        assert(significand(m) == q && exponent(m) == 0);
        assert(significand(next) == q + 1 && exponent(next) == 0);
    } else {
        assert(m == (x + 1) * HIDDEN_BIT + (q - HIDDEN_BIT));
        assert(m / HIDDEN_BIT == x + 1 && m % HIDDEN_BIT == q - HIDDEN_BIT);
        assert(significand(m) == q && exponent(m) == x);
        if q + 1 < 2 * HIDDEN_BIT {
            assert(next / HIDDEN_BIT == x + 1 && next % HIDDEN_BIT == q + 1 - HIDDEN_BIT);
            assert(significand(next) == q + 1 && exponent(next) == x);
        } else {
            assert(next == (x + 2) * HIDDEN_BIT);
            assert(next / HIDDEN_BIT == x + 2 && next % HIDDEN_BIT == 0);
            assert(significand(next) == HIDDEN_BIT && exponent(next) == x + 1);
            lemma_pow2_unfold(x + 1);
            assert(HIDDEN_BIT * (2 * pow2(x)) == (2 * HIDDEN_BIT) * pow2(x)) by (nonlinear_arith);
        }
    }
}

} // verus!
