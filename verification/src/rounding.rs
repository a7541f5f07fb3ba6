//! Rounding to nearest, ties to even: what it means for a magnitude to be the
//! correctly rounded form of an exact rational, and the routine that finds it.

use vstd::prelude::*;
use vstd::arithmetic::power2::*;
use vstd::arithmetic::mul::*;
use vstd::arithmetic::div_mod::*;
use vstd::math::abs;
use crate::wide::{TWO_63, TWO_64, TWO_124, TWO_127, power_of_two, bit_length, lemma_pow2_wide};
use crate::binary64::{
    INFINITY, HIDDEN_BIT, quanta, significand, exponent, with_sign, is_negative, magnitude,
    lemma_quanta_increasing, lemma_quanta_monotonic, lemma_quanta_of_floor,
};

verus! {

/// How far the magnitude `m` lies from the rational `n / d`, both counted in
/// quanta; the distance is given multiplied by `d`, which keeps it whole.
pub open spec fn distance(m: u64, n: nat, d: nat) -> nat {
    let at = quanta(m) * d;
    if n >= at {
        (n - at) as nat
    } else {
        (at - n) as nat
    }
}

/// Whether `r` is to be chosen over `m` as the rounded form of `n / d`: it
/// lies nearer, or as near with an even pattern.
pub open spec fn preferred(r: u64, m: u64, n: nat, d: nat) -> bool {
    ||| distance(r, n, d) < distance(m, n, d)
    ||| (distance(r, n, d) == distance(m, n, d) && (r == m || r % 2 == 0))
}

/// The magnitude `r` is `n / d` quanta rounded to nearest, ties to even.
///
/// Among all magnitudes up to `INFINITY`, which stands at 2^1024, none is
/// nearer to `n / d` than `r`, and where another is as near, `r` is the even
/// one. So what lies at or beyond 2^1024 - 2^970 rounds to `INFINITY`.
pub open spec fn rounds_to(n: nat, d: nat, r: u64) -> bool {
    &&& r <= INFINITY
    &&& forall|m: u64| m <= INFINITY ==> #[trigger] preferred(r, m, n, d)
}

/// The pattern `r` is the exact result `n / d`, counted in quanta, correctly
/// rounded.
///
/// A result that is not zero has the sign of `n / d` and its magnitude
/// rounded to nearest, ties to even (so a tiny result may round to a zero of
/// that sign, a huge one to an infinity). An exact zero has the sign that the
/// operation gives it, `zero_negative`.
pub open spec fn is_rounded(n: int, d: int, zero_negative: bool, r: u64) -> bool
    recommends
        d != 0,
{
    if n == 0 {
        r == with_sign(zero_negative, 0)
    } else {
        &&& is_negative(r) == ((n < 0) != (d < 0))
        &&& rounds_to(abs(n), abs(d), magnitude(r))
    }
}

/// At most one pattern is the correctly rounded form of an exact result.
pub proof fn lemma_rounded_unique(n: int, d: int, zero_negative: bool, r1: u64, r2: u64)
    requires
        d != 0,
        is_rounded(n, d, zero_negative, r1),
        is_rounded(n, d, zero_negative, r2),
    ensures
        r1 == r2,
{
    if n != 0 {
        lemma_rounding_unique(abs(n), abs(d), magnitude(r1), magnitude(r2));
    }
}

/// At most one magnitude is the rounded form of a given rational.
pub proof fn lemma_rounding_unique(n: nat, d: nat, r1: u64, r2: u64)
    requires
        d > 0,
        rounds_to(n, d, r1),
        rounds_to(n, d, r2),
    ensures
        r1 == r2,
{
    assert(preferred(r1, r2, n, d));
    assert(preferred(r2, r1, n, d));
    if r1 != r2 {
        let lower = if r1 < r2 { r1 } else { r2 };
        let upper = if r1 < r2 { r2 } else { r1 };
        let between = (lower + 1) as u64;
        assert(lower % 2 == 0 && upper % 2 == 0);
        assert(lower < between < upper);
        lemma_quanta_increasing(lower, between);
        lemma_quanta_increasing(between, upper);
        lemma_mul_strict_inequality(quanta(lower) as int, quanta(between) as int, d as int);
        lemma_mul_strict_inequality(quanta(between) as int, quanta(upper) as int, d as int);
        assert(preferred(r1, between, n, d));
        assert(distance(between, n, d) < distance(lower, n, d));
    }
}

/// An exact result is kept: where `n / d` is itself a magnitude, it rounds
/// to that magnitude.
pub proof fn lemma_rounding_exact(n: nat, d: nat, m: u64)
    requires
        d > 0,
        m <= INFINITY,
        n == quanta(m) * d,
    ensures
        rounds_to(n, d, m),
{
    assert forall|other: u64| other <= INFINITY implies #[trigger] preferred(m, other, n, d) by {
        if other < m {
            lemma_quanta_increasing(other, m);
            lemma_mul_strict_inequality(quanta(other) as int, quanta(m) as int, d as int);
        } else if other > m {
            lemma_quanta_increasing(m, other);
            lemma_mul_strict_inequality(quanta(m) as int, quanta(other) as int, d as int);
        }
    }
}

/// Between two neighbouring magnitudes the nearer one is the rounded form,
/// and halfway between them the even one.
pub proof fn lemma_round_between(n: nat, d: nat, p: u64, r: u64)
    requires
        d > 0,
        p < INFINITY,
        quanta(p) * d <= n < quanta((p + 1) as u64) * d,
        r == p || r == p + 1,
        2 * n < (quanta(p) + quanta((p + 1) as u64)) * d ==> r == p,
        2 * n > (quanta(p) + quanta((p + 1) as u64)) * d ==> r == p + 1,
        2 * n == (quanta(p) + quanta((p + 1) as u64)) * d ==> r % 2 == 0,
    ensures
        rounds_to(n, d, r),
{
    let next = (p + 1) as u64;
    let lo = quanta(p) as int;
    let hi = quanta(next) as int;
    lemma_mul_is_distributive_add_other_way(d as int, lo, hi);
    assert((lo + hi) * d == lo * d + hi * d);
    assert forall|m: u64| m <= INFINITY implies #[trigger] preferred(r, m, n, d) by {
        if m <= p {
            lemma_quanta_monotonic(m, p);
            lemma_mul_inequality(quanta(m) as int, lo, d as int);
            if m < p {
                lemma_quanta_increasing(m, p);
                lemma_mul_strict_inequality(quanta(m) as int, lo, d as int);
            }
        } else {
            lemma_quanta_monotonic(next, m);
            lemma_mul_inequality(hi, quanta(m) as int, d as int);
            if m > next {
                lemma_quanta_increasing(next, m);
                lemma_mul_strict_inequality(hi, quanta(m) as int, d as int);
            }
        }
    }
}

/// What lies at or beyond 2^1024 rounds to `INFINITY`.
pub proof fn lemma_round_beyond(n: nat, d: nat)
    requires
        d > 0,
        n >= quanta(INFINITY) * d,
    ensures
        rounds_to(n, d, INFINITY),
{
    assert forall|m: u64| m <= INFINITY implies #[trigger] preferred(INFINITY, m, n, d) by {
        if m < INFINITY {
            lemma_quanta_increasing(m, INFINITY);
            lemma_mul_strict_inequality(quanta(m) as int, quanta(INFINITY) as int, d as int);
        }
    }
}

/// Two fractions of equal value are equally far from a magnitude, each on its
/// own scale.
proof fn lemma_scaled_distance(n1: nat, d1: nat, n2: nat, d2: nat, m: u64)
    requires
        d1 > 0,
        d2 > 0,
        n1 * d2 == n2 * d1,
    ensures
        distance(m, n1, d1) * d2 == distance(m, n2, d2) * d1,
{
    let q = quanta(m) as int;
    assert((n1 - q * d1) * d2 == (n2 - q * d2) * d1) by (nonlinear_arith)
        requires
            n1 * d2 == n2 * d1,
    ;
    assert(n1 >= q * d1 <==> n2 >= q * d2) by (nonlinear_arith)
        requires
            (n1 - q * d1) * d2 == (n2 - q * d2) * d1,
            d1 > 0,
            d2 > 0,
    ;
    assert((q * d1 - n1) * d2 == (q * d2 - n2) * d1) by (nonlinear_arith)
        requires
            (n1 - q * d1) * d2 == (n2 - q * d2) * d1,
    ;
}

/// Numbers compare alike on two scales.
proof fn lemma_scaled_order(x1: nat, y1: nat, x2: nat, y2: nat, d1: nat, d2: nat)
    by (nonlinear_arith)
    requires
        d1 > 0,
        d2 > 0,
        x1 * d2 == x2 * d1,
        y1 * d2 == y2 * d1,
    ensures
        (x1 < y1) == (x2 < y2),
        (x1 == y1) == (x2 == y2),
{
}

/// Rounding looks at the rational only: two fractions of equal value round
/// to the same magnitude.
pub proof fn lemma_rounding_ratio(n1: nat, d1: nat, n2: nat, d2: nat, r: u64)
    requires
        d1 > 0,
        d2 > 0,
        n1 * d2 == n2 * d1,
    ensures
        rounds_to(n1, d1, r) == rounds_to(n2, d2, r),
{
    lemma_scaled_distance(n1, d1, n2, d2, r);
    assert forall|m: u64| #[trigger] preferred(r, m, n1, d1) == preferred(r, m, n2, d2) by {
        lemma_scaled_distance(n1, d1, n2, d2, m);
        lemma_scaled_order(
            distance(r, n1, d1),
            distance(m, n1, d1),
            distance(r, n2, d2),
            distance(m, n2, d2),
            d1,
            d2,
        );
    }
    if rounds_to(n1, d1, r) {
        assert forall|m: u64| m <= INFINITY implies #[trigger] preferred(r, m, n2, d2) by {
            assert(preferred(r, m, n1, d1));
        }
    }
    if rounds_to(n2, d2, r) {
        assert forall|m: u64| m <= INFINITY implies #[trigger] preferred(r, m, n1, d1) by {
            assert(preferred(r, m, n2, d2));
        }
    }
}

/// The grid that exact results are handed over on is finer than the quanta
/// by this many binary places.
pub const FINE: u32 = 1200;

/// The exact rational `n / d`, counted in quanta, lies in the cell of the
/// fine grid that begins at `m * 2^(x - FINE)` and is `2^(x - FINE)` wide;
/// `inexact` tells whether it lies above the cell's beginning.
pub open spec fn in_cell(n: nat, d: nat, m: u128, x: u32, inexact: bool) -> bool {
    let scaled = n * pow2(FINE as nat);
    let width = pow2(x as nat) * d;
    &&& m * width <= scaled < (m + 1) * width
    &&& inexact == (m * width != scaled)
}

/// The rounding step itself. The cell `[m, m + 1) * w` holds `nf`; `m` is cut
/// into the quotient `q` and the remainder `rem` by twice `half`, and the
/// pattern `qe * 2^52 + q` goes up by one where the remainder, with what lies
/// above the cell's beginning, is more than `half`, or is `half` and `q` is
/// odd.
proof fn lemma_round_in_cell(
    nf: nat,
    df: nat,
    w: nat,
    m: nat,
    inexact: bool,
    q: nat,
    rem: nat,
    half: nat,
    qe: nat,
    r: u64,
)
    requires
        df > 0,
        w > 0,
        m * w <= nf < (m + 1) * w,
        inexact == (m * w != nf),
        m == q * (2 * half) + rem,
        rem < 2 * half,
        qe <= 2045,
        q < 2 * HIDDEN_BIT,
        qe > 0 ==> q >= HIDDEN_BIT,
        pow2(qe) * df == (2 * half) * w,
        r == qe * HIDDEN_BIT + q + (if rem > half || (rem == half && (inexact || q % 2 == 1)) {
            1int
        } else {
            0int
        }),
    ensures
        rounds_to(nf, df, r),
{
    let floor = (qe * HIDDEN_BIT + q) as u64;
    let next = (floor + 1) as u64;
    lemma_quanta_of_floor(q, qe);
    let g = pow2(qe) as int;
    let hw = (half * w) as int;
    let rw = (rem * w) as int;
    let a = 2 * hw;
    assert((2 * half) * w == a) by {
        lemma_mul_is_associative(2, half as int, w as int);
    }
    let qa = q * a;
    // The two neighbours, on the scale of `nf`.
    assert(quanta(floor) * df == qa) by {
        lemma_mul_is_associative(q as int, g, df as int);
    }
    assert(quanta(next) * df == qa + a) by {
        lemma_mul_is_associative((q + 1) as int, g, df as int);
        lemma_mul_is_distributive_add_other_way(a, q as int, 1);
    }
    // The cell, on the same scale.
    assert(m * w == qa + rw) by {
        lemma_mul_is_distributive_add_other_way(w as int, (q * (2 * half)) as int, rem as int);
        lemma_mul_is_associative(q as int, (2 * half) as int, w as int);
    }
    assert((m + 1) * w == qa + rw + w) by {
        lemma_mul_is_distributive_add_other_way(w as int, m as int, 1);
    }
    assert(rw + w <= a) by {
        lemma_mul_inequality((rem + 1) as int, (2 * half) as int, w as int);
        lemma_mul_is_distributive_add_other_way(w as int, rem as int, 1);
    }
    if rem > half {
        assert(rw >= hw + w) by {
            lemma_mul_inequality((half + 1) as int, rem as int, w as int);
            lemma_mul_is_distributive_add_other_way(w as int, half as int, 1);
        }
    } else if rem < half {
        assert(rw + w <= hw) by {
            lemma_mul_inequality((rem + 1) as int, half as int, w as int);
            lemma_mul_is_distributive_add_other_way(w as int, rem as int, 1);
        }
    }
    assert((quanta(floor) + quanta(next)) * df == qa + (qa + a)) by {
        lemma_mul_is_distributive_add_other_way(df as int, quanta(floor) as int, quanta(next) as int);
    }
    assert(floor % 2 == q % 2);
    lemma_round_between(nf, df, floor, r);
}

/// Rounds what lies in a cell of the fine grid to the nearest magnitude,
/// ties to even.
///
/// `m` is taken with at least 64 bits wherever the cell is not met at its
/// beginning, so that the half-way point of any two neighbouring magnitudes
/// is a grid point.
pub(crate) fn round_to_nearest(
    m: u128,
    x: u32,
    inexact: bool,
    Ghost(n): Ghost<nat>,
    Ghost(d): Ghost<nat>,
) -> (r: u64)
    requires
        d > 0,
        0 < m < TWO_124,
        inexact ==> m >= TWO_64,
        63 <= x <= 8000,
        in_cell(n, d, m, x, inexact),
    ensures
        rounds_to(n, d, r),
{
    let ghost f = pow2(FINE as nat);
    let ghost nf = n * f;
    let ghost df = d * f;
    let (m1, x1): (u128, u32) = if m < TWO_64 {
        (m * TWO_63, x - 63)
    } else {
        (m, x)
    };
    let ghost w = pow2(x1 as nat) * d;
    proof {
        lemma_pow2_wide();
        lemma_pow2_pos(FINE as nat);
        lemma_pow2_pos(x1 as nat);
        lemma_mul_strictly_positive(pow2(x1 as nat) as int, d as int);
        lemma_mul_strictly_positive(d as int, f as int);
        assert(n * df == nf * d) by (nonlinear_arith)
            requires
                nf == n * f,
                df == d * f,
        ;
        if m < TWO_64 {
            lemma_pow2_adds(63, x1 as nat);
            assert((m * pow2(63)) * (pow2(x1 as nat) * d) == m * ((pow2(63) * pow2(x1 as nat)) * d))
                by (nonlinear_arith);
        }
        assert(m1 * w == m * (pow2(x as nat) * d));
        lemma_mul_is_distributive_add_other_way(w as int, m1 as int, 1);
        assert(m1 * w <= nf < (m1 + 1) * w);
    }
    let len: u32 = bit_length(m1);
    proof {
        if len <= 63 {
            if len < 63 {
                lemma_pow2_strictly_increases(len as nat, 63);
            }
            assert(false);
        }
    }
    let top: u32 = len + x1;
    let (qe, sh): (u32, u32) = if top > 53 + FINE {
        (top - 53 - FINE, len - 53)
    } else {
        (0u32, FINE - x1)
    };
    proof {
        lemma_pow2_adds(qe as nat, FINE as nat);
        lemma_pow2_adds(sh as nat, x1 as nat);
        lemma_pow2_pos(sh as nat);
        lemma_pow2_pos(qe as nat);
    }
    let ghost g = pow2(qe as nat);
    let ghost u = pow2(sh as nat);
    assert(g * df == u * w) by (nonlinear_arith)
        requires
            g * f == u * pow2(x1 as nat),
            df == d * f,
            w == pow2(x1 as nat) * d,
    ;
    if sh >= 128 {
        proof {
            // Less than half a quantum: the cell lies below 2^127 grid steps.
            lemma_quanta_of_floor(0, 0);
            assert(quanta(0) == 0 && quanta(1) == 1);
            assert(g == 1);
            if sh > 128 {
                lemma_pow2_strictly_increases(128, sh as nat);
            }
            lemma_mul_inequality((m1 + 1) as int, TWO_127 as int, w as int);
            lemma_mul_inequality(pow2(128) as int, u as int, w as int);
            assert(pow2(128) * w == 2 * (TWO_127 * w)) by {
                lemma_mul_is_associative(2, TWO_127 as int, w as int);
            }
            assert(g * df == df) by (nonlinear_arith)
                requires
                    g == 1,
            ;
            assert(df == u * w);
            assert(2 * nf < df);
            assert(quanta(0) * df == 0);
            assert(quanta(1) * df == df);
            assert((quanta(0) + quanta(1)) * df == df);
            lemma_round_between(nf, df, 0, 0);
            lemma_rounding_ratio(n, d, nf, df, 0);
        }
        return 0;
    }
    let unit: u128 = power_of_two(sh);
    let q: u128 = m1 / unit;
    let rem: u128 = m1 % unit;
    let half: u128 = unit / 2;
    proof {
        lemma_pow2_unfold(sh as nat);
        lemma_fundamental_div_mod(m1 as int, unit as int);
        lemma_mul_is_commutative(unit as int, q as int);
        assert(m1 == q * unit + rem);
        assert(unit == 2 * half);
        // 2^len <= 2^53 * unit bounds q from above.
        lemma_pow2_adds(53, sh as nat);
        if len < 53 + sh {
            lemma_pow2_strictly_increases(len as nat, (53 + sh) as nat);
        }
        assert(m1 < (2 * HIDDEN_BIT) * unit);
        if q >= 2 * HIDDEN_BIT {
            lemma_mul_inequality((2 * HIDDEN_BIT) as int, q as int, unit as int);
            assert(false);
        }
        if qe > 0 {
            // 2^(len - 1) == 2^52 * unit bounds q from below.
            lemma_pow2_adds(52, sh as nat);
            assert(m1 >= HIDDEN_BIT * unit);
            if q < HIDDEN_BIT {
                lemma_mul_inequality((q + 1) as int, HIDDEN_BIT as int, unit as int);
                lemma_mul_is_distributive_add_other_way(unit as int, q as int, 1);
                assert(false);
            }
        }
    }
    if qe >= 2046 {
        proof {
            // At or beyond 2^1024.
            if qe > 2046 {
                lemma_pow2_strictly_increases(2046, qe as nat);
            }
            assert(significand(INFINITY) == HIDDEN_BIT && exponent(INFINITY) == 2046);
            let top_quanta = quanta(INFINITY) as int;
            assert(top_quanta == HIDDEN_BIT * pow2(2046));
            lemma_mul_inequality(pow2(2046) as int, g as int, HIDDEN_BIT as int);
            assert(top_quanta <= HIDDEN_BIT * g);
            lemma_mul_inequality(top_quanta, HIDDEN_BIT * g, df as int);
            lemma_mul_is_associative(HIDDEN_BIT as int, g as int, df as int);
            lemma_mul_is_associative(HIDDEN_BIT as int, u as int, w as int);
            lemma_mul_inequality(HIDDEN_BIT * u, m1 as int, w as int);
            assert(top_quanta * df <= nf);
            lemma_round_beyond(nf, df);
            lemma_rounding_ratio(n, d, nf, df, INFINITY);
        }
        return INFINITY;
    }
    let floor: u64 = (qe as u64) * HIDDEN_BIT + (q as u64);
    let up: bool = rem > half || (rem == half && (inexact || q % 2 == 1));
    let r: u64 = if up {
        floor + 1
    } else {
        floor
    };
    proof {
        lemma_round_in_cell(
            nf,
            df,
            w,
            m1 as nat,
            inexact,
            q as nat,
            rem as nat,
            half as nat,
            qe as nat,
            r,
        );
        lemma_rounding_ratio(n, d, nf, df, r);
    }
    r
}

} // verus!
