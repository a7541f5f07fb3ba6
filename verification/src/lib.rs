//! A calculator that keeps one running value, an IEEE 754 binary64 number,
//! and applies correctly rounded arithmetic to it.
//!
//! Numbers cross this interface as their 64-bit patterns (what
//! `f64::to_bits` gives and `f64::from_bits` takes). Every operation is
//! carried out on the patterns in integer arithmetic and is proved to give
//! the exact result rounded to nearest, ties to even. A result that is not a
//! number is always the one quiet NaN `binary64::QUIET_NAN`.

pub mod binary64;
pub mod wide;
pub mod rounding;
pub mod product;
pub mod sum;
pub mod quotient;

use vstd::prelude::*;
use vstd::arithmetic::power2::*;
use vstd::arithmetic::mul::*;
use crate::binary64::{
    POSITIVE_ZERO, TWO, is_zero, is_finite, magnitude, quanta, value, split, lemma_quanta_zero,
    lemma_quanta_of_one_and_two,
};
use crate::rounding::lemma_rounding_ratio;
use crate::product::{is_product, product};
use crate::quotient::{is_quotient, quotient};
use crate::sum::{is_sum, is_difference, sum, difference};

verus! {

/// The running value, as a binary64 bit pattern.
pub struct Calculator {
    pub value: u64,
}

/// What a division by zero is refused with.
pub const DIVISION_BY_ZERO: &'static str = "Cannot divide by zero";

impl Calculator {
    /// The calculator as a reset leaves it: it holds positive zero, whatever
    /// it held before.
    pub open spec fn after_reset(self) -> Calculator {
        Calculator { value: POSITIVE_ZERO }
    }

    /// A calculator that holds `initial_value`; any pattern is accepted.
    pub fn new(initial_value: u64) -> (calculator: Self)
        ensures
            calculator.value == initial_value,
    {
        Calculator { value: initial_value }
    }

    /// Adds `x` to the value and returns the new value.
    pub fn add(&mut self, x: u64) -> (result: u64)
        ensures
            is_sum(old(self).value, x, result),
            final(self).value == result,
    {
        self.value = sum(self.value, x);
        self.value
    }

    /// Subtracts `x` from the value and returns the new value.
    pub fn subtract(&mut self, x: u64) -> (result: u64)
        ensures
            is_difference(old(self).value, x, result),
            final(self).value == result,
    {
        self.value = difference(self.value, x);
        self.value
    }

    /// Multiplies the value by `x` and returns the new value.
    pub fn multiply(&mut self, x: u64) -> (result: u64)
        ensures
            is_product(old(self).value, x, result),
            final(self).value == result,
    {
        self.value = product(self.value, x);
        self.value
    }

    /// Divides the value by `x` and returns the new value, unless `x` is a
    /// zero of either sign: then the value stays as it is and the division is
    /// refused with `DIVISION_BY_ZERO`. Any other divisor is accepted, however
    /// small.
    pub fn divide(&mut self, x: u64) -> (result: Result<u64, String>)
        ensures
            is_zero(x) ==> {
                &&& result is Err
                &&& result->Err_0@ == DIVISION_BY_ZERO@
                &&& final(self).value == old(self).value
            },
            !is_zero(x) ==> {
                &&& result is Ok
                &&& is_quotient(old(self).value, x, result->Ok_0)
                &&& final(self).value == result->Ok_0
            },
    {
        let (_, divisor) = split(x);
        if divisor == 0 {
            return Err(DIVISION_BY_ZERO.to_owned());
        }
        self.value = quotient(self.value, x);
        Ok(self.value)
    }

    /// Sets the value to positive zero and returns it.
    pub fn reset(&mut self) -> (result: u64)
        ensures
            *final(self) == old(self).after_reset(),
            result == POSITIVE_ZERO,
    {
        self.value = POSITIVE_ZERO;
        self.value
    }

    /// A reset after a reset changes nothing: the calculator holds positive
    /// zero after the first as after the second.
    pub proof fn lemma_reset_idempotent(self)
        ensures
            self.after_reset().after_reset() == self.after_reset(),
            self.after_reset().value == POSITIVE_ZERO,
    {
    }
}

/// `x` times two.
pub fn helper_double(x: u64) -> (result: u64)
    ensures
        is_product(x, TWO, result),
{
    product(x, TWO)
}

/// Doubling a number is adding it to itself: both give the same pattern.
pub proof fn lemma_double_is_sum(x: u64, r: u64)
    ensures
        is_product(x, TWO, r) == is_sum(x, x, r),
{
    if is_finite(x) {
        let q = quanta(magnitude(x));
        let unit = pow2(1074);
        lemma_quanta_of_one_and_two();
        lemma_quanta_zero(magnitude(x));
        lemma_pow2_pos(1074);
        assert(value(x) * value(TWO) == (2 * value(x)) * unit) by (nonlinear_arith)
            requires
                value(TWO) == 2 * unit,
        ;
        if q == 0 {
            lemma_mul_basics(unit as int);
        } else {
            lemma_mul_strictly_positive((2 * q) as int, unit as int);
            lemma_mul_unary_negation((2 * q) as int, unit as int);
            lemma_rounding_ratio((2 * q * unit) as nat, unit, (2 * q) as nat, 1, magnitude(r));
        }
    }
}

/// `x` times itself.
pub fn helper_square(x: u64) -> (result: u64)
    ensures
        is_product(x, x, result),
{
    product(x, x)
}

} // verus!
