//! Powers of two and bit lengths in 128-bit arithmetic, which holds the
//! exact products, sums and quotients of significands before they are rounded.

use vstd::prelude::*;
use vstd::arithmetic::power2::*;
use vstd::arithmetic::mul::*;
use crate::binary64::HIDDEN_BIT;

verus! {

/// 2^63.
pub const TWO_63: u128 = 0x8000_0000_0000_0000;

/// 2^64.
pub const TWO_64: u128 = 0x1_0000_0000_0000_0000;

/// 2^124.
pub const TWO_124: u128 = 0x1000_0000_0000_0000_0000_0000_0000_0000;

/// 2^127.
pub const TWO_127: u128 = 0x8000_0000_0000_0000_0000_0000_0000_0000;

/// The powers of two that the 128-bit arithmetic is bounded by.
pub proof fn lemma_pow2_wide()
    ensures
        pow2(0) == 1,
        pow2(52) == HIDDEN_BIT,
        pow2(53) == 2 * HIDDEN_BIT,
        pow2(63) == TWO_63,
        pow2(64) == TWO_64,
        pow2(66) == 4 * TWO_64,
        pow2(124) == TWO_124,
        pow2(127) == TWO_127,
        pow2(128) == 2 * TWO_127,
{
    lemma2_to64();
    lemma2_to64_rest();
    lemma_pow2_adds(64, 2);
    lemma_pow2_adds(64, 60);
    lemma_pow2_adds(64, 63);
    lemma_pow2_adds(64, 64);
}

/// 2^k.
pub fn power_of_two(k: u32) -> (p: u128)
    requires
        k < 128,
    ensures
        p == pow2(k as nat),
{
    let mut p: u128 = 1;
    let mut i: u32 = 0;
    proof {
        lemma_pow2_wide();
    }
    while i < k
        invariant
            i <= k,
            k < 128,
            p == pow2(i as nat),
            pow2(128) == 2 * TWO_127,
        decreases k - i,
    {
        proof {
            lemma_pow2_unfold((i + 1) as nat);
            lemma_pow2_strictly_increases((i + 1) as nat, 128);
        }
        p = p * 2;
        i = i + 1;
    }
    p
}

/// The number of bits that `m` takes: 0 for zero, else the `len` with
/// `2^(len - 1) <= m < 2^len`.
pub fn bit_length(m: u128) -> (len: u32)
    ensures
        len <= 128,
        m == 0 ==> len == 0,
        m > 0 ==> len > 0 && pow2((len - 1) as nat) <= m < pow2(len as nat),
{
    let mut rest: u128 = m;
    let mut len: u32 = 0;
    proof {
        lemma_pow2_wide();
    }
    while rest > 0
        invariant
            len <= 128,
            pow2(0) == 1,
            pow2(128) == 2 * TWO_127,
            rest * pow2(len as nat) <= m < (rest + 1) * pow2(len as nat),
            len > 0 ==> pow2((len - 1) as nat) <= m,
        decreases rest,
    {
        proof {
            let p = pow2(len as nat) as int;
            let h = (rest / 2) as int;
            lemma_pow2_unfold((len + 1) as nat);
            lemma_pow2_pos(len as nat);
            // A bit is left, so 2^len <= m, and `len` is below 128.
            lemma_mul_inequality(1, rest as int, p);
            if len >= 128 {
                if len > 128 {
                    lemma_pow2_strictly_increases(128, len as nat);
                }
                assert(false);
            }
            // Dropping the lowest bit doubles the step.
            lemma_mul_inequality(2 * h, rest as int, p);
            lemma_mul_inequality(rest + 1, 2 * h + 2, p);
            lemma_mul_is_associative(h, 2, p);
            lemma_mul_is_associative(h + 1, 2, p);
            assert(h * (2 * p) <= m < (h + 1) * (2 * p));
        }
        rest = rest / 2;
        len = len + 1;
    }
    proof {
        lemma_mul_basics(pow2(len as nat) as int);
        if len > 0 {
            lemma_pow2_pos((len - 1) as nat);
        }
    }
    len
}

} // verus!
