//! Exact exponentiation over a fixed 128-bit unsigned width.
//!
//! Overflow is never silent: `checked_pow_u128` reports it, and
//! `pow_u128` demands from its caller that the result fits.

use vstd::prelude::*;
use vstd::arithmetic::power::{
    pow, lemma_pow0, lemma_pow1, lemma_pow_adds, lemma_pow_increases,
};
use vstd::arithmetic::mul::{lemma_mul_nonnegative, lemma_mul_upper_bound};

verus! {

/// `pow(b, e)` is non-negative whenever the base is.
pub proof fn lemma_pow_nonneg(b: int, e: nat)
    requires
        b >= 0,
    ensures
        pow(b, e) >= 0,
    decreases e,
{
    reveal(pow);
    if e > 0 {
        lemma_pow_nonneg(b, (e - 1) as nat);
        lemma_mul_nonnegative(b, pow(b, (e - 1) as nat));
    }
}

/// Raising a larger base to the same exponent gives at least as large a power.
pub proof fn lemma_pow_base_increases(b1: nat, b2: nat, e: nat)
    requires
        b1 <= b2,
    ensures
        pow(b1 as int, e) <= pow(b2 as int, e),
    decreases e,
{
    reveal(pow);
    if e > 0 {
        lemma_pow_base_increases(b1, b2, (e - 1) as nat);
        lemma_pow_nonneg(b1 as int, (e - 1) as nat);
        lemma_mul_upper_bound(
            b1 as int,
            b2 as int,
            pow(b1 as int, (e - 1) as nat),
            pow(b2 as int, (e - 1) as nat),
        );
    }
}

/// Exact `x^n` in 128 bits, or `None` when the value would not fit.
pub fn checked_pow_u128(x: u64, n: u32) -> (r: Option<u128>)
    ensures
        pow(x as int, n as nat) <= u128::MAX ==> r == Some(pow(x as int, n as nat) as u128),
        pow(x as int, n as nat) > u128::MAX ==> r is None,
{
    let mut acc: u128 = 1;
    let mut k: u32 = 0;
    proof {
        lemma_pow0(x as int);
    }
    while k < n
        invariant
            k <= n,
            acc == pow(x as int, k as nat),
        decreases n - k,
    {
        proof {
            lemma_pow1(x as int);
            lemma_pow_adds(x as int, k as nat, 1nat);
        }
        match acc.checked_mul(x as u128) {
            Some(next) => {
                acc = next;
                k = k + 1;
            },
            None => {
                proof {
                    assert(x >= 1) by {
                        if x == 0 {
                            assert(acc * (x as u128) == 0) by (nonlinear_arith)
                                requires x == 0;
                        }
                    }
                    lemma_pow_increases(x as nat, (k + 1) as nat, n as nat);
                }
                return None;
            },
        }
    }
    Some(acc)
}

/// Exact `x^n` in 128 bits; the caller must show that the value fits.
pub fn pow_u128(x: u64, n: u32) -> (r: u128)
    requires
        pow(x as int, n as nat) <= u128::MAX,
    ensures
        r as int == pow(x as int, n as nat),
{
    proof {
        lemma_pow_nonneg(x as int, n as nat);
    }
    match checked_pow_u128(x, n) {
        Some(v) => v,
        None => {
            proof {
                assert(false);
            }
            0
        },
    }
}

} // verus!
