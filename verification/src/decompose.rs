//! One randomized greedy decomposition pass.
//!
//! The pass visits the candidate bases `1 .. i-1` in a uniformly shuffled
//! order and gives each base the largest coefficient the remaining target
//! allows (integer division), keeping the exact remainder. Base 1 always
//! divides whatever remains, so for `i >= 2` the pass always ends with the
//! target fully decomposed — the shuffle only changes which bases get first
//! pick of the target's magnitude, and with it the total coefficient sum.

use vstd::prelude::*;
use vstd::arithmetic::power::{pow, lemma_pow_positive, lemma1_pow};
use vstd::arithmetic::div_mod::{lemma_fundamental_div_mod, lemma_mod_bound};
use vstd::arithmetic::mul::lemma_mul_is_commutative;
use vstd::seq_lib::group_to_multiset_ensures;
use rand::seq::SliceRandom;
use crate::coeffs::{CoefficientMap, eval_sum, keys_in_range, has_key};
use crate::power::pow_u128;

verus! {

/// Relies on rand's `SliceRandom::shuffle` (a Fisher–Yates pass swapping
/// elements in place): whatever order comes out, the new contents are a
/// permutation of the old, and nothing more is promised of a random result.
#[verifier::external_body]
fn shuffle_bases(v: &mut Vec<u64>)
    ensures
        final(v)@.to_multiset() == old(v)@.to_multiset(),
{
    v.shuffle(&mut rand::rng());
}

/// Find coefficients `c` with `sum of c * x^n == target`, the bases `x`
/// drawn from `1 .. i-1` in one randomized greedy pass.
///
/// For `i >= 2` the returned map is always an exact decomposition of
/// `target`; for smaller `i` there are no candidate bases and the map is
/// empty. Bases whose computed coefficient would be 0 are left out.
pub fn exponent_polynomial(target: u128, i: u64, n: u32) -> (m: CoefficientMap)
    requires
        forall|x: u64| 1 <= x < i ==> pow(x as int, n as nat) <= u128::MAX,
    ensures
        m.wf(),
        keys_in_range(m@, i),
        eval_sum(m@, n as nat) <= target,
        i >= 2 ==> eval_sum(m@, n as nat) == target,
        i < 2 ==> m@.len() == 0,
{
    let mut bases: Vec<u64> = Vec::new();
    let mut x: u64 = 1;
    while x < i
        invariant
            1 <= x,
            i >= 1 ==> x <= i,
            i < 1 ==> x == 1,
            bases@.len() == x - 1,
            forall|j: int| 0 <= j < bases@.len() ==> #[trigger] bases@[j] == j + 1,
        decreases i - x,
    {
        bases.push(x);
        x = x + 1;
    }
    let ghost orig = bases@;
    proof {
        assert(orig.no_duplicates());
    }
    shuffle_bases(&mut bases);
    proof {
        broadcast use group_to_multiset_ensures;

        orig.lemma_multiset_has_no_duplicates();
        bases@.lemma_multiset_has_no_duplicates_conv();
        assert forall|j: int| 0 <= j < bases@.len() implies 1 <= #[trigger] bases@[j] < i by {
            assert(bases@.contains(bases@[j]));
            assert(bases@.to_multiset().count(bases@[j]) > 0);
            assert(orig.to_multiset().count(bases@[j]) > 0);
            assert(orig.contains(bases@[j]));
            let p = choose|p: int| 0 <= p < orig.len() && orig[p] == bases@[j];
            assert(orig[p] == p + 1);
        }
        if i >= 2 {
            assert(orig[0] == 1);
            assert(orig.contains(1));
            assert(orig.to_multiset().count(1u64) > 0);
            assert(bases@.to_multiset().count(1u64) > 0);
            assert(bases@.contains(1));
        }
    }
    let mut result = CoefficientMap::new();
    let mut t: u128 = target;
    let mut k: usize = 0;
    while k < bases.len() && t != 0
        invariant
            k <= bases@.len(),
            forall|x: u64| 1 <= x < i ==> pow(x as int, n as nat) <= u128::MAX,
            forall|j: int| 0 <= j < bases@.len() ==> 1 <= #[trigger] bases@[j] < i,
            bases@.no_duplicates(),
            i >= 2 ==> bases@.contains(1),
            result.wf(),
            keys_in_range(result@, i),
            eval_sum(result@, n as nat) + t == target,
            i < 2 ==> result@.len() == 0,
            forall|p: int| k <= p < bases@.len() ==> !has_key(result@, #[trigger] bases@[p]),
            t != 0 ==> (forall|p: int| 0 <= p < k ==> #[trigger] bases@[p] != 1),
        decreases bases@.len() - k,
    {
        let xb = bases[k];
        let xpow = pow_u128(xb, n);
        proof {
            lemma_pow_positive(xb as int, n as nat);
            if xb == 1 {
                lemma1_pow(n as nat);
            }
        }
        let c = t / xpow;
        proof {
            lemma_fundamental_div_mod(t as int, xpow as int);
            lemma_mod_bound(t as int, xpow as int);
            lemma_mul_is_commutative(xpow as int, c as int);
        }
        if c > 0 {
            let ghost pre = result@;
            result.insert(xb, c);
            proof {
                assert(result@.drop_last() =~= pre);
                assert(result@.last() == (xb, c));
                assert(eval_sum(result@, n as nat) == eval_sum(pre, n as nat) + c as int * pow(
                    xb as int,
                    n as nat,
                ));
            }
            t = t % xpow;
        }
        k = k + 1;
    }
    proof {
        if i >= 2 && t != 0 {
            let p = choose|p: int| 0 <= p < bases@.len() && bases@[p] == 1;
            assert(false);
        }
    }
    result
}

} // verus!
