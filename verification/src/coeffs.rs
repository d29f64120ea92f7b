//! Coefficient maps and the policy that compares them.
//!
//! A [`CoefficientMap`] maps a base `x` to a coefficient `c`; a base that is
//! absent counts as coefficient 0. Its mathematical value for an exponent `n`
//! is [`eval_sum`]: the sum of `c * x^n` over its entries. Candidates are
//! ranked by [`coeff_sum`], the plain total of their coefficients, and
//! [`get_best`] keeps the smaller, ties favouring its first argument.

use vstd::prelude::*;
use vstd::arithmetic::power::{pow, lemma_pow_positive};
use vstd::arithmetic::mul::{lemma_mul_nonnegative, lemma_mul_left_inequality, lemma_mul_inequality};
use crate::power::{pow_u128, lemma_pow_nonneg};

verus! {

/// The value a sequence of (base, coefficient) entries stands for under
/// exponent `n`: the sum of `c * x^n` over its entries.
pub open spec fn eval_sum(s: Seq<(u64, u128)>, n: nat) -> int
    decreases s.len(),
{
    if s.len() == 0 {
        0
    } else {
        eval_sum(s.drop_last(), n) + s.last().1 as int * pow(s.last().0 as int, n)
    }
}

/// The total of the coefficients alone, the bases ignored.
pub open spec fn coeff_sum(s: Seq<(u64, u128)>) -> int
    decreases s.len(),
{
    if s.len() == 0 {
        0
    } else {
        coeff_sum(s.drop_last()) + s.last().1 as int
    }
}

/// No base occurs twice.
pub open spec fn keys_unique(s: Seq<(u64, u128)>) -> bool {
    forall|j: int, k: int| 0 <= j < k < s.len() ==> s[j].0 != s[k].0
}

/// Every base lies in the search range `[1, i)`.
pub open spec fn keys_in_range(s: Seq<(u64, u128)>, i: u64) -> bool {
    forall|j: int| 0 <= j < s.len() ==> 1 <= (#[trigger] s[j]).0 < i
}

/// Every stored coefficient is at least 1: a zero coefficient is expressed
/// by leaving the base out.
pub open spec fn coeffs_positive(s: Seq<(u64, u128)>) -> bool {
    forall|j: int| 0 <= j < s.len() ==> (#[trigger] s[j]).1 >= 1
}

/// The coefficient attached to base `x`, 0 when `x` is absent.
pub open spec fn coeff_of(s: Seq<(u64, u128)>, x: u64) -> u128
    decreases s.len(),
{
    if s.len() == 0 {
        0
    } else if s.last().0 == x {
        s.last().1
    } else {
        coeff_of(s.drop_last(), x)
    }
}

/// Whether some entry carries base `x`.
pub open spec fn has_key(s: Seq<(u64, u128)>, x: u64) -> bool {
    exists|j: int| 0 <= j < s.len() && (#[trigger] s[j]).0 == x
}

/// `s` is an exact decomposition of `target` over bases `1 .. i-1` with
/// exponent `n`: well-formed, in range, and summing to `target` exactly.
pub open spec fn is_decomposition(s: Seq<(u64, u128)>, i: u64, n: nat, target: u128) -> bool {
    &&& keys_unique(s)
    &&& keys_in_range(s, i)
    &&& coeffs_positive(s)
    &&& eval_sum(s, n) == target
}

pub proof fn lemma_eval_sum_nonneg(s: Seq<(u64, u128)>, n: nat)
    ensures
        eval_sum(s, n) >= 0,
    decreases s.len(),
{
    if s.len() > 0 {
        lemma_eval_sum_nonneg(s.drop_last(), n);
        lemma_pow_nonneg(s.last().0 as int, n);
        lemma_mul_nonnegative(s.last().1 as int, pow(s.last().0 as int, n));
    }
}

pub proof fn lemma_coeff_sum_nonneg(s: Seq<(u64, u128)>)
    ensures
        coeff_sum(s) >= 0,
    decreases s.len(),
{
    if s.len() > 0 {
        lemma_coeff_sum_nonneg(s.drop_last());
    }
}

/// Extending a prefix by one entry adds that entry's term to its value.
pub proof fn lemma_eval_sum_take_succ(s: Seq<(u64, u128)>, n: nat, j: int)
    requires
        0 <= j < s.len(),
    ensures
        eval_sum(s.take(j + 1), n) == eval_sum(s.take(j), n) + s[j].1 as int * pow(
            s[j].0 as int,
            n,
        ),
{
    assert(s.take(j + 1).drop_last() =~= s.take(j));
    assert(s.take(j + 1).last() == s[j]);
}

/// A prefix never exceeds the whole: every term is non-negative.
pub proof fn lemma_eval_sum_take_le(s: Seq<(u64, u128)>, n: nat, j: int)
    requires
        0 <= j <= s.len(),
    ensures
        eval_sum(s.take(j), n) <= eval_sum(s, n),
    decreases s.len() - j,
{
    if j == s.len() {
        assert(s.take(j) =~= s);
    } else {
        lemma_eval_sum_take_succ(s, n, j);
        lemma_pow_nonneg(s[j].0 as int, n);
        lemma_mul_nonnegative(s[j].1 as int, pow(s[j].0 as int, n));
        lemma_eval_sum_take_le(s, n, j + 1);
    }
}

pub proof fn lemma_coeff_sum_take_succ(s: Seq<(u64, u128)>, j: int)
    requires
        0 <= j < s.len(),
    ensures
        coeff_sum(s.take(j + 1)) == coeff_sum(s.take(j)) + s[j].1 as int,
{
    assert(s.take(j + 1).drop_last() =~= s.take(j));
    assert(s.take(j + 1).last() == s[j]);
}

pub proof fn lemma_coeff_sum_take_le(s: Seq<(u64, u128)>, j: int)
    requires
        0 <= j <= s.len(),
    ensures
        coeff_sum(s.take(j)) <= coeff_sum(s),
    decreases s.len() - j,
{
    if j == s.len() {
        assert(s.take(j) =~= s);
    } else {
        lemma_coeff_sum_take_succ(s, j);
        lemma_coeff_sum_take_le(s, j + 1);
    }
}

/// With every base at least 1, each power is at least 1, so the plain
/// coefficient total is bounded by the decomposition's value.
pub proof fn lemma_coeff_sum_le_eval_sum(s: Seq<(u64, u128)>, n: nat)
    requires
        forall|j: int| 0 <= j < s.len() ==> (#[trigger] s[j]).0 >= 1,
    ensures
        coeff_sum(s) <= eval_sum(s, n),
    decreases s.len(),
{
    if s.len() > 0 {
        assert(forall|j: int|
            0 <= j < s.drop_last().len() ==> (#[trigger] s.drop_last()[j]).0 >= 1);
        lemma_coeff_sum_le_eval_sum(s.drop_last(), n);
        let x = s.last().0;
        let c = s.last().1;
        lemma_pow_positive(x as int, n);
        if c as int > 0 {
            lemma_mul_left_inequality(c as int, 1, pow(x as int, n));
        }
    }
}

/// A mapping from base `x` to coefficient `c`; a base that is absent counts
/// as coefficient 0.
pub struct CoefficientMap {
    entries: Vec<(u64, u128)>,
}

impl View for CoefficientMap {
    type V = Seq<(u64, u128)>;

    closed spec fn view(&self) -> Seq<(u64, u128)> {
        self.entries@
    }
}

impl CoefficientMap {
    /// Well-formed: unique bases and strictly positive coefficients.
    pub open spec fn wf(self) -> bool {
        keys_unique(self@) && coeffs_positive(self@)
    }

    /// The empty map.
    pub fn new() -> (m: CoefficientMap)
        ensures
            m@ =~= Seq::<(u64, u128)>::empty(),
            m.wf(),
    {
        CoefficientMap { entries: Vec::new() }
    }

    /// How many bases carry a non-zero coefficient.
    pub fn len(&self) -> (l: usize)
        ensures
            l == self@.len(),
    {
        self.entries.len()
    }

    /// The entry at position `j`, as a (base, coefficient) pair.
    pub fn entry_at(&self, j: usize) -> (e: (u64, u128))
        requires
            j < self@.len(),
        ensures
            e == self@[j as int],
    {
        self.entries[j]
    }

    /// Record base `x` with coefficient `c`; the base must be fresh and the
    /// coefficient positive.
    pub fn insert(&mut self, x: u64, c: u128)
        requires
            old(self).wf(),
            !has_key(old(self)@, x),
            c >= 1,
        ensures
            final(self)@ == old(self)@.push((x, c)),
            final(self).wf(),
    {
        self.entries.push((x, c));
        proof {
            let s = self@;
            assert forall|j: int, k: int| 0 <= j < k < s.len() implies s[j].0 != s[k].0 by {
                if k == s.len() - 1 {
                    assert(!(0 <= j < old(self)@.len() && old(self)@[j].0 == x));
                }
            }
        }
    }

    /// The coefficient attached to base `x`, 0 when `x` is absent.
    pub fn coefficient_of(&self, x: u64) -> (c: u128)
        ensures
            c == coeff_of(self@, x),
    {
        let mut j: usize = self.entries.len();
        proof {
            assert(self@.take(j as int) =~= self@);
        }
        while j > 0
            invariant
                j <= self@.len(),
                coeff_of(self@, x) == coeff_of(self@.take(j as int), x),
            decreases j,
        {
            j = j - 1;
            let (xx, c) = self.entries[j];
            proof {
                assert(self@.take(j as int + 1).drop_last() =~= self@.take(j as int));
                assert(self@.take(j as int + 1).last() == self@[j as int]);
            }
            if xx == x {
                return c;
            }
        }
        proof {
            assert(self@.take(0) =~= Seq::<(u64, u128)>::empty());
        }
        0
    }

    /// An identical copy.
    pub fn duplicate(&self) -> (m: CoefficientMap)
        ensures
            m@ == self@,
    {
        let mut entries: Vec<(u64, u128)> = Vec::new();
        let mut j: usize = 0;
        while j < self.entries.len()
            invariant
                j <= self@.len(),
                entries@ =~= self@.take(j as int),
            decreases self@.len() - j,
        {
            entries.push(self.entries[j]);
            j = j + 1;
            proof {
                assert(entries@ =~= self@.take(j as int));
            }
        }
        proof {
            assert(entries@ =~= self@);
        }
        CoefficientMap { entries }
    }
}

/// Recompute the value a coefficient map stands for under exponent `n`:
/// the exact sum of `c * x^n` over its entries. A pure function of the map
/// and the exponent alone, so two applications to the same map agree.
pub fn compute_result(result: &CoefficientMap, n: u32) -> (v: u128)
    requires
        coeffs_positive(result@),
        eval_sum(result@, n as nat) <= u128::MAX,
    ensures
        v as int == eval_sum(result@, n as nat),
{
    let mut acc: u128 = 0;
    let mut j: usize = 0;
    let len = result.len();
    proof {
        assert(result@.take(0) =~= Seq::<(u64, u128)>::empty());
    }
    while j < len
        invariant
            j <= len,
            len == result@.len(),
            coeffs_positive(result@),
            eval_sum(result@, n as nat) <= u128::MAX,
            acc as int == eval_sum(result@.take(j as int), n as nat),
        decreases len - j,
    {
        let (x, c) = result.entry_at(j);
        proof {
            lemma_eval_sum_take_succ(result@, n as nat, j as int);
            lemma_eval_sum_take_le(result@, n as nat, j as int + 1);
            lemma_eval_sum_nonneg(result@.take(j as int), n as nat);
            lemma_pow_nonneg(x as int, n as nat);
            assert(c >= 1);
            lemma_mul_inequality(1, c as int, pow(x as int, n as nat));
        }
        let xpow = pow_u128(x, n);
        acc = acc + c * xpow;
        j = j + 1;
    }
    proof {
        assert(result@.take(len as int) =~= result@);
    }
    acc
}

/// Total of all coefficients in the map, ignoring which base each belongs to.
pub fn sum_coefficients(result: &CoefficientMap) -> (t: u128)
    requires
        coeff_sum(result@) <= u128::MAX,
    ensures
        t as int == coeff_sum(result@),
{
    let mut acc: u128 = 0;
    let mut j: usize = 0;
    let len = result.len();
    proof {
        assert(result@.take(0) =~= Seq::<(u64, u128)>::empty());
    }
    while j < len
        invariant
            j <= len,
            len == result@.len(),
            coeff_sum(result@) <= u128::MAX,
            acc as int == coeff_sum(result@.take(j as int)),
        decreases len - j,
    {
        let (_x, c) = result.entry_at(j);
        proof {
            lemma_coeff_sum_take_succ(result@, j as int);
            lemma_coeff_sum_take_le(result@, j as int + 1);
            lemma_coeff_sum_nonneg(result@.take(j as int));
        }
        acc = acc + c;
        j = j + 1;
    }
    proof {
        assert(result@.take(len as int) =~= result@);
    }
    acc
}

/// The selection policy: the map with the strictly smaller coefficient sum
/// wins; on a tie the first argument is kept.
pub open spec fn pick_best(a: CoefficientMap, b: CoefficientMap) -> CoefficientMap {
    if coeff_sum(a@) > coeff_sum(b@) {
        b
    } else {
        a
    }
}

/// Keep whichever of two maps has the smaller total coefficient sum; when the
/// sums are equal, `a` — the previously held best — is returned.
pub fn get_best(a: CoefficientMap, b: CoefficientMap) -> (best: CoefficientMap)
    requires
        coeff_sum(a@) <= u128::MAX,
        coeff_sum(b@) <= u128::MAX,
    ensures
        best == pick_best(a, b),
        coeff_sum(a@) == coeff_sum(b@) ==> best == a,
        coeff_sum(best@) <= coeff_sum(a@),
        coeff_sum(best@) <= coeff_sum(b@),
{
    if sum_coefficients(&a) > sum_coefficients(&b) {
        b
    } else {
        a
    }
}

/// The map left after folding a sequence of candidate maps into a starting
/// map, one [`pick_best`] at a time.
pub open spec fn best_of(seed: CoefficientMap, cands: Seq<CoefficientMap>) -> CoefficientMap
    decreases cands.len(),
{
    if cands.len() == 0 {
        seed
    } else {
        pick_best(best_of(seed, cands.drop_last()), cands.last())
    }
}

/// Folding one more candidate never increases the winning coefficient sum:
/// the best of `k + 1` trials is at most the best of the first `k`.
pub proof fn lemma_more_tries_never_regress(
    seed: CoefficientMap,
    cands: Seq<CoefficientMap>,
    k: int,
)
    requires
        0 <= k < cands.len(),
    ensures
        coeff_sum(best_of(seed, cands.take(k + 1))@) <= coeff_sum(best_of(seed, cands.take(k))@),
{
    assert(cands.take(k + 1).drop_last() =~= cands.take(k));
    assert(cands.take(k + 1).last() == cands[k]);
}

/// The fold never leaves a map whose sum exceeds the seed's.
pub proof fn lemma_best_of_le_seed(seed: CoefficientMap, cands: Seq<CoefficientMap>)
    ensures
        coeff_sum(best_of(seed, cands)@) <= coeff_sum(seed@),
    decreases cands.len(),
{
    if cands.len() > 0 {
        lemma_best_of_le_seed(seed, cands.drop_last());
    }
}

} // verus!
