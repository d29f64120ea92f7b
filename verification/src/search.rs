//! The seeded search driver, the per-problem best-result cache, and the
//! batch runner.
//!
//! A search for one problem (base `i`, exponent `n`, target `i^n`) seeds
//! its baseline from the cache — a hit is taken only when base, exponent
//! and target all match the remembered problem — and then folds `tries`
//! fresh randomized passes into the baseline, keeping the smallest
//! coefficient sum. The search only reads the cache: it never writes the
//! improved result back, so the cache serves purely as a seed.

use vstd::prelude::*;
use vstd::arithmetic::power::{pow, lemma_pow_increases};
use crate::coeffs::{
    CoefficientMap, eval_sum, coeff_sum, keys_in_range, is_decomposition, get_best, best_of,
    lemma_coeff_sum_le_eval_sum, lemma_coeff_sum_nonneg,
};
use crate::decompose::exponent_polynomial;
use crate::power::{pow_u128, checked_pow_u128, lemma_pow_base_increases, lemma_pow_nonneg};

verus! {

/// One remembered result: the best map found so far for a past problem.
pub struct CacheEntry {
    pub i: u64,
    pub n: u32,
    pub target: u128,
    pub map: CoefficientMap,
}

/// The remembered map for problem `(i, n, target)`; later entries shadow
/// earlier ones.
pub open spec fn lookup_seq(s: Seq<CacheEntry>, i: u64, n: u32, target: u128) -> Option<
    CoefficientMap,
>
    decreases s.len(),
{
    if s.len() == 0 {
        None
    } else if s.last().i == i && s.last().n == n && s.last().target == target {
        Some(s.last().map)
    } else {
        lookup_seq(s.drop_last(), i, n, target)
    }
}

/// Whatever `lookup_seq` finds is an exact decomposition of its problem,
/// provided every entry of the cache is one.
pub proof fn lemma_lookup_seq_wf(s: Seq<CacheEntry>, i: u64, n: u32, target: u128)
    requires
        forall|j: int| 0 <= j < s.len() ==> {
            let e = #[trigger] s[j];
            is_decomposition(e.map@, e.i, e.n as nat, e.target)
        },
        lookup_seq(s, i, n, target) is Some,
    ensures
        (lookup_seq(s, i, n, target) matches Some(m) && is_decomposition(
            m@,
            i,
            n as nat,
            target,
        )),
    decreases s.len(),
{
    if s.last().i == i && s.last().n == n && s.last().target == target {
        assert(s[s.len() - 1] == s.last());
    } else {
        assert(forall|j: int| 0 <= j < s.drop_last().len() ==> s.drop_last()[j] == s[j]);
        lemma_lookup_seq_wf(s.drop_last(), i, n, target);
    }
}

/// The per-problem cache of the best map found so far.
pub struct BestCache {
    entries: Vec<CacheEntry>,
}

impl View for BestCache {
    type V = Seq<CacheEntry>;

    closed spec fn view(&self) -> Seq<CacheEntry> {
        self.entries@
    }
}

impl BestCache {
    /// Every remembered map exactly decomposes its own problem.
    pub open spec fn wf(self) -> bool {
        forall|j: int| 0 <= j < self@.len() ==> {
            let e = #[trigger] self@[j];
            is_decomposition(e.map@, e.i, e.n as nat, e.target)
        }
    }

    /// The remembered map for `(i, n, target)`, if one is stored.
    pub open spec fn lookup(self, i: u64, n: u32, target: u128) -> Option<CoefficientMap> {
        lookup_seq(self@, i, n, target)
    }

    /// A cache with nothing remembered.
    pub fn new() -> (c: BestCache)
        ensures
            c@ =~= Seq::<CacheEntry>::empty(),
            c.wf(),
    {
        BestCache { entries: Vec::new() }
    }

    /// A copy of the remembered best map for `(i, n, target)`.
    pub fn get(&self, i: u64, n: u32, target: u128) -> (r: Option<CoefficientMap>)
        ensures
            r is Some <==> self.lookup(i, n, target) is Some,
            (r matches Some(m) ==> (self.lookup(i, n, target) matches Some(sm) && m@ == sm@)),
    {
        let mut j: usize = self.entries.len();
        proof {
            assert(self@.take(j as int) =~= self@);
        }
        while j > 0
            invariant
                j <= self@.len(),
                lookup_seq(self@, i, n, target) == lookup_seq(self@.take(j as int), i, n, target),
            decreases j,
        {
            j = j - 1;
            proof {
                assert(self@.take(j as int + 1).drop_last() =~= self@.take(j as int));
                assert(self@.take(j as int + 1).last() == self@[j as int]);
            }
            let e = &self.entries[j];
            if e.i == i && e.n == n && e.target == target {
                return Some(e.map.duplicate());
            }
        }
        proof {
            assert(self@.take(0) =~= Seq::<CacheEntry>::empty());
        }
        None
    }

    /// Remember `map` as the best known for `(i, n, target)`; a lookup for
    /// the same problem will return it from now on, other problems are
    /// unaffected.
    pub fn store(&mut self, i: u64, n: u32, target: u128, map: CoefficientMap)
        requires
            old(self).wf(),
            is_decomposition(map@, i, n as nat, target),
        ensures
            final(self).wf(),
            final(self).lookup(i, n, target) == Some(map),
            forall|i2: u64, n2: u32, t2: u128|
                !(i2 == i && n2 == n && t2 == target) ==> #[trigger] final(self).lookup(
                    i2,
                    n2,
                    t2,
                ) == old(self).lookup(i2, n2, t2),
    {
        let ghost pre = self@;
        self.entries.push(CacheEntry { i, n, target, map });
        proof {
            assert(self@.drop_last() =~= pre);
            assert(self@.last() == (CacheEntry { i, n, target, map }));
            assert(forall|j: int| 0 <= j < pre.len() ==> self@[j] == pre[j]);
        }
    }
}

/// The seed for a new search: a copy of the remembered best when the very
/// same problem was solved before, otherwise one fresh greedy pass. The
/// cache is only read, never written, and the caller's `target` is left
/// untouched.
pub fn get_prior_result(cache: &BestCache, i: u64, target: u128, n: u32) -> (m: CoefficientMap)
    requires
        cache.wf(),
        forall|x: u64| 1 <= x < i ==> pow(x as int, n as nat) <= u128::MAX,
    ensures
        m.wf(),
        keys_in_range(m@, i),
        eval_sum(m@, n as nat) <= target,
        i >= 2 ==> eval_sum(m@, n as nat) == target,
        (cache.lookup(i, n, target) matches Some(prior) ==> m@ == prior@),
{
    match cache.get(i, n, target) {
        Some(m) => {
            proof {
                lemma_lookup_seq_wf(cache@, i, n, target);
            }
            m
        },
        None => exponent_polynomial(target, i, n),
    }
}

/// Run the randomized greedy pass `tries` times beyond the cache-seeded
/// baseline and keep the candidate with the smallest total coefficient
/// sum. Every candidate — the baseline included — is an exact
/// decomposition of `target` whenever `i >= 2`, so the result is too; and
/// when the cache already held a result for this very problem, the result
/// never has a larger coefficient sum than that prior one. The improved
/// result is not written back into the cache.
pub fn find_smallest_exponent_polynomial(
    cache: &BestCache,
    tries: u32,
    target: u128,
    i: u64,
    n: u32,
) -> (best: CoefficientMap)
    requires
        cache.wf(),
        forall|x: u64| 1 <= x < i ==> pow(x as int, n as nat) <= u128::MAX,
    ensures
        best.wf(),
        keys_in_range(best@, i),
        eval_sum(best@, n as nat) <= target,
        i >= 2 ==> eval_sum(best@, n as nat) == target,
        (cache.lookup(i, n, target) matches Some(prior) ==> coeff_sum(best@) <= coeff_sum(
            prior@,
        )),
        exists|seed: CoefficientMap, cands: Seq<CoefficientMap>|
            {
                &&& best == #[trigger] best_of(seed, cands)
                &&& cands.len() == tries
                &&& (cache.lookup(i, n, target) matches Some(prior) ==> seed@ == prior@)
            },
{
    let seed = get_prior_result(cache, i, target, n);
    let ghost seed0 = seed;
    let ghost cands = Seq::<CoefficientMap>::empty();
    proof {
        lemma_coeff_sum_le_eval_sum(seed@, n as nat);
        lemma_coeff_sum_nonneg(seed@);
    }
    let mut best = seed;
    let mut r: u32 = 0;
    while r < tries
        invariant
            r <= tries,
            cache.wf(),
            forall|x: u64| 1 <= x < i ==> pow(x as int, n as nat) <= u128::MAX,
            best.wf(),
            keys_in_range(best@, i),
            eval_sum(best@, n as nat) <= target,
            i >= 2 ==> eval_sum(best@, n as nat) == target,
            0 <= coeff_sum(best@) <= coeff_sum(seed0@),
            coeff_sum(seed0@) <= target,
            cands.len() == r,
            best == best_of(seed0, cands),
            (cache.lookup(i, n, target) matches Some(prior) ==> seed0@ == prior@),
        decreases tries - r,
    {
        let attempt = exponent_polynomial(target, i, n);
        proof {
            lemma_coeff_sum_le_eval_sum(attempt@, n as nat);
            lemma_coeff_sum_nonneg(attempt@);
        }
        let ghost pre_cands = cands;
        best = get_best(best, attempt);
        proof {
            cands = pre_cands.push(attempt);
            assert(cands.drop_last() =~= pre_cands);
            assert(cands.last() == attempt);
        }
        r = r + 1;
    }
    proof {
        assert(best == best_of(seed0, cands) && cands.len() == tries && (cache.lookup(
            i,
            n,
            target,
        ) matches Some(prior) ==> seed0@ == prior@));
    }
    best
}

/// Solve one problem: for base `i` and exponent `n` the target is `i^n`;
/// run the seeded search with `tries` randomized attempts beyond the
/// baseline.
pub fn attack(cache: &BestCache, tries: u32, i: u64, n: u32) -> (m: CoefficientMap)
    requires
        cache.wf(),
        i >= 2,
        pow(i as int, n as nat) <= u128::MAX,
    ensures
        m.wf(),
        keys_in_range(m@, i),
        eval_sum(m@, n as nat) == pow(i as int, n as nat),
        (cache.lookup(i, n, pow(i as int, n as nat) as u128) matches Some(prior)
            ==> coeff_sum(m@) <= coeff_sum(prior@)),
{
    proof {
        lemma_pow_nonneg(i as int, n as nat);
        assert forall|x: u64| 1 <= x < i implies pow(x as int, n as nat) <= u128::MAX by {
            lemma_pow_base_increases(x as nat, i as nat, n as nat);
        }
    }
    let target = pow_u128(i, n);
    find_smallest_exponent_polynomial(cache, tries, target, i, n)
}

/// The final report: for each requested exponent, the best map found.
pub struct ResultsByExponent {
    entries: Vec<(u32, CoefficientMap)>,
}

impl View for ResultsByExponent {
    type V = Seq<(u32, CoefficientMap)>;

    closed spec fn view(&self) -> Seq<(u32, CoefficientMap)> {
        self.entries@
    }
}

impl ResultsByExponent {
    /// An empty report.
    pub fn new() -> (r: ResultsByExponent)
        ensures
            r@ =~= Seq::<(u32, CoefficientMap)>::empty(),
    {
        ResultsByExponent { entries: Vec::new() }
    }

    /// How many exponents the report covers.
    pub fn len(&self) -> (l: usize)
        ensures
            l == self@.len(),
    {
        self.entries.len()
    }

    /// The exponent recorded at position `j`.
    pub fn exponent_at(&self, j: usize) -> (n: u32)
        requires
            j < self@.len(),
        ensures
            n == self@[j as int].0,
    {
        self.entries[j].0
    }

    /// The map recorded at position `j`.
    pub fn map_at(&self, j: usize) -> (m: &CoefficientMap)
        requires
            j < self@.len(),
        ensures
            m == self@[j as int].1,
    {
        &self.entries[j].1
    }

    /// Append the result for one more exponent.
    pub fn push_entry(&mut self, n: u32, m: CoefficientMap)
        ensures
            final(self)@ == old(self)@.push((n, m)),
    {
        self.entries.push((n, m));
    }
}

/// The batch runner: for each exponent `n` from 2 up to `n_max`, solve
/// `target = i^n` and collect the best map found per exponent, in
/// ascending exponent order. The cache that seeds each search lives for
/// this one run.
pub fn run_batch(i: u64, n_max: u32, tries: u32) -> (results: ResultsByExponent)
    requires
        i >= 2,
        n_max >= 2,
        pow(i as int, n_max as nat) <= u128::MAX,
    ensures
        results@.len() == n_max - 1,
        forall|j: int| 0 <= j < results@.len() ==> {
            let e = #[trigger] results@[j];
            &&& e.0 == j + 2
            &&& e.1.wf()
            &&& keys_in_range(e.1@, i)
            &&& eval_sum(e.1@, e.0 as nat) == pow(i as int, e.0 as nat)
        },
{
    let cache = BestCache::new();
    let mut results = ResultsByExponent::new();
    let mut k: u32 = 0;
    while k < n_max - 1
        invariant
            k <= n_max - 1,
            n_max >= 2,
            i >= 2,
            pow(i as int, n_max as nat) <= u128::MAX,
            cache.wf(),
            results@.len() == k,
            forall|j: int| 0 <= j < results@.len() ==> {
                let e = #[trigger] results@[j];
                &&& e.0 == j + 2
                &&& e.1.wf()
                &&& keys_in_range(e.1@, i)
                &&& eval_sum(e.1@, e.0 as nat) == pow(i as int, e.0 as nat)
            },
        decreases n_max - 1 - k,
    {
        let n = k + 2;
        proof {
            lemma_pow_increases(i as nat, n as nat, n_max as nat);
        }
        let m = attack(&cache, tries, i, n);
        results.push_entry(n, m);
        k = k + 1;
    }
    results
}

/// Validated entry point around [`run_batch`]: the caller contract is
/// tested at run time, and an out-of-range input or an overflowing target
/// comes back as `None` instead of demanding proof from the caller.
pub fn run_batch_checked(i: u64, n_max: u32, tries: u32) -> (r: Option<ResultsByExponent>)
    ensures
        r is Some <==> (i >= 2 && n_max >= 2 && pow(i as int, n_max as nat) <= u128::MAX),
        (r matches Some(results) ==> {
            &&& results@.len() == n_max - 1
            &&& forall|j: int| 0 <= j < results@.len() ==> {
                let e = #[trigger] results@[j];
                &&& e.0 == j + 2
                &&& e.1.wf()
                &&& keys_in_range(e.1@, i)
                &&& eval_sum(e.1@, e.0 as nat) == pow(i as int, e.0 as nat)
            }
        }),
{
    if i < 2 || n_max < 2 {
        return None;
    }
    match checked_pow_u128(i, n_max) {
        Some(_) => Some(run_batch(i, n_max, tries)),
        None => None,
    }
}

} // verus!

