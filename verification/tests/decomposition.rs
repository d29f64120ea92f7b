use powsum::coeffs::{compute_result, get_best, sum_coefficients, CoefficientMap};
use powsum::decompose::exponent_polynomial;
use powsum::power::{checked_pow_u128, pow_u128};
use powsum::search::{attack, find_smallest_exponent_polynomial, get_prior_result, BestCache};

#[test]
fn test_sum_correct() {
    let cache = BestCache::new();
    let i = 10;
    let n = 3;
    let result = attack(&cache, 1, i, n);
    assert_eq!(compute_result(&result, n), (i as u128).pow(n));
    let i = 25;
    let n = 25;
    let result = attack(&cache, 1, i, n);
    assert_eq!(compute_result(&result, n), (i as u128).pow(n));
}

#[test]
fn test_pow_correct() {
    assert_eq!(10u32.pow(3), 1000);
}

#[test]
fn pow_u128_matches_exact_values() {
    assert_eq!(pow_u128(10, 3), 1000);
    assert_eq!(pow_u128(7, 0), 1);
    assert_eq!(pow_u128(1, 200), 1);
    assert_eq!(pow_u128(2, 127), 1u128 << 127);
}

#[test]
fn checked_pow_reports_overflow() {
    assert_eq!(checked_pow_u128(2, 127), Some(1u128 << 127));
    assert_eq!(checked_pow_u128(2, 128), None);
    assert_eq!(checked_pow_u128(u64::MAX, 3), None);
    assert_eq!(checked_pow_u128(0, 0), Some(1));
    assert_eq!(checked_pow_u128(0, 5), Some(0));
}

#[test]
fn single_base_exhausts_target() {
    // i = 2 leaves only base 1, so target 4 must come out as {1: 4}
    let cache = BestCache::new();
    let result = attack(&cache, 0, 2, 2);
    assert_eq!(result.len(), 1);
    assert_eq!(result.coefficient_of(1), 4);
    assert_eq!(compute_result(&result, 2), 4);
}

#[test]
fn decomposer_is_exact_and_in_domain() {
    let i = 10;
    let n = 3;
    let target = 1000u128;
    let m = exponent_polynomial(target, i, n);
    assert_eq!(compute_result(&m, n), target);
    let mut seen: Vec<u64> = Vec::new();
    for j in 0..m.len() {
        let (x, c) = m.entry_at(j);
        assert!(1 <= x && x < i);
        assert!(c >= 1);
        assert!(!seen.contains(&x));
        seen.push(x);
    }
}

#[test]
fn get_best_prefers_strictly_smaller_sum() {
    let mut a = CoefficientMap::new();
    a.insert(1, 5);
    let mut b = CoefficientMap::new();
    b.insert(2, 3);
    let best = get_best(a, b);
    assert_eq!(sum_coefficients(&best), 3);
    assert_eq!(best.coefficient_of(2), 3);
    assert_eq!(best.coefficient_of(1), 0);
}

#[test]
fn get_best_keeps_first_on_tie() {
    let mut a = CoefficientMap::new();
    a.insert(1, 3);
    let mut b = CoefficientMap::new();
    b.insert(2, 3);
    let best = get_best(a, b);
    assert_eq!(sum_coefficients(&best), 3);
    assert_eq!(best.coefficient_of(1), 3);
    assert_eq!(best.coefficient_of(2), 0);
}

#[test]
fn sum_coefficients_totals_all_entries() {
    let mut m = CoefficientMap::new();
    m.insert(1, 2);
    m.insert(3, 4);
    assert_eq!(sum_coefficients(&m), 6);
    let empty = CoefficientMap::new();
    assert_eq!(sum_coefficients(&empty), 0);
}

#[test]
fn compute_result_is_pure_and_exact() {
    let mut m = CoefficientMap::new();
    m.insert(2, 3);
    m.insert(3, 1);
    // 3 * 2^2 + 1 * 3^2 == 21
    let first = compute_result(&m, 2);
    let second = compute_result(&m, 2);
    assert_eq!(first, 21);
    assert_eq!(second, first);
    let empty = CoefficientMap::new();
    assert_eq!(compute_result(&empty, 7), 0);
}

#[test]
fn prior_result_returns_stored_map_unchanged() {
    let mut cache = BestCache::new();
    let i = 10;
    let n = 3;
    let target = 1000u128;
    let stored = exponent_polynomial(target, i, n);
    let stored_sum = sum_coefficients(&stored);
    let mut stored_coeffs: Vec<u128> = Vec::new();
    for x in 1..i {
        stored_coeffs.push(stored.coefficient_of(x));
    }
    cache.store(i, n, target, stored);
    let seed = get_prior_result(&cache, i, target, n);
    for x in 1..i {
        assert_eq!(seed.coefficient_of(x), stored_coeffs[(x - 1) as usize]);
    }
    assert_eq!(sum_coefficients(&seed), stored_sum);
    assert_eq!(compute_result(&seed, n), target);
    // a differing target for the same exponent must not be served from the cache
    let other = get_prior_result(&cache, i, 512, n);
    assert_eq!(compute_result(&other, n), 512);
}

#[test]
fn search_never_regresses_below_cached_prior() {
    let mut cache = BestCache::new();
    let i = 10;
    let n = 3;
    let target = 1000u128;
    let prior = exponent_polynomial(target, i, n);
    let prior_sum = sum_coefficients(&prior);
    cache.store(i, n, target, prior);
    for tries in 0..5 {
        let best = find_smallest_exponent_polynomial(&cache, tries, target, i, n);
        assert!(sum_coefficients(&best) <= prior_sum);
        assert_eq!(compute_result(&best, n), target);
    }
}

#[test]
fn cache_lookup_misses_other_problems() {
    let mut cache = BestCache::new();
    let m = exponent_polynomial(1000, 10, 3);
    cache.store(10, 3, 1000, m);
    assert!(cache.get(10, 3, 1000).is_some());
    assert!(cache.get(10, 4, 1000).is_none());
    assert!(cache.get(9, 3, 1000).is_none());
    assert!(cache.get(10, 3, 999).is_none());
}
