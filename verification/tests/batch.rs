use powsum::coeffs::compute_result;
use powsum::search::{run_batch, run_batch_checked};

#[test]
fn batch_covers_every_exponent_in_order() {
    let i = 10u64;
    let n_max = 5u32;
    let results = run_batch(i, n_max, 2);
    assert_eq!(results.len(), (n_max - 1) as usize);
    for j in 0..results.len() {
        let n = results.exponent_at(j);
        assert_eq!(n, j as u32 + 2);
        let m = results.map_at(j);
        assert_eq!(compute_result(m, n), (i as u128).pow(n));
        for x in 1..i {
            let _ = m.coefficient_of(x);
        }
        // no base outside [1, i) may carry a coefficient
        assert_eq!(m.coefficient_of(0), 0);
        assert_eq!(m.coefficient_of(i), 0);
        assert_eq!(m.coefficient_of(i + 1), 0);
    }
}

#[test]
fn checked_batch_rejects_bad_input() {
    assert!(run_batch_checked(1, 3, 1).is_none());
    assert!(run_batch_checked(0, 3, 1).is_none());
    assert!(run_batch_checked(10, 1, 1).is_none());
    assert!(run_batch_checked(10, 0, 1).is_none());
    // target (2^64 - 1)^3 cannot be held in 128 bits
    assert!(run_batch_checked(u64::MAX, 3, 1).is_none());
    // 2^200 cannot either
    assert!(run_batch_checked(2, 200, 1).is_none());
}

#[test]
fn checked_batch_accepts_valid_input() {
    let results = run_batch_checked(3, 4, 1).unwrap();
    assert_eq!(results.len(), 3);
    for j in 0..results.len() {
        let n = results.exponent_at(j);
        let m = results.map_at(j);
        assert_eq!(compute_result(m, n), (3 as u128).pow(n));
    }
}
