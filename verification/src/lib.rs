//! Search for non-negative integer coefficients a_1 .. a_{i-1} with
//! a_1 * 1^n + a_2 * 2^n + ... + a_{i-1} * (i-1)^n == i^n,
//! by repeated randomized greedy decomposition, keeping the candidate
//! with the smallest total coefficient sum.

pub mod power;
pub mod coeffs;
pub mod decompose;
pub mod search;
