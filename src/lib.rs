//! Exact coupon-collector probabilities: which subsets, with which signs, make up
//! the nested inclusion-exclusion sums, enumerated with proved contracts.
//!
//! The library lists the work; the floating-point sums are left to the caller:
//! the probability that exactly the types of a target set are drawn is the sum of
//! the signed terms of `exact_hit_terms`, and the probability that at least `k`
//! types of a group are collected is the sum of those exact-hit probabilities over
//! the target sets of `at_least_k_targets`.

pub mod combinations;
pub mod error;
pub mod expansion;
pub mod ordering;

pub use combinations::{combinations_at_least, combinations_exact};
pub use error::CouponError;
pub use expansion::{at_least_k_targets, complement_indices, exact_hit_terms, Term};
pub use ordering::sorted_indices;
