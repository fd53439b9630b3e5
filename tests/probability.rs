use coupon_collector::{at_least_k_targets, exact_hit_terms, CouponError};

fn exact_hit(p: &[f64], n: usize, target: &Vec<usize>) -> f64 {
    let mut q = 0.0;
    for t in exact_hit_terms(n, target) {
        let mass: f64 = t.positions.iter().map(|&i| p[i]).sum();
        let sign = if t.negative { -1.0 } else { 1.0 };
        q += sign * mass.powi(n as i32);
    }
    q
}

fn at_least_k(p: &[f64], n: usize, k: usize, group: &Vec<usize>) -> Result<f64, CouponError> {
    let targets = at_least_k_targets(p.len(), n, k, group)?;
    let mut q = 0.0;
    for t in &targets {
        q += exact_hit(p, n, t);
    }
    Ok(q)
}

#[test]
fn exact_hit_zero_when_draws_too_few() {
    let p = vec![0.25, 0.25, 0.25, 0.25];
    assert_eq!(exact_hit(&p, 2, &vec![1, 2, 3]), 0.0);
    assert_eq!(exact_hit(&p, 3, &vec![1, 2, 3, 4]), 0.0);
}

#[test]
fn exact_hit_two_fair_types_two_draws() {
    let p = vec![0.5, 0.5];
    assert!((exact_hit(&p, 2, &vec![1, 2]) - 0.5).abs() < 1e-12);
}

#[test]
fn exact_hit_three_fair_types_three_draws() {
    let p = vec![1.0 / 3.0; 3];
    let want = 6.0 / 27.0;
    assert!((exact_hit(&p, 3, &vec![1, 2, 3]) - want).abs() < 1e-12);
}

#[test]
fn exact_hit_single_type_is_every_draw_that_type() {
    let p = vec![0.3, 0.7];
    let want = 0.7f64.powi(4);
    assert!((exact_hit(&p, 4, &vec![2]) - want).abs() < 1e-12);
    assert!((exact_hit(&p, 4, &vec![1]) - 0.3f64.powi(4)).abs() < 1e-12);
}

#[test]
fn exact_hit_uses_one_based_identifiers() {
    let p = vec![0.1, 0.2, 0.7];
    let got = exact_hit(&p, 2, &vec![1, 3]);
    let want = 0.8f64.powi(2) - 0.1f64.powi(2) - 0.7f64.powi(2);
    assert!((got - want).abs() < 1e-12);
}

#[test]
fn at_least_full_group_equals_exact_hit_of_all() {
    let p = vec![0.1, 0.2, 0.3, 0.4];
    let all = vec![1, 2, 3, 4];
    let a = at_least_k(&p, 7, 4, &vec![3, 1, 4, 2]).unwrap();
    let b = exact_hit(&p, 7, &all);
    assert!((a - b).abs() < 1e-12);
}

#[test]
fn at_least_is_non_increasing_in_k() {
    let p = vec![0.1, 0.15, 0.25, 0.2, 0.3];
    let group = vec![1, 2, 4, 5];
    let mut last = f64::INFINITY;
    for k in 1..=group.len() {
        let q = at_least_k(&p, 6, k, &group).unwrap();
        assert!(q <= last + 1e-12);
        last = q;
    }
}

#[test]
fn at_least_errors() {
    let p = vec![0.2; 5];
    assert_eq!(at_least_k(&p, 0, 2, &vec![1, 2, 3]), Err(CouponError::TrialsNotPositive));
    assert_eq!(at_least_k(&p, 10, 0, &vec![1, 2, 3]), Err(CouponError::InvalidK));
    assert_eq!(at_least_k(&p, 10, 4, &vec![1, 2, 3]), Err(CouponError::InvalidK));
}

#[test]
fn at_least_two_of_three_among_five_fair_types() {
    let p = vec![0.2, 0.2, 0.2, 0.2, 0.2];
    let got = at_least_k(&p, 10, 2, &vec![1, 2, 3]).unwrap();
    // At most one of three given types in ten draws: none of them, or exactly one.
    let want = 1.0 - 3.0 * 0.6f64.powi(10) + 2.0 * 0.4f64.powi(10);
    assert!((got - want).abs() < 1e-9);
    assert!((got - 0.9820698624).abs() < 1e-9);
}

#[test]
fn at_least_one_of_one_type() {
    let p = vec![0.5, 0.5];
    let got = at_least_k(&p, 3, 1, &vec![1]).unwrap();
    assert!((got - 0.875).abs() < 1e-12);
}
