use coupon_collector::{
    at_least_k_targets, combinations_at_least, combinations_exact, complement_indices,
    exact_hit_terms, sorted_indices, CouponError,
};

fn binomial(n: u64, k: u64) -> u64 {
    if k > n {
        return 0;
    }
    let mut r: u64 = 1;
    for i in 0..k {
        r = r * (n - i) / (i + 1);
    }
    r
}

#[test]
fn exact_pairs_of_three_in_order() {
    let items = vec![1u32, 2, 3];
    let got = combinations_exact(&items, 2).unwrap();
    assert_eq!(got, vec![vec![1, 2], vec![1, 3], vec![2, 3]]);
}

#[test]
fn exact_zero_gives_only_empty_subset() {
    let items = vec![4u32, 5, 6, 7];
    assert_eq!(combinations_exact(&items, 0).unwrap(), vec![Vec::<u32>::new()]);
    let none: Vec<u32> = Vec::new();
    assert_eq!(combinations_exact(&none, 0).unwrap(), vec![Vec::<u32>::new()]);
}

#[test]
fn exact_full_length_gives_whole_sequence() {
    let items = vec![9u32, 3, 5, 1];
    assert_eq!(combinations_exact(&items, 4).unwrap(), vec![items.clone()]);
}

#[test]
fn exact_singleton_with_one() {
    let items = vec![0.75f64];
    assert_eq!(combinations_exact(&items, 1).unwrap(), vec![vec![0.75f64]]);
}

#[test]
fn exact_count_is_binomial() {
    let items: Vec<u32> = (10..17).collect();
    for k in 0..=items.len() {
        let got = combinations_exact(&items, k).unwrap();
        assert_eq!(got.len() as u64, binomial(items.len() as u64, k as u64));
        for c in &got {
            assert_eq!(c.len(), k);
        }
    }
}

#[test]
fn exact_too_large_fails() {
    let items = vec![1u32, 2, 3];
    assert_eq!(combinations_exact(&items, 4), Err(CouponError::SizeExceedsItems));
    let none: Vec<u32> = Vec::new();
    assert_eq!(combinations_exact(&none, 1), Err(CouponError::SizeExceedsItems));
}

#[test]
fn exact_equal_values_count_by_position() {
    let items = vec![1u32, 2, 2];
    let got = combinations_exact(&items, 2).unwrap();
    assert_eq!(got, vec![vec![1, 2], vec![1, 2], vec![2, 2]]);
}

#[test]
fn exact_keeps_float_values() {
    let p = vec![0.1f64, 0.2, 0.3];
    let got = combinations_exact(&p, 2).unwrap();
    assert_eq!(got, vec![vec![0.1, 0.2], vec![0.1, 0.3], vec![0.2, 0.3]]);
}

#[test]
fn at_least_zero_is_power_set_smallest_first() {
    let items = vec![1u32, 2, 3];
    let got = combinations_at_least(&items, 0).unwrap();
    assert_eq!(
        got,
        vec![
            vec![],
            vec![1],
            vec![2],
            vec![3],
            vec![1, 2],
            vec![1, 3],
            vec![2, 3],
            vec![1, 2, 3],
        ]
    );
}

#[test]
fn at_least_two_of_three() {
    let items = vec![1u32, 2, 3];
    let got = combinations_at_least(&items, 2).unwrap();
    assert_eq!(got, vec![vec![1, 2], vec![1, 3], vec![2, 3], vec![1, 2, 3]]);
    assert_eq!(combinations_at_least(&items, 3).unwrap(), vec![vec![1, 2, 3]]);
}

#[test]
fn at_least_too_large_fails() {
    let items = vec![1u32, 2, 3];
    assert_eq!(combinations_at_least(&items, 4), Err(CouponError::SizeExceedsItems));
    assert_eq!(combinations_at_least(&items, 100), Err(CouponError::SizeExceedsItems));
}

#[test]
fn error_messages() {
    assert_eq!(CouponError::SizeExceedsItems.message(), "k exceeds available items");
    assert_eq!(CouponError::TrialsNotPositive.message(), "trials must be positive");
    assert_eq!(CouponError::InvalidK.message(), "invalid k value");
}

#[test]
fn complement_skips_group_members() {
    assert_eq!(complement_indices(5, &vec![1, 3]), vec![2, 4, 5]);
    assert_eq!(complement_indices(3, &vec![3, 2, 1]), Vec::<usize>::new());
    assert_eq!(complement_indices(0, &vec![]), Vec::<usize>::new());
}

#[test]
fn sorting_indices() {
    assert_eq!(sorted_indices(&vec![5, 1, 4, 1, 3]), vec![1, 1, 3, 4, 5]);
    assert_eq!(sorted_indices(&vec![]), Vec::<usize>::new());
}

#[test]
fn exact_hit_terms_none_when_too_few_draws() {
    assert!(exact_hit_terms(2, &vec![1, 2, 3]).is_empty());
    assert!(exact_hit_terms(0, &vec![4]).is_empty());
}

#[test]
fn exact_hit_terms_signs_and_zero_based_positions() {
    let terms = exact_hit_terms(3, &vec![2, 5]);
    let got: Vec<(bool, Vec<usize>)> =
        terms.iter().map(|t| (t.negative, t.positions.clone())).collect();
    assert_eq!(
        got,
        vec![
            (false, vec![]),
            (true, vec![1]),
            (true, vec![4]),
            (false, vec![1, 4]),
        ]
    );
}

#[test]
fn exact_hit_terms_empty_target() {
    let terms = exact_hit_terms(0, &vec![]);
    assert_eq!(terms.len(), 1);
    assert!(!terms[0].negative);
    assert!(terms[0].positions.is_empty());
}

#[test]
fn targets_reject_zero_trials() {
    assert_eq!(
        at_least_k_targets(5, 0, 2, &vec![1, 2, 3]),
        Err(CouponError::TrialsNotPositive)
    );
    assert_eq!(
        at_least_k_targets(5, 0, 0, &vec![1, 2, 3]),
        Err(CouponError::TrialsNotPositive)
    );
}

#[test]
fn targets_reject_bad_threshold() {
    assert_eq!(at_least_k_targets(5, 3, 0, &vec![1, 2, 3]), Err(CouponError::InvalidK));
    assert_eq!(at_least_k_targets(5, 3, 4, &vec![1, 2, 3]), Err(CouponError::InvalidK));
}

#[test]
fn targets_join_group_part_with_outside_part() {
    let got = at_least_k_targets(4, 3, 2, &vec![3, 1]).unwrap();
    assert_eq!(
        got,
        vec![vec![1, 3], vec![1, 2, 3], vec![1, 3, 4], vec![1, 2, 3, 4]]
    );
}

#[test]
fn targets_count_for_demo_input() {
    let got = at_least_k_targets(5, 10, 2, &vec![1, 2, 3]).unwrap();
    assert_eq!(got.len(), 16);
    for t in &got {
        let from_group = t.iter().filter(|&&x| x <= 3).count();
        assert!(from_group >= 2);
        assert!(t.windows(2).all(|w| w[0] < w[1]));
    }
}

#[test]
fn targets_full_group_full_threshold_is_all_types() {
    let got = at_least_k_targets(4, 6, 4, &vec![4, 2, 1, 3]).unwrap();
    assert_eq!(got, vec![vec![1, 2, 3, 4]]);
}

#[test]
fn targets_higher_threshold_is_suffix() {
    let group = vec![1, 2, 4];
    let low = at_least_k_targets(5, 8, 1, &group).unwrap();
    let high = at_least_k_targets(5, 8, 2, &group).unwrap();
    assert!(high.len() < low.len());
    assert_eq!(&low[low.len() - high.len()..], &high[..]);
}
