use euler::sqrt_expansion::{approx_sqrt, expanded_sqrt, integer_sqrt, is_odd, ExpandedSqrt, SqrtExpansionResult};

#[test]
fn test_approx_sqrt() {
    let test_cases = [
        (0, 0),
        (1, 1),
        (2, 1),
        (3, 1),
        (4, 2),
        (5, 2),
        (6, 2),
        (7, 2),
        (8, 2),
        (9, 3),
        (10, 3),
        (24, 4),
        (25, 5),
        (25, 5),
        (31, 5),
        (35, 5),
        (36, 6),
        (37, 6),
        (99, 9),
        (100, 10),
    ];
    for (n, expected) in test_cases {
        let actual = approx_sqrt(n);
        assert_eq!(expected, actual, "sqrt({})", n);
    }
}

#[test]
fn approx_sqrt_of_largest() {
    assert_eq!(65535, approx_sqrt(u32::MAX));
    assert_eq!(4_294_967_295, integer_sqrt(u64::MAX));
    assert_eq!(775_146, integer_sqrt(600_851_475_143));
}

#[test]
fn test_expanded_sqrt() {
    let test_cases = [
        (2, SqrtExpansionResult::expanded(1, vec![2], 0)),
        (3, SqrtExpansionResult::expanded(1, vec![1, 2], 0)),
        (4, SqrtExpansionResult::perfect(2)),
        (5, SqrtExpansionResult::expanded(2, vec![4], 0)),
        (6, SqrtExpansionResult::expanded(2, vec![2, 4], 0)),
        (7, SqrtExpansionResult::expanded(2, vec![1, 1, 1, 4], 0)),
        (8, SqrtExpansionResult::expanded(2, vec![1, 4], 0)),
        (9, SqrtExpansionResult::perfect(3)),
        (10, SqrtExpansionResult::expanded(3, vec![6], 0)),
        (11, SqrtExpansionResult::expanded(3, vec![3, 6], 0)),
        (12, SqrtExpansionResult::expanded(3, vec![2, 6], 0)),
        (13, SqrtExpansionResult::expanded(3, vec![1, 1, 1, 1, 6], 0)),
        (23, SqrtExpansionResult::expanded(4, vec![1, 3, 1, 8], 0)),
    ];
    for (n, expected) in test_cases {
        let actual = expanded_sqrt(n);
        assert_eq!(expected, actual, "sqrt({})", n);
    }
}

#[test]
fn period_lengths() {
    let expanded = ExpandedSqrt::new(4, vec![1, 3, 1, 8], 0);
    assert_eq!(4, expanded.period_len());
    assert_eq!(2, ExpandedSqrt::new(1, vec![5, 1, 2], 1).period_len());
    let odd = (2..=13)
        .filter_map(|n| match expanded_sqrt(n) {
            SqrtExpansionResult::Expanded(e) => Some(e.period_len()),
            _ => None,
        })
        .filter(|len| is_odd(*len))
        .count();
    assert_eq!(4, odd);
}
