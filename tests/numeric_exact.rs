use gbdt::numeric::{leaf_weight_of, ratio_greater, split_gain, split_score};

#[test]
fn split_score_is_exact() {
    // 4 documents summing to 0, left holds 2 documents summing to -2000.
    assert_eq!(split_score(4, 0, 2, -2000), (16_000_000, 4));
    assert_eq!(split_score(4, 0, 1, -1000), (4_000_000, 3));
}

#[test]
fn ratio_comparison_is_exact() {
    assert!(ratio_greater(16_000_000, 4, 4_000_000, 3));
    assert!(!ratio_greater(4_000_000, 3, 16_000_000, 4));
    assert!(!ratio_greater(2, 4, 1, 2));
}

#[test]
fn leaf_weight_rounds_toward_zero() {
    assert_eq!(leaf_weight_of(-7, 2), -3);
    assert_eq!(leaf_weight_of(7, 2), 3);
    assert_eq!(leaf_weight_of(5, 0), 0);
}

#[test]
fn gain_matches_formula() {
    assert_eq!(split_gain(2, -2000, 2, 2000), 4_000_000);
    assert_eq!(split_gain(0, 0, 4, 100), 0);
    // (1 * 3 / 4) * (3 - 1)^2 = 3
    assert_eq!(split_gain(1, 3, 3, 3), 3);
}
