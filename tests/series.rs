use prime_gen::series::{compute_series_sum, find_gcd};

#[test]
fn gcd_examples() {
    assert_eq!(find_gcd(12, 18), 6);
    assert_eq!(find_gcd(18, 12), 6);
    assert_eq!(find_gcd(17, 5), 1);
    assert_eq!(find_gcd(0, 5), 5);
    assert_eq!(find_gcd(7, 0), 7);
    assert_eq!(find_gcd(0, 0), 0);
    assert_eq!(find_gcd(i32::MAX, i32::MAX), i32::MAX);
}

#[test]
fn series_power_zero() {
    assert_eq!(compute_series_sum(0, 2), Some((1, 1)));
    assert_eq!(compute_series_sum(0, 5), Some((1, 4)));
}

#[test]
fn series_base_two() {
    assert_eq!(compute_series_sum(1, 2), Some((2, 1)));
    assert_eq!(compute_series_sum(2, 2), Some((6, 1)));
    assert_eq!(compute_series_sum(3, 2), Some((18, 1)));
}

#[test]
fn series_base_three() {
    assert_eq!(compute_series_sum(1, 3), Some((3, 4)));
    assert_eq!(compute_series_sum(2, 3), Some((15, 8)));
}

#[test]
fn series_reduced_fractions() {
    assert_eq!(compute_series_sum(1, 4), Some((4, 9)));
    assert_eq!(compute_series_sum(2, 4), Some((28, 27)));
    assert_eq!(compute_series_sum(1, 10), Some((10, 81)));
    assert_eq!(compute_series_sum(2, 10), Some((190, 729)));
}

#[test]
fn series_overflow_is_reported() {
    assert_eq!(compute_series_sum(10, 10), None);
}
