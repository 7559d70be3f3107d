use mapper_ex::{count_digits, detect_precision, scale};

#[test]
fn test_count_digits() {
    assert_eq!(count_digits(0), 1);
    assert_eq!(count_digits(1), 1);
    assert_eq!(count_digits(9), 1);
    assert_eq!(count_digits(10), 2);
    assert_eq!(count_digits(99), 2);
    assert_eq!(count_digits(100), 3);
    assert_eq!(count_digits(1769018088), 10);
    assert_eq!(count_digits(1769018088144), 13);
    assert_eq!(count_digits(1769018088144506), 16);
    assert_eq!(count_digits(1769018088144506000), 19);
}

#[test]
fn test_detect_precision() {
    assert_eq!(detect_precision(1769018088), 0);
    assert_eq!(detect_precision(1769018088144), 3);
    assert_eq!(detect_precision(1769018088144506), 6);
    assert_eq!(detect_precision(1769018088144506000), 9);
    assert_eq!(detect_precision(0), 0);
    assert_eq!(detect_precision(-1769018088144506), 6);
}

#[test]
fn test_scale() {
    assert_eq!(scale(1000, 3, 3), 1000);
    assert_eq!(scale(1, 0, 9), 1_000_000_000);
    assert_eq!(scale(1000, 3, 9), 1_000_000_000);
    assert_eq!(scale(1000000, 6, 9), 1_000_000_000);
    assert_eq!(scale(1_000_000_000, 9, 0), 1);
    assert_eq!(scale(1_000_000_000, 9, 3), 1_000);
    assert_eq!(scale(1_000_000_000, 9, 6), 1_000_000);
    assert_eq!(scale(1769018088144506, 6, 9), 1769018088144506000);
}

#[test]
fn count_digits_of_largest() {
    assert_eq!(count_digits(u64::MAX), 20);
}

#[test]
fn precision_boundaries_by_digit_count() {
    assert_eq!(detect_precision(9_999_999_999), 0);
    assert_eq!(detect_precision(10_000_000_000), 3);
    assert_eq!(detect_precision(9_999_999_999_999), 3);
    assert_eq!(detect_precision(10_000_000_000_000), 6);
    assert_eq!(detect_precision(9_999_999_999_999_999), 6);
    assert_eq!(detect_precision(10_000_000_000_000_000), 9);
    assert_eq!(detect_precision(i64::MIN), 9);
}

#[test]
fn scale_identity_each_precision() {
    for p in 0u8..=9 {
        assert_eq!(scale(123456789, p, p), 123456789);
        assert_eq!(scale(-5, p, p), -5);
    }
}

#[test]
fn scale_saturates_and_truncates() {
    assert_eq!(scale(i64::MAX / 10, 0, 9), i64::MAX);
    assert_eq!(scale(i64::MIN / 10, 0, 9), i64::MIN);
    assert_eq!(scale(-1999, 3, 0), -1);
    assert_eq!(scale(1999, 3, 0), 1);
}
