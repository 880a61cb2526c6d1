use divisible_by::utils::{alternating_digit_sum, digit_sum, last_digit};

const SAMPLES: [u64; 12] = [
    0,
    1,
    9,
    10,
    11,
    99,
    123,
    6468,
    1309027009,
    285889432707005401,
    12654177670040363229,
    u64::MAX,
];

#[test]
fn alternating_digit_sum_returns_the_alternating_digit_sum() {
    assert_eq!(alternating_digit_sum(0), 0);
    assert_eq!(alternating_digit_sum(2), 2);
    assert_eq!(alternating_digit_sum(12), -1);
    assert_eq!(alternating_digit_sum(6468), 0);
}

#[test]
fn alternating_digit_sum_counts_from_the_leading_digit() {
    assert_eq!(alternating_digit_sum(123), 2);
    assert_eq!(alternating_digit_sum(1000), 1);
    assert_eq!(alternating_digit_sum(90), 9);
    // 1 - 8 + 4 - 4 + 6 - 7 + 4 - 4 + 0 - 7 + 3 - 7 + 0 - 9 + 5 - 5 + 1 - 6 + 1 - 5
    assert_eq!(alternating_digit_sum(u64::MAX), -37);
}

#[test]
fn alternating_digit_sum_is_bounded() {
    for n in SAMPLES {
        assert!(alternating_digit_sum(n).unsigned_abs() <= n);
    }
}

#[test]
fn digit_sum_returns_the_digit_sum() {
    assert_eq!(digit_sum(0), 0);
    assert_eq!(digit_sum(1), 1);
    assert_eq!(digit_sum(12), 3);
    assert_eq!(digit_sum(6468), 24);
    assert_eq!(digit_sum(u64::MAX), 87);
}

#[test]
fn digit_sum_is_bounded() {
    for n in SAMPLES {
        let s = digit_sum(n);
        assert!(s <= n);
        assert_eq!(s == n, n < 10);
    }
}

#[test]
fn last_digit_returns_the_last_digit() {
    assert_eq!(last_digit(0), 0);
    assert_eq!(last_digit(11), 1);
    assert_eq!(last_digit(123), 3);
    assert_eq!(last_digit(u64::MAX), 5);
}

#[test]
fn last_digit_returns_a_single_digit() {
    for n in SAMPLES {
        assert!(last_digit(n) < 10);
    }
}

#[test]
fn last_digit_returns_something_n_ends_with() {
    for n in SAMPLES {
        let result = last_digit(n).to_string();
        assert!(n.to_string().ends_with(&result[..]));
    }
}
