use itoa::udiv128::{divmod_paths_agree, u128_mulhi, udivmod, udivmod_1e19, udivmod_1e4};

const D19: u128 = 10_000_000_000_000_000_000;

#[test]
fn divide_by_1e19_matches_native() {
    let samples: Vec<u128> = vec![
        0,
        1,
        D19 - 1,
        D19,
        D19 + 1,
        (1u128 << 83) - 1,
        1u128 << 83,
        (1u128 << 83) + 12345,
        u64::MAX as u128,
        D19 * D19,
        D19 * D19 + 7,
        u128::MAX - 1,
        u128::MAX,
    ];
    for &n in &samples {
        let (q, r) = udivmod_1e19(n);
        assert_eq!(q, n / D19);
        assert_eq!(r as u128, n % D19);
        assert!((r as u128) < D19);
    }
}

#[test]
fn divide_by_1e4_matches_native() {
    let samples: Vec<u128> = vec![0, 1, 9999, 10000, 10001, u64::MAX as u128, u128::MAX];
    for &n in &samples {
        let (q, r) = udivmod_1e4(n);
        assert_eq!(q, n / 10000);
        assert_eq!(r as u128, n % 10000);
        assert!(r < 10000);
    }
}

#[test]
fn general_divide_covers_all_magnitudes() {
    let dividends: Vec<u128> = vec![0, 1, 2, 9999, u64::MAX as u128, 1u128 << 64, u128::MAX];
    let divisors: Vec<u128> = vec![
        1,
        2,
        3,
        10,
        10000,
        1 << 13,
        D19,
        u64::MAX as u128,
        1u128 << 64,
        1u128 << 127,
        u128::MAX,
    ];
    for &n in &dividends {
        for &d in &divisors {
            let (q, r) = udivmod(n, d);
            assert_eq!(q, n / d, "quotient for {} / {}", n, d);
            assert_eq!(r, n % d, "remainder for {} % {}", n, d);
            assert!(r < d);
        }
    }
}

#[test]
fn fast_paths_agree_with_oracle() {
    let samples: Vec<u128> = vec![
        0,
        1,
        9999,
        10000,
        D19 - 1,
        D19,
        (1u128 << 83) + 99,
        u64::MAX as u128,
        D19 * D19 - 1,
        u128::MAX,
    ];
    for &n in &samples {
        assert!(divmod_paths_agree(n));
    }
}

#[test]
fn mulhi_known_products() {
    assert_eq!(u128_mulhi(0, u128::MAX), 0);
    assert_eq!(u128_mulhi(1, 1), 0);
    assert_eq!(u128_mulhi(1u128 << 64, 1u128 << 64), 1);
    assert_eq!(u128_mulhi(u128::MAX, u128::MAX), u128::MAX - 1);
    assert_eq!(u128_mulhi(u128::MAX, 2), 1);
    // the reciprocal product that drives the divide-by-1e19 fast path
    let c: u128 = 156927543384667019095894735580191660403;
    let n: u128 = u128::MAX;
    assert_eq!(u128_mulhi(n, c) >> 62, n / D19);
}
