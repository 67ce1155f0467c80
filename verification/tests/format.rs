fn fmt<V: itoa::Integer>(v: V) -> String {
    let mut out: Vec<u8> = Vec::new();
    let n = itoa::write(&mut out, v);
    assert_eq!(n, out.len());
    String::from_utf8(out).unwrap()
}

#[test]
fn zero_u64() {
    assert_eq!(fmt(0u64), "0");
}

#[test]
fn u32_max_as_u64() {
    assert_eq!(fmt(4294967295u64), "4294967295");
}

#[test]
fn u64_max() {
    assert_eq!(fmt(18446744073709551615u64), "18446744073709551615");
}

#[test]
fn i64_min() {
    assert_eq!(fmt(i64::MIN), "-9223372036854775808");
}

#[test]
fn u128_max() {
    assert_eq!(fmt(u128::MAX), "340282366920938463463374607431768211455");
}

#[test]
fn i128_min() {
    assert_eq!(fmt(i128::MIN), "-170141183460469231731687303715884105728");
}

#[test]
fn appends_to_existing_sink() {
    let mut out: Vec<u8> = vec![b'x'];
    let n = itoa::write(&mut out, 42u8);
    assert_eq!(n, 2);
    assert_eq!(out, b"x42");
}

#[test]
fn extremes_round_trip_every_width() {
    assert_eq!(fmt(i8::MIN).parse::<i8>().unwrap(), i8::MIN);
    assert_eq!(fmt(i8::MAX).parse::<i8>().unwrap(), i8::MAX);
    assert_eq!(fmt(u8::MAX).parse::<u8>().unwrap(), u8::MAX);
    assert_eq!(fmt(i16::MIN).parse::<i16>().unwrap(), i16::MIN);
    assert_eq!(fmt(i16::MAX).parse::<i16>().unwrap(), i16::MAX);
    assert_eq!(fmt(u16::MAX).parse::<u16>().unwrap(), u16::MAX);
    assert_eq!(fmt(i32::MIN).parse::<i32>().unwrap(), i32::MIN);
    assert_eq!(fmt(i32::MAX).parse::<i32>().unwrap(), i32::MAX);
    assert_eq!(fmt(u32::MAX).parse::<u32>().unwrap(), u32::MAX);
    assert_eq!(fmt(i64::MIN).parse::<i64>().unwrap(), i64::MIN);
    assert_eq!(fmt(i64::MAX).parse::<i64>().unwrap(), i64::MAX);
    assert_eq!(fmt(u64::MAX).parse::<u64>().unwrap(), u64::MAX);
    assert_eq!(fmt(i128::MIN).parse::<i128>().unwrap(), i128::MIN);
    assert_eq!(fmt(i128::MAX).parse::<i128>().unwrap(), i128::MAX);
    assert_eq!(fmt(u128::MAX).parse::<u128>().unwrap(), u128::MAX);
    assert_eq!(fmt(isize::MIN).parse::<isize>().unwrap(), isize::MIN);
    assert_eq!(fmt(isize::MAX).parse::<isize>().unwrap(), isize::MAX);
    assert_eq!(fmt(usize::MAX).parse::<usize>().unwrap(), usize::MAX);
}

#[test]
fn zero_every_width() {
    assert_eq!(fmt(0i8), "0");
    assert_eq!(fmt(0u8), "0");
    assert_eq!(fmt(0i16), "0");
    assert_eq!(fmt(0u16), "0");
    assert_eq!(fmt(0i32), "0");
    assert_eq!(fmt(0u32), "0");
    assert_eq!(fmt(0i64), "0");
    assert_eq!(fmt(0u64), "0");
    assert_eq!(fmt(0i128), "0");
    assert_eq!(fmt(0u128), "0");
    assert_eq!(fmt(0isize), "0");
    assert_eq!(fmt(0usize), "0");
}

#[test]
fn round_trip_i64_samples() {
    let samples: Vec<i64> = vec![
        0,
        1,
        -1,
        9,
        10,
        -10,
        99,
        100,
        -101,
        9999,
        10000,
        -10001,
        123456789,
        -987654321,
        99999999999999999,
        -100000000000000000,
        i64::MAX,
        i64::MIN,
    ];
    for &v in &samples {
        assert_eq!(fmt(v).parse::<i64>().unwrap(), v);
    }
}

#[test]
fn round_trip_u128_samples() {
    let samples: Vec<u128> = vec![
        0,
        9999,
        10000,
        u64::MAX as u128,
        u64::MAX as u128 + 1,
        10_000_000_000_000_000_000,
        10_000_000_000_000_000_000u128 * 10_000_000_000_000_000_000u128,
        u128::MAX - 1,
        u128::MAX,
    ];
    for &v in &samples {
        assert_eq!(fmt(v).parse::<u128>().unwrap(), v);
    }
}

#[test]
fn length_never_exceeds_width_maximum() {
    assert!(fmt(i8::MIN).len() <= 4);
    assert!(fmt(u8::MAX).len() <= 3);
    assert!(fmt(i16::MIN).len() <= 6);
    assert!(fmt(u16::MAX).len() <= 5);
    assert!(fmt(i32::MIN).len() <= 11);
    assert!(fmt(u32::MAX).len() <= 10);
    assert!(fmt(i64::MIN).len() <= 20);
    assert!(fmt(u64::MAX).len() <= 20);
    assert!(fmt(i128::MIN).len() <= 40);
    assert!(fmt(u128::MAX).len() <= 39);
}

#[test]
fn no_leading_zero_except_zero_itself() {
    let values: Vec<u64> = vec![1, 5, 10, 100, 1000, 10000, 100001, 1000000007];
    for &v in &values {
        let s = fmt(v);
        assert_ne!(s.as_bytes()[0], b'0');
    }
    assert_eq!(fmt(0u64), "0");
    let s = fmt(-5000i64);
    assert_eq!(s.as_bytes()[0], b'-');
    assert_ne!(s.as_bytes()[1], b'0');
}

#[test]
fn sign_exactly_on_negatives() {
    assert!(fmt(-1i8).starts_with('-'));
    assert!(fmt(-1i128).starts_with('-'));
    assert!(!fmt(0i32).starts_with('-'));
    assert!(!fmt(1i32).starts_with('-'));
    assert!(!fmt(i64::MAX).starts_with('-'));
    assert_eq!(fmt(-1i64), "-1");
    assert_eq!(fmt(-10000i32), "-10000");
}
