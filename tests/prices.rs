use orderbook::types::{Price, Qty};

#[test]
fn price_scaling_round_trips() {
    let cases: [(&str, (u64, u64)); 5] = [
        ("99999.99", (99999, 99)),
        ("100", (100, 0)),
        ("100.5", (100, 50)),
        ("0.01", (0, 1)),
        ("7.00", (7, 0)),
    ];
    for (text, parts) in cases {
        assert_eq!(Price::from_decimal(text.as_bytes()).unwrap().to_decimal(), parts);
    }
}

#[test]
fn price_rounds_half_up() {
    assert_eq!(Price::from_decimal(b"1.005"), Some(Price(101)));
    assert_eq!(Price::from_decimal(b"1.004"), Some(Price(100)));
    assert_eq!(Price::from_decimal(b"1.0049"), Some(Price(100)));
    assert_eq!(Price::from_decimal(b"99999.995"), Some(Price(10000000)));
}

#[test]
fn price_rejects_non_decimals() {
    assert_eq!(Price::from_decimal(b""), None);
    assert_eq!(Price::from_decimal(b".5"), None);
    assert_eq!(Price::from_decimal(b"5."), None);
    assert_eq!(Price::from_decimal(b"-5"), None);
    assert_eq!(Price::from_decimal(b"1e"), None);
    assert_eq!(Price::from_decimal(b"1e+"), None);
    assert_eq!(Price::from_decimal(b"1.5x"), None);
    assert_eq!(Price::from_decimal(b"++1"), None);
    assert_eq!(Price::from_decimal(b"1.2.3"), None);
}

#[test]
fn price_rejects_values_that_do_not_fit() {
    assert_eq!(Price::from_decimal(b"184467440737095516.15"), Some(Price(u64::MAX)));
    assert_eq!(Price::from_decimal(b"184467440737095516.16"), None);
    assert_eq!(Price::from_decimal(b"99999999999999999999999"), None);
}

#[test]
fn quantity_has_eight_digits() {
    assert_eq!(Qty::from_decimal(b"0.527"), Some(Qty(52_700_000)));
    assert_eq!(Qty::from_decimal(b"3.1404"), Some(Qty(314_040_000)));
    assert_eq!(Qty::from_decimal(b"0.000000005"), Some(Qty(1)));
    assert!(Qty::from_decimal(b"0.0").unwrap().is_zero());
    assert!(!Qty::from_decimal(b"0.00000001").unwrap().is_zero());
}

#[test]
fn price_reads_sign_and_exponent() {
    assert_eq!(Price::from_decimal(b"+100.25"), Some(Price(10025)));
    assert_eq!(Price::from_decimal(b"1e2"), Some(Price(10000)));
    assert_eq!(Price::from_decimal(b"1E+2"), Some(Price(10000)));
    assert_eq!(Price::from_decimal(b"12345e-2"), Some(Price(12345)));
    assert_eq!(Price::from_decimal(b"1.2345e1"), Some(Price(1235)));
    assert_eq!(Price::from_decimal(b"5e-3"), Some(Price(1)));
    assert_eq!(Price::from_decimal(b"4e-3"), Some(Price(0)));
    assert_eq!(Price::from_decimal(b"1e-99999999999999999999999"), Some(Price(0)));
    assert_eq!(Price::from_decimal(b"0e99999999999999999999999"), Some(Price(0)));
    assert_eq!(Price::from_decimal(b"1e99999999999999999999999"), None);
    assert_eq!(Price::from_decimal(b"1e17"), Some(Price(10_000_000_000_000_000_000)));
    assert_eq!(Price::from_decimal(b"1e18"), None);
}

#[test]
fn tiny_positive_quantity_stays_non_zero() {
    assert_eq!(Qty::from_decimal(b"0.000000001"), Some(Qty(1)));
    assert_eq!(Qty::from_decimal(b"1e-12"), Some(Qty(1)));
    assert_eq!(Qty::from_decimal(b"0e-12"), Some(Qty(0)));
    assert_eq!(Qty::from_decimal(b"0.000"), Some(Qty(0)));
}
