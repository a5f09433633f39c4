use arbitrage_contract::numeric::{parse_amount, profit_units, render_decimal, threshold_met, ONE_WHOLE};

#[test]
fn renders_decimal_ids() {
    assert_eq!(render_decimal(0), "0");
    assert_eq!(render_decimal(7), "7");
    assert_eq!(render_decimal(10), "10");
    assert_eq!(render_decimal(1234567890), "1234567890");
    assert_eq!(render_decimal(u64::MAX), u64::MAX.to_string());
}

#[test]
fn parses_amounts_in_minor_units() {
    assert_eq!(parse_amount("1.0"), Some(ONE_WHOLE));
    assert_eq!(parse_amount("1"), Some(ONE_WHOLE));
    assert_eq!(parse_amount("0.01"), Some(ONE_WHOLE / 100));
    assert_eq!(parse_amount("2950.5"), Some(2950 * ONE_WHOLE + ONE_WHOLE / 2));
    assert_eq!(parse_amount("0.000000000000000000000001"), Some(1));
    assert_eq!(parse_amount("340282366920938.463463374607431768211455"), Some(u128::MAX));
    assert_eq!(parse_amount("340282366920938.463463374607431768211456"), None);
    assert_eq!(parse_amount("340282366920938.463463374607431768"), Some(340282366920938463463374607431768000000));
    assert_eq!(parse_amount("340282366920939"), None);
    assert_eq!(parse_amount("99999999999999999999999999999999999999999"), None);
    assert_eq!(parse_amount(""), None);
    assert_eq!(parse_amount("+1"), None);
    assert_eq!(parse_amount("1,5"), None);
}

#[test]
fn threshold_comparison_is_exact() {
    // 50 over 2950 is about 1.695 percent.
    assert!(threshold_met(50 * ONE_WHOLE, 2950 * ONE_WHOLE, ONE_WHOLE));
    assert!(!threshold_met(50 * ONE_WHOLE, 2950 * ONE_WHOLE, 2 * ONE_WHOLE));
    // 1 over 99 is about 1.01 percent.
    assert!(!threshold_met(ONE_WHOLE, 99 * ONE_WHOLE, 5 * ONE_WHOLE));
    assert!(threshold_met(ONE_WHOLE, 100 * ONE_WHOLE, ONE_WHOLE));
    assert!(!threshold_met(ONE_WHOLE, 100 * ONE_WHOLE, ONE_WHOLE + 1));
    assert!(threshold_met(u128::MAX, 1, u128::MAX));
    assert!(!threshold_met(1, u128::MAX, 1));
}

#[test]
fn profit_is_eighty_percent_truncated() {
    assert_eq!(profit_units(50 * ONE_WHOLE), 40 * ONE_WHOLE);
    assert_eq!(profit_units(1), 0);
    assert_eq!(profit_units(2), 1);
    assert_eq!(profit_units(10), 8);
    assert_eq!(profit_units(u128::MAX), u128::MAX / 10 * 8 + 4);
}
