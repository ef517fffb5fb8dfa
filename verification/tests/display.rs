use near_balance_monitor::near::parse_balance_amount;
use near_balance_monitor::utils::{format_near, format_timestamp, now_timestamp};

#[test]
fn format_near_renders_known_amounts() {
    // 1.5 whole tokens.
    assert_eq!(format_near(1_500_000_000_000_000_000_000_000u128), "1.5000 NEAR");
    assert_eq!(format_near(0), "0.0000 NEAR");
    // One whole token exactly.
    assert_eq!(format_near(1_000_000_000_000_000_000_000_000u128), "1.0000 NEAR");
    // A quarter token pads its fraction.
    assert_eq!(format_near(250_000_000_000_000_000_000_000u128), "0.2500 NEAR");
    // The smallest unit rounds away.
    assert_eq!(format_near(1), "0.0000 NEAR");
}

#[test]
fn format_near_rounds_the_fifth_decimal_half_up() {
    // 0.00004999... rounds down, 0.00005 rounds up.
    assert_eq!(format_near(49_999_999_999_999_999_999u128), "0.0000 NEAR");
    assert_eq!(format_near(50_000_000_000_000_000_000u128), "0.0001 NEAR");
    // Rounding can carry into the whole part.
    assert_eq!(format_near(999_950_000_000_000_000_000_000u128), "1.0000 NEAR");
}

#[test]
fn parse_balance_amount_reads_exact_decimals_only() {
    assert_eq!(parse_balance_amount("0"), Some(0));
    assert_eq!(
        parse_balance_amount("1500000000000000000000000"),
        Some(1_500_000_000_000_000_000_000_000u128)
    );
    assert_eq!(
        parse_balance_amount("340282366920938463463374607431768211455"),
        Some(u128::MAX)
    );
    // One past the maximum overflows and is refused.
    assert_eq!(parse_balance_amount("340282366920938463463374607431768211456"), None);
    assert_eq!(parse_balance_amount(""), None);
    assert_eq!(parse_balance_amount("12a"), None);
    assert_eq!(parse_balance_amount(" 12"), None);
    assert_eq!(parse_balance_amount("-12"), None);
}

#[test]
fn format_timestamp_rejects_bad_input() {
    assert_eq!(format_timestamp("not a number".to_string()), "Invalid Timestamp");
    assert_eq!(format_timestamp(String::new()), "Invalid Timestamp");
    assert_eq!(format_timestamp("12 34".to_string()), "Invalid Timestamp");
    // A second count beyond the signed 64-bit range is refused.
    assert_eq!(
        format_timestamp("340282366920938463463374607431768211455".to_string()),
        "Invalid Timestamp"
    );
}

#[test]
fn format_timestamp_renders_a_plausible_instant() {
    let text = format_timestamp("1708000000000000000".to_string());
    // The rendering depends on the machine's time zone; the shape and the
    // year are stable.
    assert_ne!(text, "Invalid Timestamp");
    assert!(text.starts_with("2024-02-1"));
    assert_eq!(&text[4..5], "-");
    assert_eq!(&text[10..11], " ");
}

#[test]
fn now_timestamp_has_the_documented_shape() {
    let text = now_timestamp();
    assert!(text.len() >= 19);
    assert_eq!(&text[4..5], "-");
    assert_eq!(&text[7..8], "-");
    assert_eq!(&text[13..14], ":");
}
