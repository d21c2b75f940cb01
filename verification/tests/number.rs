use aipo::number::{number_is_well_formed, parse_int_literal, strip_base_prefix};

#[test]
fn test_well_formed_literals_are_accepted() {
    for raw in [
        "0",
        "42",
        "1_000_000",
        "0xFF",
        "0XFF_FF",
        "0b1010",
        "0B1010_1010",
        "0o17",
        "0O7_7",
        "3.14",
        "1.5e-3",
        "1_0.0_1e+2",
        "12e5",
    ] {
        assert!(number_is_well_formed(raw), "{raw} must be well formed");
    }
}

#[test]
fn test_malformed_literals_are_rejected() {
    for raw in [
        "0x", "0b", "0o", "0b102", "0o8", "0xG", "_1", "1_", "1__0", "1_.5", "1._5", "1e",
        "1e_5", "1e+", "0x_FF", "1_.0e1",
    ] {
        assert!(!number_is_well_formed(raw), "{raw} must be malformed");
    }
}

#[test]
fn test_int_literal_bases_and_separators_parse() {
    assert_eq!(parse_int_literal("42"), Some(42));
    assert_eq!(parse_int_literal("1_000_000"), Some(1_000_000));
    assert_eq!(parse_int_literal("0xFF"), Some(255));
    assert_eq!(parse_int_literal("0xff"), Some(255));
    assert_eq!(parse_int_literal("0b1010"), Some(10));
    assert_eq!(parse_int_literal("0o17"), Some(15));
    assert_eq!(
        parse_int_literal("9_007_199_254_740_991"),
        Some(9_007_199_254_740_991)
    );
}

#[test]
fn test_out_of_range_int_literals_do_not_parse() {
    assert_eq!(parse_int_literal("99999999999999999999"), None);
    assert_eq!(parse_int_literal("0xFFFFFFFFFFFFFFFFFF"), None);
}

#[test]
fn strip_base_prefix_accepts_both_cases() {
    assert_eq!(strip_base_prefix("0xFF", 'x'), Some("FF"));
    assert_eq!(strip_base_prefix("0XFF", 'x'), Some("FF"));
    assert_eq!(strip_base_prefix("0b1", 'x'), None);
    assert_eq!(strip_base_prefix("12", 'x'), None);
}

#[test]
fn negative_and_edge_int_literals() {
    assert_eq!(parse_int_literal("-42"), Some(-42));
    assert_eq!(parse_int_literal("0"), Some(0));
    assert_eq!(parse_int_literal("3.5"), None);
    assert_eq!(parse_int_literal("1__0"), Some(10));
}
