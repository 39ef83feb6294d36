use level_tree::{DecimalParser, TokenParser};

#[test]
fn plain_numerals_parse() {
    assert_eq!(DecimalParser.parse("0"), Some(0));
    assert_eq!(DecimalParser.parse("7"), Some(7));
    assert_eq!(DecimalParser.parse("42"), Some(42));
    assert_eq!(DecimalParser.parse("007"), Some(7));
    assert_eq!(DecimalParser.parse("1234567890"), Some(1234567890));
}

#[test]
fn largest_value_parses() {
    assert_eq!(
        DecimalParser.parse("18446744073709551615"),
        Some(u64::MAX)
    );
}

#[test]
fn overflowing_numeral_is_sentinel() {
    assert_eq!(DecimalParser.parse("18446744073709551616"), None);
    assert_eq!(DecimalParser.parse("99999999999999999999999"), None);
}

#[test]
fn non_numerals_are_sentinels() {
    assert_eq!(DecimalParser.parse(""), None);
    assert_eq!(DecimalParser.parse("#"), None);
    assert_eq!(DecimalParser.parse("a"), None);
    assert_eq!(DecimalParser.parse("1a"), None);
    assert_eq!(DecimalParser.parse("a1"), None);
    assert_eq!(DecimalParser.parse("+5"), None);
    assert_eq!(DecimalParser.parse("-5"), None);
    assert_eq!(DecimalParser.parse(" 5"), None);
    assert_eq!(DecimalParser.parse("5 "), None);
    assert_eq!(DecimalParser.parse("1.5"), None);
}
