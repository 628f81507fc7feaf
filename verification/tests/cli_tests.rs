use remove_tax::cli::{parse_arguments, parse_number, parse_vat_rate, resolve_default_rate};
use remove_tax::decimal::{Decimal, parse_decimal};

fn dec(s: &str) -> Decimal {
    parse_decimal(s).unwrap()
}

fn args(tokens: &[&str]) -> Vec<String> {
    tokens.iter().map(|t| t.to_string()).collect()
}

#[test]
fn mod_test_parse_number_with_dot() {
    let input = parse_number("123.45").unwrap();
    assert_eq!(input.value, Decimal { negative: false, mantissa: 12345, scale: 2 });
    assert!(!input.uses_comma);
}

#[test]
fn main_test_parse_number_with_dot() {
    let input = parse_number("123.45").unwrap();
    assert_eq!(input.value, Decimal { negative: false, mantissa: 12345, scale: 2 });
    assert!(!input.uses_comma);
}

#[test]
fn mod_test_parse_number_with_comma() {
    let input = parse_number("123,45").unwrap();
    assert_eq!(input.value, Decimal { negative: false, mantissa: 12345, scale: 2 });
    assert!(input.uses_comma);
}

#[test]
fn main_test_parse_number_with_comma() {
    let input = parse_number("123,45").unwrap();
    assert_eq!(input.value, Decimal { negative: false, mantissa: 12345, scale: 2 });
    assert!(input.uses_comma);
}

#[test]
fn test_parse_number_invalid() {
    assert!(parse_number("abc").is_none());
    assert!(parse_number("12.34.56").is_none());
    assert!(parse_number("").is_none());
}

#[test]
fn test_parse_number_negative() {
    let input = parse_number("-123.45").unwrap();
    assert_eq!(input.value, Decimal { negative: true, mantissa: 12345, scale: 2 });
}

#[test]
fn test_parse_number_zero() {
    let input = parse_number("0").unwrap();
    assert_eq!(input.value, Decimal { negative: false, mantissa: 0, scale: 0 });
}

#[test]
fn test_parse_number_very_large() {
    let input = parse_number("999999999.99").unwrap();
    assert_eq!(input.value, Decimal { negative: false, mantissa: 99999999999, scale: 2 });
}

#[test]
fn mod_test_parse_vat_rate_with_comma() {
    assert_eq!(parse_vat_rate("7,5", &dec("19")), Decimal { negative: false, mantissa: 75, scale: 1 });
}

#[test]
fn main_test_parse_vat_rate_with_comma() {
    assert_eq!(parse_vat_rate("7,5", &dec("19")), Decimal { negative: false, mantissa: 75, scale: 1 });
}

#[test]
fn mod_test_parse_vat_rate_with_dot() {
    assert_eq!(parse_vat_rate("7.5", &dec("19")), Decimal { negative: false, mantissa: 75, scale: 1 });
}

#[test]
fn main_test_parse_vat_rate_with_dot() {
    assert_eq!(parse_vat_rate("7.5", &dec("19")), Decimal { negative: false, mantissa: 75, scale: 1 });
}

#[test]
fn test_parse_vat_rate_invalid_returns_default() {
    assert_eq!(parse_vat_rate("invalid", &dec("19")), dec("19"));
    assert_eq!(parse_vat_rate("", &dec("19")), dec("19"));
}

#[test]
fn test_parse_vat_rate_negative() {
    assert_eq!(parse_vat_rate("-5", &dec("19")), Decimal { negative: true, mantissa: 5, scale: 0 });
}

#[test]
fn test_parse_arguments_no_args() {
    let result = parse_arguments(args(&["program"]), &dec("19"));
    assert!(result.is_err());
    assert_eq!(result.unwrap_err(), "No arguments provided");
}

#[test]
fn test_parse_arguments_only_invalid_numbers() {
    let result = parse_arguments(args(&["program", "abc", "xyz"]), &dec("19"));
    assert!(result.is_err());
    assert_eq!(result.unwrap_err(), "No valid numbers provided");
}

#[test]
fn test_parse_arguments_with_rate() {
    let result = parse_arguments(args(&["program", "100", "--rate", "7"]), &dec("19")).unwrap();
    assert_eq!(result.vat_rate, Decimal { negative: false, mantissa: 7, scale: 0 });
    assert_eq!(result.numbers.len(), 1);
    assert_eq!(result.numbers[0].value, Decimal { negative: false, mantissa: 100, scale: 0 });
}

#[test]
fn test_parse_arguments_rate_without_value() {
    let result = parse_arguments(args(&["program", "100", "--rate"]), &dec("19"));
    assert!(result.is_err());
    assert_eq!(result.unwrap_err(), "--rate requires a value");
}

#[test]
fn test_parse_arguments_mixed_valid_invalid() {
    let result = parse_arguments(args(&["program", "100", "invalid", "200"]), &dec("19")).unwrap();
    assert_eq!(result.numbers.len(), 2);
    assert_eq!(result.numbers[0].value, Decimal { negative: false, mantissa: 100, scale: 0 });
    assert_eq!(result.numbers[1].value, Decimal { negative: false, mantissa: 200, scale: 0 });
}

#[test]
fn test_parse_arguments_last_rate_wins() {
    let result = parse_arguments(
        args(&["program", "--rate", "7", "100", "--rate", "9"]),
        &dec("19"),
    )
    .unwrap();
    assert_eq!(result.vat_rate, Decimal { negative: false, mantissa: 9, scale: 0 });
    assert_eq!(result.numbers.len(), 1);
}

#[test]
fn test_parse_arguments_bad_rate_value_falls_back() {
    let result = parse_arguments(args(&["program", "100", "--rate", "junk"]), &dec("19")).unwrap();
    assert_eq!(result.vat_rate, dec("19"));
}

#[test]
fn test_parse_number_rejects_oversized() {
    // Twenty digits exceed the library's numeric domain.
    assert!(parse_number("12345678901234567890").is_none());
    assert!(parse_number("1.0123456789").is_none());
}

#[test]
fn test_resolve_default_rate() {
    assert_eq!(resolve_default_rate(Some("7")), Decimal { negative: false, mantissa: 7, scale: 0 });
    assert_eq!(resolve_default_rate(Some("7.5")), Decimal { negative: false, mantissa: 75, scale: 1 });
    // The environment value accepts a decimal point only.
    assert_eq!(resolve_default_rate(Some("7,5")), dec("19"));
    assert_eq!(resolve_default_rate(Some("junk")), dec("19"));
    assert_eq!(resolve_default_rate(None), dec("19"));
}
