use remove_tax::calculator::process_numbers;
use remove_tax::cli::{parse_arguments, usage_lines};
use remove_tax::decimal::{Decimal, parse_decimal};
use remove_tax::display::{create_clipboard_content, render_results};

fn dec(s: &str) -> Decimal {
    parse_decimal(s).unwrap()
}

fn args(tokens: &[&str]) -> Vec<String> {
    tokens.iter().map(|t| t.to_string()).collect()
}

#[test]
fn test_integration_parse_error_flow() {
    let result = parse_arguments(args(&["program"]), &dec("19"));
    assert!(result.is_err());
    assert_eq!(result.unwrap_err(), "No arguments provided");
}

#[test]
fn test_integration_full_flow() {
    let parsed = parse_arguments(args(&["program", "119"]), &dec("19")).unwrap();
    assert_eq!(parsed.vat_rate, dec("19"));
    assert_eq!(parsed.numbers.len(), 1);

    let results = process_numbers(&parsed.numbers, &parsed.vat_rate);
    assert_eq!(results.len(), 1);

    let clipboard_content = create_clipboard_content(&results);
    assert_eq!(clipboard_content, "100.00");

    let lines = render_results(&results, &parsed.vat_rate);
    assert_eq!(lines.len(), 7);
}

#[test]
fn test_scenario_single_default_rate() {
    let parsed = parse_arguments(args(&["program", "119"]), &dec("19")).unwrap();
    let results = process_numbers(&parsed.numbers, &parsed.vat_rate);
    let lines = render_results(&results, &parsed.vat_rate);
    assert_eq!(lines[1], "VAT Rate: 19%");
    assert_eq!(create_clipboard_content(&results), "100.00");
}

#[test]
fn test_scenario_three_numbers_in_order() {
    let parsed = parse_arguments(args(&["program", "119", "238", "357"]), &dec("19")).unwrap();
    let results = process_numbers(&parsed.numbers, &parsed.vat_rate);
    assert_eq!(create_clipboard_content(&results), "100.00\n200.00\n300.00");
}

#[test]
fn test_scenario_custom_rate() {
    let parsed = parse_arguments(args(&["program", "107", "--rate", "7"]), &dec("19")).unwrap();
    let results = process_numbers(&parsed.numbers, &parsed.vat_rate);
    let lines = render_results(&results, &parsed.vat_rate);
    assert_eq!(lines[1], "VAT Rate: 7%");
    assert_eq!(create_clipboard_content(&results), "100.00");
}

#[test]
fn test_scenario_comma_separator() {
    let parsed = parse_arguments(args(&["program", "119,50"]), &dec("19")).unwrap();
    let results = process_numbers(&parsed.numbers, &parsed.vat_rate);
    assert_eq!(create_clipboard_content(&results), "100,42");
}

#[test]
fn test_scenario_error_messages() {
    let empty = parse_arguments(args(&["program"]), &dec("19"));
    assert_eq!(empty.unwrap_err(), "No arguments provided");
    let invalid = parse_arguments(args(&["program", "abc"]), &dec("19"));
    assert_eq!(invalid.unwrap_err(), "No valid numbers provided");
}

#[test]
fn test_scenario_rate_without_value() {
    let result = parse_arguments(args(&["program", "100", "--rate"]), &dec("19"));
    assert_eq!(result.unwrap_err(), "--rate requires a value");
}

#[test]
fn test_scenario_mixed_separators() {
    let parsed = parse_arguments(args(&["program", "119,50", "238.00"]), &dec("19")).unwrap();
    let results = process_numbers(&parsed.numbers, &parsed.vat_rate);
    assert_eq!(create_clipboard_content(&results), "100,42\n200.00");
}

#[test]
fn test_usage_lines() {
    let lines = usage_lines("program");
    assert_eq!(lines.len(), 2);
    assert_eq!(lines[0], "Usage: program <number1> [number2 ...] [--rate <percentage>]");
    assert_eq!(lines[1], "Environment variable: DEFAULT_VAT_RATE (default: 19)");
}
