use remove_tax::calculator::CalculationResult;
use remove_tax::decimal::{Decimal, parse_decimal};
use remove_tax::display::{
    create_clipboard_content, format_number, render_results, render_table_footer,
    render_table_header, render_table_row,
};

fn dec(s: &str) -> Decimal {
    parse_decimal(s).unwrap()
}

fn result(with_vat: &str, without_vat: &str, uses_comma: bool) -> CalculationResult {
    CalculationResult { with_vat: dec(with_vat), without_vat: dec(without_vat), uses_comma }
}

#[test]
fn mod_test_format_number_with_comma() {
    assert_eq!(format_number(&dec("123.456"), true), "123,46");
}

#[test]
fn main_test_format_number_with_comma() {
    assert_eq!(format_number(&dec("123.456"), true), "123,46");
}

#[test]
fn mod_test_format_number_with_dot() {
    assert_eq!(format_number(&dec("123.456"), false), "123.46");
}

#[test]
fn main_test_format_number_with_dot() {
    assert_eq!(format_number(&dec("123.456"), false), "123.46");
}

#[test]
fn test_format_number_zero() {
    assert_eq!(format_number(&dec("0"), false), "0.00");
    assert_eq!(format_number(&dec("0"), true), "0,00");
}

#[test]
fn test_format_number_negative() {
    assert_eq!(format_number(&dec("-123.456"), false), "-123.46");
    assert_eq!(format_number(&dec("-123.456"), true), "-123,46");
}

#[test]
fn test_format_number_very_large() {
    assert_eq!(format_number(&dec("999999999.999"), false), "1000000000.00");
    assert_eq!(format_number(&dec("999999999.999"), true), "1000000000,00");
}

#[test]
fn test_format_number_very_small() {
    assert_eq!(format_number(&dec("0.001"), false), "0.00");
    assert_eq!(format_number(&dec("0.009"), false), "0.01");
}

#[test]
fn test_format_number_ties_to_even() {
    // An exact half-cent rounds to the even neighbour.
    assert_eq!(format_number(&dec("123.455"), false), "123.46");
    assert_eq!(format_number(&dec("123.445"), false), "123.44");
    assert_eq!(format_number(&dec("123.454"), false), "123.45");
    assert_eq!(format_number(&dec("123.456"), false), "123.46");
}

#[test]
fn test_format_number_idempotent() {
    // Formatting an already-two-decimal value gives it back unchanged.
    let once = format_number(&dec("100.42"), true);
    assert_eq!(once, "100,42");
    let reparsed = remove_tax::cli::parse_number(&once).unwrap();
    assert_eq!(reparsed.value, dec("100.42"));
    assert!(reparsed.uses_comma);
    assert_eq!(format_number(&reparsed.value, reparsed.uses_comma), once);
}

#[test]
fn test_create_clipboard_content_empty() {
    let results = vec![];
    assert_eq!(create_clipboard_content(&results), "");
}

#[test]
fn test_create_clipboard_content_single() {
    let results = vec![result("119", "100", false)];
    assert_eq!(create_clipboard_content(&results), "100.00");
}

#[test]
fn test_create_clipboard_content_multiple() {
    let results = vec![result("119", "100", false), result("238", "200", true)];
    assert_eq!(create_clipboard_content(&results), "100.00\n200,00");
}

#[test]
fn test_create_clipboard_content_mixed_formats() {
    let results = vec![
        result("119.50", "100.42", true),
        result("238.00", "200.00", false),
        result("357.00", "300.00", true),
    ];
    assert_eq!(create_clipboard_content(&results), "100,42\n200.00\n300,00");
}

#[test]
fn test_render_table_footer() {
    assert_eq!(render_table_footer(), "-".repeat(50));
}

#[test]
fn test_render_table_row() {
    let line = render_table_row(&dec("119"), &dec("100"), false);
    assert_eq!(line, format!("{:<20} | {:<20}", "119.00", "100.00"));
}

#[test]
fn test_render_table_header() {
    let lines = render_table_header(&dec("19"));
    assert_eq!(lines.len(), 5);
    assert_eq!(lines[0], "");
    assert_eq!(lines[1], "VAT Rate: 19%");
    assert_eq!(lines[2], "-".repeat(50));
    assert_eq!(lines[3], format!("{:<20} | {:<20}", "With VAT", "Without VAT"));
    assert_eq!(lines[4], "-".repeat(50));
}

#[test]
fn test_render_table_header_fractional_rate() {
    let lines = render_table_header(&dec("7.50"));
    // Trailing fraction zeros are trimmed, as a plain float would print.
    assert_eq!(lines[1], "VAT Rate: 7.5%");
}

#[test]
fn test_render_results_order() {
    let results = vec![result("119", "100", false), result("238", "200", true)];
    let lines = render_results(&results, &dec("19"));
    assert_eq!(lines.len(), 8);
    assert_eq!(lines[5], format!("{:<20} | {:<20}", "119.00", "100.00"));
    assert_eq!(lines[6], format!("{:<20} | {:<20}", "238,00", "200,00"));
    assert_eq!(lines[7], "-".repeat(50));
}

#[test]
fn test_decimal_to_text() {
    assert_eq!(dec("19").to_text(), "19");
    assert_eq!(dec("7.5").to_text(), "7.5");
    assert_eq!(dec("7.50").to_text(), "7.5");
    assert_eq!(dec("-0.42").to_text(), "-0.42");
    assert_eq!(dec("0").to_text(), "0");
}
