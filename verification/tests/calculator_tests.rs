use remove_tax::calculator::{CalculationResult, calculate_without_vat, process_numbers};
use remove_tax::cli::NumberInput;
use remove_tax::decimal::{Decimal, parse_decimal};
use remove_tax::display::format_number;

fn dec(s: &str) -> Decimal {
    parse_decimal(s).unwrap()
}

fn as_f64(d: &Decimal) -> f64 {
    format_number(d, false).parse::<f64>().unwrap()
}

#[test]
fn mod_test_calculate_without_vat_19_percent() {
    let result = calculate_without_vat(&dec("119"), &dec("19"));
    assert!((as_f64(&result) - 100.0).abs() < 0.01);
}

#[test]
fn main_test_calculate_without_vat_19_percent() {
    let result = calculate_without_vat(&dec("119"), &dec("19"));
    assert!((as_f64(&result) - 100.0).abs() < 0.01);
}

#[test]
fn mod_test_calculate_without_vat_7_percent() {
    let result = calculate_without_vat(&dec("107"), &dec("7"));
    assert!((as_f64(&result) - 100.0).abs() < 0.01);
}

#[test]
fn main_test_calculate_without_vat_7_percent() {
    let result = calculate_without_vat(&dec("107"), &dec("7"));
    assert!((as_f64(&result) - 100.0).abs() < 0.01);
}

#[test]
fn mod_test_calculate_without_vat_zero_percent() {
    let result = calculate_without_vat(&dec("100"), &dec("0"));
    assert!((as_f64(&result) - 100.0).abs() < 0.01);
}

#[test]
fn main_test_calculate_without_vat_zero_percent() {
    let result = calculate_without_vat(&dec("100"), &dec("0"));
    assert!((as_f64(&result) - 100.0).abs() < 0.01);
}

#[test]
fn test_calculate_without_vat_100_percent() {
    let result = calculate_without_vat(&dec("200"), &dec("100"));
    assert!((as_f64(&result) - 100.0).abs() < 0.01);
}

#[test]
fn test_calculate_without_vat_negative_amount() {
    let result = calculate_without_vat(&dec("-119"), &dec("19"));
    assert!((as_f64(&result) - (-100.0)).abs() < 0.01);
}

#[test]
fn test_calculate_without_vat_negative_rate() {
    let result = calculate_without_vat(&dec("95"), &dec("-5"));
    assert!((as_f64(&result) - 100.0).abs() < 0.01);
}

#[test]
fn test_calculate_without_vat_very_small_amount() {
    let result = calculate_without_vat(&dec("0.0119"), &dec("19"));
    assert!((as_f64(&result) - 0.01).abs() < 0.0001);
}

#[test]
fn test_calculate_without_vat_very_large_amount() {
    let result = calculate_without_vat(&dec("1000000000"), &dec("19"));
    assert!((as_f64(&result) - 840_336_134.45).abs() < 0.1);
}

#[test]
fn test_calculate_without_vat_fractional_rate() {
    let result = calculate_without_vat(&dec("107.5"), &dec("7.5"));
    assert!((as_f64(&result) - 100.0).abs() < 0.01);
}

#[test]
fn mod_test_calculate_multiple_values() {
    let values = ["119", "238", "357"];
    let expected = [100.0, 200.0, 300.0];
    for (value, expected) in values.iter().zip(expected.iter()) {
        let result = calculate_without_vat(&dec(value), &dec("19"));
        assert!((as_f64(&result) - expected).abs() < 0.01);
    }
}

#[test]
fn main_test_calculate_multiple_values() {
    let values = ["119", "238", "357"];
    let expected = [100.0, 200.0, 300.0];
    for (value, expected) in values.iter().zip(expected.iter()) {
        let result = calculate_without_vat(&dec(value), &dec("19"));
        assert!((as_f64(&result) - expected).abs() < 0.01);
    }
}

#[test]
fn test_process_numbers_empty() {
    let numbers = vec![];
    let results = process_numbers(&numbers, &dec("19"));
    assert_eq!(results.len(), 0);
}

#[test]
fn test_process_numbers_single() {
    let numbers = vec![NumberInput { value: dec("119"), uses_comma: false }];
    let results = process_numbers(&numbers, &dec("19"));
    assert_eq!(results.len(), 1);
    assert_eq!(results[0].with_vat, dec("119"));
    assert!((as_f64(&results[0].without_vat) - 100.0).abs() < 0.01);
    assert!(!results[0].uses_comma);
}

#[test]
fn test_process_numbers_mixed_formats() {
    let numbers = vec![
        NumberInput { value: dec("119"), uses_comma: true },
        NumberInput { value: dec("238"), uses_comma: false },
    ];
    let results = process_numbers(&numbers, &dec("19"));
    assert_eq!(results.len(), 2);
    assert!(results[0].uses_comma);
    assert!(!results[1].uses_comma);
}

#[test]
fn test_calculation_result_structure() {
    let result = CalculationResult {
        with_vat: dec("119"),
        without_vat: dec("100"),
        uses_comma: true,
    };
    assert_eq!(result.with_vat, dec("119"));
    assert_eq!(result.without_vat, dec("100"));
    assert!(result.uses_comma);
}

#[test]
fn test_calculate_exact_cents() {
    // 119.50 at 19 percent: 11950/119 cents rounds to 10042.
    let result = calculate_without_vat(&dec("119.50"), &dec("19"));
    assert_eq!(result, Decimal { negative: false, mantissa: 10042, scale: 2 });
}

#[test]
fn test_calculate_rate_below_minus_hundred() {
    // A rate below -100 flips the sign of the result.
    let result = calculate_without_vat(&dec("100"), &dec("-200"));
    assert_eq!(result, Decimal { negative: true, mantissa: 10000, scale: 2 });
}
