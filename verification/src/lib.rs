//! Strips value-added tax from gross amounts.
//!
//! Amounts are exact scaled decimals: a sign, an integer mantissa and a
//! decimal scale. Command-line tokens are parsed into such decimals, the
//! net amount is the gross divided by `1 + rate/100` rounded to two decimal
//! places (ties to even), and results are rendered as a table and as
//! clipboard text, mirroring each input's decimal-separator style.

pub mod decimal;
pub mod text;
pub mod cli;
pub mod calculator;
pub mod display;
pub mod laws;

pub use calculator::process_numbers;
pub use cli::parse_arguments;
pub use display::create_clipboard_content;
