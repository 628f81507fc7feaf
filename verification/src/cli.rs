//! Command-line token parsing: numbers, rates, and the argument scan.

use vstd::prelude::*;
use crate::decimal::{Decimal, spec_parse_decimal, parse_decimal};
use crate::text::push_char;

verus! {

/// A number read from one command-line token, remembering whether the
/// token wrote its decimal separator as a comma.
#[derive(Clone, Copy, Debug, PartialEq, Eq, Structural)]
pub struct NumberInput {
    pub value: Decimal,
    pub uses_comma: bool,
}

/// A fully parsed command line: the numbers in encounter order and the
/// VAT rate in force.
#[derive(Debug)]
pub struct ParsedArgs {
    pub numbers: Vec<NumberInput>,
    pub vat_rate: Decimal,
}

/// The token with every comma replaced by a decimal point.
pub open spec fn normalize_seq(s: Seq<char>) -> Seq<char> {
    s.map_values(|c: char| if c == ',' { '.' } else { c })
}

/// What parsing a numeric token yields: its decimal value, and whether
/// the token used a comma as its separator.
pub open spec fn spec_parse_number(s: Seq<char>) -> Option<NumberInput> {
    match spec_parse_decimal(normalize_seq(s)) {
        Some(d) => Some(NumberInput { value: d, uses_comma: s.contains(',') }),
        None => None,
    }
}

/// The fallback VAT rate of 19 percent.
pub open spec fn spec_default_rate() -> Decimal {
    Decimal { negative: false, mantissa: 19, scale: 0 }
}

/// A rate token parses like a number (commas allowed); anything else
/// silently falls back to the default rate.
pub open spec fn spec_parse_vat_rate(s: Seq<char>, default: Decimal) -> Decimal {
    match spec_parse_decimal(normalize_seq(s)) {
        Some(d) => d,
        None => default,
    }
}

/// The default rate resolved from an environment value: the value when
/// it parses as a plain decimal (decimal point only), else 19.
pub open spec fn spec_resolve_default_rate(raw: Option<Seq<char>>) -> Decimal {
    match raw {
        Some(s) => match spec_parse_decimal(s) {
            Some(d) => d,
            None => spec_default_rate(),
        },
        None => spec_default_rate(),
    }
}

/// What scanning the tokens from some position onward yields: either
/// the numbers found (in encounter order) with the rate in force, or a
/// failure because a rate flag ended the token list without its value.
pub enum ScanResult {
    MissingRateValue,
    Done { numbers: Seq<NumberInput>, rate: Decimal },
}

/// The left-to-right token scan, starting at position `i` with `rate`
/// in force. A token equal to the rate flag consumes the next token as
/// the new rate (failing when there is none); every other token is
/// taken as a number when it parses and skipped silently when it does
/// not.
pub open spec fn spec_scan(args: Seq<Seq<char>>, i: int, rate: Decimal, default: Decimal) -> ScanResult
    decreases args.len() - i,
{
    if i >= args.len() {
        ScanResult::Done { numbers: Seq::empty(), rate }
    } else if args[i] == "--rate"@ {
        if i + 1 < args.len() {
            spec_scan(args, i + 2, spec_parse_vat_rate(args[i + 1], default), default)
        } else {
            ScanResult::MissingRateValue
        }
    } else {
        let rest = spec_scan(args, i + 1, rate, default);
        match spec_parse_number(args[i]) {
            Some(n) => match rest {
                ScanResult::Done { numbers, rate: r2 } => ScanResult::Done {
                    numbers: seq![n] + numbers,
                    rate: r2,
                },
                ScanResult::MissingRateValue => rest,
            },
            None => rest,
        }
    }
}

/// A scan result with `prefix` prepended to its numbers.
pub open spec fn scan_prepend(prefix: Seq<NumberInput>, r: ScanResult) -> ScanResult {
    match r {
        ScanResult::Done { numbers, rate } => ScanResult::Done { numbers: prefix + numbers, rate },
        ScanResult::MissingRateValue => ScanResult::MissingRateValue,
    }
}

/// What parsing a whole argument list yields. The list includes the
/// program name at position zero; fewer than two tokens, a trailing
/// rate flag, and a scan without a single valid number each give the
/// corresponding error message.
pub open spec fn spec_parse_arguments(args: Seq<Seq<char>>, default: Decimal) -> Result<
    (Seq<NumberInput>, Decimal),
    Seq<char>,
> {
    if args.len() < 2 {
        Err("No arguments provided"@)
    } else {
        match spec_scan(args, 1, default, default) {
            ScanResult::MissingRateValue => Err("--rate requires a value"@),
            ScanResult::Done { numbers, rate } => if numbers.len() == 0 {
                Err("No valid numbers provided"@)
            } else {
                Ok((numbers, rate))
            },
        }
    }
}

/// Replaces commas with decimal points and reports whether any comma
/// occurred in the token.
fn normalize_token(input: &str) -> (r: (String, bool))
    ensures
        r.0@ == normalize_seq(input@),
        r.1 == input@.contains(','),
{
    let n = input.unicode_len();
    let mut i: usize = 0;
    let mut uses_comma = false;
    let mut norm = String::new();
    while i < n
        invariant
            i <= n,
            n == input@.len(),
            norm@ =~= normalize_seq(input@.take(i as int)),
            uses_comma == exists|t: int| 0 <= t < i && input@[t] == ',',
        decreases n - i,
    {
        let c = input.get_char(i);
        if c == ',' {
            uses_comma = true;
            push_char(&mut norm, '.');
        } else {
            push_char(&mut norm, c);
        }
        proof {
            assert(norm@ =~= normalize_seq(input@.take(i + 1)));
        }
        i = i + 1;
    }
    proof {
        assert(input@.take(n as int) =~= input@);
        if uses_comma {
            assert(input@.contains(','));
        }
        if input@.contains(',') {
            let t = choose|t: int| 0 <= t < input@.len() && input@[t] == ',';
            assert(0 <= t < n && input@[t] == ',');
        }
    }
    (norm, uses_comma)
}

/// Parses one token as a number. Commas count as decimal points, and
/// their presence is recorded so output can mirror the style.
pub fn parse_number(input: &str) -> (r: Option<NumberInput>)
    ensures
        r == spec_parse_number(input@),
        r is Some ==> r.unwrap().value.bounded(),
{
    let (norm, uses_comma) = normalize_token(input);
    match parse_decimal(norm.as_str()) {
        Some(d) => Some(NumberInput { value: d, uses_comma }),
        None => None,
    }
}

/// Parses the value following a rate flag; a malformed value silently
/// falls back to the default rate.
pub fn parse_vat_rate(input: &str, default: &Decimal) -> (r: Decimal)
    ensures
        r == spec_parse_vat_rate(input@, *default),
        default.bounded() ==> r.bounded(),
{
    let (norm, _) = normalize_token(input);
    match parse_decimal(norm.as_str()) {
        Some(d) => d,
        None => *default,
    }
}

/// Resolves the default VAT rate from an optional environment value:
/// a plain decimal value (decimal point only) is taken as given, and
/// anything else yields 19.
pub fn resolve_default_rate(raw: Option<&str>) -> (r: Decimal)
    ensures
        r == spec_resolve_default_rate(
            match raw {
                Some(s) => Some(s@),
                None => None,
            },
        ),
        r.bounded(),
{
    match raw {
        Some(s) => match parse_decimal(s) {
            Some(d) => d,
            None => Decimal { negative: false, mantissa: 19, scale: 0 },
        },
        None => Decimal { negative: false, mantissa: 19, scale: 0 },
    }
}

/// Parses the full argument list (program name first): numbers in
/// encounter order, with the rate flag's last value, or the default
/// rate, in force. Mirrors `spec_parse_arguments` exactly.
pub fn parse_arguments(args: Vec<String>, default_rate: &Decimal) -> (r: Result<
    ParsedArgs,
    String,
>)
    requires
        default_rate.bounded(),
    ensures
        (match r {
            Ok(pa) => spec_parse_arguments(args.deep_view(), *default_rate) == Ok::<_, Seq<char>>(
                (pa.numbers@, pa.vat_rate),
            ) && pa.numbers@.len() > 0 && pa.vat_rate.bounded() && (forall|i: int|
                0 <= i < pa.numbers@.len() ==> (#[trigger] pa.numbers@[i]).value.bounded()),
            Err(m) => spec_parse_arguments(args.deep_view(), *default_rate) == Err::<
                (Seq<NumberInput>, Decimal),
                _,
            >(m@),
        }),
{
    let ghost all = args.deep_view();
    proof {
        assert(all.len() == args@.len());
    }
    if args.len() < 2 {
        return Err(String::from_str("No arguments provided"));
    }
    let rate_flag = String::from_str("--rate");
    let mut vat_rate = *default_rate;
    let mut numbers: Vec<NumberInput> = Vec::new();
    let mut i: usize = 1;
    proof {
        assert(scan_prepend(numbers@, spec_scan(all, 1, vat_rate, *default_rate)) == spec_scan(
            all,
            1,
            *default_rate,
            *default_rate,
        )) by {
            lemma_scan_prepend_empty(all, 1, vat_rate, *default_rate);
        }
    }
    while i < args.len()
        invariant
            1 <= i <= args@.len(),
            2 <= args@.len(),
            all == args.deep_view(),
            all.len() == args@.len(),
            rate_flag@ == "--rate"@,
            default_rate.bounded(),
            vat_rate.bounded(),
            forall|t: int| 0 <= t < numbers@.len() ==> (#[trigger] numbers@[t]).value.bounded(),
            scan_prepend(numbers@, spec_scan(all, i as int, vat_rate, *default_rate)) == spec_scan(
                all,
                1,
                *default_rate,
                *default_rate,
            ),
        decreases args@.len() - i,
    {
        proof {
            assert(all[i as int] == args@[i as int]@);
        }
        let token = &args[i];
        if token.eq(&rate_flag) {
            if i + 1 < args.len() {
                proof {
                    assert(all[i + 1] == args@[i + 1]@);
                }
                let value = &args[i + 1];
                let new_rate = parse_vat_rate(value.as_str(), default_rate);
                proof {
                    assert(spec_scan(all, i as int, vat_rate, *default_rate) == spec_scan(
                        all,
                        i + 2,
                        new_rate,
                        *default_rate,
                    ));
                }
                vat_rate = new_rate;
                i = i + 2;
            } else {
                proof {
                    assert(spec_scan(all, i as int, vat_rate, *default_rate)
                        == ScanResult::MissingRateValue);
                }
                return Err(String::from_str("--rate requires a value"));
            }
        } else {
            match parse_number(token.as_str()) {
                Some(n) => {
                    proof {
                        let rest = spec_scan(all, i + 1, vat_rate, *default_rate);
                        if rest is Done {
                            assert(numbers@.push(n) + rest->Done_numbers =~= numbers@ + (seq![n]
                                + rest->Done_numbers));
                        }
                        assert(scan_prepend(numbers@.push(n), rest) == scan_prepend(
                            numbers@,
                            spec_scan(all, i as int, vat_rate, *default_rate),
                        ));
                    }
                    numbers.push(n);
                    i = i + 1;
                },
                None => {
                    proof {
                        assert(spec_scan(all, i as int, vat_rate, *default_rate) == spec_scan(
                            all,
                            i + 1,
                            vat_rate,
                            *default_rate,
                        ));
                    }
                    i = i + 1;
                },
            }
        }
    }
    proof {
        assert(spec_scan(all, i as int, vat_rate, *default_rate) == (ScanResult::Done {
            numbers: Seq::empty(),
            rate: vat_rate,
        }));
        assert(numbers@ + Seq::<NumberInput>::empty() =~= numbers@);
        assert(spec_scan(all, 1, *default_rate, *default_rate) == (ScanResult::Done {
            numbers: numbers@,
            rate: vat_rate,
        }));
    }
    if numbers.len() == 0 {
        return Err(String::from_str("No valid numbers provided"));
    }
    Ok(ParsedArgs { numbers, vat_rate })
}

/// Prepending onto a scan that starts with no numbers changes nothing.
proof fn lemma_scan_prepend_empty(args: Seq<Seq<char>>, i: int, rate: Decimal, default: Decimal)
    ensures
        scan_prepend(Seq::empty(), spec_scan(args, i, rate, default)) == spec_scan(
            args,
            i,
            rate,
            default,
        ),
{
    let r = spec_scan(args, i, rate, default);
    match r {
        ScanResult::Done { numbers, rate: r2 } => {
            assert(Seq::empty() + numbers =~= numbers);
        },
        ScanResult::MissingRateValue => {
        },
    }
}

/// The usage text, line by line.
pub open spec fn spec_usage_lines(program_name: Seq<char>) -> Seq<Seq<char>> {
    seq![
        "Usage: "@ + program_name + " <number1> [number2 ...] [--rate <percentage>]"@,
        "Environment variable: DEFAULT_VAT_RATE (default: 19)"@,
    ]
}

/// The two lines of usage text shown when parsing fails.
pub fn usage_lines(program_name: &str) -> (lines: Vec<String>)
    ensures
        lines.deep_view() == spec_usage_lines(program_name@),
{
    let mut first = String::from_str("Usage: ");
    first.append(program_name);
    first.append(" <number1> [number2 ...] [--rate <percentage>]");
    let second = String::from_str("Environment variable: DEFAULT_VAT_RATE (default: 19)");
    let mut lines: Vec<String> = Vec::new();
    lines.push(first);
    lines.push(second);
    proof {
        assert(lines.deep_view() =~~= spec_usage_lines(program_name@));
    }
    lines
}

} // verus!
