//! The library's laws: properties relating the parser, the calculator
//! and the formatter, stated and proved over their specifications.

use vstd::prelude::*;
use crate::decimal::{
    Decimal, pow10, is_digit, seq_val, digits_of, dot_count, frac_len, body_ok, body_fits,
    is_numeral, has_sign, numeral_body, spec_parse_decimal, lemma_pow10_pos,
    lemma_round_half_even_near,
};
use crate::cli::normalize_seq;
use crate::calculator::{rate_base, denom_magnitude, rate_degenerate, net_cents};
use crate::cli::{NumberInput, spec_parse_number, spec_parse_vat_rate, spec_scan, spec_parse_arguments, ScanResult};
use crate::display::{
    spec_format, spec_cents, spec_row_lines, spec_clipboard_content, row_line, result_line,
    lemma_row_lines_len,
};
use crate::calculator::CalculationResult;
use crate::text::{
    dec_digits_of, frac_digits, lemma_dec_digits_are_digits, lemma_frac_digits_are_digits,
};

verus! {

/// The net amount is as near the exact quotient as two decimal places
/// allow: with `nu/de` the exact net in cents, the rounded cents `c`
/// satisfy `|2*c*de - 2*nu| <= de`, and when the exact value is a
/// half-cent, `c` is even.
pub proof fn lemma_net_within_half_cent(amount: Decimal, rate: Decimal)
    requires
        amount.bounded(),
        rate.bounded(),
        !rate_degenerate(rate),
    ensures
        ({
            let nu = amount.mantissa as nat * rate_base(rate) * 100;
            let de = pow10(amount.scale as nat) * denom_magnitude(rate);
            let c = net_cents(amount, rate);
            &&& 2 * c * de <= 2 * nu + de
            &&& 2 * nu - de <= 2 * c * de
            &&& (2 * c * de == 2 * nu + de || 2 * c * de == 2 * nu - de) ==> c % 2 == 0
        }),
{
    let nu = amount.mantissa as nat * rate_base(rate) * 100;
    let p = pow10(amount.scale as nat);
    let m = denom_magnitude(rate);
    lemma_pow10_pos(amount.scale as nat);
    lemma_pow10_pos(rate.scale as nat);
    assert(m >= 1);
    assert(p * m >= 1) by (nonlinear_arith)
        requires
            p >= 1,
            m >= 1,
    ;
    lemma_round_half_even_near(nu, p * m);
}

/// Digit characters are neither separators nor signs.
proof fn lemma_digit_not_special(c: char)
    requires
        is_digit(c),
    ensures
        c != ',' && c != '.' && c != '-' && c != '+',
{
    assert((',' as u32) == 44 && ('.' as u32) == 46 && ('-' as u32) == 45 && ('+' as u32) == 43);
}

/// Where each character of a formatted value lies: an optional sign,
/// the integer digits, the separator, then exactly two fraction digits.
proof fn lemma_format_parts(d: Decimal, use_comma: bool)
    ensures
        ({
            let s = spec_format(d, use_comma);
            let sl: int = if d.negative { 1int } else { 0int };
            let dd = dec_digits_of(spec_cents(d) / 100);
            let fd = frac_digits(spec_cents(d) % 100, 2);
            let sep: char = if use_comma { ',' } else { '.' };
            &&& s.len() == sl + dd.len() + 3
            &&& (d.negative ==> s[0] == '-')
            &&& (forall|j: int| 0 <= j < dd.len() ==> s[sl + j] == dd[j])
            &&& s[sl + dd.len()] == sep
            &&& (forall|j: int| 0 <= j < 2 ==> s[sl + dd.len() + 1 + j] == fd[j])
        }),
{
    lemma_frac_digits_are_digits(spec_cents(d) % 100, 2);
}

/// Formatted output uses a comma exactly when asked to, and a decimal
/// point exactly otherwise.
pub proof fn lemma_format_separator_style(d: Decimal, use_comma: bool)
    ensures
        spec_format(d, use_comma).contains(',') <==> use_comma,
        spec_format(d, use_comma).contains('.') <==> !use_comma,
{
    let s = spec_format(d, use_comma);
    let sl: int = if d.negative {
        1int
    } else {
        0int
    };
    let dd = dec_digits_of(spec_cents(d) / 100);
    let fd = frac_digits(spec_cents(d) % 100, 2);
    lemma_format_parts(d, use_comma);
    lemma_dec_digits_are_digits(spec_cents(d) / 100);
    lemma_frac_digits_are_digits(spec_cents(d) % 100, 2);
    assert forall|k: int| 0 <= k < s.len() && k != sl + dd.len() implies is_digit(s[k]) || s[k]
        == '-' by {
        if k < sl {
        } else if k < sl + dd.len() {
            assert(s[k] == dd[k - sl]);
        } else {
            assert(s[k] == fd[k - (sl + dd.len() + 1)]);
        }
    }
    assert forall|k: int| 0 <= k < s.len() && k != sl + dd.len() implies s[k] != ',' && s[k]
        != '.' by {
        if is_digit(s[k]) {
            lemma_digit_not_special(s[k]);
        }
    }
    if use_comma {
        assert(s[sl + dd.len()] == ',');
        assert(s.contains(','));
        if s.contains('.') {
            let k = choose|k: int| 0 <= k < s.len() && s[k] == '.';
            assert(false);
        }
    } else {
        assert(s[sl + dd.len()] == '.');
        assert(s.contains('.'));
        if s.contains(',') {
            let k = choose|k: int| 0 <= k < s.len() && s[k] == ',';
            assert(false);
        }
    }
}

/// Separator style round-trips: when a token parses as a number, every
/// value formatted in that number's style shows a comma exactly when
/// the token held one.
pub proof fn lemma_separator_round_trip(token: Seq<char>, n: NumberInput, d: Decimal)
    requires
        spec_parse_number(token) == Some(n),
    ensures
        spec_format(d, n.uses_comma).contains(',') <==> token.contains(','),
        spec_format(d, n.uses_comma).contains('.') <==> !token.contains(','),
{
    lemma_format_separator_style(d, n.uses_comma);
}

/// Concatenating digit strings concatenates their place values.
proof fn lemma_seq_val_concat(a: Seq<char>, b: Seq<char>)
    ensures
        seq_val(a + b) == seq_val(a) * pow10(b.len()) + seq_val(b),
    decreases b.len(),
{
    if b.len() == 0 {
        assert(a + b =~= a);
        assert(seq_val(b) == 0);
        assert(pow10(0) == 1);
    } else {
        lemma_seq_val_concat(a, b.drop_last());
        assert((a + b).drop_last() =~= a + b.drop_last());
        assert((a + b).last() == b.last());
        assert((seq_val(a) * pow10((b.len() - 1) as nat) + seq_val(b.drop_last())) * 10 == seq_val(
            a,
        ) * (10 * pow10((b.len() - 1) as nat)) + seq_val(b.drop_last()) * 10) by (nonlinear_arith);
    }
}

/// `digits_of` distributes over concatenation.
proof fn lemma_digits_of_concat(a: Seq<char>, b: Seq<char>)
    ensures
        digits_of(a + b) == digits_of(a) + digits_of(b),
    decreases b.len(),
{
    if b.len() == 0 {
        assert(a + b =~= a);
        assert(digits_of(a) + digits_of(b) =~= digits_of(a));
    } else {
        lemma_digits_of_concat(a, b.drop_last());
        assert((a + b).drop_last() =~= a + b.drop_last());
        assert((a + b).last() == b.last());
        if b.last() == '.' {
        } else {
            assert((digits_of(a) + digits_of(b.drop_last())).push(b.last()) =~= digits_of(a) + (
            digits_of(b.drop_last()).push(b.last())));
        }
    }
}

/// `dot_count` distributes over concatenation.
proof fn lemma_dot_count_concat(a: Seq<char>, b: Seq<char>)
    ensures
        dot_count(a + b) == dot_count(a) + dot_count(b),
    decreases b.len(),
{
    if b.len() == 0 {
        assert(a + b =~= a);
    } else {
        lemma_dot_count_concat(a, b.drop_last());
        assert((a + b).drop_last() =~= a + b.drop_last());
        assert((a + b).last() == b.last());
    }
}

/// On a string of digits alone, `digits_of` is the identity and there
/// are no decimal points.
proof fn lemma_all_digits(ds: Seq<char>)
    requires
        forall|i: int| 0 <= i < ds.len() ==> is_digit(#[trigger] ds[i]),
    ensures
        digits_of(ds) == ds,
        dot_count(ds) == 0,
    decreases ds.len(),
{
    if ds.len() == 0 {
        assert(digits_of(ds) =~= ds);
    } else {
        lemma_all_digits(ds.drop_last());
        lemma_digit_not_special(ds.last());
        assert(ds.drop_last().push(ds.last()) =~= ds);
    }
}

/// Fixed-width fraction digits read back as the value modulo the width.
proof fn lemma_frac_digits_value(f: nat, w: nat)
    ensures
        seq_val(frac_digits(f, w)) == f % pow10(w),
    decreases w,
{
    if w == 0 {
        assert(f % 1 == 0) by {
            vstd::arithmetic::div_mod::lemma_small_mod(0, 1);
            vstd::arithmetic::div_mod::lemma_mod_multiples_basic(f as int, 1);
        }
    } else {
        lemma_frac_digits_value(f / 10, (w - 1) as nat);
        crate::text::lemma_digit_char_val(f % 10);
        let p = pow10((w - 1) as nat);
        lemma_pow10_pos((w - 1) as nat);
        assert(frac_digits(f, w).drop_last() =~= frac_digits(f / 10, (w - 1) as nat));
        assert(f % (10 * p) == 10 * ((f / 10) % p) + f % 10) by {
            vstd::arithmetic::div_mod::lemma_mod_breakdown(f as int, 10, p as int);
        }
    }
}

/// After a lone decimal point, appending digits grows the fraction.
proof fn lemma_frac_len_suffix(y: Seq<char>, z: Seq<char>)
    requires
        y.len() > 0,
        y.last() == '.',
        dot_count(y) == 1,
        forall|i: int| 0 <= i < z.len() ==> is_digit(#[trigger] z[i]),
    ensures
        frac_len(y + z) == z.len(),
        dot_count(y + z) == 1,
    decreases z.len(),
{
    lemma_all_digits(z);
    lemma_dot_count_concat(y, z);
    if z.len() == 0 {
        assert(y + z =~= y);
    } else {
        assert(forall|i: int|
            0 <= i < z.drop_last().len() ==> is_digit(#[trigger] z.drop_last()[i]));
        lemma_frac_len_suffix(y, z.drop_last());
        assert((y + z).drop_last() =~= y + z.drop_last());
        assert((y + z).last() == z.last());
        lemma_digit_not_special(z.last());
    }
}

/// Formatting is idempotent on two-decimal values: the text of a
/// two-decimal value parses back to exactly that value, in the style
/// it was printed in, so formatting it again gives the same text.
#[verifier::rlimit(60)]
pub proof fn lemma_format_fixed_point(d: Decimal, use_comma: bool)
    requires
        d.scale == 2,
        d.bounded(),
    ensures
        spec_parse_number(spec_format(d, use_comma)) == Some(
            NumberInput { value: d, uses_comma: use_comma },
        ),
        spec_format(spec_parse_number(spec_format(d, use_comma)).unwrap().value, use_comma)
            == spec_format(d, use_comma),
{
    let m = d.mantissa as nat;
    assert(pow10(2) == 100) by {
        reveal_with_fuel(pow10, 3);
    }
    assert(spec_cents(d) == m) by {
        assert((m * 100) / 100 == m) by {
            vstd::arithmetic::div_mod::lemma_div_by_multiple(m as int, 100);
        }
        assert((m * 100) % 100 == 0) by {
            vstd::arithmetic::div_mod::lemma_mod_multiples_basic(m as int, 100);
        }
    }
    let s = spec_format(d, use_comma);
    let s0 = spec_format(d, false);
    let sl: int = if d.negative {
        1int
    } else {
        0int
    };
    let dd = dec_digits_of(m / 100);
    let fd = frac_digits(m % 100, 2);
    lemma_format_parts(d, use_comma);
    lemma_format_parts(d, false);
    lemma_dec_digits_are_digits(m / 100);
    lemma_frac_digits_are_digits(m % 100, 2);
    assert(normalize_seq(s) =~= s0) by {
        assert forall|k: int| 0 <= k < s.len() implies (if s[k] == ',' {
            '.'
        } else {
            s[k]
        }) == s0[k] by {
            if k < sl {
            } else if k < sl + dd.len() {
                assert(s[k] == dd[k - sl] && s0[k] == dd[k - sl]);
                lemma_digit_not_special(dd[k - sl]);
            } else if k == sl + dd.len() {
            } else {
                assert(s[k] == fd[k - (sl + dd.len() + 1)] && s0[k] == fd[k - (sl + dd.len()
                    + 1)]);
                lemma_digit_not_special(fd[k - (sl + dd.len() + 1)]);
            }
        }
    }
    let body = dd + seq!['.'] + fd;
    assert(numeral_body(s0) =~= body) by {
        if d.negative {
            assert(s0[0] == '-');
            assert(has_sign(s0));
        } else {
            assert(s0[0] == dd[0]);
            lemma_digit_not_special(dd[0]);
            assert(!has_sign(s0));
        }
        assert forall|k: int| 0 <= k < body.len() implies s0[sl + k] == body[k] by {
            if k < dd.len() {
            } else if k == dd.len() {
                assert(body[k] == '.');
            } else {
                assert(body[k] == fd[k - dd.len() - 1]);
            }
        }
    }
    lemma_all_digits(dd);
    lemma_all_digits(fd);
    lemma_dot_count_concat(dd, seq!['.']);
    lemma_dot_count_concat(dd + seq!['.'], fd);
    assert(dot_count(seq!['.']) == 1) by {
        assert(seq!['.'].drop_last() =~= Seq::<char>::empty());
        assert(dot_count(Seq::<char>::empty()) == 0);
    }
    assert((dd + seq!['.']).last() == '.');
    lemma_frac_len_suffix(dd + seq!['.'], fd);
    assert(frac_len(body) == 2);
    assert(dot_count(body) == 1);
    assert(forall|i: int| 0 <= i < body.len() ==> is_digit(#[trigger] body[i]) || body[i] == '.');
    assert(body_ok(body));
    assert(digits_of(body) == dd + fd) by {
        lemma_digits_of_concat(dd, seq!['.']);
        lemma_digits_of_concat(dd + seq!['.'], fd);
        assert(digits_of(seq!['.']) =~= Seq::<char>::empty()) by {
            assert(seq!['.'].drop_last() =~= Seq::<char>::empty());
            assert(digits_of(Seq::<char>::empty()) == Seq::<char>::empty());
        }
        assert(digits_of(dd) + Seq::<char>::empty() + digits_of(fd) =~= dd + fd);
    }
    assert(seq_val(dd + fd) == m) by {
        lemma_seq_val_concat(dd, fd);
        crate::text::lemma_dec_digits_value(m / 100);
        lemma_frac_digits_value(m % 100, 2);
        assert((m % 100) % 100 == m % 100) by {
            vstd::arithmetic::div_mod::lemma_small_mod(m % 100, 100);
        }
        assert(m == 100 * (m / 100) + m % 100) by {
            vstd::arithmetic::div_mod::lemma_fundamental_div_mod(m as int, 100);
        }
        assert(seq_val(dd) * 100 == 100 * (m / 100)) by (nonlinear_arith)
            requires
                seq_val(dd) == m / 100,
        ;
    }
    assert(body_fits(body));
    assert(is_numeral(s0));
    assert(spec_parse_decimal(s0) == Some(d)) by {
        if d.negative {
            assert(s0[0] == '-');
        } else {
            lemma_digit_not_special(dd[0]);
        }
    }
    lemma_format_separator_style(d, use_comma);
}

/// The positions of the tokens the scan takes as numbers, in scan order.
pub open spec fn scan_indices(args: Seq<Seq<char>>, i: int) -> Seq<int>
    decreases args.len() - i,
{
    if i >= args.len() {
        Seq::empty()
    } else if args[i] == "--rate"@ {
        if i + 1 < args.len() {
            scan_indices(args, i + 2)
        } else {
            Seq::empty()
        }
    } else if spec_parse_number(args[i]) is Some {
        seq![i] + scan_indices(args, i + 1)
    } else {
        scan_indices(args, i + 1)
    }
}

/// The numbers of a successful scan are exactly the parses of the
/// number tokens, at strictly increasing positions: encounter order.
pub proof fn lemma_scan_encounter_order(
    args: Seq<Seq<char>>,
    i: int,
    rate: Decimal,
    default: Decimal,
)
    requires
        0 <= i,
    ensures
        (spec_scan(args, i, rate, default) matches ScanResult::Done { numbers, .. } ==> {
            let idx = scan_indices(args, i);
            &&& numbers.len() == idx.len()
            &&& forall|j: int| 0 <= j < idx.len() ==> i <= #[trigger] idx[j] < args.len()
            &&& forall|j: int|
                0 <= j < idx.len() ==> spec_parse_number(args[#[trigger] idx[j]]) is Some
            &&& forall|j: int|
                0 <= j < idx.len() ==> #[trigger] numbers[j] == spec_parse_number(
                    args[idx[j]],
                ).unwrap()
            &&& forall|j1: int, j2: int| 0 <= j1 < j2 < idx.len() ==> #[trigger] idx[j1] < #[trigger] idx[j2]
        }),
    decreases args.len() - i,
{
    if i >= args.len() {
    } else if args[i] == "--rate"@ {
        if i + 1 < args.len() {
            lemma_scan_encounter_order(args, i + 2, spec_parse_vat_rate(args[i + 1], default), default);
        }
    } else {
        lemma_scan_encounter_order(args, i + 1, rate, default);
        if spec_parse_number(args[i]) is Some {
            match spec_scan(args, i + 1, rate, default) {
                ScanResult::Done { numbers: rest_nums, rate: _ } => {
                    let rest_idx = scan_indices(args, i + 1);
                    let idx = scan_indices(args, i);
                    let n = spec_parse_number(args[i]).unwrap();
                    assert(idx == seq![i] + rest_idx);
                    assert(idx[0] == i);
                    assert(forall|j: int| 1 <= j < idx.len() ==> #[trigger] idx[j] == rest_idx[
                        j - 1]);
                    let nums = seq![n] + rest_nums;
                    assert(nums[0] == n);
                    assert(forall|j: int| 1 <= j < nums.len() ==> #[trigger] nums[j] == rest_nums[
                        j - 1]);
                },
                ScanResult::MissingRateValue => {
                },
            }
        }
    }
}

/// A successful parse returns exactly the parses of the number tokens,
/// at strictly increasing token positions, in encounter order.
pub proof fn lemma_parse_arguments_encounter_order(args: Seq<Seq<char>>, default: Decimal)
    ensures
        (spec_parse_arguments(args, default) matches Ok(p) ==> {
            let idx = scan_indices(args, 1);
            &&& p.0.len() == idx.len()
            &&& forall|j: int| 0 <= j < idx.len() ==> 1 <= #[trigger] idx[j] < args.len()
            &&& forall|j: int|
                0 <= j < idx.len() ==> #[trigger] p.0[j] == spec_parse_number(
                    args[idx[j]],
                ).unwrap()
            &&& forall|j1: int, j2: int| 0 <= j1 < j2 < idx.len() ==> #[trigger] idx[j1] < #[trigger] idx[j2]
        }),
{
    lemma_scan_encounter_order(args, 1, default, default);
}

/// The j-th row below the table header is the row of the j-th result.
pub proof fn lemma_row_order(results: Seq<CalculationResult>, j: int)
    requires
        0 <= j < results.len(),
    ensures
        spec_row_lines(results)[j] == row_line(results[j]),
    decreases results.len(),
{
    lemma_row_lines_len(results);
    if j < results.len() - 1 {
        lemma_row_lines_len(results.drop_last());
        lemma_row_order(results.drop_last(), j);
    }
}

/// Appending a result appends its line, after a newline, to the
/// clipboard text: clipboard lines keep result order.
pub proof fn lemma_clipboard_append(results: Seq<CalculationResult>, r: CalculationResult)
    requires
        results.len() > 0,
    ensures
        spec_clipboard_content(results.push(r)) == spec_clipboard_content(results) + seq!['\n']
            + result_line(r),
{
    assert(results.push(r).drop_last() =~= results);
    assert(results.push(r).last() == r);
}

} // verus!
