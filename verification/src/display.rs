//! Rendering results: two-decimal formatting, the results table, and the
//! clipboard text.

use vstd::prelude::*;
use crate::calculator::CalculationResult;
use crate::decimal::{Decimal, pow10, pow10_val, div_round_half_even, lemma_pow10_le};
use crate::text::{
    dec_digits_of, frac_digits, char_rep, pad_right, push_char, push_digits, push_frac_digits,
    push_repeat, push_padded,
};

verus! {

/// The value rounded to whole cents: nearest, ties to even.
pub open spec fn spec_cents(d: Decimal) -> nat {
    div_round_half_even(d.mantissa as nat * 100, pow10(d.scale as nat))
}

/// The text of `d` with exactly two digits after the decimal separator,
/// a comma when `use_comma` holds and a decimal point otherwise.
pub open spec fn spec_format(d: Decimal, use_comma: bool) -> Seq<char> {
    let cents = spec_cents(d);
    let sign: Seq<char> = if d.negative {
        seq!['-']
    } else {
        Seq::empty()
    };
    let sep: char = if use_comma {
        ','
    } else {
        '.'
    };
    sign + dec_digits_of(cents / 100) + seq![sep] + frac_digits(cents % 100, 2)
}

/// Formats a value with exactly two digits after the decimal separator,
/// rounding to the nearest cent with ties to even, and mirrors the
/// requested separator style.
pub fn format_number(value: &Decimal, use_comma: bool) -> (out: String)
    requires
        value.wf(),
    ensures
        out@ == spec_format(*value, use_comma),
{
    proof {
        lemma_pow10_le(value.scale as nat, 9);
        reveal_with_fuel(pow10, 13);
        assert(pow10(9) == 1_000_000_000);
    }
    let p = pow10_val(value.scale);
    let n100 = value.mantissa * 100;
    let q = n100 / p;
    let rem = n100 % p;
    proof {
        assert(q * p + rem == n100 && rem < p) by {
            vstd::arithmetic::div_mod::lemma_fundamental_div_mod(n100 as int, p as int);
        }
        assert(q <= n100) by (nonlinear_arith)
            requires
                q * p + rem == n100,
                p >= 1,
                rem >= 0,
                q >= 0,
        ;
    }
    let cents = if 2 * rem < p {
        q
    } else if 2 * rem > p {
        q + 1
    } else if q % 2 == 0 {
        q
    } else {
        q + 1
    };
    assert(cents as nat == spec_cents(*value));
    let mut out = String::new();
    if value.negative {
        push_char(&mut out, '-');
    }
    push_digits(&mut out, cents / 100);
    if use_comma {
        push_char(&mut out, ',');
    } else {
        push_char(&mut out, '.');
    }
    push_frac_digits(&mut out, cents % 100, 2);
    proof {
        assert(out@ =~= spec_format(*value, use_comma));
    }
    out
}

/// The clipboard line of one result: its net value in the input's style.
pub open spec fn result_line(r: CalculationResult) -> Seq<char> {
    spec_format(r.without_vat, r.uses_comma)
}

/// The clipboard text: one line per result, joined with newlines, in
/// result order; empty for no results.
pub open spec fn spec_clipboard_content(results: Seq<CalculationResult>) -> Seq<char>
    decreases results.len(),
{
    if results.len() == 0 {
        Seq::empty()
    } else if results.len() == 1 {
        result_line(results[0])
    } else {
        spec_clipboard_content(results.drop_last()) + seq!['\n'] + result_line(results.last())
    }
}

/// Joins every result's formatted net value with newlines, in order.
pub fn create_clipboard_content(results: &Vec<CalculationResult>) -> (out: String)
    requires
        forall|i: int| 0 <= i < results@.len() ==> (#[trigger] results@[i]).without_vat.wf(),
    ensures
        out@ == spec_clipboard_content(results@),
{
    let mut out = String::new();
    let mut i: usize = 0;
    while i < results.len()
        invariant
            i <= results@.len(),
            forall|t: int| 0 <= t < results@.len() ==> (#[trigger] results@[t]).without_vat.wf(),
            out@ == spec_clipboard_content(results@.take(i as int)),
        decreases results@.len() - i,
    {
        if i > 0 {
            push_char(&mut out, '\n');
        }
        let line = format_number(&results[i].without_vat, results[i].uses_comma);
        out.append(line.as_str());
        proof {
            assert(results@.take(i + 1).drop_last() =~= results@.take(i as int));
            assert(results@.take(i + 1).last() == results@[i as int]);
            assert(out@ =~= spec_clipboard_content(results@.take(i + 1)));
        }
        i = i + 1;
    }
    proof {
        assert(results@.take(results@.len() as int) =~= results@);
    }
    out
}

/// The dividing rule of the table: fifty dashes.
pub open spec fn divider() -> Seq<char> {
    char_rep('-', 50)
}

/// The table's title line, showing the VAT rate in plain decimal text.
pub open spec fn title_line(rate: Decimal) -> Seq<char> {
    "VAT Rate: "@ + rate.text() + "%"@
}

/// The two column headings, each padded to twenty characters.
pub open spec fn columns_line() -> Seq<char> {
    pad_right("With VAT"@, 20) + " | "@ + pad_right("Without VAT"@, 20)
}

/// One table row: the gross and net values in the row's separator
/// style, each padded to twenty characters.
pub open spec fn row_text(with_vat: Decimal, without_vat: Decimal, use_comma: bool) -> Seq<char> {
    pad_right(spec_format(with_vat, use_comma), 20) + " | "@ + pad_right(
        spec_format(without_vat, use_comma),
        20,
    )
}

pub open spec fn row_line(r: CalculationResult) -> Seq<char> {
    row_text(r.with_vat, r.without_vat, r.uses_comma)
}

/// The five lines above the rows: a blank line, the title, a rule, the
/// column headings, and another rule.
pub open spec fn spec_table_header(rate: Decimal) -> Seq<Seq<char>> {
    seq![Seq::empty(), title_line(rate), divider(), columns_line(), divider()]
}

pub open spec fn spec_row_lines(results: Seq<CalculationResult>) -> Seq<Seq<char>>
    decreases results.len(),
{
    if results.len() == 0 {
        Seq::empty()
    } else {
        spec_row_lines(results.drop_last()).push(row_line(results.last()))
    }
}

/// There is exactly one table row per result.
pub proof fn lemma_row_lines_len(results: Seq<CalculationResult>)
    ensures
        spec_row_lines(results).len() == results.len(),
    decreases results.len(),
{
    if results.len() > 0 {
        lemma_row_lines_len(results.drop_last());
    }
}

/// Every line of the results table, in print order.
pub open spec fn spec_display_lines(results: Seq<CalculationResult>, rate: Decimal) -> Seq<
    Seq<char>,
> {
    spec_table_header(rate) + spec_row_lines(results) + seq![divider()]
}

/// The lines printed above the rows of the table.
pub fn render_table_header(vat_rate: &Decimal) -> (lines: Vec<String>)
    requires
        vat_rate.wf(),
    ensures
        lines@.len() == 5,
        lines.deep_view() == spec_table_header(*vat_rate),
{
    let mut lines: Vec<String> = Vec::new();
    lines.push(String::new());
    let mut title = String::from_str("VAT Rate: ");
    let rate_text = vat_rate.to_text();
    title.append(rate_text.as_str());
    title.append("%");
    lines.push(title);
    lines.push(render_table_footer());
    let mut columns = String::new();
    push_padded(&mut columns, "With VAT", 20);
    columns.append(" | ");
    push_padded(&mut columns, "Without VAT", 20);
    lines.push(columns);
    lines.push(render_table_footer());
    proof {
        assert(lines.deep_view() =~~= spec_table_header(*vat_rate));
    }
    lines
}

/// The dividing rule printed below the rows.
pub fn render_table_footer() -> (line: String)
    ensures
        line@ == divider(),
{
    let mut line = String::new();
    push_repeat(&mut line, '-', 50);
    line
}

/// One row of the table: gross and net, padded, in the row's style.
pub fn render_table_row(with_vat: &Decimal, without_vat: &Decimal, use_comma: bool) -> (line:
    String)
    requires
        with_vat.wf(),
        without_vat.wf(),
    ensures
        line@ == row_text(*with_vat, *without_vat, use_comma),
{
    let with_str = format_number(with_vat, use_comma);
    let without_str = format_number(without_vat, use_comma);
    let mut line = String::new();
    push_padded(&mut line, with_str.as_str(), 20);
    line.append(" | ");
    push_padded(&mut line, without_str.as_str(), 20);
    proof {
        assert(line@ =~= row_text(*with_vat, *without_vat, use_comma));
    }
    line
}

/// Every line of the results table, in print order: header, one row per
/// result in result order, and a closing rule.
pub fn render_results(results: &Vec<CalculationResult>, vat_rate: &Decimal) -> (lines: Vec<String>)
    requires
        vat_rate.wf(),
        forall|i: int|
            0 <= i < results@.len() ==> (#[trigger] results@[i]).with_vat.wf()
                && results@[i].without_vat.wf(),
    ensures
        lines.deep_view() == spec_display_lines(results@, *vat_rate),
{
    let mut lines = render_table_header(vat_rate);
    proof {
        assert(lines.deep_view() =~~= spec_table_header(*vat_rate) + spec_row_lines(
            results@.take(0),
        ));
    }
    let mut i: usize = 0;
    while i < results.len()
        invariant
            i <= results@.len(),
            vat_rate.wf(),
            forall|t: int|
                0 <= t < results@.len() ==> (#[trigger] results@[t]).with_vat.wf()
                    && results@[t].without_vat.wf(),
            lines.deep_view() == spec_table_header(*vat_rate) + spec_row_lines(
                results@.take(i as int),
            ),
        decreases results@.len() - i,
    {
        let r = &results[i];
        let line = render_table_row(&r.with_vat, &r.without_vat, r.uses_comma);
        proof {
            lemma_row_lines_len(results@.take(i as int));
            assert(lines.deep_view().len() == lines@.len());
            assert(lines@.len() == 5 + i);
        }
        let ghost prev = lines@;
        let ghost prev_dv = lines.deep_view();
        lines.push(line);
        proof {
            lemma_row_lines_len(results@.take(i + 1));
            assert(results@.take(i + 1).drop_last() =~= results@.take(i as int));
            assert(results@.take(i + 1).last() == results@[i as int]);
            assert(spec_row_lines(results@.take(i + 1)) == spec_row_lines(
                results@.take(i as int),
            ).push(row_line(results@[i as int])));
            let ghost goal = spec_table_header(*vat_rate) + spec_row_lines(results@.take(i + 1));
            assert(lines@.len() == 6 + i && goal.len() == 6 + i);
            assert forall|j: int| 0 <= j < 6 + i implies lines.deep_view()[j] == goal[j] by {
                assert(lines.deep_view()[j] == lines@[j]@);
                if j < 5 + i {
                    assert(lines@[j] == prev[j]);
                    assert(prev_dv[j] == prev[j]@);
                    assert(prev_dv[j] == (spec_table_header(*vat_rate) + spec_row_lines(
                        results@.take(i as int),
                    ))[j]);
                } else {
                    assert(lines@[j] == line);
                }
            }
            assert(lines.deep_view() =~~= goal);
        }
        i = i + 1;
    }
    lines.push(render_table_footer());
    proof {
        assert(results@.take(results@.len() as int) =~= results@);
        assert(lines.deep_view() =~~= spec_display_lines(results@, *vat_rate));
    }
    lines
}

} // verus!
