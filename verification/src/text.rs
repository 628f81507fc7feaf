//! Verified construction of output text, character by character.

use vstd::prelude::*;
use crate::decimal::{digit_val, is_digit};

verus! {

/// The decimal digit character for `d`, for `d < 10`.
pub open spec fn digit_char(d: nat) -> char {
    if d == 0 {
        '0'
    } else if d == 1 {
        '1'
    } else if d == 2 {
        '2'
    } else if d == 3 {
        '3'
    } else if d == 4 {
        '4'
    } else if d == 5 {
        '5'
    } else if d == 6 {
        '6'
    } else if d == 7 {
        '7'
    } else if d == 8 {
        '8'
    } else {
        '9'
    }
}

/// The decimal digit string of `n`, most significant digit first.
pub open spec fn dec_digits_of(n: nat) -> Seq<char>
    decreases n,
{
    if n < 10 {
        seq![digit_char(n)]
    } else {
        dec_digits_of(n / 10).push(digit_char(n % 10))
    }
}

/// The last `width` decimal digits of `f`, zero-padded to `width`.
pub open spec fn frac_digits(f: nat, width: nat) -> Seq<char>
    decreases width,
{
    if width == 0 {
        Seq::empty()
    } else {
        frac_digits(f / 10, (width - 1) as nat).push(digit_char(f % 10))
    }
}

/// `count` copies of the character `c`.
pub open spec fn char_rep(c: char, count: nat) -> Seq<char>
    decreases count,
{
    if count == 0 {
        Seq::empty()
    } else {
        char_rep(c, (count - 1) as nat).push(c)
    }
}

/// `s` padded on the right with spaces to at least `width` characters.
pub open spec fn pad_right(s: Seq<char>, width: nat) -> Seq<char> {
    if s.len() >= width {
        s
    } else {
        s + char_rep(' ', (width - s.len()) as nat)
    }
}

/// Relies on `String::push`: appends the given character to the end of
/// the string.
#[verifier::external_body]
pub(crate) fn push_char(s: &mut String, c: char)
    ensures
        final(s)@ == old(s)@.push(c),
{
    s.push(c);
}

pub(crate) fn digit_to_char(d: u128) -> (c: char)
    requires
        d < 10,
    ensures
        c == digit_char(d as nat),
{
    if d == 0 {
        '0'
    } else if d == 1 {
        '1'
    } else if d == 2 {
        '2'
    } else if d == 3 {
        '3'
    } else if d == 4 {
        '4'
    } else if d == 5 {
        '5'
    } else if d == 6 {
        '6'
    } else if d == 7 {
        '7'
    } else if d == 8 {
        '8'
    } else {
        '9'
    }
}

/// Appends the decimal digits of `n`, most significant first.
pub(crate) fn push_digits(s: &mut String, n: u128)
    ensures
        final(s)@ == old(s)@ + dec_digits_of(n as nat),
    decreases n,
{
    if n < 10 {
        let c = digit_to_char(n);
        push_char(s, c);
        assert(s@ =~= old(s)@ + dec_digits_of(n as nat));
    } else {
        push_digits(s, n / 10);
        let c = digit_to_char(n % 10);
        push_char(s, c);
        assert(s@ =~= old(s)@ + dec_digits_of(n as nat));
    }
}

/// Appends the last `width` decimal digits of `f`, zero-padded.
pub(crate) fn push_frac_digits(s: &mut String, f: u128, width: u32)
    ensures
        final(s)@ == old(s)@ + frac_digits(f as nat, width as nat),
    decreases width,
{
    if width == 0 {
        assert(s@ =~= old(s)@ + frac_digits(f as nat, 0));
    } else {
        push_frac_digits(s, f / 10, width - 1);
        let c = digit_to_char(f % 10);
        push_char(s, c);
        assert(s@ =~= old(s)@ + frac_digits(f as nat, width as nat));
    }
}

/// Appends `count` copies of `c`.
pub(crate) fn push_repeat(s: &mut String, c: char, count: usize)
    ensures
        final(s)@ == old(s)@ + char_rep(c, count as nat),
    decreases count,
{
    if count == 0 {
        assert(s@ =~= old(s)@ + char_rep(c, 0));
    } else {
        push_repeat(s, c, count - 1);
        push_char(s, c);
        assert(s@ =~= old(s)@ + char_rep(c, count as nat));
    }
}

/// Appends `t` padded on the right with spaces to at least `width` characters.
pub(crate) fn push_padded(s: &mut String, t: &str, width: usize)
    ensures
        final(s)@ == old(s)@ + pad_right(t@, width as nat),
{
    s.append(t);
    let m = t.unicode_len();
    if m < width {
        push_repeat(s, ' ', width - m);
        assert(s@ =~= old(s)@ + pad_right(t@, width as nat));
    }
}

/// Every character of a digit string is a digit; digit strings hold
/// neither a separator nor a sign.
pub proof fn lemma_dec_digits_are_digits(n: nat)
    ensures
        forall|i: int|
            0 <= i < dec_digits_of(n).len() ==> is_digit(#[trigger] dec_digits_of(n)[i]),
        dec_digits_of(n).len() > 0,
    decreases n,
{
    if n >= 10 {
        lemma_dec_digits_are_digits(n / 10);
    }
}

/// Same for fixed-width fraction digits.
pub proof fn lemma_frac_digits_are_digits(f: nat, width: nat)
    ensures
        forall|i: int|
            0 <= i < frac_digits(f, width).len() ==> is_digit(#[trigger] frac_digits(f, width)[i]),
        frac_digits(f, width).len() == width,
    decreases width,
{
    if width > 0 {
        lemma_frac_digits_are_digits(f / 10, (width - 1) as nat);
    }
}

/// The digit character of `d` reads back as the value `d`.
pub proof fn lemma_digit_char_val(d: nat)
    requires
        d < 10,
    ensures
        digit_val(digit_char(d)) == d,
{
    assert(('0' as u32) == 48 && ('1' as u32) == 49 && ('2' as u32) == 50 && ('3' as u32) == 51
        && ('4' as u32) == 52 && ('5' as u32) == 53 && ('6' as u32) == 54 && ('7' as u32) == 55
        && ('8' as u32) == 56 && ('9' as u32) == 57);
}

/// Reading the digit string of `n` back as a number yields `n`.
pub proof fn lemma_dec_digits_value(n: nat)
    ensures
        crate::decimal::seq_val(dec_digits_of(n)) == n,
    decreases n,
{
    let dd = dec_digits_of(n);
    if n < 10 {
        lemma_digit_char_val(n);
        assert(dd.drop_last() =~= Seq::<char>::empty());
        assert(crate::decimal::seq_val(Seq::<char>::empty()) == 0);
        assert(crate::decimal::seq_val(dd) == digit_val(digit_char(n)));
    } else {
        lemma_dec_digits_value(n / 10);
        lemma_digit_char_val(n % 10);
        assert(dd.drop_last() =~= dec_digits_of(n / 10));
        assert(crate::decimal::seq_val(dd) == (n / 10) * 10 + (n % 10));
    }
}

} // verus!
