//! Exact scaled decimals: a sign, an integer mantissa and a decimal scale.
//!
//! A `Decimal` stands for the rational number
//! `(-1)^negative * mantissa / 10^scale`. Parsing accepts plain decimal
//! numerals: an optional sign, digits, and at most one decimal point, with
//! the value below `MANTISSA_LIMIT` and at most `MAX_SCALE` fraction digits.

use vstd::prelude::*;

verus! {

/// Largest number of digits after the decimal point a parsed value may carry.
pub const MAX_SCALE: u32 = 9;

/// Exclusive bound on the mantissa of a parsed value.
pub const MANTISSA_LIMIT: u128 = 1_000_000_000_000_000_000;

/// Exclusive mantissa bound under which rendering arithmetic cannot overflow.
pub const WIDE_MANTISSA_LIMIT: u128 = 100_000_000_000_000_000_000_000_000_000_000;

/// An exact decimal number: `(-1)^negative * mantissa / 10^scale`.
#[derive(Clone, Copy, Debug, PartialEq, Eq, Structural)]
pub struct Decimal {
    pub negative: bool,
    pub mantissa: u128,
    pub scale: u32,
}

impl Decimal {
    /// Every decimal the library computes with satisfies this.
    pub open spec fn wf(self) -> bool {
        self.scale <= MAX_SCALE && self.mantissa < WIDE_MANTISSA_LIMIT
    }

    /// Decimals produced by parsing satisfy this tighter bound.
    pub open spec fn bounded(self) -> bool {
        self.wf() && self.mantissa < MANTISSA_LIMIT
    }
}

pub open spec fn pow10(e: nat) -> nat
    decreases e,
{
    if e == 0 {
        1
    } else {
        10 * pow10((e - 1) as nat)
    }
}

pub open spec fn is_digit(c: char) -> bool {
    48 <= (c as u32) && (c as u32) <= 57
}

pub open spec fn digit_val(c: char) -> nat {
    ((c as u32) - 48) as nat
}

/// Numeric value of a string of decimal digits, most significant first.
pub open spec fn seq_val(ds: Seq<char>) -> nat
    decreases ds.len(),
{
    if ds.len() == 0 {
        0
    } else {
        seq_val(ds.drop_last()) * 10 + digit_val(ds.last())
    }
}

/// How many decimal points occur in `b`.
pub open spec fn dot_count(b: Seq<char>) -> nat
    decreases b.len(),
{
    if b.len() == 0 {
        0
    } else if b.last() == '.' {
        dot_count(b.drop_last()) + 1
    } else {
        dot_count(b.drop_last())
    }
}

/// The characters of `b` with every decimal point removed.
pub open spec fn digits_of(b: Seq<char>) -> Seq<char>
    decreases b.len(),
{
    if b.len() == 0 {
        Seq::empty()
    } else if b.last() == '.' {
        digits_of(b.drop_last())
    } else {
        digits_of(b.drop_last()).push(b.last())
    }
}

/// How many characters follow the decimal point, or zero if there is none.
pub open spec fn frac_len(b: Seq<char>) -> nat
    decreases b.len(),
{
    if b.len() == 0 {
        0
    } else if b.last() == '.' {
        0
    } else if dot_count(b) > 0 {
        frac_len(b.drop_last()) + 1
    } else {
        0
    }
}

/// The unsigned part of a numeral: digits with at most one decimal point,
/// and at least one digit.
pub open spec fn body_ok(b: Seq<char>) -> bool {
    &&& b.len() > dot_count(b)
    &&& dot_count(b) <= 1
    &&& forall|i: int| 0 <= i < b.len() ==> is_digit(b[i]) || b[i] == '.'
}

/// The numeral's value stays inside the library's numeric domain.
pub open spec fn body_fits(b: Seq<char>) -> bool {
    seq_val(digits_of(b)) < MANTISSA_LIMIT && frac_len(b) <= MAX_SCALE
}

pub open spec fn has_sign(s: Seq<char>) -> bool {
    s.len() > 0 && (s[0] == '-' || s[0] == '+')
}

pub open spec fn numeral_body(s: Seq<char>) -> Seq<char> {
    if has_sign(s) {
        s.skip(1)
    } else {
        s
    }
}

pub open spec fn is_numeral(s: Seq<char>) -> bool {
    body_ok(numeral_body(s)) && body_fits(numeral_body(s))
}

/// What parsing a decimal numeral yields: the decimal it denotes, or
/// nothing when the text is not a numeral of the library's domain.
pub open spec fn spec_parse_decimal(s: Seq<char>) -> Option<Decimal> {
    if is_numeral(s) {
        Some(
            Decimal {
                negative: s.len() > 0 && s[0] == '-',
                mantissa: seq_val(digits_of(numeral_body(s))) as u128,
                scale: frac_len(numeral_body(s)) as u32,
            },
        )
    } else {
        None
    }
}

/// Appending a digit multiplies the value by ten and adds the digit.
pub proof fn lemma_seq_val_push(ds: Seq<char>, c: char)
    ensures
        seq_val(ds.push(c)) == seq_val(ds) * 10 + digit_val(c),
{
    assert(ds.push(c).drop_last() =~= ds);
}

/// Taking one more element appends exactly the element at `i`.
pub proof fn lemma_take_succ<A>(s: Seq<A>, i: int)
    requires
        0 <= i < s.len(),
    ensures
        s.take(i + 1).drop_last() =~= s.take(i),
        s.take(i + 1).last() == s[i],
{
}

/// A digit string never shrinks in value when extended on the right.
pub proof fn lemma_seq_val_prefix(ds: Seq<char>, es: Seq<char>)
    requires
        ds.is_prefix_of(es),
    ensures
        seq_val(ds) <= seq_val(es),
    decreases es.len(),
{
    if es.len() == ds.len() {
        assert(ds =~= es);
    } else {
        assert(ds.is_prefix_of(es.drop_last()));
        lemma_seq_val_prefix(ds, es.drop_last());
    }
}

/// Dots in a prefix are dots of the whole.
pub proof fn lemma_dot_count_take(b: Seq<char>, j: int)
    requires
        0 <= j <= b.len(),
    ensures
        dot_count(b.take(j)) <= dot_count(b),
    decreases b.len() - j,
{
    if j < b.len() {
        lemma_dot_count_take(b, j + 1);
        lemma_take_succ(b, j);
        if j + 1 == b.len() {
            assert(b.take(j + 1) =~= b);
        }
    } else {
        assert(b.take(j) =~= b);
    }
}

/// The digits of a prefix are a prefix of the digits of the whole.
pub proof fn lemma_digits_of_take(b: Seq<char>, j: int)
    requires
        0 <= j <= b.len(),
    ensures
        digits_of(b.take(j)).is_prefix_of(digits_of(b)),
    decreases b.len() - j,
{
    if j < b.len() {
        lemma_digits_of_take(b, j + 1);
        lemma_take_succ(b, j);
        if j + 1 == b.len() {
            assert(b.take(j + 1) =~= b);
        }
        assert(digits_of(b.take(j)).is_prefix_of(digits_of(b.take(j + 1))));
    } else {
        assert(b.take(j) =~= b);
    }
}

/// Once a single decimal point has appeared, the fraction only grows.
pub proof fn lemma_frac_len_take(b: Seq<char>, j: int)
    requires
        0 <= j <= b.len(),
        dot_count(b) <= 1,
        dot_count(b.take(j)) == 1,
        forall|i: int| 0 <= i < b.len() ==> is_digit(b[i]) || b[i] == '.',
    ensures
        frac_len(b.take(j)) <= frac_len(b),
    decreases b.len() - j,
{
    if j < b.len() {
        lemma_take_succ(b, j);
        lemma_dot_count_take(b, j);
        if b[j] == '.' {
            assert(dot_count(b.take(j + 1)) == 2);
            lemma_dot_count_take(b, j + 1);
            assert(false);
        }
        assert(dot_count(b.take(j + 1)) == 1);
        assert(frac_len(b.take(j + 1)) == frac_len(b.take(j)) + 1);
        lemma_frac_len_take(b, j + 1);
    } else {
        assert(b.take(j) =~= b);
    }
}

/// Parses a decimal numeral: optional sign, digits, at most one decimal
/// point, value within the library's domain. Mirrors `spec_parse_decimal`.
pub fn parse_decimal(s: &str) -> (r: Option<Decimal>)
    ensures
        r == spec_parse_decimal(s@),
        r is Some ==> r.unwrap().bounded(),
{
    let n = s.unicode_len();
    let mut i: usize = 0;
    let mut negative = false;
    if n > 0 {
        let c0 = s.get_char(0);
        if c0 == '-' {
            negative = true;
            i = 1;
        } else if c0 == '+' {
            i = 1;
        }
    }
    let ghost k = i as int;
    let ghost b = s@.skip(k);
    proof {
        assert(b =~= numeral_body(s@));
    }
    if i >= n {
        assert(b.len() == 0);
        return None;
    }
    let mut mant: u128 = 0;
    let mut seen_dot = false;
    let mut frac: u32 = 0;
    let mut any_digit = false;
    while i < n
        invariant
            k <= i <= n,
            0 <= k <= 1,
            n == s@.len(),
            b == s@.skip(k),
            b == numeral_body(s@),
            negative == (s@.len() > 0 && s@[0] == '-'),
            forall|t: int| 0 <= t < i - k ==> is_digit(b[t]) || b[t] == '.',
            dot_count(b.take(i - k)) == if seen_dot { 1int } else { 0int },
            frac as nat == frac_len(b.take(i - k)),
            frac <= MAX_SCALE,
            any_digit == (digits_of(b.take(i - k)).len() > 0),
            mant as nat == seq_val(digits_of(b.take(i - k))),
            mant < MANTISSA_LIMIT,
        decreases n - i,
    {
        let c = s.get_char(i);
        proof {
            assert(b[i - k] == s@[i as int]);
            lemma_take_succ(b, i - k);
        }
        let u = c as u32;
        if c == '.' {
            if seen_dot {
                proof {
                    assert(dot_count(b.take(i - k + 1)) == 2);
                    lemma_dot_count_take(b, i - k + 1);
                }
                return None;
            }
            seen_dot = true;
        } else if 48 <= u && u <= 57 {
            let d = (u - 48) as u128;
            if seen_dot {
                if frac >= MAX_SCALE {
                    proof {
                        assert(frac_len(b.take(i - k + 1)) == frac_len(b.take(i - k)) + 1);
                        if body_ok(b) {
                            lemma_frac_len_take(b, i - k + 1);
                        }
                    }
                    return None;
                }
                frac = frac + 1;
            }
            if mant > (MANTISSA_LIMIT - 1 - d) / 10 {
                proof {
                    assert(digits_of(b.take(i - k + 1)) =~= digits_of(b.take(i - k)).push(c));
                    lemma_seq_val_push(digits_of(b.take(i - k)), c);
                    assert(seq_val(digits_of(b.take(i - k + 1))) == mant * 10 + d);
                    if body_ok(b) {
                        lemma_digits_of_take(b, i - k + 1);
                        lemma_seq_val_prefix(digits_of(b.take(i - k + 1)), digits_of(b));
                    }
                }
                return None;
            }
            proof {
                assert(digits_of(b.take(i - k + 1)) =~= digits_of(b.take(i - k)).push(c));
                lemma_seq_val_push(digits_of(b.take(i - k)), c);
            }
            mant = mant * 10 + d;
            any_digit = true;
        } else {
            assert(!(is_digit(b[i - k]) || b[i - k] == '.'));
            return None;
        }
        i = i + 1;
    }
    proof {
        assert(b.take(i - k) =~= b);
    }
    proof {
        lemma_digit_dot_split(b);
    }
    if !any_digit {
        return None;
    }
    Some(Decimal { negative, mantissa: mant, scale: frac })
}

/// `n / d` rounded to the nearest integer, ties to the even neighbour.
pub open spec fn div_round_half_even(n: nat, d: nat) -> nat
    recommends
        d > 0,
{
    let q = n / d;
    let r = n % d;
    if 2 * r < d {
        q
    } else if 2 * r > d {
        q + 1
    } else if q % 2 == 0 {
        q
    } else {
        q + 1
    }
}

/// The rounded quotient differs from the exact one by at most a half,
/// and an exact half always lands on an even result.
pub proof fn lemma_round_half_even_near(n: nat, d: nat)
    requires
        d > 0,
    ensures
        2 * div_round_half_even(n, d) * d <= 2 * n + d,
        2 * n - d <= 2 * div_round_half_even(n, d) * d,
        2 * div_round_half_even(n, d) * d == 2 * n + d || 2 * div_round_half_even(n, d) * d == 2
            * n - d ==> div_round_half_even(n, d) % 2 == 0,
{
    let q = n / d;
    let r = n % d;
    assert(n == d * q + r && r < d) by {
        vstd::arithmetic::div_mod::lemma_fundamental_div_mod(n as int, d as int);
    }
    if 2 * r < d {
        assert(2 * (d * q) == 2 * n - 2 * r) by (nonlinear_arith)
            requires n == d * q + r;
        assert(2 * q * d == 2 * (d * q)) by (nonlinear_arith);
    } else {
        assert(2 * ((q + 1) * d) == 2 * n - 2 * r + 2 * d) by (nonlinear_arith)
            requires n == d * q + r;
        assert(2 * (q + 1) * d == 2 * ((q + 1) * d)) by (nonlinear_arith);
        if 2 * r == d {
            if q % 2 == 0 {
                assert(2 * (d * q) == 2 * n - 2 * r) by (nonlinear_arith)
                    requires n == d * q + r;
                assert(2 * q * d == 2 * (d * q)) by (nonlinear_arith);
            } else {
                assert((q + 1) % 2 == 0);
            }
        }
    }
}

pub proof fn lemma_pow10_pos(e: nat)
    ensures
        pow10(e) >= 1,
    decreases e,
{
    if e > 0 {
        lemma_pow10_pos((e - 1) as nat);
    }
}

pub proof fn lemma_pow10_le(a: nat, b: nat)
    requires
        a <= b,
    ensures
        pow10(a) <= pow10(b),
    decreases b,
{
    if a < b {
        lemma_pow10_le(a, (b - 1) as nat);
        lemma_pow10_pos((b - 1) as nat);
    }
}

/// Ten to the power `e`, for the small exponents the library uses.
pub(crate) fn pow10_val(e: u32) -> (r: u128)
    requires
        e <= 12,
    ensures
        r as nat == pow10(e as nat),
        r >= 1,
{
    proof {
        reveal_with_fuel(pow10, 13);
        assert(pow10(12) == 1_000_000_000_000);
    }
    let mut r: u128 = 1;
    let mut j: u32 = 0;
    while j < e
        invariant
            j <= e <= 12,
            r as nat == pow10(j as nat),
        decreases e - j,
    {
        proof {
            lemma_pow10_le(j as nat + 1, 12);
            reveal_with_fuel(pow10, 13);
            assert(pow10(12) == 1_000_000_000_000);
        }
        r = r * 10;
        j = j + 1;
    }
    proof {
        lemma_pow10_pos(e as nat);
    }
    r
}

/// The mantissa and scale with trailing fraction zeros removed.
pub open spec fn trim(m: nat, s: nat) -> (nat, nat)
    decreases s,
{
    if s == 0 || m % 10 != 0 {
        (m, s)
    } else {
        trim(m / 10, (s - 1) as nat)
    }
}

impl Decimal {
    /// The plain text of the decimal: sign, integer digits, and the
    /// fraction digits with trailing zeros removed (no fraction part at
    /// all when it would be zero).
    pub open spec fn text(self) -> Seq<char> {
        let (m, s) = trim(self.mantissa as nat, self.scale as nat);
        let sign: Seq<char> = if self.negative {
            seq!['-']
        } else {
            Seq::empty()
        };
        let ip = m / pow10(s);
        let fp = m % pow10(s);
        if s == 0 {
            sign + crate::text::dec_digits_of(ip)
        } else {
            sign + crate::text::dec_digits_of(ip) + seq!['.'] + crate::text::frac_digits(fp, s)
        }
    }

    /// Renders the decimal as text; `"19"`, `"7.5"`, `"-0.42"`.
    pub fn to_text(&self) -> (out: String)
        requires
            self.wf(),
        ensures
            out@ == self.text(),
    {
        let mut m = self.mantissa;
        let mut s = self.scale;
        while s > 0 && m % 10 == 0
            invariant
                s <= self.scale,
                m <= self.mantissa,
                self.wf(),
                trim(m as nat, s as nat) == trim(self.mantissa as nat, self.scale as nat),
            decreases s,
        {
            m = m / 10;
            s = s - 1;
        }
        let p = pow10_val(s);
        let ip = m / p;
        let fp = m % p;
        let mut out = String::new();
        if self.negative {
            crate::text::push_char(&mut out, '-');
        }
        crate::text::push_digits(&mut out, ip);
        if s > 0 {
            crate::text::push_char(&mut out, '.');
            crate::text::push_frac_digits(&mut out, fp, s);
        }
        proof {
            assert(out@ =~= self.text());
        }
        out
    }
}

/// Trimming never increases mantissa or scale.
pub proof fn lemma_trim_scale(m: nat, s: nat)
    ensures
        trim(m, s).1 <= s,
        trim(m, s).0 <= m,
    decreases s,
{
    if !(s == 0 || m % 10 != 0) {
        lemma_trim_scale(m / 10, (s - 1) as nat);
    }
}

/// In a string of digits and dots, length splits into digits and dots.
pub proof fn lemma_digit_dot_split(b: Seq<char>)
    requires
        forall|i: int| 0 <= i < b.len() ==> is_digit(b[i]) || b[i] == '.',
    ensures
        digits_of(b).len() + dot_count(b) == b.len(),
    decreases b.len(),
{
    if b.len() > 0 {
        assert(forall|i: int| 0 <= i < b.drop_last().len() ==> is_digit(b.drop_last()[i]) || b.drop_last()[i] == '.');
        lemma_digit_dot_split(b.drop_last());
    }
}

} // verus!
