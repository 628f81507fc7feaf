//! The tax calculator: gross amount to net amount, exactly.

use vstd::prelude::*;
use crate::cli::NumberInput;
use crate::decimal::{
    Decimal, pow10, pow10_val, div_round_half_even, MANTISSA_LIMIT, lemma_pow10_le,
};

verus! {

/// One gross/net pair, with the input's separator style carried along.
#[derive(Clone, Copy, Debug, PartialEq, Eq, Structural)]
pub struct CalculationResult {
    pub with_vat: Decimal,
    pub without_vat: Decimal,
    pub uses_comma: bool,
}

/// `100 * 10^scale`: the denominator scale of `1 + rate/100`.
pub open spec fn rate_base(rate: Decimal) -> nat {
    100 * pow10(rate.scale as nat)
}

/// Whether `1 + rate/100` is negative (rate below -100).
pub open spec fn denom_negative(rate: Decimal) -> bool {
    rate.negative && rate.mantissa as nat > rate_base(rate)
}

/// The magnitude of `(1 + rate/100) * rate_base(rate)`.
pub open spec fn denom_magnitude(rate: Decimal) -> nat {
    if rate.negative {
        if rate.mantissa as nat >= rate_base(rate) {
            (rate.mantissa as nat - rate_base(rate)) as nat
        } else {
            (rate_base(rate) - rate.mantissa as nat) as nat
        }
    } else {
        rate_base(rate) + rate.mantissa as nat
    }
}

/// A rate of exactly -100 makes `1 + rate/100` zero; no net amount is
/// defined for it.
pub open spec fn rate_degenerate(rate: Decimal) -> bool {
    rate.negative && rate.mantissa as nat == rate_base(rate)
}

/// The net amount in cents: the exact quotient
/// `|amount| * 100 / |1 + rate/100|` rounded to the nearest cent, ties
/// to even.
pub open spec fn net_cents(amount: Decimal, rate: Decimal) -> nat {
    div_round_half_even(
        amount.mantissa as nat * rate_base(rate) * 100,
        pow10(amount.scale as nat) * denom_magnitude(rate),
    )
}

/// The net amount: `amount / (1 + rate/100)` rounded to two decimal
/// places, ties to even; negative exactly when gross and denominator
/// signs differ.
pub open spec fn spec_net(amount: Decimal, rate: Decimal) -> Decimal {
    Decimal {
        negative: amount.negative != denom_negative(rate),
        mantissa: net_cents(amount, rate) as u128,
        scale: 2,
    }
}

/// Removes the VAT share from a gross amount: exactly
/// `amount / (1 + rate/100)`, rounded to the nearest cent with ties to
/// even.
pub fn calculate_without_vat(amount: &Decimal, vat_rate: &Decimal) -> (r: Decimal)
    requires
        amount.bounded(),
        vat_rate.bounded(),
        !rate_degenerate(*vat_rate),
    ensures
        r == spec_net(*amount, *vat_rate),
        r.wf(),
{
    proof {
        lemma_pow10_le(vat_rate.scale as nat, 9);
        lemma_pow10_le(amount.scale as nat, 9);
        reveal_with_fuel(pow10, 13);
        assert(pow10(9) == 1_000_000_000);
    }
    let base = 100 * pow10_val(vat_rate.scale);
    let (dneg, dmag) = if vat_rate.negative {
        if vat_rate.mantissa >= base {
            (true, vat_rate.mantissa - base)
        } else {
            (false, base - vat_rate.mantissa)
        }
    } else {
        (false, base + vat_rate.mantissa)
    };
    assert(dneg == denom_negative(*vat_rate));
    assert(dmag as nat == denom_magnitude(*vat_rate));
    assert(dmag > 0);
    assert(amount.mantissa * base < 100_000_000_000_000_000_000_000_000_000) by (nonlinear_arith)
        requires
            amount.mantissa < MANTISSA_LIMIT,
            base <= 100_000_000_000,
    ;
    let nu = amount.mantissa * base * 100;
    let scale_pow = pow10_val(amount.scale);
    assert(scale_pow * dmag < 10_000_000_000_000_000_000_000_000_000) by (nonlinear_arith)
        requires
            scale_pow <= 1_000_000_000,
            dmag < 2_000_000_000_000_000_000,
    ;
    assert(scale_pow * dmag > 0) by (nonlinear_arith)
        requires
            scale_pow >= 1,
            dmag >= 1,
    ;
    let de = scale_pow * dmag;
    let q = nu / de;
    let rem = nu % de;
    proof {
        assert(q * de + rem == nu && rem < de) by {
            vstd::arithmetic::div_mod::lemma_fundamental_div_mod(nu as int, de as int);
        }
        assert(q <= nu) by (nonlinear_arith)
            requires
                q * de + rem == nu,
                de >= 1,
                rem >= 0,
                q >= 0,
        ;
    }
    let cents = if 2 * rem < de {
        q
    } else if 2 * rem > de {
        q + 1
    } else if q % 2 == 0 {
        q
    } else {
        q + 1
    };
    assert(cents as nat == net_cents(*amount, *vat_rate));
    Decimal { negative: amount.negative != dneg, mantissa: cents, scale: 2 }
}

/// Maps every input through the calculator, preserving order, value and
/// separator style.
pub fn process_numbers(numbers: &Vec<NumberInput>, vat_rate: &Decimal) -> (results: Vec<
    CalculationResult,
>)
    requires
        vat_rate.bounded(),
        !rate_degenerate(*vat_rate),
        forall|i: int| 0 <= i < numbers@.len() ==> (#[trigger] numbers@[i]).value.bounded(),
    ensures
        results@.len() == numbers@.len(),
        forall|i: int|
            0 <= i < numbers@.len() ==> #[trigger] results@[i] == (CalculationResult {
                with_vat: numbers@[i].value,
                without_vat: spec_net(numbers@[i].value, *vat_rate),
                uses_comma: numbers@[i].uses_comma,
            }),
{
    let mut results: Vec<CalculationResult> = Vec::new();
    let mut i: usize = 0;
    while i < numbers.len()
        invariant
            i <= numbers@.len(),
            vat_rate.bounded(),
            !rate_degenerate(*vat_rate),
            forall|t: int| 0 <= t < numbers@.len() ==> (#[trigger] numbers@[t]).value.bounded(),
            results@.len() == i,
            forall|t: int|
                0 <= t < i ==> #[trigger] results@[t] == (CalculationResult {
                    with_vat: numbers@[t].value,
                    without_vat: spec_net(numbers@[t].value, *vat_rate),
                    uses_comma: numbers@[t].uses_comma,
                }),
        decreases numbers@.len() - i,
    {
        let input = numbers[i];
        let without_vat = calculate_without_vat(&input.value, vat_rate);
        results.push(
            CalculationResult { with_vat: input.value, without_vat, uses_comma: input.uses_comma },
        );
        i = i + 1;
    }
    results
}

} // verus!
