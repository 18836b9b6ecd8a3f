use crate::amount::{in_range, Amount, MAX_UNITS};
use rust_decimal::Decimal;
use vstd::prelude::*;

verus! {

/// The mantissa and scale of the decimal number that a text denotes, where the
/// text is one: the number is `mantissa / 10^scale`.
pub uninterp spec fn decimal_parts_of(text: Seq<char>) -> Option<(int, int)>;

/// The decimal text of `units / 10^4`, with four fractional digits.
pub uninterp spec fn decimal_text_of(units: int) -> Seq<char>;

/// Relies on `rust_decimal::Decimal::from_str_exact`, which parses a decimal
/// number exactly, and on its `mantissa` and `scale`, which a decimal keeps
/// within 96 bits and 28 places.
#[verifier::external_body]
fn decimal_parts(text: &str) -> (r: Option<(i128, u32)>)
    ensures
        match r {
            Some((m, e)) => {
                &&& decimal_parts_of(text@) == Some((m as int, e as int))
                &&& -MAX_UNITS <= m <= MAX_UNITS
                &&& e <= 28
            },
            None => decimal_parts_of(text@) is None,
        },
{
    Decimal::from_str_exact(text).ok().map(|d| (d.mantissa(), d.scale()))
}

/// `10^k`.
pub open spec fn pow10(k: nat) -> nat
    decreases k,
{
    if k == 0 {
        1
    } else {
        10 * pow10((k - 1) as nat)
    }
}

proof fn lemma_pow10_monotone(j: nat, k: nat)
    requires
        j <= k,
    ensures
        pow10(j) <= pow10(k),
    decreases k,
{
    if j < k {
        lemma_pow10_monotone(j, (k - 1) as nat);
    }
}

proof fn lemma_pow10_27()
    ensures
        pow10(27) == 1000000000000000000000000000,
{
    reveal_with_fuel(pow10, 28);
}

/// `10^k`, for the scales that a decimal can have.
fn power_of_ten(k: u32) -> (r: u128)
    requires
        k <= 28,
    ensures
        r == pow10(k as nat),
        r >= 1,
{
    let mut p: u128 = 1;
    let mut j: u32 = 0;
    while j < k
        invariant
            j <= k <= 28,
            p == pow10(j as nat),
        decreases k - j,
    {
        proof {
            lemma_pow10_monotone(j as nat, 27);
            lemma_pow10_27();
        }
        p = p * 10;
        j = j + 1;
    }
    proof {
        lemma_pow10_monotone(0, k as nat);
    }
    p
}

/// The count of ten-thousandths in `magnitude / 10^scale`, where it is whole.
pub open spec fn scaled_magnitude(magnitude: nat, scale: nat) -> Option<nat> {
    if scale <= 4 {
        Some(magnitude * pow10((4 - scale) as nat))
    } else if magnitude % pow10((scale - 4) as nat) == 0 {
        Some(magnitude / pow10((scale - 4) as nat))
    } else {
        None
    }
}

/// The amount `mantissa / 10^scale`, where it has at most four decimal places
/// and is representable.
pub open spec fn amount_of_parts(mantissa: int, scale: nat) -> Option<Amount> {
    match scaled_magnitude(if mantissa < 0 { -mantissa } else { mantissa } as nat, scale) {
        Some(u) => {
            let units = if mantissa < 0 { -u } else { u as int };
            if in_range(units) {
                Some(Amount { units: units as i128 })
            } else {
                None
            }
        },
        None => None,
    }
}

/// The amount `mantissa / 10^scale`, or `None` where it has more than four
/// nonzero decimal places or is out of range.
pub fn amount_from_parts(mantissa: i128, scale: u32) -> (r: Option<Amount>)
    requires
        -MAX_UNITS <= mantissa <= MAX_UNITS,
        scale <= 28,
    ensures
        r == amount_of_parts(mantissa as int, scale as nat),
{
    let magnitude: u128 = if mantissa < 0 { (-mantissa) as u128 } else { mantissa as u128 };
    let scaled: u128;
    if scale <= 4 {
        let p = power_of_ten(4 - scale);
        proof {
            lemma_pow10_monotone((4 - scale) as nat, 4);
            reveal_with_fuel(pow10, 5);
            assert(magnitude * p <= (MAX_UNITS as int) * 10000) by (nonlinear_arith)
                requires magnitude <= MAX_UNITS, p <= 10000;
        }
        scaled = magnitude * p;
    } else {
        let p = power_of_ten(scale - 4);
        if magnitude % p != 0 {
            return None;
        }
        scaled = magnitude / p;
    }
    if scaled > MAX_UNITS as u128 {
        return None;
    }
    let units: i128 = if mantissa < 0 { -(scaled as i128) } else { scaled as i128 };
    Some(Amount { units })
}

/// The amount that a decimal text denotes, such as `"2.5"` or `"-3"`; `None`
/// where the text is not a decimal number, has more than four nonzero decimal
/// places, or is out of range.
pub fn parse_decimal(text: &str) -> (r: Option<Amount>)
    ensures
        r == match decimal_parts_of(text@) {
            Some((m, e)) => amount_of_parts(m, e as nat),
            None => None,
        },
{
    match decimal_parts(text) {
        Some((m, e)) => amount_from_parts(m, e),
        None => None,
    }
}

/// Relies on `rust_decimal::Decimal::from_i128_with_scale`, which panics only
/// beyond 96 bits, and on the decimal's `to_string`, which keeps all four
/// places.
#[verifier::external_body]
pub fn serialize_decimal(value: &Amount) -> (r: String)
    requires
        value.wf(),
    ensures
        r@ == decimal_text_of(value.units as int),
{
    Decimal::from_i128_with_scale(value.units, 4).to_string()
}

} // verus!
