//! Credits and what they cost.
//!
//! `rust_decimal` does the decimal arithmetic. An amount here is the pair of
//! numbers that it holds: the mantissa and the number of decimal places.

use crate::json::JsonNumber;
use crate::text;
use crate::usage::CostColumns;
use vstd::prelude::*;
use vstd::string::*;

verus! {

// ---------------------------------------------------------------------------
// Amounts
// ---------------------------------------------------------------------------

/// The most decimal places that an amount has.
pub const MAX_PLACES: u32 = 28;

/// One more than the largest mantissa, two to the power of ninety-six.
pub const MANTISSA_BOUND: i128 = 79_228_162_514_264_337_593_543_950_336;

/// A decimal number: the mantissa divided by ten to the power of `places`.
#[derive(Debug, Clone, Copy, PartialEq, Eq, Structural)]
pub struct Amount {
    pub mantissa: i128,
    pub places: u32,
}

impl Amount {
    /// Whether a decimal number holds this mantissa and this many places.
    pub open spec fn in_range(self) -> bool {
        -MANTISSA_BOUND < self.mantissa < MANTISSA_BOUND && self.places <= MAX_PLACES
    }

    /// Whether the amount is in range and not negative.
    pub open spec fn is_payable(self) -> bool {
        self.in_range() && self.mantissa >= 0
    }

    /// The mantissa and the places of an amount that is not negative.
    pub open spec fn parts(self) -> (nat, nat) {
        (self.mantissa as nat, self.places as nat)
    }
}

/// Ten to the power of `k`.
pub open spec fn pow10(k: nat) -> nat
    decreases k,
{
    if k == 0 {
        1
    } else {
        10 * pow10((k - 1) as nat)
    }
}

/// `n` divided by `d`, rounded to the nearest integer; halfway between two
/// integers, to the even one.
pub open spec fn half_even(n: nat, d: nat) -> nat {
    let q = n / d;
    let rest = n % d;
    if 2 * rest > d || (2 * rest == d && q % 2 == 1) {
        q + 1
    } else {
        q
    }
}

/// The product of two amounts: exact, but for places beyond the last that an
/// amount can have, which are rounded away.
pub open spec fn product(a: (nat, nat), b: (nat, nat)) -> (nat, nat) {
    let m = a.0 * b.0;
    let places = a.1 + b.1;
    if places > MAX_PLACES {
        (half_even(m, pow10((places - MAX_PLACES) as nat)), MAX_PLACES as nat)
    } else {
        (m, places)
    }
}

/// An amount rounded to `places` decimal places, where it has more.
pub open spec fn rounded(a: (nat, nat), places: nat) -> (nat, nat) {
    if a.1 <= places {
        a
    } else {
        (half_even(a.0, pow10((a.1 - places) as nat)), places)
    }
}

/// An amount without zeros at its end.
pub open spec fn stripped(m: nat, places: nat) -> (nat, nat)
    decreases places,
{
    if m == 0 {
        (0, 0)
    } else if places > 0 && m % 10 == 0 {
        stripped(m / 10, (places - 1) as nat)
    } else {
        (m, places)
    }
}

/// The last `width` decimal digits of `n`.
pub open spec fn last_digits(n: nat, width: nat) -> Seq<char>
    decreases width,
{
    if width == 0 {
        seq![]
    } else {
        last_digits(n / 10, (width - 1) as nat).push(('0' as int + n % 10) as char)
    }
}

/// The decimal notation of an amount.
pub open spec fn amount_text(a: (nat, nat)) -> Seq<char> {
    if a.1 == 0 {
        text::decimal(a.0)
    } else {
        text::decimal(a.0 / pow10(a.1)) + "."@ + last_digits(a.0, a.1)
    }
}

// ---------------------------------------------------------------------------
// Calls of `rust_decimal`
// ---------------------------------------------------------------------------

/// The mantissa and the places of the decimal number that
/// `Decimal::from_f64_retain` makes of a number of a JSON document, which
/// `serde_json` gives as a double; none where it exceeds what a decimal number
/// can hold.
pub uninterp spec fn number_amount(n: JsonNumber) -> Option<Amount>;

/// `serde_json::Number::as_f64` and `rust_decimal::Decimal::from_f64_retain`: the
/// result is a function of the number, and within the range of a decimal number.
/// What that function is stays unsaid.
#[verifier::external_body]
fn amount_of_number(n: &JsonNumber) -> (r: Option<Amount>)
    ensures
        r == number_amount(*n),
        r matches Some(a) ==> a.in_range(),
{
    let number = match n {
        JsonNumber::Unsigned(u) => serde_json::Number::from(*u),
        JsonNumber::Negative(i) => serde_json::Number::from(*i),
        JsonNumber::Float(f) => f.clone(),
    };
    let decimal = rust_decimal::Decimal::from_f64_retain(number.as_f64()?)?;
    Some(Amount { mantissa: decimal.mantissa(), places: decimal.scale() })
}

/// Multiplication of `rust_decimal::Decimal`, on amounts that are not negative
/// and whose mantissas have a product in range. The result is exact, but for
/// places beyond the twenty-eighth, which are rounded half to even. A product
/// of zero has any number of places.
#[verifier::external_body]
fn multiply(a: Amount, b: Amount) -> (r: Amount)
    requires
        a.is_payable(),
        b.is_payable(),
        a.mantissa * b.mantissa < MANTISSA_BOUND,
    ensures
        r.is_payable(),
        r.mantissa == product(a.parts(), b.parts()).0,
        r.mantissa > 0 ==> r.places == product(a.parts(), b.parts()).1,
{
    let x = rust_decimal::Decimal::from_i128_with_scale(a.mantissa, a.places);
    let y = rust_decimal::Decimal::from_i128_with_scale(b.mantissa, b.places);
    let decimal = x * y;
    Amount { mantissa: decimal.mantissa(), places: decimal.scale() }
}

/// `rust_decimal::Decimal::round_dp`, on amounts that are not negative: rounds
/// half to even.
#[verifier::external_body]
fn round_amount(a: Amount, places: u32) -> (r: Amount)
    requires
        a.is_payable(),
    ensures
        r.is_payable(),
        r.parts() == rounded(a.parts(), places as nat),
{
    let decimal = rust_decimal::Decimal::from_i128_with_scale(a.mantissa, a.places).round_dp(places);
    Amount { mantissa: decimal.mantissa(), places: decimal.scale() }
}

/// `rust_decimal::Decimal::normalize`, on amounts that are not negative: strips
/// the zeros at the end.
#[verifier::external_body]
fn strip_amount(a: Amount) -> (r: Amount)
    requires
        a.is_payable(),
    ensures
        r.is_payable(),
        r.parts() == stripped(a.parts().0, a.parts().1),
{
    let decimal = rust_decimal::Decimal::from_i128_with_scale(a.mantissa, a.places).normalize();
    Amount { mantissa: decimal.mantissa(), places: decimal.scale() }
}

/// `rust_decimal::Decimal::to_string`, on amounts that are not negative: the
/// decimal notation with all places.
#[verifier::external_body]
fn text_of_amount(a: Amount) -> (r: String)
    requires
        a.is_payable(),
    ensures
        r@ == amount_text(a.parts()),
{
    rust_decimal::Decimal::from_i128_with_scale(a.mantissa, a.places).to_string()
}

// ---------------------------------------------------------------------------
// Costs
// ---------------------------------------------------------------------------

/// What credits cost, in US dollars: a cent each, rounded to six places.
/// Credits below zero, and those that no decimal number holds, cost nothing.
pub open spec fn credit_cost(credits: Option<Amount>) -> (nat, nat) {
    match credits {
        Some(c) => if c.mantissa < 0 {
            (0, 0)
        } else {
            let cost = rounded(product(c.parts(), (1, 2)), 6);
            stripped(cost.0, cost.1)
        },
        None => (0, 0),
    }
}

proof fn lemma_pow10_positive(k: nat)
    ensures
        pow10(k) > 0,
    decreases k,
{
    if k > 0 {
        lemma_pow10_positive((k - 1) as nat);
    }
}

proof fn lemma_half_even_zero(d: nat)
    requires
        d > 0,
    ensures
        half_even(0, d) == 0,
{
    assert(0nat / d == 0 && 0nat % d == 0) by (nonlinear_arith)
        requires
            d > 0,
    ;
}

/// Works out what credits cost.
pub fn cost_of_credits(credits: Option<Amount>) -> (r: Amount)
    requires
        credits matches Some(c) ==> c.in_range(),
    ensures
        r.is_payable(),
        r.parts() == credit_cost(credits),
{
    match credits {
        Some(c) => {
            if c.mantissa < 0 {
                return Amount { mantissa: 0, places: 0 };
            }
            let cent = Amount { mantissa: 1, places: 2 };
            let cost = multiply(c, cent);
            let short = round_amount(cost, 6);
            proof {
                let exact = product(c.parts(), (1, 2));
                if exact.0 == 0 {
                    if cost.places > 6 {
                        lemma_pow10_positive((cost.places - 6) as nat);
                        lemma_half_even_zero(pow10((cost.places - 6) as nat));
                    }
                    if exact.1 > 6 {
                        lemma_pow10_positive((exact.1 - 6) as nat);
                        lemma_half_even_zero(pow10((exact.1 - 6) as nat));
                    }
                }
            }
            strip_amount(short)
        },
        None => Amount { mantissa: 0, places: 0 },
    }
}

/// The cost columns of a row whose cost is known as a whole: it stands as the
/// cost of the output and as the total.
pub open spec fn are_credit_columns(r: CostColumns, credits: Option<Amount>) -> bool {
    &&& r.input_cost_usd@ == "0"@
    &&& r.output_cost_usd@ == amount_text(credit_cost(credits))
    &&& r.cache_read_cost_usd@ == "0"@
    &&& r.cache_creation_cost_usd@ == "0"@
    &&& r.total_cost_usd@ == amount_text(credit_cost(credits))
}

/// The cost columns for credits.
pub fn credit_columns(credits: Option<Amount>) -> (r: CostColumns)
    requires
        credits matches Some(c) ==> c.in_range(),
    ensures
        are_credit_columns(r, credits),
{
    let total = text_of_amount(cost_of_credits(credits));
    CostColumns {
        input_cost_usd: "0".to_owned(),
        output_cost_usd: total.clone(),
        cache_read_cost_usd: "0".to_owned(),
        cache_creation_cost_usd: "0".to_owned(),
        total_cost_usd: total,
    }
}

/// The amount of a number of a JSON document, where there is one.
pub open spec fn opt_number_amount(n: Option<JsonNumber>) -> Option<Amount> {
    match n {
        Some(n) => number_amount(n),
        None => None,
    }
}

/// The cost columns for a number of credits as a JSON document gives it.
pub fn number_columns(credits: &Option<JsonNumber>) -> (r: CostColumns)
    ensures
        are_credit_columns(r, opt_number_amount(*credits)),
{
    match credits {
        Some(n) => credit_columns(amount_of_number(n)),
        None => credit_columns(None),
    }
}

// ---------------------------------------------------------------------------
// Laws
// ---------------------------------------------------------------------------

proof fn lemma_stripped(m: nat, places: nat)
    ensures
        stripped(m, places).1 <= places,
        stripped(m, places).0 * pow10(places) == m * pow10(stripped(m, places).1),
    decreases places,
{
    if m == 0 {
        assert(0 * pow10(places) == 0 * pow10(0)) by (nonlinear_arith);
    } else if places > 0 && m % 10 == 0 {
        lemma_stripped(m / 10, (places - 1) as nat);
        let s = stripped(m / 10, (places - 1) as nat);
        let p = pow10((places - 1) as nat);
        assert(pow10(places) == 10 * p);
        assert(10 * (m / 10) == m);
        assert(s.0 * (10 * p) == m * pow10(s.1)) by (nonlinear_arith)
            requires
                s.0 * p == (m / 10) * pow10(s.1),
                10 * (m / 10) == m,
        ;
    }
}

/// Credits cost a hundredth of a dollar each, exactly, where they have no more
/// than four decimal places.
pub proof fn law_a_credit_is_a_cent(credits: Amount)
    requires
        credits.is_payable(),
        credits.places <= 4,
    ensures
        ({
            let cost = credit_cost(Some(credits));
            cost.0 * 100 * pow10(credits.places as nat) == credits.mantissa * pow10(cost.1)
        }),
{
    let m = credits.mantissa as nat;
    let places = credits.places as nat;
    lemma_stripped(m, places + 2);
    assert(product(credits.parts(), (1, 2)) == (m, places + 2));
    let p = pow10(places);
    let s = stripped(m, places + 2);
    assert(pow10(places + 2) == 10 * pow10(places + 1));
    assert(pow10(places + 1) == 10 * p);
    assert(s.0 * (100 * p) == s.0 * 100 * p) by (nonlinear_arith);
}

/// A cost has at most six decimal places, and does not end in a zero after the
/// point.
pub proof fn law_cost_is_short(credits: Option<Amount>)
    ensures
        credit_cost(credits).1 <= 6,
        credit_cost(credits).1 > 0 ==> credit_cost(credits).0 % 10 != 0,
{
    if let Some(c) = credits {
        let cost = rounded(product(c.parts(), (1, 2)), 6);
        lemma_stripped(cost.0, cost.1);
        lemma_no_zero_at_end(cost.0, cost.1);
    }
}

proof fn lemma_no_zero_at_end(m: nat, places: nat)
    ensures
        stripped(m, places).1 > 0 ==> stripped(m, places).0 % 10 != 0,
    decreases places,
{
    if m != 0 && places > 0 && m % 10 == 0 {
        lemma_no_zero_at_end(m / 10, (places - 1) as nat);
    }
}

/// However many places credits have, what they cost is rounded to a millionth of a
/// dollar: it is at most half of that away from a hundredth of the credits.
pub proof fn law_cost_is_near(credits: Amount)
    requires
        credits.is_payable(),
        4 < credits.places <= 26,
    ensures
        ({
            let cost = credit_cost(Some(credits));
            let unit = pow10((credits.places - 4) as nat);
            let millionths = cost.0 * pow10((6 - cost.1) as nat);
            &&& cost.1 <= 6
            &&& -unit <= 2 * (millionths * unit - credits.mantissa) <= unit
        }),
{
    let m = credits.mantissa as nat;
    let places = credits.places as nat;
    assert(product(credits.parts(), (1, 2)) == (m, places + 2));
    let unit = pow10((places - 4) as nat);
    lemma_pow10_positive((places - 4) as nat);
    let n = half_even(m, unit);
    assert(rounded((m, places + 2), 6) == (n, 6nat));
    lemma_stripped(n, 6);
    let s = stripped(n, 6);
    lemma_pow10_sum(s.1, (6 - s.1) as nat);
    lemma_pow10_positive(s.1);
    assert(s.0 * pow10((6 - s.1) as nat) == n) by (nonlinear_arith)
        requires
            s.0 * pow10(6) == n * pow10(s.1),
            pow10(6) == pow10(s.1) * pow10((6 - s.1) as nat),
            pow10(s.1) > 0,
    ;
    let q = m / unit;
    let rest = m % unit;
    assert(m == q * unit + rest && 0 <= rest < unit) by (nonlinear_arith)
        requires
            q == m / unit,
            rest == m % unit,
            unit > 0,
    ;
    assert((q + 1) * unit == q * unit + unit) by (nonlinear_arith);
}

proof fn lemma_pow10_sum(a: nat, b: nat)
    ensures
        pow10(a + b) == pow10(a) * pow10(b),
    decreases a,
{
    if a == 0 {
        assert(pow10(b) == 1 * pow10(b));
    } else {
        lemma_pow10_sum((a - 1) as nat, b);
        let x = pow10((a - 1) as nat);
        let y = pow10(b);
        assert(10 * (x * y) == (10 * x) * y) by (nonlinear_arith);
    }
}

/// Credits that are not there, or below zero, cost nothing.
pub proof fn law_no_credits_cost_nothing(credits: Amount)
    requires
        credits.in_range(),
        credits.mantissa <= 0,
    ensures
        credit_cost(None) == (0nat, 0nat),
        credit_cost(Some(credits)) == (0nat, 0nat),
{
    if credits.mantissa == 0 {
        let exact = product(credits.parts(), (1, 2));
        if credits.places + 2 > MAX_PLACES {
            lemma_pow10_positive((credits.places + 2 - MAX_PLACES) as nat);
            lemma_half_even_zero(pow10((credits.places + 2 - MAX_PLACES) as nat));
        }
        if exact.1 > 6 {
            lemma_pow10_positive((exact.1 - 6) as nat);
            lemma_half_even_zero(pow10((exact.1 - 6) as nat));
        }
    }
}

/// Rounding goes to the nearest whole, and from half way between two of them to
/// the even one.
pub proof fn law_half_way_goes_to_the_even(q: nat, rest: nat, d: nat)
    requires
        rest < d,
    ensures
        2 * rest < d ==> half_even(q * d + rest, d) == q,
        2 * rest > d ==> half_even(q * d + rest, d) == q + 1,
        2 * rest == d ==> half_even(q * d + rest, d) % 2 == 0 && q <= half_even(q * d + rest, d)
            <= q + 1,
{
    vstd::arithmetic::div_mod::lemma_fundamental_div_mod_converse(
        (q * d + rest) as int,
        d as int,
        q as int,
        rest as int,
    );
}

/// All that credits cost is the cost of the output, and so the whole cost.
pub proof fn law_credits_pay_for_the_output(r: CostColumns, credits: Option<Amount>)
    requires
        are_credit_columns(r, credits),
    ensures
        r.total_cost_usd@ == r.output_cost_usd@,
        r.input_cost_usd@ == "0"@,
        r.cache_read_cost_usd@ == "0"@,
        r.cache_creation_cost_usd@ == "0"@,
{
}

} // verus!
