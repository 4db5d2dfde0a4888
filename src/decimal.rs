//! A plain model of `rust_decimal::Decimal` and the calls made into that crate.

use rust_decimal::Decimal;
use vstd::prelude::*;

verus! {

/// Exclusive bound of a decimal magnitude: magnitudes fit in 96 bits.
pub open spec fn magnitude_bound() -> int {
    0x1_0000_0000_0000_0000_0000_0000
}

/// Largest number of fractional digits a decimal can carry.
pub const MAX_SCALE: u32 = 28;

/// Ten to the power `n`.
pub open spec fn pow10(n: nat) -> nat
    decreases n,
{
    if n == 0 {
        1
    } else {
        10 * pow10((n - 1) as nat)
    }
}

/// A decimal number `(-1)^negative * digits / 10^scale`.
///
/// The sign is kept apart from the magnitude, so a zero may carry a negative
/// sign, as it may in `rust_decimal`.
#[derive(Clone, Copy, Debug, PartialEq, Eq, Structural)]
pub struct Amount {
    pub negative: bool,
    pub digits: u128,
    pub scale: u32,
}

impl Amount {
    /// The magnitude fits in 96 bits and the scale is at most 28.
    pub open spec fn wf(self) -> bool {
        self.digits < magnitude_bound() && self.scale <= MAX_SCALE
    }

    /// The signed mantissa: the value is `signed() / 10^scale`.
    pub open spec fn signed(self) -> int {
        if self.negative {
            -(self.digits as int)
        } else {
            self.digits as int
        }
    }
}

/// The whole number `n` as an amount.
pub open spec fn whole(n: u128) -> Amount {
    Amount { negative: false, digits: n, scale: 0 }
}

/// Digit character of `d < 10`.
pub open spec fn digit_char(d: nat) -> char {
    ((d % 10) + ('0' as nat)) as char
}

/// Decimal digits of `n`, without leading zeros; `"0"` for zero.
pub open spec fn decimal_text(n: nat) -> Seq<char>
    decreases n,
{
    if n < 10 {
        seq![digit_char(n)]
    } else {
        decimal_text(n / 10).push(digit_char(n % 10))
    }
}

/// The last `width` decimal digits of `n`, with leading zeros.
pub open spec fn padded_digits(n: nat, width: nat) -> Seq<char>
    decreases width,
{
    if width == 0 {
        seq![]
    } else {
        padded_digits(n / 10, (width - 1) as nat).push(digit_char(n % 10))
    }
}

/// The text of `units / 10^places`, with exactly `places` fractional digits
/// and a leading minus sign when `negative`.
pub open spec fn signed_text(negative: bool, units: nat, places: nat) -> Seq<char> {
    let sign = if negative { seq!['-'] } else { seq![] };
    let fraction = if places > 0 {
        seq!['.'] + padded_digits(units % pow10(places), places)
    } else {
        seq![]
    };
    sign + decimal_text(units / pow10(places)) + fraction
}

/// The text of `a` with exactly `places` fractional digits, for `a.scale <= places`.
pub open spec fn fixed_text_of(a: Amount, places: nat) -> Seq<char> {
    signed_text(a.negative, a.digits as nat * pow10((places - a.scale) as nat), places)
}

/// `n / d` rounded to a whole number, a tie going to the even neighbour.
pub open spec fn half_even_quotient(n: nat, d: nat) -> nat
    recommends
        d > 0,
{
    let q = n / d;
    let r = n % d;
    if 2 * r > d || (2 * r == d && q % 2 == 1) {
        q + 1
    } else {
        q
    }
}

/// `a` rounded to at most `places` fractional digits, ties to even; a
/// result rounded to zero is positive.
pub open spec fn rounded_to(a: Amount, places: nat) -> Amount {
    if a.scale <= places {
        a
    } else if a.digits == 0 {
        Amount { negative: a.negative, digits: 0, scale: places as u32 }
    } else {
        let digits = half_even_quotient(a.digits as nat, pow10((a.scale - places) as nat));
        Amount { negative: a.negative && digits != 0, digits: digits as u128, scale: places as u32 }
    }
}

/// `10^(a + b) == 10^a * 10^b`, and powers of ten are positive.
pub proof fn lemma_pow10_add(a: nat, b: nat)
    ensures
        pow10(a + b) == pow10(a) * pow10(b),
        pow10(a) > 0,
    decreases a,
{
    if a > 0 {
        lemma_pow10_add((a - 1) as nat, b);
        assert(pow10(a + b) == 10 * pow10((a - 1 + b) as nat));
        assert(pow10(a) == 10 * pow10((a - 1) as nat));
        assert(10 * (pow10((a - 1) as nat) * pow10(b)) == (10 * pow10((a - 1) as nat)) * pow10(b))
            by (nonlinear_arith);
    } else {
        assert(pow10(0) == 1);
        assert(pow10(a + b) == pow10(b));
    }
}

/// Powers of ten grow with the exponent.
pub proof fn lemma_pow10_le(a: nat, b: nat)
    requires
        a <= b,
    ensures
        pow10(a) <= pow10(b),
{
    lemma_pow10_add(a, (b - a) as nat);
    lemma_pow10_add((b - a) as nat, 0);
    assert(pow10((b - a) as nat) >= 1);
    assert(pow10(a) * pow10((b - a) as nat) >= pow10(a)) by (nonlinear_arith)
        requires
            pow10((b - a) as nat) >= 1,
            pow10(a) > 0,
    ;
}

/// Scaling both sides of a fraction keeps its rounding.
pub proof fn lemma_half_even_scale(n: nat, d: nat, k: nat)
    requires
        d > 0,
        k > 0,
    ensures
        half_even_quotient(n * k, d * k) == half_even_quotient(n, d),
{
    let q = n / d;
    let r = n % d;
    assert(n == q * d + r && 0 <= r < d) by {
        vstd::arithmetic::div_mod::lemma_fundamental_div_mod(n as int, d as int);
    }
    assert(n * k == q * (d * k) + r * k && 0 <= r * k < d * k) by (nonlinear_arith)
        requires
            n == q * d + r,
            0 <= r < d,
            k > 0,
    ;
    vstd::arithmetic::div_mod::lemma_fundamental_div_mod_converse(
        (n * k) as int,
        (d * k) as int,
        q as int,
        (r * k) as int,
    );
    assert(2 * r > d <==> 2 * (r * k) > d * k) by (nonlinear_arith)
        requires
            k > 0,
    ;
    assert(2 * r == d <==> 2 * (r * k) == d * k) by (nonlinear_arith)
        requires
            k > 0,
    ;
}

/// Two fractions of the same value round alike.
pub proof fn lemma_half_even_same_fraction(n1: nat, d1: nat, n2: nat, d2: nat)
    requires
        d1 > 0,
        d2 > 0,
        n1 * d2 == n2 * d1,
    ensures
        half_even_quotient(n1, d1) == half_even_quotient(n2, d2),
{
    lemma_half_even_scale(n1, d1, d2);
    lemma_half_even_scale(n2, d2, d1);
    assert(d1 * d2 == d2 * d1) by (nonlinear_arith);
}

/// A fraction that is a whole number rounds to itself.
pub proof fn lemma_half_even_exact(u: nat, d: nat)
    requires
        d > 0,
    ensures
        half_even_quotient(u * d, d) == u,
{
    vstd::arithmetic::div_mod::lemma_fundamental_div_mod_converse((u * d) as int, d as int, u as int, 0);
}

/// Rounding never grows a magnitude.
pub proof fn lemma_half_even_le(n: nat, d: nat)
    requires
        d > 0,
    ensures
        half_even_quotient(n, d) <= n,
{
    let q = n / d;
    let r = n % d;
    vstd::arithmetic::div_mod::lemma_fundamental_div_mod(n as int, d as int);
    assert(q * d >= q) by (nonlinear_arith)
        requires
            d > 0,
            q >= 0,
    ;
}

/// An ASCII decimal digit.
pub open spec fn is_digit(c: char) -> bool {
    '0' <= c && c <= '9'
}

/// Every character of `s` is a decimal digit.
pub open spec fn all_digits(s: Seq<char>) -> bool {
    forall|i: int| 0 <= i < s.len() ==> is_digit(#[trigger] s[i])
}

/// Value of a string of digits.
pub open spec fn digits_value(s: Seq<char>) -> nat
    decreases s.len(),
{
    if s.len() == 0 {
        0
    } else {
        (10 * digits_value(s.drop_last()) + (s.last() as int - '0' as int)) as nat
    }
}

/// `s` is a plain decimal literal `[-+]? whole ('.' fraction)?`, of at most
/// 28 digits in all, whose sign is `negative`.
pub open spec fn plain_literal(s: Seq<char>, negative: bool, whole: Seq<char>, fraction: Seq<char>) -> bool {
    let body = if fraction.len() > 0 { whole + seq!['.'] + fraction } else { whole };
    &&& whole.len() > 0
    &&& all_digits(whole)
    &&& all_digits(fraction)
    &&& whole.len() + fraction.len() <= 28
    &&& (s == body && !negative || s == seq!['+'] + body && !negative || s == seq!['-'] + body && negative)
}

/// The amount a plain literal stands for.
pub open spec fn literal_amount(negative: bool, whole: Seq<char>, fraction: Seq<char>) -> Amount {
    Amount {
        negative: negative && digits_value(whole + fraction) != 0,
        digits: digits_value(whole + fraction) as u128,
        scale: fraction.len() as u32,
    }
}

/// `s` holds no decimal digit.
pub open spec fn lacks_digits(s: Seq<char>) -> bool {
    forall|i: int| 0 <= i < s.len() ==> !is_digit(#[trigger] s[i])
}

/// What `Decimal::from_str` makes of `s`.
pub uninterp spec fn decimal_parse(s: Seq<char>) -> Option<Amount>;

/// What `Decimal::checked_div` makes of `a / b`.
pub uninterp spec fn decimal_quotient(a: Amount, b: Amount) -> Option<Amount>;

/// What `Decimal::checked_add` makes of `a + b`.
pub uninterp spec fn decimal_sum(a: Amount, b: Amount) -> Option<Amount>;

/// What `Decimal::checked_mul` makes of `a * b`.
pub uninterp spec fn decimal_product(a: Amount, b: Amount) -> Option<Amount>;

/// Relies on `Decimal::from_str` (rust_decimal's `FromStr`): a literal of at
/// most 28 digits is read exactly, keeping its number of fractional digits
/// and the sign of a non-zero value; a string without digits is refused.
#[verifier::external_body]
pub(crate) fn parse_decimal(s: &str) -> (r: Option<Amount>)
    ensures
        r == decimal_parse(s@),
        r matches Some(a) ==> a.wf(),
        forall|negative: bool, whole: Seq<char>, fraction: Seq<char>|
            plain_literal(s@, negative, whole, fraction) ==> r == Some(
                literal_amount(negative, whole, fraction),
            ),
        lacks_digits(s@) ==> r is None,
{
    match s.parse::<Decimal>() {
        Ok(d) => Some(Amount { negative: d.is_sign_negative(), digits: d.mantissa().unsigned_abs(), scale: d.scale() }),
        Err(_) => None,
    }
}

/// Relies on `Decimal::checked_div`: `None` on a zero divisor; a zero
/// dividend gives a positive zero; dividing an amount of at most 26
/// fractional digits by 100 is exact and adds at most two fractional digits.
#[verifier::external_body]
pub(crate) fn divide(a: Amount, b: Amount) -> (r: Option<Amount>)
    requires
        a.wf(),
        b.wf(),
    ensures
        r == decimal_quotient(a, b),
        r matches Some(q) ==> q.wf(),
        b.digits == 0 ==> r is None,
        a.digits == 0 && b.digits != 0 ==> r == Some(whole(0)),
        b == whole(100) && a.scale <= 26 ==> r is Some && r->Some_0.scale <= a.scale + 2
            && r->Some_0.signed() * 100 * pow10(a.scale as nat) == a.signed() * pow10(
            r->Some_0.scale as nat,
        ),
{
    let mut x = Decimal::from_i128_with_scale(a.digits as i128, a.scale);
    x.set_sign_negative(a.negative);
    let mut y = Decimal::from_i128_with_scale(b.digits as i128, b.scale);
    y.set_sign_negative(b.negative);
    match x.checked_div(y) {
        Some(d) => Some(Amount { negative: d.is_sign_negative(), digits: d.mantissa().unsigned_abs(), scale: d.scale() }),
        None => None,
    }
}

/// The larger of the two scales.
pub open spec fn common_scale(a: Amount, b: Amount) -> nat {
    if a.scale >= b.scale {
        a.scale as nat
    } else {
        b.scale as nat
    }
}

/// The signed mantissa of `a + b`, written at the larger of the two scales.
pub open spec fn aligned_sum(a: Amount, b: Amount) -> int {
    let t = common_scale(a, b);
    a.signed() * pow10((t - a.scale) as nat) + b.signed() * pow10((t - b.scale) as nat)
}

/// Relies on `Decimal::checked_add`: when the sum, written at the larger of
/// the two scales, fits in 96 bits, it is returned exactly, at no larger scale.
#[verifier::external_body]
pub(crate) fn add_exact(a: Amount, b: Amount) -> (r: Option<Amount>)
    requires
        a.wf(),
        b.wf(),
    ensures
        r == decimal_sum(a, b),
        r matches Some(c) ==> c.wf(),
        -magnitude_bound() < aligned_sum(a, b) < magnitude_bound() ==> r is Some
            && r->Some_0.scale <= common_scale(a, b) && r->Some_0.signed() * pow10(common_scale(a, b))
            == aligned_sum(a, b) * pow10(r->Some_0.scale as nat),
{
    let mut x = Decimal::from_i128_with_scale(a.digits as i128, a.scale);
    x.set_sign_negative(a.negative);
    let mut y = Decimal::from_i128_with_scale(b.digits as i128, b.scale);
    y.set_sign_negative(b.negative);
    match x.checked_add(y) {
        Some(d) => Some(Amount { negative: d.is_sign_negative(), digits: d.mantissa().unsigned_abs(), scale: d.scale() }),
        None => None,
    }
}

/// Relies on `Decimal::checked_mul`: a zero factor gives a positive zero;
/// otherwise a product that fits in 96 bits at the sum of the two scales is
/// returned exactly.
#[verifier::external_body]
pub(crate) fn multiply(a: Amount, b: Amount) -> (r: Option<Amount>)
    requires
        a.wf(),
        b.wf(),
    ensures
        r == decimal_product(a, b),
        r matches Some(c) ==> c.wf(),
        a.digits == 0 || b.digits == 0 ==> r == Some(whole(0)),
        a.digits != 0 && b.digits != 0 && a.scale + b.scale <= MAX_SCALE && a.digits * b.digits
            < magnitude_bound() ==> r == Some(
            Amount {
                negative: a.negative != b.negative,
                digits: (a.digits * b.digits) as u128,
                scale: (a.scale + b.scale) as u32,
            },
        ),
{
    let mut x = Decimal::from_i128_with_scale(a.digits as i128, a.scale);
    x.set_sign_negative(a.negative);
    let mut y = Decimal::from_i128_with_scale(b.digits as i128, b.scale);
    y.set_sign_negative(b.negative);
    match x.checked_mul(y) {
        Some(d) => Some(Amount { negative: d.is_sign_negative(), digits: d.mantissa().unsigned_abs(), scale: d.scale() }),
        None => None,
    }
}

/// Relies on `Decimal::round_dp`: at most `places` fractional digits,
/// rounding half to even; a value rounded to zero loses its sign.
#[verifier::external_body]
pub(crate) fn round_to(a: Amount, places: u32) -> (r: Amount)
    requires
        a.wf(),
    ensures
        r == rounded_to(a, places as nat),
        r.wf(),
{
    let mut x = Decimal::from_i128_with_scale(a.digits as i128, a.scale);
    x.set_sign_negative(a.negative);
    let d = x.round_dp(places);
    Amount { negative: d.is_sign_negative(), digits: d.mantissa().unsigned_abs(), scale: d.scale() }
}

/// Relies on `Decimal`'s `Display` with a precision: the digits, a point and
/// exactly `places` fractional digits, a minus sign for a negative sign bit.
#[verifier::external_body]
pub(crate) fn fixed_text(a: Amount, places: usize) -> (r: String)
    requires
        a.wf(),
        a.scale <= places <= MAX_SCALE,
    ensures
        r@ == fixed_text_of(a, places as nat),
{
    let mut x = Decimal::from_i128_with_scale(a.digits as i128, a.scale);
    x.set_sign_negative(a.negative);
    format!("{:.*}", places, x)
}

} // verus!
