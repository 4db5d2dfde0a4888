//! Marked-up prices, one at a time or in batches.

use crate::decimal::{
    add_exact, aligned_sum, common_scale, decimal_parse, decimal_product, decimal_quotient,
    decimal_sum, divide, fixed_text, fixed_text_of, half_even_quotient, lacks_digits,
    lemma_half_even_exact, lemma_half_even_le, lemma_half_even_same_fraction, lemma_pow10_add,
    lemma_pow10_le, literal_amount, magnitude_bound, multiply, parse_decimal, plain_literal, pow10,
    round_to, rounded_to, signed_text, whole, Amount, MAX_SCALE,
};
use vstd::prelude::*;

verus! {

/// Number of fractional digits of a final price.
pub const PRICE_PLACES: u32 = 2;

/// Why a price could not be computed.
#[derive(Clone, Copy, Debug, PartialEq, Eq, Structural)]
pub enum PriceError {
    /// The base price is not a decimal number.
    InvalidBasePrice,
    /// The markup percentage is not a decimal number.
    InvalidMarkup,
    /// The result does not fit in a decimal.
    Overflow,
}

/// One pricing request of a batch.
#[derive(Clone, Debug, PartialEq, Eq)]
pub struct BatchItem {
    pub product_id: String,
    pub base_price: String,
    pub markup_percent: String,
}

/// One priced product of a batch.
#[derive(Clone, Debug, PartialEq, Eq)]
pub struct BatchResultItem {
    pub product_id: String,
    pub final_price: String,
}

/// The price text of an amount: rounded half to even to two places and
/// written with exactly two fractional digits.
pub open spec fn price_text_of(p: Amount) -> Seq<char> {
    fixed_text_of(rounded_to(p, PRICE_PLACES as nat), PRICE_PLACES as nat)
}

/// The factor `1 + markup / 100`, as the decimal arithmetic computes it.
pub open spec fn factor_outcome(markup: Amount) -> Option<Amount> {
    match decimal_quotient(markup, whole(100)) {
        None => None,
        Some(q) => decimal_sum(whole(1), q),
    }
}

/// The outcome of pricing `base` with a markup of `markup` percent.
pub open spec fn price_outcome(base: Seq<char>, markup: Seq<char>) -> Result<Seq<char>, PriceError> {
    match decimal_parse(base) {
        None => Err(PriceError::InvalidBasePrice),
        Some(b) => match decimal_parse(markup) {
            None => Err(PriceError::InvalidMarkup),
            Some(m) => match factor_outcome(m) {
                None => Err(PriceError::Overflow),
                Some(f) => match decimal_product(b, f) {
                    None => Err(PriceError::Overflow),
                    Some(p) => Ok(price_text_of(p)),
                },
            },
        },
    }
}

/// The absolute value of `x`.
pub open spec fn magnitude(x: int) -> nat {
    if x < 0 {
        (-x) as nat
    } else {
        x as nat
    }
}

/// The factor `1 + m / 100`, multiplied by `100 * 10^m.scale` so that it is
/// a whole number.
pub open spec fn scaled_factor(m: Amount) -> int {
    100 * pow10(m.scale as nat) + m.signed()
}

/// `b * (1 + m / 100)` is `markup_numerator(b, m) / markup_denominator(b, m)`.
pub open spec fn markup_numerator(b: Amount, m: Amount) -> int {
    b.signed() * scaled_factor(m)
}

pub open spec fn markup_denominator(b: Amount, m: Amount) -> nat {
    pow10(b.scale as nat) * 100 * pow10(m.scale as nat)
}

/// `round(b * (1 + m / 100), 2)`, half to even, written with two places.
pub open spec fn exact_price_text(b: Amount, m: Amount) -> Seq<char> {
    let n = markup_numerator(b, m);
    let cents = half_even_quotient(magnitude(n) * 100, markup_denominator(b, m));
    signed_text(n < 0 && cents != 0, cents, PRICE_PLACES as nat)
}

/// Amounts whose marked-up price the decimal arithmetic computes without
/// any intermediate rounding: the scales leave room for the product and the
/// factor and the product fit in 96 bits.
pub open spec fn within_exact_range(b: Amount, m: Amount) -> bool {
    &&& b.scale + m.scale + 2 <= MAX_SCALE
    &&& magnitude(scaled_factor(m)) < magnitude_bound()
    &&& b.digits * magnitude(scaled_factor(m)) < magnitude_bound()
}

/// `x * d == y * p` with `d >= p > 0` bounds `|x|` by `|y|`.
proof fn lemma_ratio_le(x: int, y: int, d: int, p: int)
    requires
        x * d == y * p,
        d >= p > 0,
    ensures
        magnitude(x) <= magnitude(y),
{
    let ax = magnitude(x) as int;
    let ay = magnitude(y) as int;
    assert(ax * d == ay * p) by (nonlinear_arith)
        requires
            x * d == y * p,
            d > 0,
            p > 0,
            ax == (if x < 0 { -x } else { x }),
            ay == (if y < 0 { -y } else { y }),
    ;
    assert(ax <= ay) by (nonlinear_arith)
        requires
            ax * d == ay * p,
            d >= p > 0,
            ax >= 0,
            ay >= 0,
    ;
}

/// `1 + q`, for `q == m / 100`, is the scaled factor over `100 * 10^m.scale`.
proof fn lemma_factor_sum(m: Amount, q: Amount)
    requires
        m.wf(),
        q.scale <= m.scale + 2,
        q.signed() * 100 * pow10(m.scale as nat) == m.signed() * pow10(q.scale as nat),
    ensures
        common_scale(whole(1), q) == q.scale,
        aligned_sum(whole(1), q) * (100 * pow10(m.scale as nat)) == scaled_factor(m) * pow10(q.scale as nat),
        magnitude(aligned_sum(whole(1), q)) <= magnitude(scaled_factor(m)),
{
    let pm = pow10(m.scale as nat) as int;
    let pq = pow10(q.scale as nat) as int;
    assert(pow10(0) == 1);
    let a = aligned_sum(whole(1), q);
    assert(common_scale(whole(1), q) == q.scale);
    assert(pow10((q.scale - q.scale) as nat) == 1);
    assert(pow10((q.scale - whole(1).scale) as nat) == pq);
    assert(whole(1).signed() == 1);
    assert(a == 1 * pq + q.signed() * 1);
    assert(a == pq + q.signed());
    lemma_pow10_add(q.scale as nat, 0);
    assert(a * (100 * pm) == scaled_factor(m) * pq) by (nonlinear_arith)
        requires
            a == pq + q.signed(),
            q.signed() * 100 * pm == m.signed() * pq,
            scaled_factor(m) == 100 * pm + m.signed(),
    ;
    lemma_pow10_add(2, m.scale as nat);
    lemma_pow10_le(q.scale as nat, m.scale as nat + 2);
    assert(pow10(2) == 100) by {
        assert(pow10(1) == 10 * pow10(0));
    }
    lemma_ratio_le(a, scaled_factor(m), 100 * pm, pq);
}

/// The factor `f` stands for `1 + m / 100`, and a base `b` in the exact
/// range can be multiplied by it without rounding.
proof fn lemma_factor_value(m: Amount, q: Amount, f: Amount)
    requires
        m.wf(),
        q.scale <= m.scale + 2,
        q.signed() * 100 * pow10(m.scale as nat) == m.signed() * pow10(q.scale as nat),
        f.scale <= common_scale(whole(1), q),
        f.signed() * pow10(common_scale(whole(1), q)) == aligned_sum(whole(1), q) * pow10(f.scale as nat),
    ensures
        f.scale <= m.scale + 2,
        f.signed() * (100 * pow10(m.scale as nat)) == scaled_factor(m) * pow10(f.scale as nat),
        f.digits <= magnitude(scaled_factor(m)),
{
    lemma_factor_sum(m, q);
    let pm = (100 * pow10(m.scale as nat)) as int;
    let pq = pow10(q.scale as nat) as int;
    let pf = pow10(f.scale as nat) as int;
    let a = aligned_sum(whole(1), q);
    lemma_pow10_add(q.scale as nat, 0);
    lemma_pow10_add(f.scale as nat, 0);
    assert(f.signed() * pm == scaled_factor(m) * pf) by (nonlinear_arith)
        requires
            f.signed() * pq == a * pf,
            a * pm == scaled_factor(m) * pq,
            pq > 0,
    {
        assert(f.signed() * pm * pq == scaled_factor(m) * pf * pq);
    }
    lemma_pow10_add(2, m.scale as nat);
    lemma_pow10_le(f.scale as nat, m.scale as nat + 2);
    assert(pow10(2) == 100) by {
        assert(pow10(1) == 10 * pow10(0));
    }
    lemma_ratio_le(f.signed(), scaled_factor(m), pm, pf);
}

/// The computed price of an exactly computed product is the rounded exact
/// price.
proof fn lemma_price_text_exact(b: Amount, m: Amount, f: Amount, p: Amount)
    requires
        b.wf(),
        m.wf(),
        !b.negative,
        f.wf(),
        f.signed() * (100 * pow10(m.scale as nat)) == scaled_factor(m) * pow10(f.scale as nat),
        p.wf(),
        b.digits == 0 || f.digits == 0 ==> p == whole(0),
        b.digits != 0 && f.digits != 0 ==> p == (Amount {
            negative: f.negative,
            digits: (b.digits * f.digits) as u128,
            scale: (b.scale + f.scale) as u32,
        }),
        b.digits * f.digits < magnitude_bound(),
    ensures
        price_text_of(p) == exact_price_text(b, m),
{
    let pm = (100 * pow10(m.scale as nat)) as int;
    let pf = pow10(f.scale as nat) as int;
    let pb = pow10(b.scale as nat) as int;
    let n = markup_numerator(b, m);
    let d = markup_denominator(b, m);
    lemma_pow10_add(b.scale as nat, f.scale as nat);
    lemma_pow10_add(m.scale as nat, 0);
    lemma_pow10_add(f.scale as nat, 0);
    assert(d == pb * pm) by (nonlinear_arith)
        requires
            d == pb * 100 * pow10(m.scale as nat),
            pm == 100 * pow10(m.scale as nat),
    ;
    assert(d > 0) by (nonlinear_arith)
        requires
            d == pb * 100 * pow10(m.scale as nat),
            pb > 0,
            pow10(m.scale as nat) > 0,
    ;
    assert(pow10(0) == 1);
    if b.digits == 0 || f.digits == 0 {
        assert(n == 0) by (nonlinear_arith)
            requires
                b.digits == 0 || f.digits == 0,
                n == b.signed() * scaled_factor(m),
                b.signed() == b.digits,
                f.signed() * pm == scaled_factor(m) * pf,
                f.digits == 0 ==> f.signed() == 0,
                pf > 0,
        ;
        lemma_half_even_exact(0, d);
        assert(rounded_to(p, 2) == p);
        assert(magnitude(n) * 100 == 0);
        assert(half_even_quotient(magnitude(n) * 100, d) == 0);
        assert(p.digits == 0);
        assert(p.digits * pow10((2 - p.scale) as nat) == 0) by (nonlinear_arith)
            requires
                p.digits == 0,
        ;
        assert(price_text_of(p) == signed_text(false, 0, 2));
    } else {
        // The product is exact: p.digits / 10^p.scale == |n| / d.
        let fs = f.signed();
        assert(p.digits != 0) by (nonlinear_arith)
            requires
                p.digits == b.digits * f.digits,
                b.digits > 0,
                f.digits > 0,
        ;
        assert(p.digits * d == magnitude(n) * pow10(p.scale as nat)) by (nonlinear_arith)
            requires
                p.digits == b.digits * f.digits,
                f.digits == (if fs < 0 { -fs } else { fs }),
                n == b.digits * scaled_factor(m),
                magnitude(n) == (if n < 0 { -n } else { n }),
                fs * pm == scaled_factor(m) * pf,
                d == pb * pm,
                pow10(p.scale as nat) == pb * pf,
                b.digits > 0,
                pf > 0,
        ;
        assert(n < 0 <==> f.negative) by (nonlinear_arith)
            requires
                n == b.digits * scaled_factor(m),
                fs * pm == scaled_factor(m) * pf,
                fs == (if f.negative { -f.digits } else { f.digits as int }),
                f.digits > 0,
                b.digits > 0,
                pm > 0,
                pf > 0,
        ;
        if p.scale <= 2 {
            let k = pow10((2 - p.scale) as nat);
            lemma_pow10_add(p.scale as nat, (2 - p.scale) as nat);
            assert(pow10(2) == 100) by {
                assert(pow10(1) == 10 * pow10(0));
            }
            assert((p.digits * k) * d == magnitude(n) * 100) by (nonlinear_arith)
                requires
                    p.digits * d == magnitude(n) * pow10(p.scale as nat),
                    pow10(p.scale as nat) * k == 100,
            ;
            lemma_half_even_exact((p.digits * k) as nat, d);
            assert(p.digits * k != 0) by (nonlinear_arith)
                requires
                    p.digits * d == magnitude(n) * pow10(p.scale as nat),
                    p.digits == b.digits * f.digits,
                    b.digits > 0,
                    f.digits > 0,
                    pow10(p.scale as nat) * k == 100,
            ;
            assert(price_text_of(p) == signed_text(p.negative, (p.digits * k) as nat, 2));
        } else {
            let k = pow10((p.scale - 2) as nat);
            lemma_pow10_add(2, (p.scale - 2) as nat);
            assert(pow10(2) == 100) by {
                assert(pow10(1) == 10 * pow10(0));
            }
            assert(p.digits * d == (magnitude(n) * 100) * k) by (nonlinear_arith)
                requires
                    p.digits * d == magnitude(n) * pow10(p.scale as nat),
                    pow10(p.scale as nat) == 100 * k,
            ;
            lemma_pow10_add((p.scale - 2) as nat, 0);
            lemma_half_even_same_fraction(p.digits as nat, k, magnitude(n) * 100, d);
            lemma_half_even_le(p.digits as nat, k);
            let h = half_even_quotient(p.digits as nat, k);
            let r = rounded_to(p, 2);
            assert(r.digits == h);
            assert(r.scale == 2 && r.negative == (p.negative && h != 0));
            assert(pow10(0) == 1);
            assert(pow10((2 - r.scale) as nat) == 1);
            assert(r.digits as nat * pow10((2 - r.scale) as nat) == h);
            assert(price_text_of(p) == signed_text(p.negative && h != 0, h, 2));
        }
    }
}

/// Writes an amount as a price: rounded half to even to two places, with
/// exactly two fractional digits.
pub fn format_price(p: Amount) -> (r: String)
    requires
        p.wf(),
    ensures
        r@ == price_text_of(p),
{
    let rounded = round_to(p, PRICE_PLACES);
    fixed_text(rounded, PRICE_PLACES as usize)
}

/// The factor `1 + markup / 100` by which a base price is multiplied.
pub fn markup_factor(markup: Amount) -> (r: Option<Amount>)
    requires
        markup.wf(),
    ensures
        r == factor_outcome(markup),
        r matches Some(f) ==> f.wf(),
        markup.scale <= 26 && magnitude(scaled_factor(markup)) < magnitude_bound() ==> r is Some
            && r->Some_0.scale <= markup.scale + 2 && r->Some_0.signed() * (100 * pow10(
            markup.scale as nat,
        )) == scaled_factor(markup) * pow10(r->Some_0.scale as nat) && r->Some_0.digits
            <= magnitude(scaled_factor(markup)),
{
    let hundred = Amount { negative: false, digits: 100, scale: 0 };
    let one = Amount { negative: false, digits: 1, scale: 0 };
    let ghost fits = markup.scale <= 26 && magnitude(scaled_factor(markup)) < magnitude_bound();
    match divide(markup, hundred) {
        None => None,
        Some(q) => {
            proof {
                if fits {
                    lemma_factor_sum(markup, q);
                }
            }
            let r = add_exact(one, q);
            proof {
                if fits {
                    lemma_factor_value(markup, q, r->Some_0);
                }
            }
            r
        },
    }
}

/// The price `base_price * (1 + markup_percent / 100)`, rounded half to even
/// to two places and written with two fractional digits.
pub fn calculate_price(base_price: String, markup_percent: String) -> (r: Result<
    String,
    PriceError,
>)
    ensures
        r matches Ok(t) ==> price_outcome(base_price@, markup_percent@) == Ok::<Seq<char>, PriceError>(t@),
        r matches Err(e) ==> price_outcome(base_price@, markup_percent@) == Err::<Seq<char>, PriceError>(e),
        lacks_digits(base_price@) ==> r == Err::<String, PriceError>(PriceError::InvalidBasePrice),
        forall|bw: Seq<char>, bf: Seq<char>, mneg: bool, mw: Seq<char>, mf: Seq<char>|
            #![trigger plain_literal(base_price@, false, bw, bf), plain_literal(markup_percent@, mneg, mw, mf)]
            plain_literal(base_price@, false, bw, bf) && plain_literal(markup_percent@, mneg, mw, mf)
                && within_exact_range(literal_amount(false, bw, bf), literal_amount(mneg, mw, mf))
                ==> (r is Ok && r->Ok_0@ == exact_price_text(
                literal_amount(false, bw, bf),
                literal_amount(mneg, mw, mf),
            )),
{
    let base = match parse_decimal(base_price.as_str()) {
        Some(b) => b,
        None => return Err(PriceError::InvalidBasePrice),
    };
    let markup = match parse_decimal(markup_percent.as_str()) {
        Some(m) => m,
        None => return Err(PriceError::InvalidMarkup),
    };
    let ghost exact = !base.negative && within_exact_range(base, markup);
    let factor = match markup_factor(markup) {
        Some(f) => f,
        None => return Err(PriceError::Overflow),
    };
    proof {
        if exact {
            let k = magnitude(scaled_factor(markup));
            assert(base.digits * factor.digits <= base.digits * k) by (nonlinear_arith)
                requires
                    factor.digits <= k,
            ;
        }
    }
    match multiply(base, factor) {
        Some(p) => {
            proof {
                if exact {
                    lemma_price_text_exact(base, markup, factor, p);
                }
            }
            Ok(format_price(p))
        },
        None => Err(PriceError::Overflow),
    }
}

/// What `batch_calculate` promises for `items`: the product identifiers
/// paired with their price texts, in order, or the first error met.
pub open spec fn batch_outcome(items: Seq<BatchItem>) -> Result<Seq<(Seq<char>, Seq<char>)>, PriceError>
    decreases items.len(),
{
    if items.len() == 0 {
        Ok(seq![])
    } else {
        let last = items.last();
        match batch_outcome(items.drop_last()) {
            Err(e) => Err(e),
            Ok(done) => match price_outcome(last.base_price@, last.markup_percent@) {
                Err(e) => Err(e),
                Ok(t) => Ok(done.push((last.product_id@, t))),
            },
        }
    }
}

/// The identifier and price text of each result.
pub open spec fn results_view(out: Seq<BatchResultItem>) -> Seq<(Seq<char>, Seq<char>)> {
    out.map_values(|x: BatchResultItem| (x.product_id@, x.final_price@))
}

/// Prices every item, keeping their order; stops at the first item that
/// cannot be priced and returns its error.
pub fn batch_calculate(items: &Vec<BatchItem>) -> (r: Result<Vec<BatchResultItem>, PriceError>)
    ensures
        r matches Ok(out) ==> batch_outcome(items@) == Ok::<Seq<(Seq<char>, Seq<char>)>, PriceError>(
            results_view(out@),
        ),
        r matches Err(e) ==> batch_outcome(items@) == Err::<Seq<(Seq<char>, Seq<char>)>, PriceError>(e),
{
    let mut out: Vec<BatchResultItem> = Vec::new();
    let mut i: usize = 0;
    assert(items@.take(0) =~= Seq::<BatchItem>::empty());
    assert(results_view(out@) =~= Seq::<(Seq<char>, Seq<char>)>::empty());
    while i < items.len()
        invariant
            i <= items.len(),
            batch_outcome(items@.take(i as int)) == Ok::<Seq<(Seq<char>, Seq<char>)>, PriceError>(
                results_view(out@),
            ),
        decreases items.len() - i,
    {
        let item = &items[i];
        let priced = calculate_price(item.base_price.clone(), item.markup_percent.clone());
        assert(items@.take(i + 1).drop_last() =~= items@.take(i as int));
        match priced {
            Ok(final_price) => {
                let ghost before = out@;
                out.push(BatchResultItem { product_id: item.product_id.clone(), final_price });
                assert(results_view(out@) =~= results_view(before).push(
                    (items@[i as int].product_id@, out@.last().final_price@),
                ));
            },
            Err(e) => {
                proof {
                    lemma_failure_persists(items@, (i + 1) as nat);
                }
                return Err(e);
            },
        }
        i += 1;
    }
    assert(items@.take(i as int) =~= items@);
    Ok(out)
}

/// Once a prefix of the items fails, every longer prefix fails the same way.
proof fn lemma_failure_persists(items: Seq<BatchItem>, n: nat)
    requires
        0 < n <= items.len(),
        batch_outcome(items.take(n as int)) is Err,
    ensures
        batch_outcome(items) == batch_outcome(items.take(n as int)),
    decreases items.len() - n,
{
    if n < items.len() {
        assert(items.take(n as int + 1).drop_last() =~= items.take(n as int));
        lemma_failure_persists(items, n + 1);
    } else {
        assert(items.take(n as int) =~= items);
    }
}

/// The price outcome of one batch item.
pub open spec fn item_outcome(item: BatchItem) -> Result<Seq<char>, PriceError> {
    price_outcome(item.base_price@, item.markup_percent@)
}

/// A batch succeeds exactly when every item can be priced; it then holds one
/// result per item, in the order of the items, each pairing the item's
/// identifier with its price. A failing batch reports the error of its first
/// failing item.
pub proof fn lemma_batch_pointwise(items: Seq<BatchItem>)
    ensures
        batch_outcome(items) is Ok <==> forall|i: int|
            0 <= i < items.len() ==> #[trigger] item_outcome(items[i]) is Ok,
        batch_outcome(items) is Ok ==> batch_outcome(items)->Ok_0.len() == items.len(),
        batch_outcome(items) is Ok ==> forall|i: int|
            0 <= i < items.len() ==> #[trigger] batch_outcome(items)->Ok_0[i] == (
                items[i].product_id@,
                item_outcome(items[i])->Ok_0,
            ),
        batch_outcome(items) is Err ==> exists|i: int|
            0 <= i < items.len() && #[trigger] item_outcome(items[i]) == Err::<Seq<char>, PriceError>(
                batch_outcome(items)->Err_0,
            ) && forall|j: int| 0 <= j < i ==> #[trigger] item_outcome(items[j]) is Ok,
    decreases items.len(),
{
    if items.len() > 0 {
        let front = items.drop_last();
        lemma_batch_pointwise(front);
        let n = items.len() - 1;
        assert(forall|i: int| 0 <= i < n ==> #[trigger] front[i] == items[i]);
        if batch_outcome(front) is Err {
            let i = choose|i: int|
                0 <= i < front.len() && #[trigger] item_outcome(front[i]) == Err::<Seq<char>, PriceError>(
                    batch_outcome(front)->Err_0,
                ) && forall|j: int| 0 <= j < i ==> #[trigger] item_outcome(front[j]) is Ok;
            assert(item_outcome(items[i]) is Err);
            assert(forall|j: int| 0 <= j < i ==> #[trigger] item_outcome(items[j]) is Ok) by {
                assert forall|j: int| 0 <= j < i implies #[trigger] item_outcome(items[j]) is Ok by {
                    assert(item_outcome(front[j]) is Ok);
                }
            }
        } else if item_outcome(items[n]) is Err {
            assert(forall|j: int| 0 <= j < n ==> #[trigger] item_outcome(items[j]) is Ok) by {
                assert forall|j: int| 0 <= j < n implies #[trigger] item_outcome(items[j]) is Ok by {
                    assert(item_outcome(front[j]) is Ok);
                }
            }
        } else {
            assert forall|i: int| 0 <= i < items.len() implies #[trigger] item_outcome(items[i]) is Ok by {
                if i < n {
                    assert(item_outcome(front[i]) is Ok);
                }
            }
        }
    }
}

/// Pricing is a function of the two texts alone: equal inputs give equal
/// outcomes, however often the price is computed.
pub proof fn lemma_price_deterministic(base1: Seq<char>, markup1: Seq<char>, base2: Seq<char>, markup2: Seq<char>)
    requires
        base1 == base2,
        markup1 == markup2,
    ensures
        price_outcome(base1, markup1) == price_outcome(base2, markup2),
{
}

} // verus!
