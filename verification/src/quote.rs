//! Quotes and quote arithmetic.
//!
//! A quote carries the price, the absolute change against the previous
//! close, and the change percentage, all as of one fetch.  A fetched
//! response yields a quote only when both the current price and the
//! previous close are present; the derived figures are computed here, so
//! a quote is never partial.

use vstd::prelude::*;

use crate::money::{amount_ok, mul_div, mul_div_trunc, lemma_mul_div_trunc_bound, MAX_AMOUNT,
    PCT_SCALE};

verus! {

/// Largest change-percentage magnitude a well-formed quote can carry:
/// `MAX_AMOUNT * PCT_SCALE`, reached when the previous close is one
/// fixed-point step.
pub const MAX_PERCENT: i64 = 10_000_000_000_000_000;

/// One fetched quote: price, absolute change, and change percentage
/// (all fixed-point, four decimal places).
#[derive(Clone, Copy, Debug, PartialEq, Eq, Structural)]
pub struct Quote {
    pub price: i64,
    pub change: i64,
    pub change_percent: i64,
}

/// Well-formedness of a quote's numeric ranges.
pub open spec fn quote_wf(q: Quote) -> bool {
    &&& amount_ok(q.price)
    &&& -MAX_AMOUNT <= q.change <= MAX_AMOUNT
    &&& -MAX_PERCENT <= q.change_percent <= MAX_PERCENT
}

/// Change percentage of `price` against `prev`, truncating toward zero.
pub open spec fn spec_change_percent(price: i64, prev: i64) -> int
    recommends
        prev > 0,
{
    mul_div_trunc(PCT_SCALE as int, price - prev, prev as int)
}

/// The quote derived from a current price and a previous close.
pub open spec fn spec_make_quote(price: i64, prev: i64) -> Quote
    recommends
        prev > 0,
{
    Quote {
        price,
        change: (price - prev) as i64,
        change_percent: spec_change_percent(price, prev) as i64,
    }
}

/// Build a quote from a fetched current price and previous close:
/// `change = price - prev`, `change_percent = change / prev * 100`.
pub fn make_quote(price: i64, prev: i64) -> (q: Quote)
    requires
        amount_ok(price),
        0 < prev <= MAX_AMOUNT,
    ensures
        q == spec_make_quote(price, prev),
        quote_wf(q),
        q.price == price,
        q.change == price - prev,
        q.change_percent == spec_change_percent(price, prev),
{
    let change: i64 = price - prev;
    proof {
        lemma_mul_div_trunc_bound(
            PCT_SCALE as int,
            change as int,
            prev as int,
            PCT_SCALE as int,
            MAX_AMOUNT as int,
        );
        crate::money::lemma_div_shrinks((PCT_SCALE as int) * (MAX_AMOUNT as int), prev as int);
    }
    let cp: i128 = mul_div(PCT_SCALE as i128, change as i128, prev as i128);
    Quote { price, change, change_percent: cp as i64 }
}

/// The exchange-rate pseudo-symbol `USDTWD=X`, fetched through the same
/// quote path as any stock symbol.
pub fn usd_twd_symbol() -> (r: Vec<u8>)
    ensures
        r@ == seq![85u8, 83u8, 68u8, 84u8, 87u8, 68u8, 61u8, 88u8],
{
    let mut v: Vec<u8> = Vec::new();
    v.push(85);
    v.push(83);
    v.push(68);
    v.push(84);
    v.push(87);
    v.push(68);
    v.push(61);
    v.push(88);
    proof {
        assert(v@ =~= seq![85u8, 83u8, 68u8, 84u8, 87u8, 68u8, 61u8, 88u8]);
    }
    v
}

/// Fallback exchange rate (`32.0`) used when the rate fetch yields nothing.
pub const DEFAULT_USD_TWD_RATE: i64 = 320_000;

/// The price of a fetched exchange-rate quote, or the hardcoded default
/// when no quote could be obtained.
pub open spec fn spec_rate_or_default(q: Option<Quote>) -> i64 {
    match q {
        Some(x) => x.price,
        None => DEFAULT_USD_TWD_RATE,
    }
}

/// Resolve the exchange rate from an optional fetched quote.
pub fn rate_or_default(q: Option<Quote>) -> (r: i64)
    requires
        q matches Some(x) ==> quote_wf(x),
    ensures
        r == spec_rate_or_default(q),
        amount_ok(r),
{
    match q {
        Some(x) => x.price,
        None => DEFAULT_USD_TWD_RATE,
    }
}

} // verus!
