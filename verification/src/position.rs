//! Positions: the rows the dashboard displays and ranks.
//!
//! A position is a holding (possibly aggregated across portfolios)
//! together with its current quote, if one has landed, and the label of
//! the portfolios it came from.  Derived figures — market value, gain in
//! the primary currency, gain percentage — are computed here; gains of
//! non-Taiwan symbols are converted with the current exchange rate so
//! cross-market comparisons use one currency.

use vstd::prelude::*;

use crate::bytes::clone_bytes;
use crate::holding::Holding;
use crate::market::has_tw_marker;
use crate::money::{amount_ok, mul_div, mul_div_trunc, lemma_mul_div_trunc_bound, MAX_AMOUNT,
    PCT_SCALE, SCALE};
use crate::quote::{quote_wf, Quote, MAX_PERCENT};

verus! {

/// Largest quantity an aggregated position can carry:
/// `MAX_HOLDINGS * MAX_AMOUNT`.
pub const MAX_TOTAL_QUANTITY: i64 = 100_000_000_000_000;

/// Largest magnitude of a position's native-currency value or gain:
/// `MAX_TOTAL_QUANTITY * MAX_AMOUNT / SCALE`.
pub const MAX_NATIVE_VALUE: i128 = 100_000_000_000_000_000_000;

/// Largest magnitude of a converted value or gain:
/// `MAX_AMOUNT * MAX_NATIVE_VALUE / SCALE`.
pub const MAX_CONVERTED_VALUE: i128 = 100_000_000_000_000_000_000_000_000;

/// One displayable row: an instrument with its position and, once
/// fetched, its quote.
pub struct Position {
    pub symbol: Vec<u8>,
    pub display: Vec<u8>,
    pub name: Vec<u8>,
    pub quantity: i64,
    pub cost_basis: i64,
    pub quote: Option<Quote>,
    pub portfolio: Vec<u8>,
}

/// Mathematical image of a position.
pub struct PositionView {
    pub symbol: Seq<u8>,
    pub display: Seq<u8>,
    pub name: Seq<u8>,
    pub quantity: i64,
    pub cost_basis: i64,
    pub quote: Option<Quote>,
    pub portfolio: Seq<u8>,
}

impl View for Position {
    type V = PositionView;

    open spec fn view(&self) -> PositionView {
        PositionView {
            symbol: self.symbol@,
            display: self.display@,
            name: self.name@,
            quantity: self.quantity,
            cost_basis: self.cost_basis,
            quote: self.quote,
            portfolio: self.portfolio@,
        }
    }
}

/// Ranges of a well-formed position: the quantity may be an aggregate
/// over many holdings, the cost basis is a weighted average and stays an
/// ordinary amount.
pub open spec fn position_wf(p: PositionView) -> bool {
    &&& 0 <= p.quantity <= MAX_TOTAL_QUANTITY
    &&& amount_ok(p.cost_basis)
    &&& match p.quote {
        Some(q) => quote_wf(q),
        None => true,
    }
}

/// The views of a list of positions.
pub open spec fn positions_view(s: Seq<Position>) -> Seq<PositionView> {
    Seq::new(s.len(), |i: int| s[i]@)
}

/// Every position of the list is well-formed.
pub open spec fn positions_wf(s: Seq<PositionView>) -> bool {
    forall|i: int| 0 <= i < s.len() ==> position_wf(#[trigger] s[i])
}

/// Copy a position.
pub fn clone_position(p: &Position) -> (r: Position)
    ensures
        r@ == p@,
{
    Position {
        symbol: clone_bytes(&p.symbol),
        display: clone_bytes(&p.display),
        name: clone_bytes(&p.name),
        quantity: p.quantity,
        cost_basis: p.cost_basis,
        quote: p.quote,
        portfolio: clone_bytes(&p.portfolio),
    }
}

/// A freshly loaded holding as a position of one portfolio, with no
/// quote yet.
pub fn position_of_holding(h: &Holding, portfolio: &Vec<u8>) -> (r: Position)
    ensures
        r@.symbol == h@.symbol,
        r@.display == h@.display,
        r@.name == h@.name,
        r@.quantity == h@.quantity,
        r@.cost_basis == h@.cost_basis,
        r@.quote is None,
        r@.portfolio == portfolio@,
        crate::holding::holding_wf(h@) ==> position_wf(r@),
{
    Position {
        symbol: clone_bytes(&h.symbol),
        display: clone_bytes(&h.display),
        name: clone_bytes(&h.name),
        quantity: h.quantity,
        cost_basis: h.cost_basis,
        quote: None,
        portfolio: clone_bytes(portfolio),
    }
}

/// Market value of the position at its current quote (native currency,
/// fixed-point); zero while no quote has landed.
pub open spec fn spec_value(p: PositionView) -> int {
    match p.quote {
        Some(q) => mul_div_trunc(p.quantity as int, q.price as int, SCALE as int),
        None => 0,
    }
}

/// What the position cost (native currency, fixed-point).
pub open spec fn spec_cost(p: PositionView) -> int {
    mul_div_trunc(p.quantity as int, p.cost_basis as int, SCALE as int)
}

/// Gain of the position in its native currency: quantity times the
/// difference between price and cost basis, computed only when the
/// quantity and cost basis are positive and a quote is present.
pub open spec fn spec_native_gain(p: PositionView) -> int {
    match p.quote {
        Some(q) => if p.quantity > 0 && p.cost_basis > 0 {
            mul_div_trunc(p.quantity as int, q.price - p.cost_basis, SCALE as int)
        } else {
            0
        },
        None => 0,
    }
}

/// Gain converted into the primary market's currency: Taiwan positions
/// are already in it; others are multiplied by the exchange rate.
pub open spec fn spec_gain(p: PositionView, rate: i64) -> int {
    if has_tw_marker(p.symbol) {
        spec_native_gain(p)
    } else {
        mul_div_trunc(rate as int, spec_native_gain(p), SCALE as int)
    }
}

/// Gain percentage of the position against its cost basis, independent
/// of quantity and currency.
pub open spec fn spec_gain_percent(p: PositionView) -> int {
    match p.quote {
        Some(q) => if p.quantity > 0 && p.cost_basis > 0 {
            mul_div_trunc(PCT_SCALE as int, q.price - p.cost_basis, p.cost_basis as int)
        } else {
            0
        },
        None => 0,
    }
}

/// All derived figures of a well-formed position stay within their
/// stated ranges.
pub proof fn lemma_position_figures_bounded(p: PositionView, rate: i64)
    requires
        position_wf(p),
        amount_ok(rate),
    ensures
        0 <= spec_value(p) <= MAX_NATIVE_VALUE,
        0 <= spec_cost(p) <= MAX_NATIVE_VALUE,
        -MAX_NATIVE_VALUE <= spec_native_gain(p) <= MAX_NATIVE_VALUE,
        -MAX_CONVERTED_VALUE <= spec_gain(p, rate) <= MAX_CONVERTED_VALUE,
        -MAX_PERCENT <= spec_gain_percent(p) <= MAX_PERCENT,
{
    lemma_mul_div_trunc_bound(
        p.quantity as int,
        p.cost_basis as int,
        SCALE as int,
        MAX_TOTAL_QUANTITY as int,
        MAX_AMOUNT as int,
    );
    match p.quote {
        Some(q) => {
            lemma_mul_div_trunc_bound(
                p.quantity as int,
                q.price as int,
                SCALE as int,
                MAX_TOTAL_QUANTITY as int,
                MAX_AMOUNT as int,
            );
            lemma_mul_div_trunc_bound(
                p.quantity as int,
                q.price - p.cost_basis,
                SCALE as int,
                MAX_TOTAL_QUANTITY as int,
                MAX_AMOUNT as int,
            );
            lemma_mul_div_trunc_bound(
                rate as int,
                spec_native_gain(p),
                SCALE as int,
                MAX_AMOUNT as int,
                MAX_NATIVE_VALUE as int,
            );
            if p.quantity > 0 && p.cost_basis > 0 {
                lemma_mul_div_trunc_bound(
                    PCT_SCALE as int,
                    q.price - p.cost_basis,
                    p.cost_basis as int,
                    PCT_SCALE as int,
                    MAX_AMOUNT as int,
                );
                crate::money::lemma_div_shrinks(
                    (PCT_SCALE as int) * (MAX_AMOUNT as int),
                    p.cost_basis as int,
                );
            }
        },
        None => {
            lemma_mul_div_trunc_bound(
                rate as int,
                0,
                SCALE as int,
                MAX_AMOUNT as int,
                MAX_NATIVE_VALUE as int,
            );
        },
    }
}

/// Compute the converted gain of a position.
pub fn gain(p: &Position, rate: i64) -> (r: i128)
    requires
        position_wf(p@),
        amount_ok(rate),
    ensures
        r == spec_gain(p@, rate),
        -MAX_CONVERTED_VALUE <= r <= MAX_CONVERTED_VALUE,
{
    proof {
        lemma_position_figures_bounded(p@, rate);
    }
    let native: i128 = match &p.quote {
        Some(q) => {
            if p.quantity > 0 && p.cost_basis > 0 {
                mul_div(p.quantity as i128, q.price as i128 - p.cost_basis as i128, SCALE as i128)
            } else {
                0
            }
        },
        None => 0,
    };
    if crate::market::market_of(&p.symbol) == crate::market::Market::Taiwan {
        native
    } else {
        mul_div(rate as i128, native, SCALE as i128)
    }
}

/// Compute the gain percentage of a position.
pub fn gain_percent(p: &Position) -> (r: i128)
    requires
        position_wf(p@),
    ensures
        r == spec_gain_percent(p@),
        -MAX_PERCENT <= r <= MAX_PERCENT,
{
    proof {
        lemma_position_figures_bounded(p@, 0);
    }
    match &p.quote {
        Some(q) => {
            if p.quantity > 0 && p.cost_basis > 0 {
                mul_div(
                    PCT_SCALE as i128,
                    q.price as i128 - p.cost_basis as i128,
                    p.cost_basis as i128,
                )
            } else {
                0
            }
        },
        None => 0,
    }
}

} // verus!
