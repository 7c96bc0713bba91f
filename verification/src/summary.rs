//! Portfolio summaries.
//!
//! Totals over the displayed positions: cost, market value, gain, and
//! gain percentage.  Only positions with a positive quantity and a
//! landed quote count.  The overall summary converts non-Taiwan
//! positions into the primary currency with the exchange rate; the
//! per-market summary keeps each market in its own currency.

use vstd::prelude::*;

use crate::market::{has_tw_marker, market_of, spec_market_of, Market};
use crate::money::{amount_ok, mul_div, mul_div_trunc, lemma_mul_div_trunc_bound, MAX_AMOUNT,
    MAX_HOLDINGS, PCT_SCALE, SCALE};
use crate::quote::Quote;
use crate::position::{lemma_position_figures_bounded, positions_view, positions_wf, position_wf,
    spec_cost, spec_value, Position, PositionView, MAX_CONVERTED_VALUE, MAX_NATIVE_VALUE};

verus! {

/// A position counts toward totals when it has a positive quantity and
/// a quote has landed.
pub open spec fn counted(p: PositionView) -> bool {
    p.quantity > 0 && p.quote is Some
}

/// Cost of a counted position, converted into the primary currency.
pub open spec fn converted_cost(p: PositionView, rate: i64) -> int {
    if has_tw_marker(p.symbol) {
        spec_cost(p)
    } else {
        mul_div_trunc(rate as int, spec_cost(p), SCALE as int)
    }
}

/// Value of a counted position, converted into the primary currency.
pub open spec fn converted_value(p: PositionView, rate: i64) -> int {
    if has_tw_marker(p.symbol) {
        spec_value(p)
    } else {
        mul_div_trunc(rate as int, spec_value(p), SCALE as int)
    }
}

/// Total converted cost of the counted positions.
pub open spec fn sum_cost(s: Seq<PositionView>, rate: i64) -> int
    decreases s.len(),
{
    if s.len() == 0 {
        0
    } else {
        sum_cost(s.drop_last(), rate) + if counted(s.last()) {
            converted_cost(s.last(), rate)
        } else {
            0
        }
    }
}

/// Total converted value of the counted positions.
pub open spec fn sum_value(s: Seq<PositionView>, rate: i64) -> int
    decreases s.len(),
{
    if s.len() == 0 {
        0
    } else {
        sum_value(s.drop_last(), rate) + if counted(s.last()) {
            converted_value(s.last(), rate)
        } else {
            0
        }
    }
}

/// Number of counted positions.
pub open spec fn count_held(s: Seq<PositionView>) -> int
    decreases s.len(),
{
    if s.len() == 0 {
        0
    } else {
        count_held(s.drop_last()) + if counted(s.last()) {
            1int
        } else {
            0int
        }
    }
}

/// Overall totals of a position list.
pub struct Summary {
    pub total_cost: i128,
    pub total_value: i128,
    pub total_gain: i128,
    pub total_gain_percent: i128,
    pub stock_count: usize,
    pub held_count: usize,
}

/// Gain percentage of totals: gain over cost, or zero with no cost.
pub open spec fn spec_total_gain_percent(cost: int, gain: int) -> int {
    if cost > 0 {
        mul_div_trunc(PCT_SCALE as int, gain, cost)
    } else {
        0
    }
}

/// The figures of a counted position are bounded by the per-position
/// limits.
proof fn lemma_converted_bounds(p: PositionView, rate: i64)
    requires
        position_wf(p),
        amount_ok(rate),
    ensures
        0 <= converted_cost(p, rate) <= MAX_CONVERTED_VALUE,
        0 <= converted_value(p, rate) <= MAX_CONVERTED_VALUE,
{
    lemma_position_figures_bounded(p, rate);
    lemma_mul_div_trunc_bound(
        rate as int,
        spec_cost(p),
        SCALE as int,
        MAX_AMOUNT as int,
        MAX_NATIVE_VALUE as int,
    );
    lemma_mul_div_trunc_bound(
        rate as int,
        spec_value(p),
        SCALE as int,
        MAX_AMOUNT as int,
        MAX_NATIVE_VALUE as int,
    );
    if has_tw_marker(p.symbol) {
    } else {
        if spec_cost(p) >= 0 {
            assert(converted_cost(p, rate) >= 0) by {
                vstd::arithmetic::div_mod::lemma_div_pos_is_pos(
                    (rate as int) * spec_cost(p),
                    SCALE as int,
                );
                assert((rate as int) * spec_cost(p) >= 0) by (nonlinear_arith)
                    requires
                        rate >= 0,
                        spec_cost(p) >= 0,
                ;
            }
        }
        if spec_value(p) >= 0 {
            assert(converted_value(p, rate) >= 0) by {
                vstd::arithmetic::div_mod::lemma_div_pos_is_pos(
                    (rate as int) * spec_value(p),
                    SCALE as int,
                );
                assert((rate as int) * spec_value(p) >= 0) by (nonlinear_arith)
                    requires
                        rate >= 0,
                        spec_value(p) >= 0,
                ;
            }
        }
    }
}

/// Sums over counted positions stay bounded by the count times the
/// per-position limit.
proof fn lemma_sums_bounds(s: Seq<PositionView>, rate: i64)
    requires
        positions_wf(s),
        amount_ok(rate),
    ensures
        0 <= sum_cost(s, rate) <= s.len() * MAX_CONVERTED_VALUE,
        0 <= sum_value(s, rate) <= s.len() * MAX_CONVERTED_VALUE,
        0 <= count_held(s) <= s.len(),
    decreases s.len(),
{
    if s.len() > 0 {
        let d = s.drop_last();
        assert(positions_wf(d)) by {
            assert(forall|i: int| 0 <= i < d.len() ==> d[i] == s[i]);
        }
        lemma_sums_bounds(d, rate);
        assert(position_wf(s.last()));
        lemma_converted_bounds(s.last(), rate);
        assert((s.len() - 1) * MAX_CONVERTED_VALUE + MAX_CONVERTED_VALUE == s.len()
            * MAX_CONVERTED_VALUE) by (nonlinear_arith);
    }
}

/// Compute the overall summary of a position list: total cost, value,
/// gain, and gain percentage in the primary currency, the number of
/// rows, and how many of them count as holdings.
pub fn calculate_summary(positions: &Vec<Position>, rate: i64) -> (r: Summary)
    requires
        positions_wf(positions_view(positions@)),
        amount_ok(rate),
        positions@.len() <= MAX_HOLDINGS,
    ensures
        r.total_cost == sum_cost(positions_view(positions@), rate),
        r.total_value == sum_value(positions_view(positions@), rate),
        r.total_gain == r.total_value - r.total_cost,
        r.total_gain_percent == spec_total_gain_percent(
            r.total_cost as int,
            r.total_gain as int,
        ),
        r.stock_count == positions@.len(),
        r.held_count == count_held(positions_view(positions@)),
{
    let ghost pv = positions_view(positions@);
    let mut total_cost: i128 = 0;
    let mut total_value: i128 = 0;
    let mut held: usize = 0;
    let n = positions.len();
    let mut i: usize = 0;
    proof {
        assert(pv.subrange(0, 0) =~= Seq::<PositionView>::empty());
    }
    while i < n
        invariant
            0 <= i <= n,
            n == positions@.len(),
            n <= MAX_HOLDINGS,
            pv == positions_view(positions@),
            positions_wf(pv),
            amount_ok(rate),
            total_cost == sum_cost(pv.subrange(0, i as int), rate),
            total_value == sum_value(pv.subrange(0, i as int), rate),
            held == count_held(pv.subrange(0, i as int)),
            0 <= total_cost <= i * MAX_CONVERTED_VALUE,
            0 <= total_value <= i * MAX_CONVERTED_VALUE,
            held <= i,
        decreases n - i,
    {
        let ghost pre = pv.subrange(0, i as int);
        let ghost pre1 = pv.subrange(0, i as int + 1);
        proof {
            assert(pre1.drop_last() =~= pre);
            assert(pre1.last() == pv[i as int]);
            assert(position_wf(pv[i as int]));
            lemma_converted_bounds(pv[i as int], rate);
            assert(i * MAX_CONVERTED_VALUE + MAX_CONVERTED_VALUE == (i + 1)
                * MAX_CONVERTED_VALUE) by (nonlinear_arith);
            assert((i + 1) * MAX_CONVERTED_VALUE <= MAX_HOLDINGS * MAX_CONVERTED_VALUE)
                by (nonlinear_arith)
                requires
                    i + 1 <= MAX_HOLDINGS,
            ;
        }
        let p = &positions[i];
        let held_now = p.quantity > 0 && matches!(p.quote, Some(_));
        if held_now {
            let q = match &p.quote {
                Some(q) => *q,
                None => Quote { price: 0, change: 0, change_percent: 0 },
            };
            proof {
                lemma_position_figures_bounded(pv[i as int], rate);
            }
            let cost_native: i128 = mul_div(
                p.quantity as i128,
                p.cost_basis as i128,
                SCALE as i128,
            );
            let value_native: i128 = mul_div(p.quantity as i128, q.price as i128, SCALE as i128);
            let is_tw = matches!(market_of(&p.symbol), Market::Taiwan);
            let cost_conv: i128 = if is_tw {
                cost_native
            } else {
                mul_div(rate as i128, cost_native, SCALE as i128)
            };
            let value_conv: i128 = if is_tw {
                value_native
            } else {
                mul_div(rate as i128, value_native, SCALE as i128)
            };
            proof {
                assert(cost_conv == converted_cost(pv[i as int], rate));
                assert(value_conv == converted_value(pv[i as int], rate));
            }
            total_cost = total_cost + cost_conv;
            total_value = total_value + value_conv;
            held = held + 1;
        }
        i = i + 1;
    }
    proof {
        assert(pv.subrange(0, n as int) =~= pv);
        assert(n * MAX_CONVERTED_VALUE <= MAX_HOLDINGS * MAX_CONVERTED_VALUE) by (nonlinear_arith)
            requires
                n <= MAX_HOLDINGS,
        ;
    }
    let total_gain: i128 = total_value - total_cost;
    let total_gain_percent: i128 = if total_cost > 0 {
        mul_div(PCT_SCALE as i128, total_gain, total_cost)
    } else {
        0
    };
    Summary { total_cost, total_value, total_gain, total_gain_percent, stock_count: n, held_count: held }
}

/// Totals of the counted positions of one market segment, in that
/// market's own currency.
pub open spec fn sum_cost_market(s: Seq<PositionView>, m: Market) -> int
    decreases s.len(),
{
    if s.len() == 0 {
        0
    } else {
        sum_cost_market(s.drop_last(), m) + if counted(s.last()) && spec_market_of(
            s.last().symbol,
        ) == m {
            spec_cost(s.last())
        } else {
            0
        }
    }
}

pub open spec fn sum_value_market(s: Seq<PositionView>, m: Market) -> int
    decreases s.len(),
{
    if s.len() == 0 {
        0
    } else {
        sum_value_market(s.drop_last(), m) + if counted(s.last()) && spec_market_of(
            s.last().symbol,
        ) == m {
            spec_value(s.last())
        } else {
            0
        }
    }
}

/// Totals of one market segment: value, gain, and gain percentage, in
/// the segment's own currency.
pub struct MarketSummary {
    pub value: i128,
    pub gain: i128,
    pub gain_percent: i128,
}

proof fn lemma_market_sums_bounds(s: Seq<PositionView>, m: Market)
    requires
        positions_wf(s),
    ensures
        0 <= sum_cost_market(s, m) <= s.len() * MAX_NATIVE_VALUE,
        0 <= sum_value_market(s, m) <= s.len() * MAX_NATIVE_VALUE,
    decreases s.len(),
{
    if s.len() > 0 {
        let d = s.drop_last();
        assert(positions_wf(d)) by {
            assert(forall|i: int| 0 <= i < d.len() ==> d[i] == s[i]);
        }
        lemma_market_sums_bounds(d, m);
        assert(position_wf(s.last()));
        lemma_position_figures_bounded(s.last(), 0);
        assert((s.len() - 1) * MAX_NATIVE_VALUE + MAX_NATIVE_VALUE == s.len() * MAX_NATIVE_VALUE)
            by (nonlinear_arith);
    }
}

/// Compute one market segment's summary over a position list.
pub fn calculate_market_summary(positions: &Vec<Position>, market: Market) -> (r: MarketSummary)
    requires
        positions_wf(positions_view(positions@)),
        positions@.len() <= MAX_HOLDINGS,
    ensures
        r.value == sum_value_market(positions_view(positions@), market),
        r.gain == r.value - sum_cost_market(positions_view(positions@), market),
        r.gain_percent == spec_total_gain_percent(
            sum_cost_market(positions_view(positions@), market),
            r.gain as int,
        ),
{
    let ghost pv = positions_view(positions@);
    let mut cost: i128 = 0;
    let mut value: i128 = 0;
    let n = positions.len();
    let mut i: usize = 0;
    proof {
        assert(pv.subrange(0, 0) =~= Seq::<PositionView>::empty());
    }
    while i < n
        invariant
            0 <= i <= n,
            n == positions@.len(),
            n <= MAX_HOLDINGS,
            pv == positions_view(positions@),
            positions_wf(pv),
            cost == sum_cost_market(pv.subrange(0, i as int), market),
            value == sum_value_market(pv.subrange(0, i as int), market),
            0 <= cost <= i * MAX_NATIVE_VALUE,
            0 <= value <= i * MAX_NATIVE_VALUE,
        decreases n - i,
    {
        let ghost pre = pv.subrange(0, i as int);
        let ghost pre1 = pv.subrange(0, i as int + 1);
        proof {
            assert(pre1.drop_last() =~= pre);
            assert(pre1.last() == pv[i as int]);
            assert(position_wf(pv[i as int]));
            lemma_position_figures_bounded(pv[i as int], 0);
            assert(i * MAX_NATIVE_VALUE + MAX_NATIVE_VALUE == (i + 1) * MAX_NATIVE_VALUE)
                by (nonlinear_arith);
            assert((i + 1) * MAX_NATIVE_VALUE <= MAX_HOLDINGS * MAX_NATIVE_VALUE)
                by (nonlinear_arith)
                requires
                    i + 1 <= MAX_HOLDINGS,
            ;
        }
        let p = &positions[i];
        let held_now = p.quantity > 0 && matches!(p.quote, Some(_));
        let in_market = market_of(&p.symbol) == market;
        if held_now && in_market {
            let q = match &p.quote {
                Some(q) => *q,
                None => Quote { price: 0, change: 0, change_percent: 0 },
            };
            let cost_native: i128 = mul_div(
                p.quantity as i128,
                p.cost_basis as i128,
                SCALE as i128,
            );
            let value_native: i128 = mul_div(p.quantity as i128, q.price as i128, SCALE as i128);
            cost = cost + cost_native;
            value = value + value_native;
        }
        i = i + 1;
    }
    proof {
        assert(pv.subrange(0, n as int) =~= pv);
        assert(n * MAX_NATIVE_VALUE <= MAX_HOLDINGS * MAX_NATIVE_VALUE) by (nonlinear_arith)
            requires
                n <= MAX_HOLDINGS,
        ;
    }
    let gain: i128 = value - cost;
    let gain_percent: i128 = if cost > 0 {
        mul_div(PCT_SCALE as i128, gain, cost)
    } else {
        0
    };
    MarketSummary { value, gain, gain_percent }
}

} // verus!
