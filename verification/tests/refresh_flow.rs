use stock_tui::aggregate::{aggregate, PortfolioHoldings};
use stock_tui::cache::QUOTE_CACHE_SECS;
use stock_tui::dashboard::{
    next_row_index, prev_row_index, selected_index, should_live_refresh, Dashboard, FetchMessage,
    LIVE_REFRESH_INTERVAL_SECS,
};
use stock_tui::holding::parse_portfolio;
use stock_tui::position::{position_of_holding, Position};
use stock_tui::quote::{make_quote, Quote, DEFAULT_USD_TWD_RATE};
use stock_tui::summary::{calculate_market_summary, calculate_summary};
use stock_tui::market::Market;

fn positions_equal(a: &Position, b: &Position) -> bool {
    a.symbol == b.symbol && a.display == b.display && a.name == b.name && a.quantity == b.quantity
        && a.cost_basis == b.cost_basis && a.quote == b.quote && a.portfolio == b.portfolio
}

fn dashboards_equal(a: &Dashboard, b: &Dashboard) -> bool {
    let lists = [
        (&a.stocks, &b.stocks),
        (&a.tw_stocks, &b.tw_stocks),
        (&a.us_stocks, &b.us_stocks),
        (&a.combined_stocks, &b.combined_stocks),
        (&a.combined_tw_stocks, &b.combined_tw_stocks),
        (&a.combined_us_stocks, &b.combined_us_stocks),
    ];
    for (x, y) in lists {
        if x.len() != y.len() {
            return false;
        }
        for (p, q) in x.iter().zip(y.iter()) {
            if !positions_equal(p, q) {
                return false;
            }
        }
    }
    a.usd_twd_rate == b.usd_twd_rate && a.view_combined == b.view_combined
        && a.is_fetching == b.is_fetching && a.last_update == b.last_update
}

fn loaded_dashboard() -> Dashboard {
    let text = b"AAA|Alpha|Alpha Inc|10|5\nBBB.TW|Beta|Beta Co|0|0\n".to_vec();
    let holdings = parse_portfolio(&text);
    assert_eq!(holdings.len(), 2);
    let name = b"main".to_vec();
    let positions: Vec<Position> =
        holdings.iter().map(|h| position_of_holding(h, &name)).collect();
    let mut dash = Dashboard::new();
    dash.set_current(positions);
    let combined = aggregate(&vec![PortfolioHoldings { name: name.clone(), holdings }]);
    dash.set_combined(combined);
    dash
}

#[test]
fn end_to_end_load_refresh_change_percent() {
    // a portfolio file with two lines loads two holdings; after AAA's
    // fetch lands with price 15 against prior close 10, its change
    // percentage reads exactly 50.0
    let mut dash = loaded_dashboard();
    assert_eq!(dash.stocks.len(), 2);
    assert_eq!(dash.tw_stocks.len(), 1);
    assert_eq!(dash.us_stocks.len(), 1);
    let quote = make_quote(150_000, 100_000);
    dash.apply_message(
        FetchMessage::Price { symbol: b"AAA".to_vec(), quote: Some(quote) },
        500,
    );
    let aaa = dash.stocks.iter().find(|p| p.symbol == b"AAA".to_vec()).unwrap();
    let q = aaa.quote.expect("quote landed");
    assert_eq!(q.change_percent, 500_000);
    // every denormalized copy carries the quote
    assert_eq!(dash.us_stocks[0].quote, Some(quote));
    assert_eq!(
        dash.combined_stocks.iter().find(|p| p.symbol == b"AAA".to_vec()).unwrap().quote,
        Some(quote)
    );
    // and the cache serves it while fresh
    assert_eq!(dash.cache.get(&b"AAA".to_vec(), 500), Some(quote));
    assert!(dash.cache.get(&b"AAA".to_vec(), 500 + QUOTE_CACHE_SECS).is_none());
}

#[test]
fn batch_results_apply_in_any_order() {
    // applying the batch's price results in reverse order yields the
    // same final state as forward order
    let qa = make_quote(150_000, 100_000);
    let qb = make_quote(90_000, 100_000);
    let results = vec![(b"AAA".to_vec(), qa), (b"BBB.TW".to_vec(), qb)];

    let mut forward = loaded_dashboard();
    for (sym, q) in results.iter() {
        forward.apply_message(FetchMessage::Price { symbol: sym.clone(), quote: Some(*q) }, 700);
    }
    let mut backward = loaded_dashboard();
    for (sym, q) in results.iter().rev() {
        backward.apply_message(FetchMessage::Price { symbol: sym.clone(), quote: Some(*q) }, 700);
    }
    assert!(dashboards_equal(&forward, &backward));
    assert_eq!(forward.cache.get(&b"AAA".to_vec(), 700), backward.cache.get(&b"AAA".to_vec(), 700));
    assert_eq!(
        forward.cache.get(&b"BBB.TW".to_vec(), 700),
        backward.cache.get(&b"BBB.TW".to_vec(), 700)
    );
}

#[test]
fn failed_fetch_changes_nothing() {
    let mut dash = loaded_dashboard();
    let before = loaded_dashboard();
    dash.apply_message(FetchMessage::Price { symbol: b"AAA".to_vec(), quote: None }, 700);
    assert!(dashboards_equal(&dash, &before));
}

#[test]
fn exchange_rate_message_sets_shared_rate() {
    let mut dash = loaded_dashboard();
    assert_eq!(dash.usd_twd_rate, DEFAULT_USD_TWD_RATE);
    dash.apply_message(FetchMessage::ExchangeRate(315_000), 700);
    assert_eq!(dash.usd_twd_rate, 315_000);
}

#[test]
fn batch_complete_goes_idle_and_stamps_time() {
    let mut dash = loaded_dashboard();
    let symbols = dash.start_refresh().expect("idle dashboard starts a batch");
    assert_eq!(symbols, vec![b"AAA".to_vec(), b"BBB.TW".to_vec()]);
    assert!(dash.is_fetching);
    // a second start while fetching is a no-op
    assert!(dash.start_refresh().is_none());
    assert!(dash.is_fetching);
    dash.apply_message(FetchMessage::BatchComplete, 900);
    assert!(!dash.is_fetching);
    assert_eq!(dash.last_update, 900);
}

#[test]
fn partial_application_is_a_valid_state() {
    // mid-batch, one symbol has its new quote and the other has none:
    // the views simply show the mix
    let mut dash = loaded_dashboard();
    dash.apply_message(
        FetchMessage::Price { symbol: b"AAA".to_vec(), quote: Some(make_quote(150_000, 100_000)) },
        700,
    );
    let aaa = dash.stocks.iter().find(|p| p.symbol == b"AAA".to_vec()).unwrap();
    let bbb = dash.stocks.iter().find(|p| p.symbol == b"BBB.TW".to_vec()).unwrap();
    assert!(aaa.quote.is_some());
    assert!(bbb.quote.is_none());
}

#[test]
fn live_refresh_decision() {
    let w = LIVE_REFRESH_INTERVAL_SECS;
    assert!(should_live_refresh(true, false, true, 100 + w, 100));
    assert!(!should_live_refresh(true, false, true, 100 + w - 1, 100));
    assert!(!should_live_refresh(false, false, true, 100 + w, 100));
    assert!(!should_live_refresh(true, true, true, 100 + w, 100));
    assert!(!should_live_refresh(true, false, false, 100 + w, 100));
}

#[test]
fn row_selection_moves() {
    assert_eq!(next_row_index(None, 3), Some(0));
    assert_eq!(next_row_index(Some(0), 3), Some(1));
    assert_eq!(next_row_index(Some(2), 3), Some(2));
    assert_eq!(next_row_index(Some(1), 0), Some(1));
    assert_eq!(prev_row_index(Some(2)), Some(1));
    assert_eq!(prev_row_index(Some(0)), Some(0));
    assert_eq!(prev_row_index(None), Some(0));
    assert_eq!(selected_index(Some(1), 3), Some(1));
    assert_eq!(selected_index(Some(5), 3), None);
    assert_eq!(selected_index(None, 3), None);
}

#[test]
fn summary_totals_convert_us_positions() {
    // one US position: 10 units at cost 5, price 15; rate 32
    // cost 50 USD -> 1600 TWD, value 150 USD -> 4800 TWD, gain 3200 TWD (+200 %)
    let mut dash = loaded_dashboard();
    dash.apply_message(
        FetchMessage::Price { symbol: b"AAA".to_vec(), quote: Some(make_quote(150_000, 100_000)) },
        700,
    );
    let s = calculate_summary(&dash.stocks, dash.usd_twd_rate);
    assert_eq!(s.total_cost, 16_000_000);
    assert_eq!(s.total_value, 48_000_000);
    assert_eq!(s.total_gain, 32_000_000);
    assert_eq!(s.total_gain_percent, 2_000_000);
    assert_eq!(s.stock_count, 2);
    assert_eq!(s.held_count, 1);
}

#[test]
fn market_summary_stays_in_native_currency() {
    let mut dash = loaded_dashboard();
    dash.apply_message(
        FetchMessage::Price { symbol: b"AAA".to_vec(), quote: Some(make_quote(150_000, 100_000)) },
        700,
    );
    let us = calculate_market_summary(&dash.stocks, Market::Us);
    assert_eq!(us.value, 1_500_000);
    assert_eq!(us.gain, 1_000_000);
    assert_eq!(us.gain_percent, 2_000_000);
    // the Taiwan position has zero quantity, so it never counts
    let tw = calculate_market_summary(&dash.stocks, Market::Taiwan);
    assert_eq!(tw.value, 0);
    assert_eq!(tw.gain, 0);
    assert_eq!(tw.gain_percent, 0);
}

#[test]
fn force_refresh_clears_cache_then_refetches() {
    let mut dash = loaded_dashboard();
    let q = make_quote(150_000, 100_000);
    dash.apply_message(FetchMessage::Price { symbol: b"AAA".to_vec(), quote: Some(q) }, 700);
    assert!(dash.cache.get(&b"AAA".to_vec(), 700).is_some());
    dash.cache.invalidate_all();
    assert!(dash.cache.get(&b"AAA".to_vec(), 700).is_none());
}

#[test]
fn quote_struct_roundtrip() {
    let q = Quote { price: 150_000, change: 50_000, change_percent: 500_000 };
    assert_eq!(q, make_quote(150_000, 100_000));
}
