use stock_tui::cache::{PriceCache, HISTORICAL_CACHE_SECS, QUOTE_CACHE_SECS};
use stock_tui::history::{calculate_trend, series_stats, HistoricalSeries, HistoryCache, Trend};
use stock_tui::market::{market_of, Market};
use stock_tui::quote::{make_quote, rate_or_default, Quote, DEFAULT_USD_TWD_RATE};

#[test]
fn market_classification_uses_tw_marker() {
    assert_eq!(market_of(&b"2330.TW".to_vec()), Market::Taiwan);
    assert_eq!(market_of(&b"AAPL".to_vec()), Market::Us);
    assert_eq!(market_of(&b"X.TWO".to_vec()), Market::Taiwan);
    assert_eq!(market_of(&b"TW".to_vec()), Market::Us);
}

#[test]
fn make_quote_change_percent() {
    // price 15, previous close 10: +50 %
    let q = make_quote(150_000, 100_000);
    assert_eq!(q.price, 150_000);
    assert_eq!(q.change, 50_000);
    assert_eq!(q.change_percent, 500_000);
    // a drop: price 9, previous 10: -10 %
    let q = make_quote(90_000, 100_000);
    assert_eq!(q.change, -10_000);
    assert_eq!(q.change_percent, -100_000);
}

#[test]
fn rate_falls_back_to_default() {
    assert_eq!(rate_or_default(None), DEFAULT_USD_TWD_RATE);
    let q = make_quote(320_500, 320_000);
    assert_eq!(rate_or_default(Some(q)), 320_500);
}

#[test]
fn cache_entry_fresh_within_window() {
    let mut cache = PriceCache::new();
    let sym = b"AAA".to_vec();
    let q = make_quote(150_000, 100_000);
    cache.put(&sym, q, 100);
    // returned unchanged while age < window
    let got = cache.get(&sym, 100).expect("fresh at write time");
    assert_eq!(got, q);
    let got = cache.get(&sym, 100 + QUOTE_CACHE_SECS - 1).expect("fresh inside window");
    assert_eq!(got, q);
}

#[test]
fn cache_entry_absent_at_window_edge() {
    let mut cache = PriceCache::new();
    let sym = b"AAA".to_vec();
    cache.put(&sym, make_quote(150_000, 100_000), 100);
    assert!(cache.get(&sym, 100 + QUOTE_CACHE_SECS).is_none());
    assert!(cache.get(&sym, 100 + 10 * QUOTE_CACHE_SECS).is_none());
}

#[test]
fn cache_miss_for_unknown_symbol() {
    let cache = PriceCache::new();
    assert!(cache.get(&b"ZZZ".to_vec(), 5).is_none());
}

#[test]
fn cache_overwrite_takes_latest_quote() {
    let mut cache = PriceCache::new();
    let sym = b"AAA".to_vec();
    cache.put(&sym, make_quote(150_000, 100_000), 100);
    let newer = make_quote(160_000, 100_000);
    cache.put(&sym, newer, 130);
    assert_eq!(cache.get(&sym, 140).expect("fresh"), newer);
    // freshness is judged from the overwrite time
    assert!(cache.get(&sym, 130 + QUOTE_CACHE_SECS).is_none());
}

#[test]
fn cache_invalidate_all_clears_every_entry() {
    let mut cache = PriceCache::new();
    cache.put(&b"AAA".to_vec(), make_quote(150_000, 100_000), 100);
    cache.put(&b"BBB".to_vec(), make_quote(10_000, 10_000), 100);
    cache.invalidate_all();
    assert!(cache.get(&b"AAA".to_vec(), 100).is_none());
    assert!(cache.get(&b"BBB".to_vec(), 100).is_none());
}

fn series(closes: &[i64]) -> HistoricalSeries {
    HistoricalSeries { timestamps: (0..closes.len() as i64).collect(), closes: closes.to_vec() }
}

#[test]
fn history_cache_uses_long_window() {
    let mut cache = HistoryCache::new();
    let sym = b"AAA".to_vec();
    cache.put(&sym, series(&[10_000, 20_000]), 1_000);
    let got = cache.get(&sym, 1_000 + HISTORICAL_CACHE_SECS - 1).expect("fresh");
    assert_eq!(got.closes, vec![10_000, 20_000]);
    assert!(cache.get(&sym, 1_000 + HISTORICAL_CACHE_SECS).is_none());
    cache.invalidate_all();
    assert!(cache.get(&sym, 1_001).is_none());
}

#[test]
fn trend_needs_ten_closes() {
    let closes: Vec<i64> = vec![10_000; 9];
    assert_eq!(calculate_trend(&closes), Trend::Flat);
}

#[test]
fn trend_up_down_flat() {
    // first five average 10, last five average 20: +100 %
    let up: Vec<i64> = vec![
        100_000, 100_000, 100_000, 100_000, 100_000, 200_000, 200_000, 200_000, 200_000, 200_000,
    ];
    assert_eq!(calculate_trend(&up), Trend::Up);
    let down: Vec<i64> = vec![
        200_000, 200_000, 200_000, 200_000, 200_000, 100_000, 100_000, 100_000, 100_000, 100_000,
    ];
    assert_eq!(calculate_trend(&down), Trend::Down);
    let flat: Vec<i64> = vec![100_000; 10];
    assert_eq!(calculate_trend(&flat), Trend::Flat);
    // a move of exactly one percent is not a trend
    let barely: Vec<i64> = vec![
        100_000, 100_000, 100_000, 100_000, 100_000, 101_000, 101_000, 101_000, 101_000, 101_000,
    ];
    assert_eq!(calculate_trend(&barely), Trend::Flat);
}

#[test]
fn series_stats_high_low_average() {
    let closes: Vec<i64> = vec![100_000, 300_000, 200_000];
    let stats = series_stats(&closes);
    assert_eq!(stats.high, 300_000);
    assert_eq!(stats.low, 100_000);
    assert_eq!(stats.average, 200_000);
}

#[test]
fn quote_equality_is_by_fields() {
    let a = Quote { price: 1, change: 2, change_percent: 3 };
    let b = Quote { price: 1, change: 2, change_percent: 3 };
    assert_eq!(a, b);
}
