use stock_tui::portfolio::sort_portfolio_names;
use stock_tui::position::Position;
use stock_tui::quote::{make_quote, Quote};
use stock_tui::ranking::{sort_positions, SortColumn, SortDirection, SortState};

fn position(symbol: &[u8], quantity: i64, cost_basis: i64, quote: Option<Quote>) -> Position {
    Position {
        symbol: symbol.to_vec(),
        display: symbol.to_vec(),
        name: symbol.to_vec(),
        quantity,
        cost_basis,
        quote,
        portfolio: b"main".to_vec(),
    }
}

fn symbols(v: &Vec<Position>) -> Vec<Vec<u8>> {
    v.iter().map(|p| p.symbol.clone()).collect()
}

fn positions_equal(a: &Position, b: &Position) -> bool {
    a.symbol == b.symbol && a.display == b.display && a.name == b.name && a.quantity == b.quantity
        && a.cost_basis == b.cost_basis && a.quote == b.quote && a.portfolio == b.portfolio
}

const RATE: i64 = 320_000;

#[test]
fn sort_by_price_descending() {
    let mut v = vec![
        position(b"LOW", 0, 0, Some(make_quote(10_000, 10_000))),
        position(b"HIGH", 0, 0, Some(make_quote(300_000, 300_000))),
        position(b"MID", 0, 0, Some(make_quote(100_000, 100_000))),
    ];
    sort_positions(&mut v, Some(SortColumn::Price), SortDirection::Descending, RATE);
    assert_eq!(symbols(&v), vec![b"HIGH".to_vec(), b"MID".to_vec(), b"LOW".to_vec()]);
}

#[test]
fn sort_by_price_ascending() {
    let mut v = vec![
        position(b"HIGH", 0, 0, Some(make_quote(300_000, 300_000))),
        position(b"LOW", 0, 0, Some(make_quote(10_000, 10_000))),
    ];
    sort_positions(&mut v, Some(SortColumn::Price), SortDirection::Ascending, RATE);
    assert_eq!(symbols(&v), vec![b"LOW".to_vec(), b"HIGH".to_vec()]);
}

#[test]
fn missing_quote_sinks_under_descending_change() {
    let mut v = vec![
        position(b"NOQUOTE", 0, 0, None),
        position(b"DOWN", 0, 0, Some(make_quote(90_000, 100_000))),
        position(b"UP", 0, 0, Some(make_quote(150_000, 100_000))),
    ];
    sort_positions(&mut v, Some(SortColumn::Change), SortDirection::Descending, RATE);
    assert_eq!(symbols(&v), vec![b"UP".to_vec(), b"DOWN".to_vec(), b"NOQUOTE".to_vec()]);
}

#[test]
fn gain_conversion_makes_markets_comparable() {
    // both positions gained 10 per unit on one unit; the US gain is
    // multiplied by the rate (32), so it ranks first
    let tw = position(b"2330.TW", 10_000, 100_000, Some(make_quote(200_000, 100_000)));
    let us = position(b"AAA", 10_000, 100_000, Some(make_quote(200_000, 100_000)));
    let mut v = vec![tw, us];
    sort_positions(&mut v, Some(SortColumn::Gain), SortDirection::Descending, RATE);
    assert_eq!(symbols(&v), vec![b"AAA".to_vec(), b"2330.TW".to_vec()]);
}

#[test]
fn sorting_sorted_input_changes_nothing() {
    let build = || {
        vec![
            position(b"A", 30_000, 0, Some(make_quote(300_000, 300_000))),
            position(b"B", 20_000, 0, Some(make_quote(100_000, 100_000))),
            // equal keys: these two must keep their relative order
            position(b"C", 10_000, 0, Some(make_quote(50_000, 50_000))),
            position(b"D", 10_000, 0, Some(make_quote(50_000, 50_000))),
        ]
    };
    let mut once = build();
    sort_positions(&mut once, Some(SortColumn::Price), SortDirection::Descending, RATE);
    let mut twice = once.iter().map(|p| Position {
        symbol: p.symbol.clone(),
        display: p.display.clone(),
        name: p.name.clone(),
        quantity: p.quantity,
        cost_basis: p.cost_basis,
        quote: p.quote,
        portfolio: p.portfolio.clone(),
    }).collect::<Vec<_>>();
    sort_positions(&mut twice, Some(SortColumn::Price), SortDirection::Descending, RATE);
    assert_eq!(once.len(), twice.len());
    for (a, b) in once.iter().zip(twice.iter()) {
        assert!(positions_equal(a, b));
    }
    assert_eq!(symbols(&once)[2..], [b"C".to_vec(), b"D".to_vec()]);
}

#[test]
fn no_column_keeps_incoming_order() {
    let mut v = vec![
        position(b"B", 0, 0, None),
        position(b"A", 0, 0, None),
    ];
    sort_positions(&mut v, None, SortDirection::Descending, RATE);
    assert_eq!(symbols(&v), vec![b"B".to_vec(), b"A".to_vec()]);
}

#[test]
fn toggle_same_column_flips_direction() {
    let mut s = SortState { column: Some(SortColumn::Change), direction: SortDirection::Descending };
    s.toggle(SortColumn::Change);
    assert_eq!(s.column, Some(SortColumn::Change));
    assert_eq!(s.direction, SortDirection::Ascending);
    s.toggle(SortColumn::Change);
    assert_eq!(s.direction, SortDirection::Descending);
}

#[test]
fn toggle_new_column_resets_to_descending() {
    let mut s = SortState { column: Some(SortColumn::Change), direction: SortDirection::Ascending };
    s.toggle(SortColumn::Price);
    assert_eq!(s.column, Some(SortColumn::Price));
    assert_eq!(s.direction, SortDirection::Descending);
    // and toggling yet another column stays descending
    s.toggle(SortColumn::Quantity);
    assert_eq!(s.column, Some(SortColumn::Quantity));
    assert_eq!(s.direction, SortDirection::Descending);
}

#[test]
fn portfolio_names_main_first_then_alphabetical() {
    let names: Vec<Vec<u8>> = vec![
        b"zeta".to_vec(),
        b"alpha".to_vec(),
        b"main".to_vec(),
        b"beta".to_vec(),
    ];
    let sorted = sort_portfolio_names(&names);
    assert_eq!(
        sorted,
        vec![b"main".to_vec(), b"alpha".to_vec(), b"beta".to_vec(), b"zeta".to_vec()]
    );
}

#[test]
fn portfolio_names_without_main() {
    let names: Vec<Vec<u8>> = vec![b"bb".to_vec(), b"ab".to_vec(), b"aa".to_vec()];
    let sorted = sort_portfolio_names(&names);
    assert_eq!(sorted, vec![b"aa".to_vec(), b"ab".to_vec(), b"bb".to_vec()]);
}
