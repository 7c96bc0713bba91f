use stock_tui::amount::{parse_amount, render_amount};
use stock_tui::holding::{parse_holding_line, parse_portfolio, render_portfolio, Holding};
use stock_tui::market::{normalize_symbol, strip_tw};

fn amt(text: &str) -> i64 {
    parse_amount(&text.as_bytes().to_vec())
}

#[test]
fn parse_amount_whole_number() {
    assert_eq!(amt("10"), 100_000);
    assert_eq!(amt("0"), 0);
    assert_eq!(amt("5"), 50_000);
}

#[test]
fn parse_amount_decimal() {
    assert_eq!(amt("130.5"), 1_305_000);
    assert_eq!(amt("0.0001"), 1);
    assert_eq!(amt(".5"), 5_000);
    assert_eq!(amt("5."), 50_000);
}

#[test]
fn parse_amount_truncates_extra_places() {
    assert_eq!(amt("1.23456"), 12_345);
}

#[test]
fn parse_amount_rejects_garbage() {
    assert_eq!(amt(""), 0);
    assert_eq!(amt("."), 0);
    assert_eq!(amt("-5"), 0);
    assert_eq!(amt("1e5"), 0);
    assert_eq!(amt("12a"), 0);
    assert_eq!(amt("1.2.3"), 0);
}

#[test]
fn parse_amount_rejects_out_of_range() {
    assert_eq!(amt("1000001"), 0);
    assert_eq!(amt("1000000.5"), 0);
    // the largest accepted amount: one million units
    assert_eq!(amt("1000000"), 10_000_000_000);
}

#[test]
fn parse_line_full() {
    let line = b"AAA|Alpha|Alpha Inc|10|5".to_vec();
    let h = parse_holding_line(&line).expect("line should parse");
    assert_eq!(h.symbol, b"AAA".to_vec());
    assert_eq!(h.display, b"Alpha".to_vec());
    assert_eq!(h.name, b"Alpha Inc".to_vec());
    assert_eq!(h.quantity, 100_000);
    assert_eq!(h.cost_basis, 50_000);
}

#[test]
fn parse_line_trims_fields() {
    let line = b"  AAA | Alpha |  Alpha Inc | 10 | 5 ".to_vec();
    let h = parse_holding_line(&line).expect("line should parse");
    assert_eq!(h.symbol, b"AAA".to_vec());
    assert_eq!(h.display, b"Alpha".to_vec());
    assert_eq!(h.name, b"Alpha Inc".to_vec());
    assert_eq!(h.quantity, 100_000);
    assert_eq!(h.cost_basis, 50_000);
}

#[test]
fn parse_line_missing_amounts_default_to_zero() {
    let h = parse_holding_line(&b"AAA|Alpha|Alpha Inc".to_vec()).expect("line should parse");
    assert_eq!(h.quantity, 0);
    assert_eq!(h.cost_basis, 0);
    let h = parse_holding_line(&b"AAA|Alpha|Alpha Inc|ten|five".to_vec()).expect("should parse");
    assert_eq!(h.quantity, 0);
    assert_eq!(h.cost_basis, 0);
}

#[test]
fn parse_line_skips_comments_blanks_and_short_lines() {
    assert!(parse_holding_line(&b"# a comment".to_vec()).is_none());
    assert!(parse_holding_line(&b"   ".to_vec()).is_none());
    assert!(parse_holding_line(&b"".to_vec()).is_none());
    assert!(parse_holding_line(&b"AAA|Alpha".to_vec()).is_none());
}

#[test]
fn parse_portfolio_two_records() {
    let text = b"AAA|Alpha|Alpha Inc|10|5\nBBB.TW|Beta|Beta Co|0|0\n".to_vec();
    let hs = parse_portfolio(&text);
    assert_eq!(hs.len(), 2);
    assert_eq!(hs[0].symbol, b"AAA".to_vec());
    assert_eq!(hs[1].symbol, b"BBB.TW".to_vec());
    assert_eq!(hs[1].quantity, 0);
}

#[test]
fn parse_portfolio_skips_bad_lines() {
    let text = b"# header\n\nAAA|Alpha|Alpha Inc|1|2\nnot a line\n".to_vec();
    let hs = parse_portfolio(&text);
    assert_eq!(hs.len(), 1);
    assert_eq!(hs[0].symbol, b"AAA".to_vec());
}

#[test]
fn render_amount_shortest_form() {
    assert_eq!(render_amount(100_000), b"10".to_vec());
    assert_eq!(render_amount(1_305_000), b"130.5".to_vec());
    assert_eq!(render_amount(1), b"0.0001".to_vec());
    assert_eq!(render_amount(0), b"0".to_vec());
}

#[test]
fn render_portfolio_groups_by_market() {
    let holdings = vec![
        Holding {
            symbol: b"AAA".to_vec(),
            display: b"Alpha".to_vec(),
            name: b"Alpha Inc".to_vec(),
            quantity: 100_000,
            cost_basis: 50_000,
        },
        Holding {
            symbol: b"2330.TW".to_vec(),
            display: b"2330".to_vec(),
            name: b"Chip Co".to_vec(),
            quantity: 20_000,
            cost_basis: 0,
        },
    ];
    let text = render_portfolio(&holdings);
    let expected = "# Stock Portfolio Configuration\n\
                    # Format: SYMBOL|Display Name|Description|Quantity|Cost Basis\n\
                    \n\
                    # Taiwan Stocks\n\
                    2330.TW|2330|Chip Co|2|0\n\
                    \n\
                    # US Stocks\n\
                    AAA|Alpha|Alpha Inc|10|5\n";
    assert_eq!(String::from_utf8(text).unwrap(), expected);
}

#[test]
fn render_then_parse_round_trip() {
    let holdings = vec![
        Holding {
            symbol: b"AAA".to_vec(),
            display: b"Alpha".to_vec(),
            name: b"Alpha Inc".to_vec(),
            quantity: 105_000,
            cost_basis: 50_000,
        },
        Holding {
            symbol: b"2330.TW".to_vec(),
            display: b"2330".to_vec(),
            name: b"Chip Co".to_vec(),
            quantity: 20_000,
            cost_basis: 12_345,
        },
    ];
    let text = render_portfolio(&holdings);
    let back = parse_portfolio(&text);
    assert_eq!(back.len(), 2);
    // the writer groups Taiwan first
    assert_eq!(back[0].symbol, b"2330.TW".to_vec());
    assert_eq!(back[0].quantity, 20_000);
    assert_eq!(back[0].cost_basis, 12_345);
    assert_eq!(back[1].symbol, b"AAA".to_vec());
    assert_eq!(back[1].quantity, 105_000);
    assert_eq!(back[1].cost_basis, 50_000);
}

#[test]
fn normalize_symbol_taiwan_digits() {
    assert_eq!(normalize_symbol(&b" 2330 ".to_vec()), b"2330.TW".to_vec());
    assert_eq!(normalize_symbol(&b"123456".to_vec()), b"123456.TW".to_vec());
    // too short or too long stays bare
    assert_eq!(normalize_symbol(&b"123".to_vec()), b"123".to_vec());
    assert_eq!(normalize_symbol(&b"1234567".to_vec()), b"1234567".to_vec());
}

#[test]
fn normalize_symbol_uppercases() {
    assert_eq!(normalize_symbol(&b"aapl".to_vec()), b"AAPL".to_vec());
}

#[test]
fn strip_tw_removes_marker() {
    assert_eq!(strip_tw(&b"2330.TW".to_vec()), b"2330".to_vec());
    assert_eq!(strip_tw(&b"AAA".to_vec()), b"AAA".to_vec());
}
