use stock_tui::holding::{add_holding, delete_holding, edit_holding, Holding};

fn holding(symbol: &[u8], quantity: i64, cost_basis: i64) -> Holding {
    Holding {
        symbol: symbol.to_vec(),
        display: symbol.to_vec(),
        name: symbol.to_vec(),
        quantity,
        cost_basis,
    }
}

#[test]
fn add_appends_at_the_end() {
    let mut stocks = vec![holding(b"AAA", 1, 2)];
    add_holding(&mut stocks, holding(b"BBB", 3, 4));
    assert_eq!(stocks.len(), 2);
    assert_eq!(stocks[1].symbol, b"BBB".to_vec());
    assert_eq!(stocks[1].quantity, 3);
}

#[test]
fn edit_updates_first_match_only() {
    let mut stocks = vec![
        holding(b"AAA", 1, 2),
        holding(b"BBB", 3, 4),
        holding(b"AAA", 5, 6),
    ];
    edit_holding(&mut stocks, &b"AAA".to_vec(), 70_000, 80_000);
    assert_eq!(stocks[0].quantity, 70_000);
    assert_eq!(stocks[0].cost_basis, 80_000);
    // other fields and rows untouched
    assert_eq!(stocks[0].symbol, b"AAA".to_vec());
    assert_eq!(stocks[1].quantity, 3);
    assert_eq!(stocks[2].quantity, 5);
}

#[test]
fn edit_unknown_symbol_is_a_no_op() {
    let mut stocks = vec![holding(b"AAA", 1, 2)];
    edit_holding(&mut stocks, &b"ZZZ".to_vec(), 9, 9);
    assert_eq!(stocks.len(), 1);
    assert_eq!(stocks[0].quantity, 1);
}

#[test]
fn delete_removes_every_match_and_keeps_order() {
    let mut stocks = vec![
        holding(b"AAA", 1, 0),
        holding(b"BBB", 2, 0),
        holding(b"AAA", 3, 0),
        holding(b"CCC", 4, 0),
    ];
    delete_holding(&mut stocks, &b"AAA".to_vec());
    let symbols: Vec<Vec<u8>> = stocks.iter().map(|h| h.symbol.clone()).collect();
    assert_eq!(symbols, vec![b"BBB".to_vec(), b"CCC".to_vec()]);
}

#[test]
fn delete_unknown_symbol_is_a_no_op() {
    let mut stocks = vec![holding(b"AAA", 1, 0)];
    delete_holding(&mut stocks, &b"ZZZ".to_vec());
    assert_eq!(stocks.len(), 1);
}
