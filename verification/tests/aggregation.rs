use stock_tui::aggregate::{aggregate, PortfolioHoldings};
use stock_tui::holding::Holding;
use stock_tui::position::Position;

fn holding(symbol: &[u8], quantity: i64, cost_basis: i64) -> Holding {
    Holding {
        symbol: symbol.to_vec(),
        display: symbol.to_vec(),
        name: symbol.to_vec(),
        quantity,
        cost_basis,
    }
}

fn portfolio(name: &[u8], holdings: Vec<Holding>) -> PortfolioHoldings {
    PortfolioHoldings { name: name.to_vec(), holdings }
}

fn positions_equal(a: &Position, b: &Position) -> bool {
    a.symbol == b.symbol && a.display == b.display && a.name == b.name && a.quantity == b.quantity
        && a.cost_basis == b.cost_basis && a.quote == b.quote && a.portfolio == b.portfolio
}

#[test]
fn weighted_cost_basis_exact() {
    // quantities (10, cost 100) and (30, cost 140) combine to
    // quantity 40 at cost basis exactly 130
    let ps = vec![
        portfolio(b"main", vec![holding(b"AAA", 100_000, 1_000_000)]),
        portfolio(b"side", vec![holding(b"AAA", 300_000, 1_400_000)]),
    ];
    let combined = aggregate(&ps);
    assert_eq!(combined.len(), 1);
    assert_eq!(combined[0].quantity, 400_000);
    assert_eq!(combined[0].cost_basis, 1_300_000);
    assert_eq!(combined[0].portfolio, b"main+side".to_vec());
}

#[test]
fn zero_quantity_holding_contributes_nothing() {
    let without = vec![
        portfolio(b"main", vec![holding(b"AAA", 100_000, 1_000_000)]),
        portfolio(b"side", vec![holding(b"AAA", 300_000, 1_400_000)]),
    ];
    let with_zero = vec![
        portfolio(
            b"main",
            vec![holding(b"AAA", 100_000, 1_000_000), holding(b"AAA", 0, 999_999)],
        ),
        portfolio(b"side", vec![holding(b"AAA", 300_000, 1_400_000)]),
    ];
    let a = aggregate(&without);
    let b = aggregate(&with_zero);
    assert_eq!(a.len(), 1);
    assert_eq!(b.len(), 1);
    assert_eq!(a[0].quantity, b[0].quantity);
    assert_eq!(a[0].cost_basis, b[0].cost_basis);
}

#[test]
fn aggregate_is_deterministic() {
    let build = || {
        vec![
            portfolio(
                b"main",
                vec![holding(b"AAA", 100_000, 1_000_000), holding(b"BBB.TW", 50_000, 20_000)],
            ),
            portfolio(b"side", vec![holding(b"AAA", 300_000, 1_400_000)]),
        ]
    };
    let first = aggregate(&build());
    let second = aggregate(&build());
    assert_eq!(first.len(), second.len());
    for (a, b) in first.iter().zip(second.iter()) {
        assert!(positions_equal(a, b));
    }
}

#[test]
fn symbols_keep_first_encounter_order() {
    let ps = vec![
        portfolio(b"main", vec![holding(b"BBB", 10_000, 0), holding(b"AAA", 10_000, 0)]),
        portfolio(b"side", vec![holding(b"CCC", 10_000, 0), holding(b"AAA", 10_000, 0)]),
    ];
    let combined = aggregate(&ps);
    let symbols: Vec<Vec<u8>> = combined.iter().map(|p| p.symbol.clone()).collect();
    assert_eq!(symbols, vec![b"BBB".to_vec(), b"AAA".to_vec(), b"CCC".to_vec()]);
}

#[test]
fn display_fields_come_from_first_occurrence() {
    let mut first = holding(b"AAA", 10_000, 0);
    first.display = b"First".to_vec();
    first.name = b"First Inc".to_vec();
    let mut second = holding(b"AAA", 10_000, 0);
    second.display = b"Second".to_vec();
    second.name = b"Second Inc".to_vec();
    let ps = vec![portfolio(b"main", vec![first]), portfolio(b"side", vec![second])];
    let combined = aggregate(&ps);
    assert_eq!(combined[0].display, b"First".to_vec());
    assert_eq!(combined[0].name, b"First Inc".to_vec());
}

#[test]
fn single_portfolio_label_is_bare_name() {
    let ps = vec![portfolio(b"main", vec![holding(b"AAA", 10_000, 0)])];
    let combined = aggregate(&ps);
    assert_eq!(combined[0].portfolio, b"main".to_vec());
}

#[test]
fn same_portfolio_twice_repeats_label() {
    let ps = vec![
        portfolio(b"main", vec![holding(b"AAA", 10_000, 0), holding(b"AAA", 10_000, 0)]),
    ];
    let combined = aggregate(&ps);
    assert_eq!(combined[0].portfolio, b"main+main".to_vec());
}

#[test]
fn all_zero_quantity_has_zero_cost_basis() {
    let ps = vec![portfolio(b"main", vec![holding(b"AAA", 0, 1_000_000)])];
    let combined = aggregate(&ps);
    assert_eq!(combined[0].quantity, 0);
    assert_eq!(combined[0].cost_basis, 0);
}

#[test]
fn aggregated_positions_have_no_quote() {
    let ps = vec![portfolio(b"main", vec![holding(b"AAA", 10_000, 0)])];
    let combined = aggregate(&ps);
    assert!(combined[0].quote.is_none());
}
