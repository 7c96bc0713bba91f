//! The aggregator: one combined position per symbol across portfolios.
//!
//! Holdings of the same symbol merge into a single position whose
//! quantity is the sum of the quantities and whose cost basis is the
//! quantity-weighted average of the cost bases (zero when the combined
//! quantity is zero).  Symbols appear in first-encounter order, the
//! display fields come from the first contributing holding, and the
//! portfolio label joins the contributing portfolio names with `+` in
//! encounter order.  The whole aggregate is a pure function of the
//! holdings handed in: rebuilding it from unchanged inputs yields an
//! identical result.

use vstd::prelude::*;

use crate::bytes::{clone_bytes, eq_bytes};
use crate::holding::{holding_wf, holdings_view, Holding, HoldingView};
use crate::money::{MAX_AMOUNT, MAX_HOLDINGS};
use crate::position::{positions_view, positions_wf, position_wf, Position, PositionView};

verus! {

/// One holding together with the name of the portfolio it came from.
pub struct LabeledHolding {
    pub portfolio: Seq<u8>,
    pub holding: HoldingView,
}

/// A labeled holding is well-formed when its holding is.
pub open spec fn labeled_wf(s: Seq<LabeledHolding>) -> bool {
    forall|i: int| 0 <= i < s.len() ==> holding_wf(#[trigger] s[i].holding)
}

/// Sum of the quantities of `y`'s holdings.
pub open spec fn sum_qty(s: Seq<LabeledHolding>, y: Seq<u8>) -> int
    decreases s.len(),
{
    if s.len() == 0 {
        0
    } else {
        sum_qty(s.drop_last(), y) + if s.last().holding.symbol == y {
            s.last().holding.quantity as int
        } else {
            0
        }
    }
}

/// Sum of quantity times cost basis of `y`'s holdings.
pub open spec fn sum_weighted_cost(s: Seq<LabeledHolding>, y: Seq<u8>) -> int
    decreases s.len(),
{
    if s.len() == 0 {
        0
    } else {
        sum_weighted_cost(s.drop_last(), y) + if s.last().holding.symbol == y {
            (s.last().holding.quantity as int) * (s.last().holding.cost_basis as int)
        } else {
            0
        }
    }
}

/// The portfolio names contributing to `y`, one per holding, in
/// encounter order.
pub open spec fn labels_of(s: Seq<LabeledHolding>, y: Seq<u8>) -> Seq<Seq<u8>>
    decreases s.len(),
{
    if s.len() == 0 {
        Seq::empty()
    } else {
        labels_of(s.drop_last(), y) + if s.last().holding.symbol == y {
            seq![s.last().portfolio]
        } else {
            Seq::empty()
        }
    }
}

/// The distinct symbols of `s` in first-encounter order.
pub open spec fn symbol_order(s: Seq<LabeledHolding>) -> Seq<Seq<u8>>
    decreases s.len(),
{
    if s.len() == 0 {
        Seq::empty()
    } else {
        let rest = symbol_order(s.drop_last());
        if rest.contains(s.last().holding.symbol) {
            rest
        } else {
            rest.push(s.last().holding.symbol)
        }
    }
}

/// Index of the first holding of `y` in `s`, or `s.len()` if none.
pub open spec fn first_of(s: Seq<LabeledHolding>, y: Seq<u8>) -> int
    decreases s.len(),
{
    if s.len() == 0 {
        0
    } else if s.first().holding.symbol == y {
        0
    } else {
        1 + first_of(s.drop_first(), y)
    }
}

/// Portfolio names joined with `+` in order.
pub open spec fn join_plus(labels: Seq<Seq<u8>>) -> Seq<u8>
    decreases labels.len(),
{
    if labels.len() == 0 {
        Seq::empty()
    } else if labels.len() == 1 {
        labels[0]
    } else {
        join_plus(labels.drop_last()) + seq![43u8] + labels.last()
    }
}

/// The weighted cost basis: the weighted sum over the total quantity,
/// or zero for a position with no quantity.
pub open spec fn weighted_cost(s: Seq<LabeledHolding>, y: Seq<u8>) -> int {
    if sum_qty(s, y) > 0 {
        sum_weighted_cost(s, y) / sum_qty(s, y)
    } else {
        0
    }
}

/// The aggregated position of symbol `y`.
pub open spec fn spec_position_of(s: Seq<LabeledHolding>, y: Seq<u8>) -> PositionView {
    PositionView {
        symbol: y,
        display: s[first_of(s, y)].holding.display,
        name: s[first_of(s, y)].holding.name,
        quantity: sum_qty(s, y) as i64,
        cost_basis: weighted_cost(s, y) as i64,
        quote: None,
        portfolio: join_plus(labels_of(s, y)),
    }
}

/// The combined view: one aggregated position per distinct symbol, in
/// first-encounter order.
pub open spec fn spec_aggregate(s: Seq<LabeledHolding>) -> Seq<PositionView> {
    Seq::new(symbol_order(s).len(), |i: int| spec_position_of(s, symbol_order(s)[i]))
}

/// Both sums are non-negative and bounded by the number of holdings, and
/// the weighted sum is at most the quantity sum times the largest cost
/// basis.
pub proof fn lemma_sums_bounded(s: Seq<LabeledHolding>, y: Seq<u8>)
    requires
        labeled_wf(s),
    ensures
        0 <= sum_qty(s, y) <= s.len() * MAX_AMOUNT,
        0 <= sum_weighted_cost(s, y),
        sum_weighted_cost(s, y) <= sum_qty(s, y) * MAX_AMOUNT,
    decreases s.len(),
{
    if s.len() > 0 {
        let d = s.drop_last();
        assert(labeled_wf(d)) by {
            assert(forall|i: int| 0 <= i < d.len() ==> d[i] == s[i]);
        }
        lemma_sums_bounded(d, y);
        assert((s.len() - 1) * MAX_AMOUNT + MAX_AMOUNT == s.len() * MAX_AMOUNT) by (nonlinear_arith);
        if s.last().holding.symbol == y {
            let q = s.last().holding.quantity as int;
            let c = s.last().holding.cost_basis as int;
            assert(holding_wf(s.last().holding));
            assert(0 <= q * c <= q * MAX_AMOUNT) by (nonlinear_arith)
                requires
                    0 <= q,
                    0 <= c <= MAX_AMOUNT,
            ;
            assert(sum_weighted_cost(d, y) + q * c <= (sum_qty(d, y) + q) * MAX_AMOUNT)
                by (nonlinear_arith)
                requires
                    sum_weighted_cost(d, y) <= sum_qty(d, y) * MAX_AMOUNT,
                    q * c <= q * MAX_AMOUNT,
            ;
        }
    }
}

/// The weighted cost basis of a well-formed holding list is itself a
/// well-formed amount.
pub proof fn lemma_weighted_cost_in_range(s: Seq<LabeledHolding>, y: Seq<u8>)
    requires
        labeled_wf(s),
    ensures
        0 <= weighted_cost(s, y) <= MAX_AMOUNT,
{
    lemma_sums_bounded(s, y);
    let q = sum_qty(s, y);
    let w = sum_weighted_cost(s, y);
    if q > 0 {
        vstd::arithmetic::div_mod::lemma_div_pos_is_pos(w, q);
        vstd::arithmetic::div_mod::lemma_div_is_ordered(w, q * MAX_AMOUNT, q);
        assert(q * MAX_AMOUNT == MAX_AMOUNT * q) by (nonlinear_arith);
        vstd::arithmetic::div_mod::lemma_div_by_multiple(MAX_AMOUNT as int, q);
    }
}

/// A holding with zero quantity contributes nothing: inserting it
/// anywhere leaves every symbol's total quantity and weighted cost sum —
/// and so every cost basis — unchanged.
pub proof fn lemma_zero_quantity_neutral(
    s1: Seq<LabeledHolding>,
    s2: Seq<LabeledHolding>,
    z: LabeledHolding,
    y: Seq<u8>,
)
    requires
        z.holding.quantity == 0,
    ensures
        sum_qty(s1 + seq![z] + s2, y) == sum_qty(s1 + s2, y),
        sum_weighted_cost(s1 + seq![z] + s2, y) == sum_weighted_cost(s1 + s2, y),
        weighted_cost(s1 + seq![z] + s2, y) == weighted_cost(s1 + s2, y),
    decreases s2.len(),
{
    if s2.len() == 0 {
        let a = s1 + seq![z] + s2;
        assert(a.drop_last() =~= s1);
        assert(a.last() == z);
        assert(s1 + s2 =~= s1);
    } else {
        let a = s1 + seq![z] + s2;
        let b = s1 + s2;
        lemma_zero_quantity_neutral(s1, s2.drop_last(), z, y);
        assert(a.drop_last() =~= s1 + seq![z] + s2.drop_last());
        assert(b.drop_last() =~= s1 + s2.drop_last());
        assert(a.last() == s2.last());
        assert(b.last() == s2.last());
    }
}


/// One portfolio's name together with its loaded holdings.
pub struct PortfolioHoldings {
    pub name: Vec<u8>,
    pub holdings: Vec<Holding>,
}

/// Mathematical image of one portfolio's holdings.
pub struct PortfolioHoldingsView {
    pub name: Seq<u8>,
    pub holdings: Seq<HoldingView>,
}

impl View for PortfolioHoldings {
    type V = PortfolioHoldingsView;

    open spec fn view(&self) -> PortfolioHoldingsView {
        PortfolioHoldingsView { name: self.name@, holdings: holdings_view(self.holdings@) }
    }
}

/// The views of a list of portfolios.
pub open spec fn portfolios_view(ps: Seq<PortfolioHoldings>) -> Seq<PortfolioHoldingsView> {
    Seq::new(ps.len(), |i: int| ps[i]@)
}

/// One portfolio's holdings, each labeled with the portfolio name.
pub open spec fn labeled(name: Seq<u8>, hs: Seq<HoldingView>) -> Seq<LabeledHolding> {
    Seq::new(hs.len(), |i: int| LabeledHolding { portfolio: name, holding: hs[i] })
}

/// All portfolios' holdings in order, labeled with their portfolio
/// names.
pub open spec fn flatten(ps: Seq<PortfolioHoldingsView>) -> Seq<LabeledHolding>
    decreases ps.len(),
{
    if ps.len() == 0 {
        Seq::empty()
    } else {
        flatten(ps.drop_last()) + labeled(ps.last().name, ps.last().holdings)
    }
}

/// Number of holding lines across all portfolios.
pub open spec fn total_count(ps: Seq<PortfolioHoldingsView>) -> int
    decreases ps.len(),
{
    if ps.len() == 0 {
        0
    } else {
        total_count(ps.drop_last()) + ps.last().holdings.len()
    }
}

/// Every holding of every portfolio is well-formed.
pub open spec fn portfolios_wf(ps: Seq<PortfolioHoldingsView>) -> bool {
    forall|i: int, j: int|
        0 <= i < ps.len() && 0 <= j < ps[i].holdings.len() ==> holding_wf(
            #[trigger] ps[i].holdings[j],
        )
}

/// Flattening keeps the holding count and well-formedness.
pub proof fn lemma_flatten_props(ps: Seq<PortfolioHoldingsView>)
    ensures
        flatten(ps).len() == total_count(ps),
        portfolios_wf(ps) ==> labeled_wf(flatten(ps)),
    decreases ps.len(),
{
    if ps.len() > 0 {
        let d = ps.drop_last();
        lemma_flatten_props(d);
        if portfolios_wf(ps) {
            assert(portfolios_wf(d)) by {
                assert(forall|i: int| 0 <= i < d.len() ==> d[i] == ps[i]);
            }
            assert forall|k: int| 0 <= k < flatten(ps).len() implies holding_wf(
                #[trigger] flatten(ps)[k].holding,
            ) by {
                if k < flatten(d).len() {
                    assert(flatten(ps)[k] == flatten(d)[k]);
                } else {
                    let j = k - flatten(d).len();
                    assert(flatten(ps)[k] == labeled(ps.last().name, ps.last().holdings)[j]);
                    assert(ps[ps.len() - 1].holdings[j] == ps.last().holdings[j]);
                }
            }
        }
    }
}

/// Appending one labeled holding extends each per-symbol fold by that
/// holding's contribution.
proof fn lemma_fold_step(s: Seq<LabeledHolding>, x: LabeledHolding, y: Seq<u8>)
    ensures
        sum_qty(s.push(x), y) == sum_qty(s, y) + if x.holding.symbol == y {
            x.holding.quantity as int
        } else {
            0
        },
        sum_weighted_cost(s.push(x), y) == sum_weighted_cost(s, y) + if x.holding.symbol == y {
            (x.holding.quantity as int) * (x.holding.cost_basis as int)
        } else {
            0
        },
        labels_of(s.push(x), y) == labels_of(s, y) + if x.holding.symbol == y {
            seq![x.portfolio]
        } else {
            Seq::<Seq<u8>>::empty()
        },
        symbol_order(s.push(x)) == if symbol_order(s).contains(x.holding.symbol) {
            symbol_order(s)
        } else {
            symbol_order(s).push(x.holding.symbol)
        },
{
    assert(s.push(x).drop_last() =~= s);
    assert(s.push(x).last() == x);
    if x.holding.symbol != y {
        assert(labels_of(s, y) + Seq::<Seq<u8>>::empty() =~= labels_of(s, y));
    }
}

/// Where the first holding of `y` sits after appending one more.
proof fn lemma_first_of_push(s: Seq<LabeledHolding>, x: LabeledHolding, y: Seq<u8>)
    ensures
        first_of(s.push(x), y) == if first_of(s, y) < s.len() {
            first_of(s, y)
        } else if x.holding.symbol == y {
            s.len() as int
        } else {
            s.len() as int + 1
        },
    decreases s.len(),
{
    lemma_first_of_range(s, y);
    let p = s.push(x);
    assert(p.len() == s.len() + 1);
    if s.len() == 0 {
        assert(p.first() == x);
        if x.holding.symbol == y {
            assert(first_of(p, y) == 0);
        } else {
            assert(p.drop_first() =~= Seq::<LabeledHolding>::empty());
            assert(first_of(p, y) == 1 + first_of(p.drop_first(), y));
        }
    } else {
        assert(p.first() == s.first());
        if s.first().holding.symbol == y {
            assert(first_of(s, y) == 0);
            assert(first_of(p, y) == 0);
        } else {
            let d = s.drop_first();
            assert(p.drop_first() =~= d.push(x));
            assert(first_of(p, y) == 1 + first_of(d.push(x), y));
            assert(first_of(s, y) == 1 + first_of(d, y));
            lemma_first_of_push(d, x, y);
            lemma_first_of_range(d, y);
        }
    }
}

/// `first_of` stays in range, points at `y`, and nothing before it
/// carries `y`.
pub proof fn lemma_first_of_range(s: Seq<LabeledHolding>, y: Seq<u8>)
    ensures
        0 <= first_of(s, y) <= s.len(),
        first_of(s, y) < s.len() ==> s[first_of(s, y)].holding.symbol == y,
        forall|j: int| 0 <= j < first_of(s, y) ==> s[j].holding.symbol != y,
    decreases s.len(),
{
    if s.len() > 0 && s.first().holding.symbol != y {
        let d = s.drop_first();
        lemma_first_of_range(d, y);
        assert forall|j: int| 0 <= j < first_of(s, y) implies s[j].holding.symbol != y by {
            if j >= 1 {
                assert(d[j - 1] == s[j]);
            }
        }
        if first_of(s, y) < s.len() {
            assert(s[first_of(s, y)] == d[first_of(s, y) - 1]);
        }
    }
}

/// A symbol is in the encounter-order list exactly when some holding
/// carries it.
proof fn lemma_symbol_order_contains(s: Seq<LabeledHolding>, y: Seq<u8>)
    ensures
        symbol_order(s).contains(y) <==> first_of(s, y) < s.len(),
    decreases s.len(),
{
    lemma_first_of_range(s, y);
    if s.len() > 0 {
        let d = s.drop_last();
        let x = s.last();
        lemma_symbol_order_contains(d, y);
        lemma_first_of_range(d, y);
        assert(d.push(x) =~= s);
        lemma_first_of_push(d, x, y);
        let so_d = symbol_order(d);
        if y == x.holding.symbol {
            // the right side always holds, and so does the left
            assert(first_of(s, y) < s.len());
            if so_d.contains(y) {
                assert(symbol_order(s).contains(y));
            } else {
                assert(symbol_order(s) == so_d.push(y));
                assert(so_d.push(y)[so_d.len() as int] == y);
                assert(symbol_order(s).contains(y));
            }
        } else {
            // both sides reduce to the sublist without the last holding
            assert((first_of(s, y) < s.len()) == (first_of(d, y) < d.len()));
            if so_d.contains(x.holding.symbol) {
                assert(symbol_order(s) == so_d);
            } else {
                assert(symbol_order(s) == so_d.push(x.holding.symbol));
                if symbol_order(s).contains(y) {
                    let w = choose|w: int|
                        0 <= w < symbol_order(s).len() && symbol_order(s)[w] == y;
                    assert(w < so_d.len());
                    assert(so_d[w] == y);
                    assert(so_d.contains(y));
                }
                if so_d.contains(y) {
                    let w = choose|w: int| 0 <= w < so_d.len() && so_d[w] == y;
                    assert(symbol_order(s)[w] == y);
                    assert(symbol_order(s).contains(y));
                }
            }
        }
    }
}

/// The encounter-order symbol list never repeats a symbol.
proof fn lemma_symbol_order_distinct(s: Seq<LabeledHolding>)
    ensures
        forall|p: int, q: int|
            0 <= p < q < symbol_order(s).len() ==> symbol_order(s)[p] != symbol_order(s)[q],
    decreases s.len(),
{
    if s.len() > 0 {
        let d = s.drop_last();
        lemma_symbol_order_distinct(d);
        let so_d = symbol_order(d);
        if !so_d.contains(s.last().holding.symbol) {
            assert forall|p: int, q: int|
                0 <= p < q < symbol_order(s).len() implies symbol_order(s)[p] != symbol_order(
                s,
            )[q] by {
                if q < so_d.len() {
                    assert(symbol_order(s)[p] == so_d[p] && symbol_order(s)[q] == so_d[q]);
                } else {
                    assert(symbol_order(s)[p] == so_d[p]);
                    assert(symbol_order(s)[q] == s.last().holding.symbol);
                    if so_d[p] == s.last().holding.symbol {
                        assert(so_d.contains(s.last().holding.symbol));
                        assert(false);
                    }
                }
            }
        }
    }
}

/// An aggregation slot under construction: the running sums and labels
/// for one symbol.
struct AggSlot {
    symbol: Vec<u8>,
    display: Vec<u8>,
    name: Vec<u8>,
    qty_sum: i64,
    cost_sum: i128,
    labels: Vec<Vec<u8>>,
}

/// The symbols of the slots, in order.
spec fn slot_symbols(s: Seq<AggSlot>) -> Seq<Seq<u8>> {
    Seq::new(s.len(), |i: int| s[i].symbol@)
}

/// Every slot carries exactly the folds of `done` for its symbol.
spec fn slots_ok(slots: Seq<AggSlot>, done: Seq<LabeledHolding>) -> bool {
    forall|k: int|
        0 <= k < slots.len() ==> {
            let y = #[trigger] slots[k].symbol@;
            &&& slots[k].qty_sum == sum_qty(done, y)
            &&& slots[k].cost_sum == sum_weighted_cost(done, y)
            &&& slots[k].labels.deep_view() == labels_of(done, y)
            &&& first_of(done, y) < done.len()
            &&& slots[k].display@ == done[first_of(done, y)].holding.display
            &&& slots[k].name@ == done[first_of(done, y)].holding.name
        }
}

/// Join portfolio names with `+`.
fn join_labels(labels: &Vec<Vec<u8>>) -> (r: Vec<u8>)
    ensures
        r@ == join_plus(labels.deep_view()),
{
    proof {
        crate::bytes::lemma_deep_view_index(labels);
    }
    let mut out: Vec<u8> = Vec::new();
    if labels.len() == 0 {
        return out;
    }
    let mut out = clone_bytes(&labels[0]);
    proof {
        assert(labels.deep_view().subrange(0, 1) =~= seq![labels@[0]@]);
        assert(join_plus(labels.deep_view().subrange(0, 1)) == labels@[0]@);
    }
    let mut k: usize = 1;
    while k < labels.len()
        invariant
            1 <= k <= labels@.len(),
            labels.deep_view().len() == labels@.len(),
            forall|j: int| 0 <= j < labels@.len() ==> labels.deep_view()[j] == labels@[j]@,
            out@ == join_plus(labels.deep_view().subrange(0, k as int)),
        decreases labels@.len() - k,
    {
        let ghost pre = labels.deep_view().subrange(0, k as int);
        let ghost pre1 = labels.deep_view().subrange(0, k as int + 1);
        proof {
            assert(pre1.drop_last() =~= pre);
            assert(pre1.last() == labels@[k as int]@);
            assert(pre1.len() >= 2);
        }
        out.push(43);
        crate::holding::push_bytes_of(&mut out, &labels[k]);
        proof {
            assert(out@ =~= join_plus(pre) + seq![43u8] + labels@[k as int]@);
        }
        k = k + 1;
    }
    proof {
        assert(labels.deep_view().subrange(0, labels@.len() as int) =~= labels.deep_view());
    }
    out
}

/// Merge every portfolio's holdings into one combined position per
/// symbol, in first-encounter order, quantities summed and cost bases
/// quantity-weighted; no quotes are attached yet.
pub fn aggregate(portfolios: &Vec<PortfolioHoldings>) -> (r: Vec<Position>)
    requires
        portfolios_wf(portfolios_view(portfolios@)),
        total_count(portfolios_view(portfolios@)) <= MAX_HOLDINGS,
    ensures
        positions_view(r@) == spec_aggregate(flatten(portfolios_view(portfolios@))),
        positions_wf(positions_view(r@)),
{
    let ghost pv = portfolios_view(portfolios@);
    let ghost all = flatten(pv);
    proof {
        lemma_flatten_props(pv);
    }
    let mut slots: Vec<AggSlot> = Vec::new();
    let ghost done: Seq<LabeledHolding> = Seq::empty();
    let mut pi: usize = 0;
    proof {
        assert(flatten(pv.subrange(0, 0)) =~= Seq::<LabeledHolding>::empty());
    }
    let mut donelen: usize = 0;
    while pi < portfolios.len()
        invariant
            0 <= pi <= portfolios@.len(),
            pv == portfolios_view(portfolios@),
            all == flatten(pv),
            portfolios_wf(pv),
            total_count(pv) <= MAX_HOLDINGS,
            all.len() <= MAX_HOLDINGS,
            labeled_wf(all),
            flatten(pv.subrange(0, pi as int)).len() == donelen,
            donelen <= all.len(),
            flatten(pv.subrange(0, pi as int)) == all.subrange(0, donelen as int),
            slot_symbols(slots@) == symbol_order(all.subrange(0, donelen as int)),
            slots_ok(slots@, all.subrange(0, donelen as int)),
        decreases portfolios@.len() - pi,
    {
        let ghost name = pv[pi as int].name;
        let ghost hs = pv[pi as int].holdings;
        let p = &portfolios[pi];
        let mut hi: usize = 0;
        proof {
            assert(labeled(name, hs.subrange(0, 0)) =~= Seq::<LabeledHolding>::empty());
            assert(flatten(pv.subrange(0, pi as int)) + Seq::<LabeledHolding>::empty()
                =~= flatten(pv.subrange(0, pi as int)));
        }
        while hi < p.holdings.len()
            invariant
                0 <= hi <= hs.len(),
                hs.len() == p.holdings@.len(),
                p == &portfolios[pi as int],
                0 <= pi < portfolios@.len(),
                pv == portfolios_view(portfolios@),
                all == flatten(pv),
                portfolios_wf(pv),
                total_count(pv) <= MAX_HOLDINGS,
                all.len() <= MAX_HOLDINGS,
                labeled_wf(all),
                name == pv[pi as int].name,
                hs == pv[pi as int].holdings,
                hs == holdings_view(p.holdings@),
                flatten(pv.subrange(0, pi as int)) + labeled(name, hs.subrange(0, hi as int))
                    == all.subrange(0, donelen as int),
                donelen == flatten(pv.subrange(0, pi as int)).len() + hi,
                donelen <= all.len(),
                slot_symbols(slots@) == symbol_order(all.subrange(0, donelen as int)),
                slots_ok(slots@, all.subrange(0, donelen as int)),
            decreases hs.len() - hi,
        {
            let ghost done_now = all.subrange(0, donelen as int);
            let ghost lh = LabeledHolding { portfolio: name, holding: hs[hi as int] };
            let h = &p.holdings[hi];
            proof {
                assert(h@ == hs[hi as int]);
                // the next flattened element is exactly `lh`
                assert(labeled(name, hs.subrange(0, hi as int + 1)) =~= labeled(
                    name,
                    hs.subrange(0, hi as int),
                ).push(lh));
                assert(flatten(pv.subrange(0, pi as int)) + labeled(
                    name,
                    hs.subrange(0, hi as int + 1),
                ) =~= done_now.push(lh));
                lemma_flatten_prefix_extends(pv, pi as int, hi as int);
                assert(done_now.push(lh) =~= all.subrange(0, donelen as int + 1));
                lemma_sums_bounded(done_now, lh.holding.symbol);
                assert(labeled_wf(done_now)) by {
                    assert(forall|t: int|
                        0 <= t < done_now.len() ==> done_now[t] == all.subrange(
                            0,
                            donelen as int,
                        )[t]);
                }
            }
            // find the slot for this symbol, if it exists
            let m = slots.len();
            let mut si: usize = 0;
            while si < m && !eq_bytes(&slots[si].symbol, &h.symbol)
                invariant
                    0 <= si <= m,
                    m == slots@.len(),
                    slots == old_slots_frame(slots),
                    h@ == hs[hi as int],
                    0 <= hi < hs.len(),
                    forall|k: int| 0 <= k < si ==> slots@[k].symbol@ != h@.symbol,
                decreases m - si,
            {
                si = si + 1;
            }
            let ghost y = lh.holding.symbol;
            proof {
                lemma_fold_step(done_now, lh, y);
                lemma_first_of_push(done_now, lh, y);
                lemma_first_of_range(done_now, y);
                lemma_symbol_order_contains(done_now, y);
                lemma_symbol_order_distinct(done_now);
            }
            if si < m {
                // existing symbol: fold this holding in
                proof {
                    assert(slots@[si as int].symbol@ == y);
                    assert(slot_symbols(slots@)[si as int] == y);
                    assert(symbol_order(done_now).contains(y));
                    assert(symbol_order(done_now.push(lh)) == symbol_order(done_now));
                    assert(sum_qty(done_now, y) + lh.holding.quantity <= (done_now.len() + 1)
                        * MAX_AMOUNT) by (nonlinear_arith)
                        requires
                            sum_qty(done_now, y) <= done_now.len() * MAX_AMOUNT,
                            lh.holding.quantity <= MAX_AMOUNT,
                    ;
                    assert((done_now.len() + 1) * MAX_AMOUNT <= MAX_HOLDINGS * MAX_AMOUNT)
                        by (nonlinear_arith)
                        requires
                            done_now.len() + 1 <= MAX_HOLDINGS,
                    ;
                    assert(holding_wf(lh.holding));
                    assert(0 <= (lh.holding.quantity as int) * (lh.holding.cost_basis as int)
                        <= MAX_AMOUNT * MAX_AMOUNT) by (nonlinear_arith)
                        requires
                            0 <= lh.holding.quantity <= MAX_AMOUNT,
                            0 <= lh.holding.cost_basis <= MAX_AMOUNT,
                    ;
                    lemma_sums_bounded(done_now.push(lh), y);
                }
                let ghost prev_slots = slots@;
                let mut slot = slots.remove(si);
                slot.qty_sum = slot.qty_sum + h.quantity;
                slot.cost_sum = slot.cost_sum + (h.quantity as i128) * (h.cost_basis as i128);
                slot.labels.push(clone_bytes(&p.name));
                proof {
                    assert(p.name@ == name);
                }
                slots.insert(si, slot);
                proof {
                    assert(slots@.len() == prev_slots.len());
                    assert(forall|k: int|
                        0 <= k < slots@.len() && k != si ==> slots@[k] == prev_slots[k]);
                    assert(slot_symbols(slots@) =~= symbol_order(done_now.push(lh)));
                    assert forall|k: int| 0 <= k < slots@.len() implies slot_ok_one(
                        slots@[k],
                        done_now.push(lh),
                    ) by {
                        let yk = slots@[k].symbol@;
                        lemma_fold_step(done_now, lh, yk);
                        lemma_first_of_push(done_now, lh, yk);
                        lemma_first_of_range(done_now, yk);
                        if k != si {
                            assert(slots@[k] == prev_slots[k]);
                            assert(yk != y) by {
                                assert(slot_symbols(prev_slots)[k] == yk);
                                assert(slot_symbols(prev_slots)[si as int] == y);
                            }
                            assert(slots@[k].labels.deep_view() == labels_of(
                                done_now.push(lh),
                                yk,
                            ));
                            assert(done_now.push(lh)[first_of(done_now, yk)]
                                == done_now[first_of(done_now, yk)]);
                        } else {
                            assert(first_of(done_now, y) < done_now.len());
                            assert(done_now.push(lh)[first_of(done_now, y)]
                                == done_now[first_of(done_now, y)]);
                            assert(slots@[si as int].labels.deep_view() =~= labels_of(
                                done_now,
                                y,
                            ) + seq![name]) by {
                                crate::bytes::lemma_deep_view_index(&slots@[si as int].labels);
                                assert(forall|t: int|
                                    0 <= t < prev_slots[si as int].labels@.len()
                                        ==> #[trigger] slots@[si as int].labels@[t]
                                        == prev_slots[si as int].labels@[t]);
                                crate::bytes::lemma_deep_view_index(
                                    &prev_slots[si as int].labels,
                                );
                            }
                        }
                    }
                    assert(slots_ok(slots@, done_now.push(lh)));
                }
            } else {
                // new symbol: open a slot
                proof {
                    assert(forall|k: int| 0 <= k < slots@.len() ==> slots@[k].symbol@ != y);
                    if symbol_order(done_now).contains(y) {
                        let w = choose|w: int|
                            0 <= w < symbol_order(done_now).len() && symbol_order(done_now)[w]
                                == y;
                        assert(slot_symbols(slots@)[w] == y);
                        assert(false);
                    }
                    assert(holding_wf(lh.holding));
                    assert(0 <= (lh.holding.quantity as int) * (lh.holding.cost_basis as int)
                        <= MAX_AMOUNT * MAX_AMOUNT) by (nonlinear_arith)
                        requires
                            0 <= lh.holding.quantity <= MAX_AMOUNT,
                            0 <= lh.holding.cost_basis <= MAX_AMOUNT,
                    ;
                }
                let mut labels: Vec<Vec<u8>> = Vec::new();
                labels.push(clone_bytes(&p.name));
                let ghost prev_slots = slots@;
                let slot = AggSlot {
                    symbol: clone_bytes(&h.symbol),
                    display: clone_bytes(&h.display),
                    name: clone_bytes(&h.name),
                    qty_sum: h.quantity,
                    cost_sum: (h.quantity as i128) * (h.cost_basis as i128),
                    labels,
                };
                slots.push(slot);
                proof {
                    assert(slots@.drop_last() =~= prev_slots);
                    assert(slot_symbols(slots@) =~= symbol_order(done_now).push(y));
                    assert forall|k: int| 0 <= k < slots@.len() implies slot_ok_one(
                        slots@[k],
                        done_now.push(lh),
                    ) by {
                        let yk = slots@[k].symbol@;
                        lemma_fold_step(done_now, lh, yk);
                        lemma_first_of_push(done_now, lh, yk);
                        lemma_first_of_range(done_now, yk);
                        if k < prev_slots.len() {
                            assert(slots@[k] == prev_slots[k]);
                            assert(yk != y);
                            assert(slots@[k].labels.deep_view() == labels_of(
                                done_now.push(lh),
                                yk,
                            ));
                            assert(done_now.push(lh)[first_of(done_now, yk)]
                                == done_now[first_of(done_now, yk)]);
                        } else {
                            assert(yk == y);
                            lemma_symbol_order_contains(done_now, y);
                            assert(first_of(done_now, y) == done_now.len());
                            assert(sum_qty(done_now, y) == 0 && sum_weighted_cost(done_now, y)
                                == 0 && labels_of(done_now, y) =~= Seq::<Seq<u8>>::empty()) by {
                                lemma_absent_symbol_folds(done_now, y);
                            }
                            assert(slots@[k].labels.deep_view() =~= seq![name]) by {
                                crate::bytes::lemma_deep_view_index(&slots@[k].labels);
                            }
                            assert(labels_of(done_now.push(lh), y) =~= seq![name]);
                            assert(done_now.push(lh)[done_now.len() as int] == lh);
                        }
                    }
                    assert(slots_ok(slots@, done_now.push(lh)));
                }
            }
            hi = hi + 1;
            donelen = donelen + 1;
        }
        proof {
            assert(hs.subrange(0, hs.len() as int) =~= hs);
            assert(pv.subrange(0, pi as int + 1).drop_last() =~= pv.subrange(0, pi as int));
            assert(pv.subrange(0, pi as int + 1).last() == pv[pi as int]);
            assert(flatten(pv.subrange(0, pi as int + 1)) =~= flatten(pv.subrange(0, pi as int))
                + labeled(name, hs));
        }
        pi = pi + 1;
    }
    proof {
        assert(pv.subrange(0, pi as int) =~= pv);
        assert(all.subrange(0, donelen as int) =~= all);
    }
    // turn each slot into its aggregated position
    let mut out: Vec<Position> = Vec::new();
    let mut k: usize = 0;
    while k < slots.len()
        invariant
            0 <= k <= slots@.len(),
            all == flatten(portfolios_view(portfolios@)),
            labeled_wf(all),
            all.len() <= MAX_HOLDINGS,
            slot_symbols(slots@) == symbol_order(all),
            slots_ok(slots@, all),
            out@.len() == k,
            forall|t: int|
                0 <= t < k ==> positions_view(out@)[t] == spec_aggregate(all)[t],
            forall|t: int| 0 <= t < out@.len() ==> position_wf(#[trigger] out@[t]@),
        decreases slots@.len() - k,
    {
        let ghost y = slots@[k as int].symbol@;
        proof {
            assert(slot_symbols(slots@)[k as int] == y);
            lemma_sums_bounded(all, y);
            lemma_weighted_cost_in_range(all, y);
            assert(all.len() * MAX_AMOUNT <= MAX_HOLDINGS * MAX_AMOUNT) by (nonlinear_arith)
                requires
                    all.len() <= MAX_HOLDINGS,
            ;
        }
        let slot = &slots[k];
        let cost_basis: i64 = if slot.qty_sum > 0 {
            let w = crate::money::mul_div(slot.cost_sum, 1, slot.qty_sum as i128);
            proof {
                assert(sum_weighted_cost(all, y) * 1 == sum_weighted_cost(all, y));
            }
            w as i64
        } else {
            0
        };
        let label = join_labels(&slot.labels);
        let pos = Position {
            symbol: clone_bytes(&slot.symbol),
            display: clone_bytes(&slot.display),
            name: clone_bytes(&slot.name),
            quantity: slot.qty_sum,
            cost_basis,
            quote: None,
            portfolio: label,
        };
        let ghost prev_out = out@;
        out.push(pos);
        proof {
            assert(pos@ == spec_position_of(all, y));
            assert forall|t: int|
                0 <= t < out@.len() implies positions_view(out@)[t] == spec_aggregate(all)[t] by {
                if t < prev_out.len() {
                    assert(out@[t] == prev_out[t]);
                    assert(positions_view(prev_out)[t] == spec_aggregate(all)[t]);
                }
            }
        }
        k = k + 1;
    }
    proof {
        assert(positions_view(out@) =~= spec_aggregate(all));
    }
    out
}

/// What `slots_ok` says of one slot.
spec fn slot_ok_one(slot: AggSlot, done: Seq<LabeledHolding>) -> bool {
    let y = slot.symbol@;
    &&& slot.qty_sum == sum_qty(done, y)
    &&& slot.cost_sum == sum_weighted_cost(done, y)
    &&& slot.labels.deep_view() == labels_of(done, y)
    &&& first_of(done, y) < done.len()
    &&& slot.display@ == done[first_of(done, y)].holding.display
    &&& slot.name@ == done[first_of(done, y)].holding.name
}

/// A symbol with no holding folds to zero sums and no labels.
proof fn lemma_absent_symbol_folds(s: Seq<LabeledHolding>, y: Seq<u8>)
    requires
        first_of(s, y) == s.len(),
    ensures
        sum_qty(s, y) == 0,
        sum_weighted_cost(s, y) == 0,
        labels_of(s, y) == Seq::<Seq<u8>>::empty(),
    decreases s.len(),
{
    lemma_first_of_range(s, y);
    if s.len() > 0 {
        let d = s.drop_last();
        assert(s.last().holding.symbol != y) by {
            assert(s[s.len() - 1].holding.symbol != y);
        }
        assert(first_of(d, y) == d.len()) by {
            lemma_first_of_range(d, y);
            if first_of(d, y) < d.len() {
                assert(d[first_of(d, y)] == s[first_of(d, y)]);
                assert(false);
            }
        }
        lemma_absent_symbol_folds(d, y);
        assert(labels_of(s, y) =~= Seq::<Seq<u8>>::empty());
    }
}

/// The flattened prefix through portfolio `pi`, holding `hi`, is a
/// prefix of the whole flattening.
proof fn lemma_flatten_prefix_extends(ps: Seq<PortfolioHoldingsView>, pi: int, hi: int)
    requires
        0 <= pi < ps.len(),
        0 <= hi < ps[pi].holdings.len(),
    ensures
        flatten(ps.subrange(0, pi)) + labeled(ps[pi].name, ps[pi].holdings.subrange(0, hi + 1))
            == (flatten(ps.subrange(0, pi)) + labeled(
            ps[pi].name,
            ps[pi].holdings.subrange(0, hi),
        )).push(
            LabeledHolding { portfolio: ps[pi].name, holding: ps[pi].holdings[hi] },
        ),
        flatten(ps.subrange(0, pi)).len() + hi + 1 <= flatten(ps).len(),
        forall|t: int|
            0 <= t < flatten(ps.subrange(0, pi)).len() + hi + 1 ==> (flatten(ps.subrange(0, pi))
                + labeled(ps[pi].name, ps[pi].holdings.subrange(0, hi + 1)))[t] == flatten(ps)[t],
{
    assert(flatten(ps.subrange(0, pi)) + labeled(
        ps[pi].name,
        ps[pi].holdings.subrange(0, hi + 1),
    ) =~= (flatten(ps.subrange(0, pi)) + labeled(ps[pi].name, ps[pi].holdings.subrange(0, hi)))
        .push(LabeledHolding { portfolio: ps[pi].name, holding: ps[pi].holdings[hi] }));
    lemma_flatten_prefix_whole(ps, pi);
    assert(labeled(ps[pi].name, ps[pi].holdings.subrange(0, hi + 1)) =~= labeled(
        ps[pi].name,
        ps[pi].holdings,
    ).subrange(0, hi + 1));
}

/// The flattening of a portfolio-list prefix, extended with part of the
/// next portfolio, is a prefix of the whole flattening.
proof fn lemma_flatten_prefix_whole(ps: Seq<PortfolioHoldingsView>, pi: int)
    requires
        0 <= pi < ps.len(),
    ensures
        flatten(ps.subrange(0, pi)).len() + labeled(ps[pi].name, ps[pi].holdings).len() <= flatten(
            ps,
        ).len(),
        forall|t: int|
            0 <= t < flatten(ps.subrange(0, pi)).len() + labeled(
                ps[pi].name,
                ps[pi].holdings,
            ).len() ==> (flatten(ps.subrange(0, pi)) + labeled(ps[pi].name, ps[pi].holdings))[t]
                == flatten(ps)[t],
    decreases ps.len(),
{
    if pi == ps.len() - 1 {
        assert(ps.subrange(0, pi) =~= ps.drop_last());
        assert(ps.last() == ps[pi]);
    } else {
        let d = ps.drop_last();
        lemma_flatten_prefix_whole(d, pi);
        assert(d.subrange(0, pi) =~= ps.subrange(0, pi));
        assert(d[pi] == ps[pi]);
        assert forall|t: int|
            0 <= t < flatten(ps.subrange(0, pi)).len() + labeled(
                ps[pi].name,
                ps[pi].holdings,
            ).len() implies (flatten(ps.subrange(0, pi)) + labeled(
            ps[pi].name,
            ps[pi].holdings,
        ))[t] == flatten(ps)[t] by {
            assert((flatten(d.subrange(0, pi)) + labeled(d[pi].name, d[pi].holdings))[t]
                == flatten(d)[t]);
            assert(flatten(ps)[t] == flatten(d)[t]);
        }
    }
}

/// Identity marker used to state that the scan loop leaves the slots
/// unchanged.
spec fn old_slots_frame(v: Vec<AggSlot>) -> Vec<AggSlot> {
    v
}

} // verus!
