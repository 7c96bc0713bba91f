//! The dashboard: the state the interactive loop displays, and the
//! consuming side of the background refresh.
//!
//! The dashboard keeps denormalized per-view position lists (current
//! portfolio, combined, and per-market splits of each), the shared
//! exchange rate, the in-process price cache, the active ranking, and
//! the refresh flag.  At most one fetch batch is in flight at a time;
//! its results arrive as one-way messages, each applied independently —
//! a partially applied batch is a valid state, and price results with
//! distinct symbols can land in any order with the same outcome.

use vstd::prelude::*;

use crate::bytes::clone_bytes;
use crate::cache::PriceCache;
use crate::market::has_tw_marker;
use crate::money::{amount_ok, MAX_HOLDINGS};
use crate::position::{clone_position, positions_view, positions_wf, position_wf, Position,
    PositionView};
use crate::quote::{quote_wf, Quote, DEFAULT_USD_TWD_RATE};
use crate::ranking::{sort_positions, sort_ranked, SortColumn, SortDirection, SortState,
    spec_flip};

verus! {

/// Seconds between automatic refreshes in live mode.
pub const LIVE_REFRESH_INTERVAL_SECS: u64 = 5;

/// One message from the background fetch task to the interactive loop.
pub enum FetchMessage {
    /// The fetch outcome for one symbol; `None` reports a failed fetch.
    Price { symbol: Vec<u8>, quote: Option<Quote> },
    /// The exchange-rate fetch landed.
    ExchangeRate(i64),
    /// Every fetch of the batch has been attempted.
    BatchComplete,
}

/// Numeric ranges of a message's payload.
pub open spec fn message_wf(m: FetchMessage) -> bool {
    match m {
        FetchMessage::Price { symbol, quote } => match quote {
            Some(q) => quote_wf(q),
            None => true,
        },
        FetchMessage::ExchangeRate(r) => amount_ok(r),
        FetchMessage::BatchComplete => true,
    }
}

/// Mathematical image of the dashboard.
#[verifier::ext_equal]
pub struct DashView {
    pub stocks: Seq<PositionView>,
    pub tw_stocks: Seq<PositionView>,
    pub us_stocks: Seq<PositionView>,
    pub combined_stocks: Seq<PositionView>,
    pub combined_tw_stocks: Seq<PositionView>,
    pub combined_us_stocks: Seq<PositionView>,
    pub usd_twd_rate: i64,
    pub view_combined: bool,
    pub sort: SortState,
    pub is_fetching: bool,
    pub last_update: u64,
    pub cache: Map<Seq<u8>, (Quote, u64)>,
}

/// The dashboard state.
pub struct Dashboard {
    pub stocks: Vec<Position>,
    pub tw_stocks: Vec<Position>,
    pub us_stocks: Vec<Position>,
    pub combined_stocks: Vec<Position>,
    pub combined_tw_stocks: Vec<Position>,
    pub combined_us_stocks: Vec<Position>,
    pub usd_twd_rate: i64,
    pub view_combined: bool,
    pub sort: SortState,
    pub is_fetching: bool,
    pub last_update: u64,
    pub cache: PriceCache,
}

impl View for Dashboard {
    type V = DashView;

    open spec fn view(&self) -> DashView {
        DashView {
            stocks: positions_view(self.stocks@),
            tw_stocks: positions_view(self.tw_stocks@),
            us_stocks: positions_view(self.us_stocks@),
            combined_stocks: positions_view(self.combined_stocks@),
            combined_tw_stocks: positions_view(self.combined_tw_stocks@),
            combined_us_stocks: positions_view(self.combined_us_stocks@),
            usd_twd_rate: self.usd_twd_rate,
            view_combined: self.view_combined,
            sort: self.sort,
            is_fetching: self.is_fetching,
            last_update: self.last_update,
            cache: self.cache@,
        }
    }
}

/// Ranges of a well-formed dashboard state.
pub open spec fn dash_wf(d: DashView) -> bool {
    &&& positions_wf(d.stocks) && d.stocks.len() <= MAX_HOLDINGS
    &&& positions_wf(d.tw_stocks) && d.tw_stocks.len() <= MAX_HOLDINGS
    &&& positions_wf(d.us_stocks) && d.us_stocks.len() <= MAX_HOLDINGS
    &&& positions_wf(d.combined_stocks) && d.combined_stocks.len() <= MAX_HOLDINGS
    &&& positions_wf(d.combined_tw_stocks) && d.combined_tw_stocks.len() <= MAX_HOLDINGS
    &&& positions_wf(d.combined_us_stocks) && d.combined_us_stocks.len() <= MAX_HOLDINGS
    &&& amount_ok(d.usd_twd_rate)
}

impl Dashboard {
    /// The dashboard invariant: all views well-formed and the cache
    /// consistent.
    pub open spec fn wf(&self) -> bool {
        dash_wf(self@) && self.cache.wf()
    }

    /// A fresh dashboard: empty views, the default exchange rate, the
    /// default ranking (change percentage, descending), idle.
    pub fn new() -> (r: Dashboard)
        ensures
            r.wf(),
            r@.stocks.len() == 0,
            r@.combined_stocks.len() == 0,
            r@.usd_twd_rate == DEFAULT_USD_TWD_RATE,
            r@.view_combined == false,
            r@.sort == (SortState {
                column: Some(SortColumn::Change),
                direction: SortDirection::Descending,
            }),
            r@.is_fetching == false,
            r@.cache == Map::<Seq<u8>, (Quote, u64)>::empty(),
    {
        Dashboard {
            stocks: Vec::new(),
            tw_stocks: Vec::new(),
            us_stocks: Vec::new(),
            combined_stocks: Vec::new(),
            combined_tw_stocks: Vec::new(),
            combined_us_stocks: Vec::new(),
            usd_twd_rate: DEFAULT_USD_TWD_RATE,
            view_combined: false,
            sort: SortState {
                column: Some(SortColumn::Change),
                direction: SortDirection::Descending,
            },
            is_fetching: false,
            last_update: 0,
            cache: PriceCache::new(),
        }
    }
}

/// The Taiwan-market subsequence of a position list.
pub open spec fn tw_positions(s: Seq<PositionView>) -> Seq<PositionView> {
    s.filter(|p: PositionView| has_tw_marker(p.symbol))
}

/// The US-market subsequence of a position list.
pub open spec fn us_positions(s: Seq<PositionView>) -> Seq<PositionView> {
    s.filter(|p: PositionView| !has_tw_marker(p.symbol))
}

/// Extending a position list by one element extends exactly one of the
/// two market filters by it.
proof fn lemma_position_filter_step(s: Seq<PositionView>, i: int)
    requires
        0 <= i < s.len(),
    ensures
        tw_positions(s.subrange(0, i + 1)) == if has_tw_marker(s[i].symbol) {
            tw_positions(s.subrange(0, i)).push(s[i])
        } else {
            tw_positions(s.subrange(0, i))
        },
        us_positions(s.subrange(0, i + 1)) == if !has_tw_marker(s[i].symbol) {
            us_positions(s.subrange(0, i)).push(s[i])
        } else {
            us_positions(s.subrange(0, i))
        },
{
    reveal(Seq::filter);
    let p1 = s.subrange(0, i + 1);
    assert(p1.drop_last() =~= s.subrange(0, i));
    assert(p1.last() == s[i]);
}

/// Split a position list into its two market segments, in order.
pub fn split_by_market(positions: &Vec<Position>) -> (r: (Vec<Position>, Vec<Position>))
    requires
        positions_wf(positions_view(positions@)),
    ensures
        positions_view(r.0@) == tw_positions(positions_view(positions@)),
        positions_view(r.1@) == us_positions(positions_view(positions@)),
        positions_wf(positions_view(r.0@)),
        positions_wf(positions_view(r.1@)),
        r.0@.len() + r.1@.len() == positions@.len(),
{
    let ghost pv = positions_view(positions@);
    let mut tw: Vec<Position> = Vec::new();
    let mut us: Vec<Position> = Vec::new();
    let mut i: usize = 0;
    proof {
        reveal(Seq::filter);
        assert(pv.subrange(0, 0) =~= Seq::<PositionView>::empty());
    }
    while i < positions.len()
        invariant
            0 <= i <= positions@.len(),
            pv == positions_view(positions@),
            positions_wf(pv),
            positions_view(tw@) == tw_positions(pv.subrange(0, i as int)),
            positions_view(us@) == us_positions(pv.subrange(0, i as int)),
            forall|k: int| 0 <= k < tw@.len() ==> position_wf(#[trigger] tw@[k]@),
            forall|k: int| 0 <= k < us@.len() ==> position_wf(#[trigger] us@[k]@),
            tw@.len() + us@.len() == i,
        decreases positions@.len() - i,
    {
        proof {
            lemma_position_filter_step(pv, i as int);
        }
        let p = clone_position(&positions[i]);
        if crate::market::market_of(&p.symbol) == crate::market::Market::Taiwan {
            let ghost prev = tw@;
            tw.push(p);
            proof {
                assert(positions_view(tw@) =~= positions_view(prev).push(pv[i as int]));
            }
        } else {
            let ghost prev = us@;
            us.push(p);
            proof {
                assert(positions_view(us@) =~= positions_view(prev).push(pv[i as int]));
            }
        }
        i = i + 1;
    }
    proof {
        assert(pv.subrange(0, positions@.len() as int) =~= pv);
    }
    (tw, us)
}

/// One position with a landed quote for its symbol.
pub open spec fn update_one(p: PositionView, sym: Seq<u8>, q: Quote) -> PositionView {
    if p.symbol == sym {
        PositionView {
            symbol: p.symbol,
            display: p.display,
            name: p.name,
            quantity: p.quantity,
            cost_basis: p.cost_basis,
            quote: Some(q),
            portfolio: p.portfolio,
        }
    } else {
        p
    }
}

/// Every copy of `sym`'s position in the list given the new quote.
pub open spec fn update_positions(s: Seq<PositionView>, sym: Seq<u8>, q: Quote) -> Seq<
    PositionView,
> {
    Seq::new(s.len(), |i: int| update_one(s[i], sym, q))
}

/// Propagate a landed quote into every matching row of one list.
fn apply_quote_list(v: &mut Vec<Position>, symbol: &Vec<u8>, q: Quote)
    requires
        positions_wf(positions_view(old(v)@)),
        quote_wf(q),
    ensures
        positions_view(final(v)@) == update_positions(positions_view(old(v)@), symbol@, q),
        positions_wf(positions_view(final(v)@)),
        final(v)@.len() == old(v)@.len(),
{
    let ghost orig = positions_view(old(v)@);
    let n = v.len();
    let mut i: usize = 0;
    while i < n
        invariant
            0 <= i <= n,
            n == v@.len(),
            n == orig.len(),
            quote_wf(q),
            positions_wf(orig),
            forall|k: int| 0 <= k < i ==> positions_view(v@)[k] == update_one(
                orig[k],
                symbol@,
                q,
            ),
            forall|k: int| i <= k < n ==> positions_view(v@)[k] == orig[k],
        decreases n - i,
    {
        proof {
            assert(positions_view(v@)[i as int] == orig[i as int]);
            assert(position_wf(orig[i as int]));
        }
        if crate::bytes::eq_bytes(&v[i].symbol, symbol) {
            let ghost before = v@;
            let p = v.remove(i);
            let updated = Position {
                symbol: p.symbol,
                display: p.display,
                name: p.name,
                quantity: p.quantity,
                cost_basis: p.cost_basis,
                quote: Some(q),
                portfolio: p.portfolio,
            };
            v.insert(i, updated);
            proof {
                assert(v@ =~= before.update(i as int, updated));
                assert(positions_view(v@)[i as int] == update_one(orig[i as int], symbol@, q));
                assert forall|k: int| 0 <= k < i + 1 implies positions_view(v@)[k] == update_one(
                    orig[k],
                    symbol@,
                    q,
                ) by {
                    if k < i {
                        assert(v@[k] == before[k]);
                        assert(positions_view(before)[k] == update_one(orig[k], symbol@, q));
                    }
                }
                assert forall|k: int| i + 1 <= k < n implies positions_view(v@)[k]
                    == orig[k] by {
                    assert(v@[k] == before[k]);
                    assert(positions_view(before)[k] == orig[k]);
                }
            }
        } else {
            proof {
                assert(orig[i as int].symbol != symbol@);
                assert(positions_view(v@)[i as int] == update_one(orig[i as int], symbol@, q));
            }
        }
        i = i + 1;
    }
    proof {
        assert(positions_view(v@) =~= update_positions(orig, symbol@, q));
        assert forall|k: int|
            0 <= k < positions_view(v@).len() implies position_wf(
            #[trigger] positions_view(v@)[k],
        ) by {
            assert(position_wf(orig[k]));
            assert(positions_view(v@)[k] == update_one(orig[k], symbol@, q));
        }
    }
}

/// The dashboard after one symbol's quote lands: the cache holds the
/// quote as of `now`, and every denormalized copy of the symbol's
/// position carries it.
pub open spec fn spec_apply_price(d: DashView, sym: Seq<u8>, q: Quote, now: u64) -> DashView {
    DashView {
        stocks: update_positions(d.stocks, sym, q),
        tw_stocks: update_positions(d.tw_stocks, sym, q),
        us_stocks: update_positions(d.us_stocks, sym, q),
        combined_stocks: update_positions(d.combined_stocks, sym, q),
        combined_tw_stocks: update_positions(d.combined_tw_stocks, sym, q),
        combined_us_stocks: update_positions(d.combined_us_stocks, sym, q),
        cache: d.cache.insert(sym, (q, now)),
        ..d
    }
}

/// The dashboard with a new exchange rate.
pub open spec fn spec_set_rate(d: DashView, r: i64) -> DashView {
    DashView { usd_twd_rate: r, ..d }
}

/// The dashboard after a batch completes: idle, stamped, and with all
/// four market views re-ranked under the active ranking.
pub open spec fn spec_complete(d: DashView, now: u64) -> DashView {
    DashView {
        tw_stocks: sort_ranked(d.tw_stocks, d.sort.column, d.sort.direction, d.usd_twd_rate),
        us_stocks: sort_ranked(d.us_stocks, d.sort.column, d.sort.direction, d.usd_twd_rate),
        combined_tw_stocks: sort_ranked(
            d.combined_tw_stocks,
            d.sort.column,
            d.sort.direction,
            d.usd_twd_rate,
        ),
        combined_us_stocks: sort_ranked(
            d.combined_us_stocks,
            d.sort.column,
            d.sort.direction,
            d.usd_twd_rate,
        ),
        is_fetching: false,
        last_update: now,
        ..d
    }
}

impl Dashboard {
    /// Land one symbol's quote: cache it and propagate it into every
    /// view-level copy.
    pub fn apply_price(&mut self, symbol: &Vec<u8>, quote: Quote, now: u64)
        requires
            old(self).wf(),
            quote_wf(quote),
        ensures
            final(self).wf(),
            final(self)@ == spec_apply_price(old(self)@, symbol@, quote, now),
    {
        self.cache.put(symbol, quote, now);
        apply_quote_list(&mut self.stocks, symbol, quote);
        apply_quote_list(&mut self.tw_stocks, symbol, quote);
        apply_quote_list(&mut self.us_stocks, symbol, quote);
        apply_quote_list(&mut self.combined_stocks, symbol, quote);
        apply_quote_list(&mut self.combined_tw_stocks, symbol, quote);
        apply_quote_list(&mut self.combined_us_stocks, symbol, quote);
    }

    /// Re-rank all four market views under the active ranking.
    pub fn sort_all(&mut self)
        requires
            old(self).wf(),
        ensures
            final(self).wf(),
            final(self)@ == (DashView {
                tw_stocks: sort_ranked(
                    old(self)@.tw_stocks,
                    old(self)@.sort.column,
                    old(self)@.sort.direction,
                    old(self)@.usd_twd_rate,
                ),
                us_stocks: sort_ranked(
                    old(self)@.us_stocks,
                    old(self)@.sort.column,
                    old(self)@.sort.direction,
                    old(self)@.usd_twd_rate,
                ),
                combined_tw_stocks: sort_ranked(
                    old(self)@.combined_tw_stocks,
                    old(self)@.sort.column,
                    old(self)@.sort.direction,
                    old(self)@.usd_twd_rate,
                ),
                combined_us_stocks: sort_ranked(
                    old(self)@.combined_us_stocks,
                    old(self)@.sort.column,
                    old(self)@.sort.direction,
                    old(self)@.usd_twd_rate,
                ),
                ..old(self)@
            }),
    {
        let column = self.sort.column;
        let direction = self.sort.direction;
        let rate = self.usd_twd_rate;
        sort_positions(&mut self.tw_stocks, column, direction, rate);
        sort_positions(&mut self.us_stocks, column, direction, rate);
        sort_positions(&mut self.combined_tw_stocks, column, direction, rate);
        sort_positions(&mut self.combined_us_stocks, column, direction, rate);
    }

    /// Apply one fetch message.  A failed per-symbol fetch changes
    /// nothing; a landed quote updates cache and views; the rate message
    /// sets the shared rate; batch completion flips the dashboard back
    /// to idle, stamps the update time, and re-ranks every view.
    pub fn apply_message(&mut self, msg: FetchMessage, now: u64)
        requires
            old(self).wf(),
            message_wf(msg),
        ensures
            final(self).wf(),
            msg matches FetchMessage::Price { symbol, quote: Some(q) } ==> final(self)@
                == spec_apply_price(old(self)@, symbol@, q, now),
            msg matches FetchMessage::Price { symbol, quote: None } ==> final(self)@ == old(
                self,
            )@,
            msg matches FetchMessage::ExchangeRate(r) ==> final(self)@ == spec_set_rate(
                old(self)@,
                r,
            ),
            msg is BatchComplete ==> final(self)@ == spec_complete(old(self)@, now),
    {
        match msg {
            FetchMessage::Price { symbol, quote } => {
                match quote {
                    Some(q) => {
                        self.apply_price(&symbol, q, now);
                    },
                    None => {},
                }
            },
            FetchMessage::ExchangeRate(r) => {
                self.usd_twd_rate = r;
            },
            FetchMessage::BatchComplete => {
                self.is_fetching = false;
                self.last_update = now;
                self.sort_all();
            },
        }
    }

    /// Begin a batch refresh: a no-op while one is already in flight,
    /// otherwise mark the dashboard fetching and hand back the symbols
    /// of the active view, in view order, for the fetch task.
    pub fn start_refresh(&mut self) -> (r: Option<Vec<Vec<u8>>>)
        requires
            old(self).wf(),
        ensures
            final(self).wf(),
            old(self)@.is_fetching ==> r is None && final(self)@ == old(self)@,
            !old(self)@.is_fetching ==> {
                &&& final(self)@ == (DashView { is_fetching: true, ..old(self)@ })
                &&& r matches Some(syms) && syms.deep_view() == symbols_of(
                    if old(self)@.view_combined {
                        old(self)@.combined_stocks
                    } else {
                        old(self)@.stocks
                    },
                )
            },
    {
        if self.is_fetching {
            return None;
        }
        self.is_fetching = true;
        let source: &Vec<Position> = if self.view_combined {
            &self.combined_stocks
        } else {
            &self.stocks
        };
        let mut syms: Vec<Vec<u8>> = Vec::new();
        let mut i: usize = 0;
        let ghost sv = positions_view(source@);
        while i < source.len()
            invariant
                0 <= i <= source@.len(),
                sv == positions_view(source@),
                syms.deep_view().len() == i,
                forall|k: int| 0 <= k < i ==> syms.deep_view()[k] == sv[k].symbol,
            decreases source@.len() - i,
        {
            let ghost prev = syms@;
            let ghost prev_dv = syms.deep_view();
            proof {
                crate::bytes::lemma_deep_view_index(&syms);
            }
            syms.push(clone_bytes(&source[i].symbol));
            proof {
                crate::bytes::lemma_deep_view_index(&syms);
                assert forall|k: int| 0 <= k < i + 1 implies syms.deep_view()[k]
                    == sv[k].symbol by {
                    if k < i {
                        assert(syms@[k] == prev[k]);
                        assert(prev_dv[k] == prev[k]@);
                    } else {
                        assert(syms@[k]@ == sv[i as int].symbol);
                    }
                }
            }
            i = i + 1;
        }
        proof {
            assert(syms.deep_view() =~= symbols_of(sv));
        }
        Some(syms)
    }

    /// Select a ranking column: the active column flips direction, a
    /// new one starts descending; every market view is re-ranked.
    pub fn toggle_sort(&mut self, column: SortColumn)
        requires
            old(self).wf(),
        ensures
            final(self).wf(),
            final(self)@.sort.column == Some(column),
            old(self)@.sort.column == Some(column) ==> final(self)@.sort.direction == spec_flip(
                old(self)@.sort.direction,
            ),
            old(self)@.sort.column != Some(column) ==> final(self)@.sort.direction
                == SortDirection::Descending,
            final(self)@ == (DashView {
                sort: final(self)@.sort,
                tw_stocks: sort_ranked(
                    old(self)@.tw_stocks,
                    Some(column),
                    final(self)@.sort.direction,
                    old(self)@.usd_twd_rate,
                ),
                us_stocks: sort_ranked(
                    old(self)@.us_stocks,
                    Some(column),
                    final(self)@.sort.direction,
                    old(self)@.usd_twd_rate,
                ),
                combined_tw_stocks: sort_ranked(
                    old(self)@.combined_tw_stocks,
                    Some(column),
                    final(self)@.sort.direction,
                    old(self)@.usd_twd_rate,
                ),
                combined_us_stocks: sort_ranked(
                    old(self)@.combined_us_stocks,
                    Some(column),
                    final(self)@.sort.direction,
                    old(self)@.usd_twd_rate,
                ),
                ..old(self)@
            }),
    {
        self.sort.toggle(column);
        self.sort_all();
    }

    /// Install the freshly loaded positions of the current portfolio,
    /// together with their per-market splits.
    pub fn set_current(&mut self, positions: Vec<Position>)
        requires
            old(self).wf(),
            positions_wf(positions_view(positions@)),
            positions@.len() <= MAX_HOLDINGS,
        ensures
            final(self).wf(),
            final(self)@ == (DashView {
                stocks: positions_view(positions@),
                tw_stocks: tw_positions(positions_view(positions@)),
                us_stocks: us_positions(positions_view(positions@)),
                ..old(self)@
            }),
    {
        let (tw, us) = split_by_market(&positions);
        self.stocks = positions;
        self.tw_stocks = tw;
        self.us_stocks = us;
    }

    /// Install the freshly aggregated combined positions, together with
    /// their per-market splits.
    pub fn set_combined(&mut self, positions: Vec<Position>)
        requires
            old(self).wf(),
            positions_wf(positions_view(positions@)),
            positions@.len() <= MAX_HOLDINGS,
        ensures
            final(self).wf(),
            final(self)@ == (DashView {
                combined_stocks: positions_view(positions@),
                combined_tw_stocks: tw_positions(positions_view(positions@)),
                combined_us_stocks: us_positions(positions_view(positions@)),
                ..old(self)@
            }),
    {
        let (tw, us) = split_by_market(&positions);
        self.combined_stocks = positions;
        self.combined_tw_stocks = tw;
        self.combined_us_stocks = us;
    }

    /// The Taiwan-market rows of the active view.
    pub fn active_tw_stocks(&self) -> (r: &Vec<Position>)
        ensures
            positions_view(r@) == if self@.view_combined {
                self@.combined_tw_stocks
            } else {
                self@.tw_stocks
            },
    {
        if self.view_combined {
            &self.combined_tw_stocks
        } else {
            &self.tw_stocks
        }
    }

    /// The US-market rows of the active view.
    pub fn active_us_stocks(&self) -> (r: &Vec<Position>)
        ensures
            positions_view(r@) == if self@.view_combined {
                self@.combined_us_stocks
            } else {
                self@.us_stocks
            },
    {
        if self.view_combined {
            &self.combined_us_stocks
        } else {
            &self.us_stocks
        }
    }
}

/// The symbols of a position list, in order.
pub open spec fn symbols_of(s: Seq<PositionView>) -> Seq<Seq<u8>> {
    Seq::new(s.len(), |i: int| s[i].symbol)
}

/// The interactive loop starts an automatic refresh exactly when live
/// mode is on, no batch is in flight, no dialog is open, and the last
/// automatic refresh lies at least the live interval in the past.
pub fn should_live_refresh(
    live_mode: bool,
    is_fetching: bool,
    input_normal: bool,
    now: u64,
    last_refresh: u64,
) -> (r: bool)
    ensures
        r == (live_mode && !is_fetching && input_normal && last_refresh + LIVE_REFRESH_INTERVAL_SECS
            <= now),
{
    live_mode && !is_fetching && input_normal && last_refresh <= now && now - last_refresh
        >= LIVE_REFRESH_INTERVAL_SECS
}

/// The row selected after moving down: the next row, clamped to the
/// last; selects the first row when nothing was selected; keeps the
/// selection of an empty table.
pub fn next_row_index(selected: Option<usize>, len: usize) -> (r: Option<usize>)
    ensures
        len == 0 ==> r == selected,
        len > 0 ==> r == Some(
            match selected {
                Some(i) => if i + 1 < len {
                    (i + 1) as usize
                } else {
                    (len - 1) as usize
                },
                None => 0usize,
            },
        ),
{
    if len == 0 {
        return selected;
    }
    match selected {
        Some(i) => {
            if i < len - 1 {
                Some(i + 1)
            } else {
                Some(len - 1)
            }
        },
        None => Some(0),
    }
}

/// The row selected after moving up: the previous row, stopping at the
/// first; selects the first row when nothing was selected.
pub fn prev_row_index(selected: Option<usize>) -> (r: Option<usize>)
    ensures
        r == Some(
            match selected {
                Some(i) => if i > 0 {
                    (i - 1) as usize
                } else {
                    0usize
                },
                None => 0usize,
            },
        ),
{
    match selected {
        Some(i) => {
            if i > 0 {
                Some(i - 1)
            } else {
                Some(0)
            }
        },
        None => Some(0),
    }
}

/// The index of the selected row, when it denotes a row of the list.
pub fn selected_index(selected: Option<usize>, len: usize) -> (r: Option<usize>)
    ensures
        r == match selected {
            Some(i) => if i < len {
                Some(i)
            } else {
                None::<usize>
            },
            None => None::<usize>,
        },
{
    match selected {
        Some(i) => {
            if i < len {
                Some(i)
            } else {
                None
            }
        },
        None => None,
    }
}


/// One landed price result: a symbol with its fetched quote.
pub struct PriceResult {
    pub symbol: Seq<u8>,
    pub quote: Quote,
}

/// The dashboard after a list of price results lands, first to last.
pub open spec fn apply_prices(d: DashView, rs: Seq<PriceResult>, now: u64) -> DashView
    decreases rs.len(),
{
    if rs.len() == 0 {
        d
    } else {
        apply_prices(
            spec_apply_price(d, rs.first().symbol, rs.first().quote, now),
            rs.drop_first(),
            now,
        )
    }
}

/// No two results carry the same symbol.
pub open spec fn distinct_symbols(rs: Seq<PriceResult>) -> bool {
    forall|i: int, j: int| 0 <= i < j < rs.len() ==> rs[i].symbol != rs[j].symbol
}

/// Quote updates for different symbols touch disjoint rows and so
/// commute on any position list.
proof fn lemma_update_positions_commute(s: Seq<PositionView>, a: PriceResult, b: PriceResult)
    requires
        a.symbol != b.symbol,
    ensures
        update_positions(update_positions(s, a.symbol, a.quote), b.symbol, b.quote)
            == update_positions(update_positions(s, b.symbol, b.quote), a.symbol, a.quote),
{
    assert(update_positions(update_positions(s, a.symbol, a.quote), b.symbol, b.quote)
        =~= update_positions(update_positions(s, b.symbol, b.quote), a.symbol, a.quote));
}

/// Price results for different symbols commute on the whole dashboard.
proof fn lemma_apply_price_commutes(d: DashView, a: PriceResult, b: PriceResult, now: u64)
    requires
        a.symbol != b.symbol,
    ensures
        spec_apply_price(
            spec_apply_price(d, a.symbol, a.quote, now),
            b.symbol,
            b.quote,
            now,
        ) == spec_apply_price(spec_apply_price(d, b.symbol, b.quote, now), a.symbol, a.quote, now),
{
    lemma_update_positions_commute(d.stocks, a, b);
    lemma_update_positions_commute(d.tw_stocks, a, b);
    lemma_update_positions_commute(d.us_stocks, a, b);
    lemma_update_positions_commute(d.combined_stocks, a, b);
    lemma_update_positions_commute(d.combined_tw_stocks, a, b);
    lemma_update_positions_commute(d.combined_us_stocks, a, b);
    assert(d.cache.insert(a.symbol, (a.quote, now)).insert(b.symbol, (b.quote, now)) =~= d.cache
        .insert(b.symbol, (b.quote, now)).insert(a.symbol, (a.quote, now)));
    assert(spec_apply_price(spec_apply_price(d, a.symbol, a.quote, now), b.symbol, b.quote, now)
        =~= spec_apply_price(spec_apply_price(d, b.symbol, b.quote, now), a.symbol, a.quote, now));
}

/// Landing one more result at the end applies it to the accumulated
/// state.
proof fn lemma_apply_prices_push(d: DashView, rs: Seq<PriceResult>, x: PriceResult, now: u64)
    ensures
        apply_prices(d, rs.push(x), now) == spec_apply_price(
            apply_prices(d, rs, now),
            x.symbol,
            x.quote,
            now,
        ),
    decreases rs.len(),
{
    let p = rs.push(x);
    if rs.len() == 0 {
        assert(p.first() == x);
        assert(p.drop_first() =~= Seq::<PriceResult>::empty());
        let dd = spec_apply_price(d, x.symbol, x.quote, now);
        assert(apply_prices(d, p, now) == apply_prices(dd, p.drop_first(), now));
        assert(apply_prices(dd, Seq::<PriceResult>::empty(), now) == dd);
        assert(apply_prices(d, rs, now) == d);
    } else {
        let h = rs.first();
        assert(p.first() == h);
        assert(p.drop_first() =~= rs.drop_first().push(x));
        let dd = spec_apply_price(d, h.symbol, h.quote, now);
        assert(apply_prices(d, p, now) == apply_prices(dd, p.drop_first(), now));
        lemma_apply_prices_push(dd, rs.drop_first(), x, now);
        assert(apply_prices(dd, rs.drop_first().push(x), now) == spec_apply_price(
            apply_prices(dd, rs.drop_first(), now),
            x.symbol,
            x.quote,
            now,
        ));
        assert(apply_prices(d, rs, now) == apply_prices(dd, rs.drop_first(), now));
    }
}

/// A result whose symbol appears nowhere in the list can land before or
/// after the whole list with the same outcome.
proof fn lemma_apply_prices_commute_one(
    d: DashView,
    rs: Seq<PriceResult>,
    x: PriceResult,
    now: u64,
)
    requires
        forall|i: int| 0 <= i < rs.len() ==> (#[trigger] rs[i].symbol) != x.symbol,
    ensures
        spec_apply_price(apply_prices(d, rs, now), x.symbol, x.quote, now) == apply_prices(
            spec_apply_price(d, x.symbol, x.quote, now),
            rs,
            now,
        ),
    decreases rs.len(),
{
    if rs.len() > 0 {
        let h = rs.first();
        assert(rs[0] == h);
        lemma_apply_price_commutes(d, h, x, now);
        let dd = spec_apply_price(d, h.symbol, h.quote, now);
        assert(forall|i: int|
            0 <= i < rs.drop_first().len() ==> (#[trigger] rs.drop_first()[i].symbol)
                != x.symbol) by {
            assert(forall|i: int|
                0 <= i < rs.drop_first().len() ==> rs.drop_first()[i] == rs[i + 1]);
        }
        lemma_apply_prices_commute_one(dd, rs.drop_first(), x, now);
    }
}

/// Batch results are keyed, independent updates: as long as their
/// symbols are pairwise distinct, landing them in reverse order yields
/// exactly the same dashboard as landing them in order.
pub proof fn lemma_apply_prices_order_independent(
    d: DashView,
    rs: Seq<PriceResult>,
    now: u64,
)
    requires
        distinct_symbols(rs),
    ensures
        apply_prices(d, rs, now) == apply_prices(d, rs.reverse(), now),
    decreases rs.len(),
{
    if rs.len() == 0 {
        assert(rs.reverse() =~= rs);
    } else {
        let x = rs.last();
        let front = rs.drop_last();
        assert(front.push(x) =~= rs);
        lemma_apply_prices_push(d, front, x, now);
        assert(forall|i: int|
            0 <= i < front.len() ==> (#[trigger] front[i].symbol) != x.symbol) by {
            assert(forall|i: int| 0 <= i < front.len() ==> front[i] == rs[i]);
        }
        lemma_apply_prices_commute_one(d, front, x, now);
        assert(distinct_symbols(front)) by {
            assert(forall|i: int| 0 <= i < front.len() ==> front[i] == rs[i]);
        }
        lemma_apply_prices_order_independent(spec_apply_price(d, x.symbol, x.quote, now), front, now);
        assert(rs.reverse() =~= seq![x] + front.reverse());
        assert((seq![x] + front.reverse()).first() == x);
        assert((seq![x] + front.reverse()).drop_first() =~= front.reverse());
        assert(apply_prices(d, rs.reverse(), now) == apply_prices(
            spec_apply_price(d, x.symbol, x.quote, now),
            front.reverse(),
            now,
        ));
    }
}

} // verus!
