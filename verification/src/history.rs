//! Historical closing-price series and their cache.
//!
//! A series holds the daily closes of one symbol over the lookback
//! window, cached under the same freshness rule as live quotes but with
//! a much longer window.  The trend classifier compares the average of
//! the first five closes with the average of the last five.

use vstd::prelude::*;

use crate::bytes::{clone_bytes, eq_bytes};
use crate::cache::{fresh_at, is_fresh, HISTORICAL_CACHE_SECS};
use crate::money::{amount_ok, mul_div, mul_div_trunc, lemma_mul_div_trunc_bound, MAX_AMOUNT,
    PCT_SCALE, SCALE};

verus! {

/// Daily closes of one symbol, oldest first, with their timestamps.
pub struct HistoricalSeries {
    pub timestamps: Vec<i64>,
    pub closes: Vec<i64>,
}

/// Mathematical image of a series.
pub struct SeriesView {
    pub timestamps: Seq<i64>,
    pub closes: Seq<i64>,
}

impl View for HistoricalSeries {
    type V = SeriesView;

    open spec fn view(&self) -> SeriesView {
        SeriesView { timestamps: self.timestamps@, closes: self.closes@ }
    }
}

/// A usable series has data in both columns and every close is a
/// well-formed amount.
pub open spec fn series_wf(s: SeriesView) -> bool {
    &&& s.timestamps.len() > 0
    &&& s.closes.len() > 0
    &&& forall|i: int| 0 <= i < s.closes.len() ==> amount_ok(#[trigger] s.closes[i])
}

/// Copy a series.
pub fn clone_series(s: &HistoricalSeries) -> (r: HistoricalSeries)
    ensures
        r@ == s@,
{
    let mut timestamps: Vec<i64> = Vec::new();
    let mut i: usize = 0;
    while i < s.timestamps.len()
        invariant
            0 <= i <= s.timestamps@.len(),
            timestamps@ == s.timestamps@.subrange(0, i as int),
        decreases s.timestamps@.len() - i,
    {
        timestamps.push(s.timestamps[i]);
        i = i + 1;
        assert(timestamps@ =~= s.timestamps@.subrange(0, i as int));
    }
    let mut closes: Vec<i64> = Vec::new();
    let mut j: usize = 0;
    while j < s.closes.len()
        invariant
            0 <= j <= s.closes@.len(),
            closes@ == s.closes@.subrange(0, j as int),
        decreases s.closes@.len() - j,
    {
        closes.push(s.closes[j]);
        j = j + 1;
        assert(closes@ =~= s.closes@.subrange(0, j as int));
    }
    proof {
        assert(timestamps@ =~= s.timestamps@);
        assert(closes@ =~= s.closes@);
    }
    HistoricalSeries { timestamps, closes }
}

struct HistorySlot {
    symbol: Vec<u8>,
    series: HistoricalSeries,
    fetched_at: u64,
}

/// The association a history slot list represents.
spec fn history_map(s: Seq<HistorySlot>) -> Map<Seq<u8>, (SeriesView, u64)>
    decreases s.len(),
{
    if s.len() == 0 {
        Map::empty()
    } else {
        history_map(s.drop_last()).insert(
            s.last().symbol@,
            (s.last().series@, s.last().fetched_at),
        )
    }
}

/// In-process cache of historical series, keyed by symbol, judged by
/// the long freshness window.
pub struct HistoryCache {
    slots: Vec<HistorySlot>,
}

impl View for HistoryCache {
    type V = Map<Seq<u8>, (SeriesView, u64)>;

    closed spec fn view(&self) -> Map<Seq<u8>, (SeriesView, u64)> {
        history_map(self.slots@)
    }
}

proof fn lemma_history_map(s: Seq<HistorySlot>)
    requires
        forall|i: int, j: int|
            0 <= i < j < s.len() ==> s[i].symbol@ != s[j].symbol@,
    ensures
        forall|k: Seq<u8>|
            history_map(s).contains_key(k) <==> exists|i: int|
                0 <= i < s.len() && #[trigger] s[i].symbol@ == k,
        forall|i: int|
            0 <= i < s.len() ==> history_map(s)[#[trigger] s[i].symbol@] == (
                s[i].series@,
                s[i].fetched_at,
            ),
    decreases s.len(),
{
    if s.len() > 0 {
        let d = s.drop_last();
        lemma_history_map(d);
        assert forall|k: Seq<u8>|
            history_map(s).contains_key(k) <==> exists|i: int|
                0 <= i < s.len() && #[trigger] s[i].symbol@ == k by {
            if history_map(s).contains_key(k) {
                if k == s.last().symbol@ {
                    assert(s[s.len() - 1].symbol@ == k);
                } else {
                    assert(history_map(s) == history_map(d).insert(
                        s.last().symbol@,
                        (s.last().series@, s.last().fetched_at),
                    ));
                    assert(history_map(d).contains_key(k));
                    let i = choose|i: int| 0 <= i < d.len() && #[trigger] d[i].symbol@ == k;
                    assert(d[i] == s[i]);
                    assert(s[i].symbol@ == k);
                }
            }
            if exists|i: int| 0 <= i < s.len() && #[trigger] s[i].symbol@ == k {
                let i = choose|i: int| 0 <= i < s.len() && #[trigger] s[i].symbol@ == k;
                if i < s.len() - 1 {
                    assert(d[i] == s[i]);
                    assert(d[i].symbol@ == k);
                } else {
                    assert(k == s.last().symbol@);
                }
            }
        }
        assert forall|i: int| 0 <= i < s.len() implies history_map(s)[#[trigger] s[i].symbol@]
            == (s[i].series@, s[i].fetched_at) by {
            if i < s.len() - 1 {
                assert(d[i] == s[i]);
                assert(s[i].symbol@ != s.last().symbol@);
            }
        }
    }
}

impl HistoryCache {
    /// Symbols are unique and every stored series is well-formed.
    pub closed spec fn wf(&self) -> bool {
        &&& forall|i: int, j: int|
            0 <= i < j < self.slots@.len() ==> self.slots@[i].symbol@ != self.slots@[j].symbol@
        &&& forall|i: int|
            0 <= i < self.slots@.len() ==> series_wf(#[trigger] self.slots@[i].series@)
    }

    /// An empty cache.
    pub fn new() -> (r: HistoryCache)
        ensures
            r.wf(),
            r@ == Map::<Seq<u8>, (SeriesView, u64)>::empty(),
    {
        HistoryCache { slots: Vec::new() }
    }

    /// Serve a cached series iff one is stored for `symbol` and is still
    /// fresh at `now` under the long window.
    pub fn get(&self, symbol: &Vec<u8>, now: u64) -> (r: Option<HistoricalSeries>)
        requires
            self.wf(),
        ensures
            match r {
                Some(s) => self@.contains_key(symbol@) && fresh_at(
                    self@[symbol@].1,
                    now,
                    HISTORICAL_CACHE_SECS,
                ) && s@ == self@[symbol@].0 && series_wf(s@),
                None => !self@.contains_key(symbol@) || !fresh_at(
                    self@[symbol@].1,
                    now,
                    HISTORICAL_CACHE_SECS,
                ),
            },
    {
        proof {
            lemma_history_map(self.slots@);
        }
        let n = self.slots.len();
        let mut i: usize = 0;
        while i < n
            invariant
                0 <= i <= n,
                n == self.slots@.len(),
                self.wf(),
                forall|j: int| 0 <= j < i ==> self.slots@[j].symbol@ != symbol@,
            decreases n - i,
        {
            if eq_bytes(&self.slots[i].symbol, symbol) {
                proof {
                    lemma_history_map(self.slots@);
                    assert(self.slots@[i as int].symbol@ == symbol@);
                }
                if is_fresh(self.slots[i].fetched_at, now, HISTORICAL_CACHE_SECS) {
                    return Some(clone_series(&self.slots[i].series));
                } else {
                    return None;
                }
            }
            i = i + 1;
        }
        proof {
            lemma_history_map(self.slots@);
            if self@.contains_key(symbol@) {
                let w = choose|w: int|
                    0 <= w < self.slots@.len() && #[trigger] self.slots@[w].symbol@ == symbol@;
                assert(false);
            }
        }
        None
    }

    /// Store a series for `symbol` as fetched at `now`.
    pub fn put(&mut self, symbol: &Vec<u8>, series: HistoricalSeries, now: u64)
        requires
            old(self).wf(),
            series_wf(series@),
        ensures
            final(self).wf(),
            final(self)@ == old(self)@.insert(symbol@, (series@, now)),
    {
        let n = self.slots.len();
        let mut i: usize = 0;
        while i < n
            invariant
                0 <= i <= n,
                n == self.slots@.len(),
                self.wf(),
                self == old(self),
                series_wf(series@),
                forall|j: int| 0 <= j < i ==> self.slots@[j].symbol@ != symbol@,
            decreases n - i,
        {
            if eq_bytes(&self.slots[i].symbol, symbol) {
                let ghost prev = self.slots@;
                proof {
                    assert(forall|j: int|
                        0 <= j < prev.len() ==> series_wf(#[trigger] prev[j].series@));
                }
                let slot = HistorySlot { symbol: clone_bytes(symbol), series, fetched_at: now };
                let ghost sv = slot.series@;
                self.slots.set(i, slot);
                proof {
                    lemma_history_map_update(prev, i as int, self.slots@);
                    assert forall|j: int| 0 <= j < self.slots@.len() implies series_wf(
                        #[trigger] self.slots@[j].series@,
                    ) by {
                        if j != i as int {
                            assert(self.slots@[j] == prev[j]);
                            assert(series_wf(prev[j].series@));
                        } else {
                            assert(self.slots@[j].series@ == sv);
                        }
                    }
                }
                return ;
            }
            i = i + 1;
        }
        let ghost prev = self.slots@;
        let slot = HistorySlot { symbol: clone_bytes(symbol), series, fetched_at: now };
        self.slots.push(slot);
        proof {
            assert(self.slots@.drop_last() =~= prev);
        }
    }

    /// Drop every entry (force refresh).
    pub fn invalidate_all(&mut self)
        ensures
            final(self).wf(),
            final(self)@ == Map::<Seq<u8>, (SeriesView, u64)>::empty(),
    {
        self.slots.clear();
    }
}

/// Replacing the slot at `i` with one for the same symbol updates the
/// represented map at that symbol alone.
proof fn lemma_history_map_update(prev: Seq<HistorySlot>, i: int, cur: Seq<HistorySlot>)
    requires
        0 <= i < prev.len(),
        cur.len() == prev.len(),
        forall|j: int| 0 <= j < prev.len() && j != i ==> cur[j] == prev[j],
        cur[i].symbol@ == prev[i].symbol@,
        forall|p: int, q: int| 0 <= p < q < prev.len() ==> prev[p].symbol@ != prev[q].symbol@,
    ensures
        forall|p: int, q: int| 0 <= p < q < cur.len() ==> cur[p].symbol@ != cur[q].symbol@,
        history_map(cur) == history_map(prev).insert(
            cur[i].symbol@,
            (cur[i].series@, cur[i].fetched_at),
        ),
    decreases prev.len(),
{
    assert forall|p: int, q: int| 0 <= p < q < cur.len() implies cur[p].symbol@
        != cur[q].symbol@ by {
        assert(cur[p].symbol@ == prev[p].symbol@);
        assert(cur[q].symbol@ == prev[q].symbol@);
    }
    if i == prev.len() - 1 {
        assert(cur.drop_last() =~= prev.drop_last());
        assert(history_map(cur) == history_map(prev).insert(
            cur[i].symbol@,
            (cur[i].series@, cur[i].fetched_at),
        )) by {
            assert(history_map(prev).insert(cur[i].symbol@, (cur[i].series@, cur[i].fetched_at))
                =~= history_map(prev.drop_last()).insert(
                cur[i].symbol@,
                (cur[i].series@, cur[i].fetched_at),
            ));
        }
    } else {
        lemma_history_map_update(prev.drop_last(), i, cur.drop_last());
        assert(cur.last() == prev.last());
        let k = cur[i].symbol@;
        let v = (cur[i].series@, cur[i].fetched_at);
        assert(cur[i] == cur.drop_last()[i]);
        assert(history_map(cur) == history_map(cur.drop_last()).insert(
            cur.last().symbol@,
            (cur.last().series@, cur.last().fetched_at),
        ));
        assert(k != prev.last().symbol@);
        assert(history_map(cur.drop_last()).insert(
            prev.last().symbol@,
            (prev.last().series@, prev.last().fetched_at),
        ) =~= history_map(prev).insert(k, v));
    }
}

/// Thirty-day tendency of a series.
#[derive(Clone, Copy, Debug, PartialEq, Eq, Structural)]
pub enum Trend {
    Up,
    Flat,
    Down,
}

/// Sum of `closes[from .. from + 5]`.
pub open spec fn sum5(closes: Seq<i64>, from: int) -> int {
    closes[from] + closes[from + 1] + closes[from + 2] + closes[from + 3] + closes[from + 4]
}

/// Trend classification: with fewer than ten closes there is no trend;
/// otherwise the averages of the first and last five closes are
/// compared, and a move of more than one percent either way counts.
pub open spec fn spec_trend(closes: Seq<i64>) -> Trend {
    if closes.len() < 10 {
        Trend::Flat
    } else {
        let first_avg = sum5(closes, 0) / 5;
        let last_avg = sum5(closes, closes.len() - 5) / 5;
        if first_avg == 0 {
            if last_avg > 0 {
                Trend::Up
            } else {
                Trend::Flat
            }
        } else {
            let change_pct = mul_div_trunc(PCT_SCALE as int, last_avg - first_avg, first_avg);
            if change_pct > SCALE {
                Trend::Up
            } else if change_pct < -(SCALE as int) {
                Trend::Down
            } else {
                Trend::Flat
            }
        }
    }
}

/// Classify the trend of a close series.
pub fn calculate_trend(closes: &Vec<i64>) -> (r: Trend)
    requires
        forall|i: int| 0 <= i < closes@.len() ==> amount_ok(#[trigger] closes@[i]),
    ensures
        r == spec_trend(closes@),
{
    let n = closes.len();
    if n < 10 {
        return Trend::Flat;
    }
    let first_sum: i64 = closes[0] + closes[1] + closes[2] + closes[3] + closes[4];
    let last_sum: i64 = closes[n - 5] + closes[n - 4] + closes[n - 3] + closes[n - 2] + closes[n
        - 1];
    let first_avg: i64 = ((first_sum as u64) / 5) as i64;
    let last_avg: i64 = ((last_sum as u64) / 5) as i64;
    proof {
        crate::money::lemma_div_shrinks(first_sum as int, 5);
        crate::money::lemma_div_shrinks(last_sum as int, 5);
        assert(first_avg == sum5(closes@, 0) / 5);
        assert(last_avg == sum5(closes@, closes@.len() - 5) / 5);
    }
    if first_avg == 0 {
        if last_avg > 0 {
            Trend::Up
        } else {
            Trend::Flat
        }
    } else {
        proof {
            lemma_mul_div_trunc_bound(
                PCT_SCALE as int,
                last_avg - first_avg,
                first_avg as int,
                PCT_SCALE as int,
                5 * MAX_AMOUNT,
            );
        }
        let change_pct: i128 = mul_div(
            PCT_SCALE as i128,
            last_avg as i128 - first_avg as i128,
            first_avg as i128,
        );
        if change_pct > SCALE as i128 {
            Trend::Up
        } else if change_pct < -(SCALE as i128) {
            Trend::Down
        } else {
            Trend::Flat
        }
    }
}

/// High, low, and average close of a series.
pub struct SeriesStats {
    pub high: i64,
    pub low: i64,
    pub average: i64,
}

/// Largest close of the first `n`.
pub open spec fn max_close(closes: Seq<i64>, n: int) -> int
    decreases n,
{
    if n <= 1 {
        closes[0] as int
    } else if closes[n - 1] > max_close(closes, n - 1) {
        closes[n - 1] as int
    } else {
        max_close(closes, n - 1)
    }
}

/// Smallest close of the first `n`.
pub open spec fn min_close(closes: Seq<i64>, n: int) -> int
    decreases n,
{
    if n <= 1 {
        closes[0] as int
    } else if closes[n - 1] < min_close(closes, n - 1) {
        closes[n - 1] as int
    } else {
        min_close(closes, n - 1)
    }
}

/// Sum of the first `n` closes.
pub open spec fn sum_closes(closes: Seq<i64>, n: int) -> int
    decreases n,
{
    if n <= 0 {
        0
    } else {
        sum_closes(closes, n - 1) + closes[n - 1]
    }
}

/// Compute high, low, and truncated average of a close series.
pub fn series_stats(closes: &Vec<i64>) -> (r: SeriesStats)
    requires
        closes@.len() > 0,
        forall|i: int| 0 <= i < closes@.len() ==> amount_ok(#[trigger] closes@[i]),
    ensures
        r.high == max_close(closes@, closes@.len() as int),
        r.low == min_close(closes@, closes@.len() as int),
        r.average == sum_closes(closes@, closes@.len() as int) / (closes@.len() as int),
{
    let n = closes.len();
    let mut high: i64 = closes[0];
    let mut low: i64 = closes[0];
    let mut sum: i128 = closes[0] as i128;
    let mut i: usize = 1;
    proof {
        assert(sum_closes(closes@, 0) == 0);
        assert(sum_closes(closes@, 1) == closes@[0]);
        assert(max_close(closes@, 1) == closes@[0]);
        assert(min_close(closes@, 1) == closes@[0]);
    }
    while i < n
        invariant
            1 <= i <= n,
            n == closes@.len(),
            forall|k: int| 0 <= k < closes@.len() ==> amount_ok(#[trigger] closes@[k]),
            high == max_close(closes@, i as int),
            low == min_close(closes@, i as int),
            sum == sum_closes(closes@, i as int),
            amount_ok(high),
            amount_ok(low),
            0 <= sum <= i * (MAX_AMOUNT as int),
        decreases n - i,
    {
        proof {
            assert(i * (MAX_AMOUNT as int) + MAX_AMOUNT == (i + 1) * (MAX_AMOUNT as int))
                by (nonlinear_arith);
            assert((i + 1) * (MAX_AMOUNT as int) <= (n as int) * (MAX_AMOUNT as int))
                by (nonlinear_arith)
                requires
                    i + 1 <= n,
            ;
            assert((n as int) * (MAX_AMOUNT as int) <= 0xffff_ffff_ffff_ffff * (
            MAX_AMOUNT as int)) by (nonlinear_arith)
                requires
                    n <= 0xffff_ffff_ffff_ffff,
            ;
        }
        let c = closes[i];
        if c > high {
            high = c;
        }
        if c < low {
            low = c;
        }
        sum = sum + c as i128;
        i = i + 1;
    }
    proof {
        vstd::arithmetic::div_mod::lemma_div_pos_is_pos(sum as int, n as int);
        vstd::arithmetic::div_mod::lemma_div_is_ordered(
            sum as int,
            (n as int) * (MAX_AMOUNT as int),
            n as int,
        );
        assert((n as int) * (MAX_AMOUNT as int) == (MAX_AMOUNT as int) * (n as int))
            by (nonlinear_arith);
        vstd::arithmetic::div_mod::lemma_div_by_multiple(MAX_AMOUNT as int, n as int);
        assert(sum as int / (n as int) <= MAX_AMOUNT);
    }
    let average: i64 = ((sum as u128) / (n as u128)) as i64;
    proof {
        assert(average == sum_closes(closes@, closes@.len() as int) / (closes@.len() as int));
    }
    SeriesStats { high, low, average }
}

} // verus!
