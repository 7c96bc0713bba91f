//! In-process price cache.
//!
//! Maps a symbol to its last known quote together with the time it was
//! fetched.  A cached quote is served only while its age is below the
//! freshness window; `put` overwrites unconditionally, and a force
//! refresh clears the whole store.  The on-disk tier lives outside the
//! engine, but judges freshness by the same [`fresh_at`] rule.

use vstd::prelude::*;

use crate::bytes::{clone_bytes, eq_bytes};
use crate::quote::{quote_wf, Quote};

verus! {

/// Freshness window for live quotes, in seconds.
pub const QUOTE_CACHE_SECS: u64 = 60;

/// Freshness window for historical series, in seconds (six hours).
pub const HISTORICAL_CACHE_SECS: u64 = 21_600;

/// The one freshness rule: an entry written at `fetched` is usable at
/// `now` iff its age is non-negative and below `window`.
pub open spec fn fresh_at(fetched: u64, now: u64, window: u64) -> bool {
    fetched <= now < fetched + window
}

/// Decide freshness of a cache entry.
pub fn is_fresh(fetched: u64, now: u64, window: u64) -> (r: bool)
    ensures
        r == fresh_at(fetched, now, window),
{
    fetched <= now && now - fetched < window
}

struct Slot {
    symbol: Vec<u8>,
    quote: Quote,
    fetched_at: u64,
}

/// The association from symbols to `(quote, fetched_at)` that a slot
/// list represents; later slots win, though a well-formed cache keeps
/// its symbols unique.
spec fn slots_map(s: Seq<Slot>) -> Map<Seq<u8>, (Quote, u64)>
    decreases s.len(),
{
    if s.len() == 0 {
        Map::empty()
    } else {
        slots_map(s.drop_last()).insert(s.last().symbol@, (s.last().quote, s.last().fetched_at))
    }
}

/// In-process tier of the price cache.
pub struct PriceCache {
    slots: Vec<Slot>,
}

impl View for PriceCache {
    type V = Map<Seq<u8>, (Quote, u64)>;

    closed spec fn view(&self) -> Map<Seq<u8>, (Quote, u64)> {
        slots_map(self.slots@)
    }
}

/// Everything `slots_map` says about a unique-keyed slot list.
proof fn lemma_slots_map(s: Seq<Slot>)
    requires
        forall|i: int, j: int|
            0 <= i < j < s.len() ==> s[i].symbol@ != s[j].symbol@,
    ensures
        forall|k: Seq<u8>|
            slots_map(s).contains_key(k) <==> exists|i: int|
                0 <= i < s.len() && #[trigger] s[i].symbol@ == k,
        forall|i: int|
            0 <= i < s.len() ==> slots_map(s)[#[trigger] s[i].symbol@] == (
                s[i].quote,
                s[i].fetched_at,
            ),
    decreases s.len(),
{
    if s.len() > 0 {
        let d = s.drop_last();
        lemma_slots_map(d);
        assert forall|k: Seq<u8>|
            slots_map(s).contains_key(k) <==> exists|i: int|
                0 <= i < s.len() && #[trigger] s[i].symbol@ == k by {
            if slots_map(s).contains_key(k) {
                if k == s.last().symbol@ {
                    assert(s[s.len() - 1].symbol@ == k);
                } else {
                    assert(slots_map(s) == slots_map(d).insert(
                        s.last().symbol@,
                        (s.last().quote, s.last().fetched_at),
                    ));
                    assert(slots_map(d).contains_key(k));
                    let i = choose|i: int| 0 <= i < d.len() && #[trigger] d[i].symbol@ == k;
                    assert(d[i] == s[i]);
                    assert(s[i].symbol@ == k);
                }
            }
            if exists|i: int| 0 <= i < s.len() && #[trigger] s[i].symbol@ == k {
                let i = choose|i: int| 0 <= i < s.len() && #[trigger] s[i].symbol@ == k;
                if i < s.len() - 1 {
                    assert(d[i] == s[i]);
                    assert(d[i].symbol@ == k);
                } else {
                    assert(k == s.last().symbol@);
                }
            }
        }
        assert forall|i: int| 0 <= i < s.len() implies slots_map(s)[#[trigger] s[i].symbol@] == (
            s[i].quote,
            s[i].fetched_at,
        ) by {
            if i < s.len() - 1 {
                assert(d[i].symbol@ == s[i].symbol@);
                assert(s[i].symbol@ != s.last().symbol@);
            }
        }
    }
}

impl PriceCache {
    /// Symbols are unique and every stored quote is well-formed.
    pub closed spec fn wf(&self) -> bool {
        &&& forall|i: int, j: int|
            0 <= i < j < self.slots@.len() ==> self.slots@[i].symbol@ != self.slots@[j].symbol@
        &&& forall|i: int| 0 <= i < self.slots@.len() ==> quote_wf(#[trigger] self.slots@[i].quote)
    }

    /// Every quote a well-formed cache holds is well-formed.
    pub proof fn lemma_wf_quotes(&self)
        requires
            self.wf(),
        ensures
            forall|k: Seq<u8>| self@.contains_key(k) ==> quote_wf(#[trigger] self@[k].0),
    {
        lemma_slots_map(self.slots@);
    }

    /// An empty cache.
    pub fn new() -> (r: PriceCache)
        ensures
            r.wf(),
            r@ == Map::<Seq<u8>, (Quote, u64)>::empty(),
    {
        PriceCache { slots: Vec::new() }
    }

    /// Serve a cached quote iff one is stored for `symbol` and it is
    /// still fresh at `now`; a stale or missing entry reads as absent.
    pub fn get(&self, symbol: &Vec<u8>, now: u64) -> (r: Option<Quote>)
        requires
            self.wf(),
        ensures
            r == if self@.contains_key(symbol@) && fresh_at(
                self@[symbol@].1,
                now,
                QUOTE_CACHE_SECS,
            ) {
                Some(self@[symbol@].0)
            } else {
                None::<Quote>
            },
    {
        proof {
            lemma_slots_map(self.slots@);
        }
        let n = self.slots.len();
        let mut i: usize = 0;
        while i < n
            invariant
                0 <= i <= n,
                n == self.slots@.len(),
                self.wf(),
                forall|j: int| 0 <= j < i ==> self.slots@[j].symbol@ != symbol@,
            decreases n - i,
        {
            if eq_bytes(&self.slots[i].symbol, symbol) {
                proof {
                    lemma_slots_map(self.slots@);
                    assert(self.slots@[i as int].symbol@ == symbol@);
                }
                if is_fresh(self.slots[i].fetched_at, now, QUOTE_CACHE_SECS) {
                    return Some(self.slots[i].quote);
                } else {
                    return None;
                }
            }
            i = i + 1;
        }
        proof {
            lemma_slots_map(self.slots@);
            if self@.contains_key(symbol@) {
                let w = choose|w: int|
                    0 <= w < self.slots@.len() && #[trigger] self.slots@[w].symbol@ == symbol@;
                assert(false);
            }
        }
        None
    }

    /// Store `quote` for `symbol` as fetched at `now`, overwriting any
    /// previous entry for the symbol.
    pub fn put(&mut self, symbol: &Vec<u8>, quote: Quote, now: u64)
        requires
            old(self).wf(),
            quote_wf(quote),
        ensures
            final(self).wf(),
            final(self)@ == old(self)@.insert(symbol@, (quote, now)),
    {
        let n = self.slots.len();
        let mut i: usize = 0;
        while i < n
            invariant
                0 <= i <= n,
                n == self.slots@.len(),
                self.wf(),
                self == old(self),
                quote_wf(quote),
                forall|j: int| 0 <= j < i ==> self.slots@[j].symbol@ != symbol@,
            decreases n - i,
        {
            if eq_bytes(&self.slots[i].symbol, symbol) {
                let ghost prev = self.slots@;
                proof {
                    assert(forall|j: int|
                        0 <= j < prev.len() ==> quote_wf(#[trigger] prev[j].quote));
                }
                let fresh_slot = Slot { symbol: clone_bytes(symbol), quote, fetched_at: now };
                self.slots.set(i, fresh_slot);
                proof {
                    lemma_slots_map_update(prev, i as int, self.slots@);
                    assert forall|j: int| 0 <= j < self.slots@.len() implies quote_wf(
                        #[trigger] self.slots@[j].quote,
                    ) by {
                        if j != i as int {
                            assert(self.slots@[j] == prev[j]);
                            assert(quote_wf(prev[j].quote));
                        } else {
                            assert(self.slots@[j].quote == quote);
                        }
                    }
                }
                return ;
            }
            i = i + 1;
        }
        let ghost prev = self.slots@;
        let fresh_slot = Slot { symbol: clone_bytes(symbol), quote, fetched_at: now };
        self.slots.push(fresh_slot);
        proof {
            assert(self.slots@.drop_last() =~= prev);
        }
    }

    /// Drop every in-process entry (force refresh).
    pub fn invalidate_all(&mut self)
        ensures
            final(self).wf(),
            final(self)@ == Map::<Seq<u8>, (Quote, u64)>::empty(),
    {
        self.slots.clear();
    }
}

/// Replacing the slot at `i` with one for the same symbol updates the
/// represented map at that symbol alone.
proof fn lemma_slots_map_update(prev: Seq<Slot>, i: int, cur: Seq<Slot>)
    requires
        0 <= i < prev.len(),
        cur.len() == prev.len(),
        forall|j: int| 0 <= j < prev.len() && j != i ==> cur[j] == prev[j],
        cur[i].symbol@ == prev[i].symbol@,
        forall|p: int, q: int| 0 <= p < q < prev.len() ==> prev[p].symbol@ != prev[q].symbol@,
    ensures
        forall|p: int, q: int| 0 <= p < q < cur.len() ==> cur[p].symbol@ != cur[q].symbol@,
        slots_map(cur) == slots_map(prev).insert(cur[i].symbol@, (cur[i].quote, cur[i].fetched_at)),
    decreases prev.len(),
{
    assert forall|p: int, q: int| 0 <= p < q < cur.len() implies cur[p].symbol@
        != cur[q].symbol@ by {
        assert(cur[p].symbol@ == prev[p].symbol@);
        assert(cur[q].symbol@ == prev[q].symbol@);
    }
    if i == prev.len() - 1 {
        assert(cur.drop_last() =~= prev.drop_last());
        assert(slots_map(cur) == slots_map(prev).insert(
            cur[i].symbol@,
            (cur[i].quote, cur[i].fetched_at),
        )) by {
            assert(slots_map(prev).insert(cur[i].symbol@, (cur[i].quote, cur[i].fetched_at))
                =~= slots_map(prev.drop_last()).insert(
                cur[i].symbol@,
                (cur[i].quote, cur[i].fetched_at),
            ));
        }
    } else {
        lemma_slots_map_update(prev.drop_last(), i, cur.drop_last());
        assert(cur.last() == prev.last());
        let k = cur[i].symbol@;
        let v = (cur[i].quote, cur[i].fetched_at);
        assert(cur[i] == cur.drop_last()[i]);
        assert(slots_map(cur) == slots_map(cur.drop_last()).insert(
            cur.last().symbol@,
            (cur.last().quote, cur.last().fetched_at),
        ));
        assert(k != prev.last().symbol@);
        assert(slots_map(cur.drop_last()).insert(
            prev.last().symbol@,
            (prev.last().quote, prev.last().fetched_at),
        ) =~= slots_map(prev).insert(k, v));
    }
}

} // verus!
