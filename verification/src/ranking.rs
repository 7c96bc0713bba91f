//! The ranking engine: direction-aware, stable orderings of positions.
//!
//! Five sortable columns derive a numeric key per position; missing
//! quotes read as zero, except under the change column, where they sink
//! below every real percentage.  Selecting the active column again flips
//! the direction; selecting a new column resets to descending.  The sort
//! is stable: positions with equal keys keep their relative order, so
//! re-sorting unchanged data never reorders rows.

use vstd::prelude::*;

use crate::money::amount_ok;
use crate::position::{clone_position, gain, gain_percent, positions_view, positions_wf,
    position_wf, spec_gain, spec_gain_percent, Position, PositionView};

verus! {

/// The columns a view can be ranked by.
#[derive(Clone, Copy, Debug, PartialEq, Eq, Structural)]
pub enum SortColumn {
    Price,
    Change,
    Quantity,
    Gain,
    GainPercent,
}

/// Ranking direction.
#[derive(Clone, Copy, Debug, PartialEq, Eq, Structural)]
pub enum SortDirection {
    Ascending,
    Descending,
}

/// The other direction.
pub open spec fn spec_flip(d: SortDirection) -> SortDirection {
    match d {
        SortDirection::Ascending => SortDirection::Descending,
        SortDirection::Descending => SortDirection::Ascending,
    }
}

/// The active ranking: which column, in which direction.
#[derive(Clone, Copy, Debug, PartialEq, Eq, Structural)]
pub struct SortState {
    pub column: Option<SortColumn>,
    pub direction: SortDirection,
}

impl SortState {
    /// Select a column: the active column flips direction, a new column
    /// becomes active descending.
    pub fn toggle(&mut self, column: SortColumn)
        ensures
            final(self).column == Some(column),
            old(self).column == Some(column) ==> final(self).direction == spec_flip(
                old(self).direction,
            ),
            old(self).column != Some(column) ==> final(self).direction
                == SortDirection::Descending,
    {
        let same = match self.column {
            Some(c) => c == column,
            None => false,
        };
        if same {
            self.direction = match self.direction {
                SortDirection::Ascending => SortDirection::Descending,
                SortDirection::Descending => SortDirection::Ascending,
            };
        } else {
            self.column = Some(column);
            self.direction = SortDirection::Descending;
        }
    }
}

/// Key of a missing quote under the change column: strictly below every
/// real change percentage.
pub const CHANGE_ABSENT_KEY: i128 = -100_000_000_000_000_000;

/// The numeric key a position is ranked by under a column.
pub open spec fn spec_sort_key(p: PositionView, column: SortColumn, rate: i64) -> int {
    match column {
        SortColumn::Price => match p.quote {
            Some(q) => q.price as int,
            None => 0,
        },
        SortColumn::Change => match p.quote {
            Some(q) => q.change_percent as int,
            None => CHANGE_ABSENT_KEY as int,
        },
        SortColumn::Quantity => p.quantity as int,
        SortColumn::Gain => spec_gain(p, rate),
        SortColumn::GainPercent => spec_gain_percent(p),
    }
}

/// Compute the sort key of a position.
pub fn sort_key(p: &Position, column: SortColumn, rate: i64) -> (r: i128)
    requires
        position_wf(p@),
        amount_ok(rate),
    ensures
        r == spec_sort_key(p@, column, rate),
{
    match column {
        SortColumn::Price => match &p.quote {
            Some(q) => q.price as i128,
            None => 0,
        },
        SortColumn::Change => match &p.quote {
            Some(q) => q.change_percent as i128,
            None => CHANGE_ABSENT_KEY,
        },
        SortColumn::Quantity => p.quantity as i128,
        SortColumn::Gain => gain(p, rate),
        SortColumn::GainPercent => gain_percent(p),
    }
}

/// The ranking order: with no column every pair ties (ranking keeps the
/// incoming order); otherwise keys compare ascending or descending.
pub open spec fn rank_le(
    a: PositionView,
    b: PositionView,
    column: Option<SortColumn>,
    direction: SortDirection,
    rate: i64,
) -> bool {
    match column {
        None => true,
        Some(c) => match direction {
            SortDirection::Ascending => spec_sort_key(a, c, rate) <= spec_sort_key(b, c, rate),
            SortDirection::Descending => spec_sort_key(b, c, rate) <= spec_sort_key(a, c, rate),
        },
    }
}

/// Decide the ranking order between two positions.
pub fn rank_le_exec(
    a: &Position,
    b: &Position,
    column: Option<SortColumn>,
    direction: SortDirection,
    rate: i64,
) -> (r: bool)
    requires
        position_wf(a@),
        position_wf(b@),
        amount_ok(rate),
    ensures
        r == rank_le(a@, b@, column, direction, rate),
{
    match column {
        None => true,
        Some(c) => {
            let ka = sort_key(a, c, rate);
            let kb = sort_key(b, c, rate);
            match direction {
                SortDirection::Ascending => ka <= kb,
                SortDirection::Descending => kb <= ka,
            }
        },
    }
}

/// Insert `x` into the ranked list `s`, after every entry that does not
/// rank after it (stable insertion).
pub open spec fn insert_ranked(
    s: Seq<PositionView>,
    x: PositionView,
    column: Option<SortColumn>,
    direction: SortDirection,
    rate: i64,
) -> Seq<PositionView>
    decreases s.len(),
{
    if s.len() == 0 {
        seq![x]
    } else if rank_le(s[0], x, column, direction, rate) {
        seq![s[0]] + insert_ranked(s.drop_first(), x, column, direction, rate)
    } else {
        seq![x] + s
    }
}

/// Stable insertion sort of positions under the ranking order.
pub open spec fn sort_ranked(
    s: Seq<PositionView>,
    column: Option<SortColumn>,
    direction: SortDirection,
    rate: i64,
) -> Seq<PositionView>
    decreases s.len(),
{
    if s.len() == 0 {
        Seq::empty()
    } else {
        insert_ranked(sort_ranked(s.drop_last(), column, direction, rate), s.last(), column,
            direction, rate)
    }
}

/// The list is ordered under the ranking order.
pub open spec fn ranked_sorted(
    s: Seq<PositionView>,
    column: Option<SortColumn>,
    direction: SortDirection,
    rate: i64,
) -> bool {
    forall|i: int, j: int|
        0 <= i <= j < s.len() ==> rank_le(#[trigger] s[i], #[trigger] s[j], column, direction, rate)
}

/// Inserting at the first position whose entry ranks after `x` realizes
/// `insert_ranked`.
proof fn lemma_insert_ranked_at(
    s: Seq<PositionView>,
    x: PositionView,
    column: Option<SortColumn>,
    direction: SortDirection,
    rate: i64,
    k: int,
)
    requires
        0 <= k <= s.len(),
        forall|j: int| 0 <= j < k ==> rank_le(#[trigger] s[j], x, column, direction, rate),
        k == s.len() || !rank_le(s[k], x, column, direction, rate),
    ensures
        insert_ranked(s, x, column, direction, rate) == s.subrange(0, k) + seq![x] + s.subrange(
            k,
            s.len() as int,
        ),
    decreases s.len(),
{
    if s.len() == 0 {
        assert(insert_ranked(s, x, column, direction, rate) =~= s.subrange(0, k) + seq![x]
            + s.subrange(k, s.len() as int));
    } else if k == 0 {
        assert(insert_ranked(s, x, column, direction, rate) =~= s.subrange(0, 0) + seq![x]
            + s.subrange(0, s.len() as int));
    } else {
        assert(rank_le(s[0], x, column, direction, rate));
        let d = s.drop_first();
        assert(forall|j: int| 0 <= j < k - 1 ==> rank_le(#[trigger] d[j], x, column, direction,
            rate));
        lemma_insert_ranked_at(d, x, column, direction, rate, k - 1);
        assert(insert_ranked(s, x, column, direction, rate) =~= s.subrange(0, k) + seq![x]
            + s.subrange(k, s.len() as int)) by {
            assert(d.subrange(0, k - 1) =~= s.subrange(1, k));
            assert(d.subrange(k - 1, d.len() as int) =~= s.subrange(k, s.len() as int));
        }
    }
}

/// A ranked list stays ranked when a position is inserted, and gains
/// exactly that position.
proof fn lemma_insert_ranked_sorted(
    s: Seq<PositionView>,
    x: PositionView,
    column: Option<SortColumn>,
    direction: SortDirection,
    rate: i64,
)
    requires
        ranked_sorted(s, column, direction, rate),
    ensures
        ranked_sorted(insert_ranked(s, x, column, direction, rate), column, direction, rate),
        insert_ranked(s, x, column, direction, rate).to_multiset() == s.to_multiset().insert(x),
        insert_ranked(s, x, column, direction, rate).len() == s.len() + 1,
    decreases s.len(),
{
    let out = insert_ranked(s, x, column, direction, rate);
    if s.len() == 0 {
        assert(out =~= seq![x]);
        assert(out.to_multiset() =~= s.to_multiset().insert(x)) by {
            s.to_multiset_ensures();
            assert(out =~= s.push(x));
            assert(s.push(x).to_multiset() =~= s.to_multiset().insert(x));
        }
    } else if rank_le(s[0], x, column, direction, rate) {
        let d = s.drop_first();
        assert(ranked_sorted(d, column, direction, rate)) by {
            assert(forall|i: int| 0 <= i < d.len() ==> d[i] == s[i + 1]);
        }
        lemma_insert_ranked_sorted(d, x, column, direction, rate);
        let rec = insert_ranked(d, x, column, direction, rate);
        assert(out =~= seq![s[0]] + rec);
        assert forall|i: int, j: int| 0 <= i <= j < out.len() implies rank_le(
            #[trigger] out[i],
            #[trigger] out[j],
            column,
            direction,
            rate,
        ) by {
            if i == 0 && j > 0 {
                assert(out[j] == rec[j - 1]);
                rec.to_multiset_ensures();
                d.to_multiset_ensures();
                assert(rec.contains(rec[j - 1]));
                assert(rec.to_multiset().count(rec[j - 1]) > 0);
                if rec[j - 1] == x {
                    assert(rank_le(out[i], out[j], column, direction, rate));
                } else {
                    assert(d.to_multiset().insert(x).count(rec[j - 1]) > 0);
                    assert(d.to_multiset().count(rec[j - 1]) > 0);
                    assert(d.contains(rec[j - 1]));
                    let w = choose|w: int| 0 <= w < d.len() && d[w] == rec[j - 1];
                    assert(d[w] == s[w + 1]);
                    assert(rank_le(s[0], s[w + 1], column, direction, rate));
                }
            } else if i > 0 {
                assert(out[i] == rec[i - 1] && out[j] == rec[j - 1]);
            }
        }
        assert(out.to_multiset() =~= s.to_multiset().insert(x)) by {
            broadcast use vstd::multiset::group_multiset_axioms;

            vstd::seq_lib::lemma_multiset_commutative(seq![s[0]], rec);
            vstd::seq_lib::lemma_multiset_commutative(seq![s[0]], d);
            assert(s =~= seq![s[0]] + d);
            assert((seq![s[0]] + rec).to_multiset() =~= seq![s[0]].to_multiset().add(
                rec.to_multiset(),
            ));
            assert((seq![s[0]] + d).to_multiset() =~= seq![s[0]].to_multiset().add(
                d.to_multiset(),
            ));
        }
    } else {
        assert(out =~= seq![x] + s);
        assert(rank_le(x, s[0], column, direction, rate));
        assert forall|i: int, j: int| 0 <= i <= j < out.len() implies rank_le(
            #[trigger] out[i],
            #[trigger] out[j],
            column,
            direction,
            rate,
        ) by {
            if i == 0 && j > 0 {
                assert(out[j] == s[j - 1]);
                assert(rank_le(s[0], s[j - 1], column, direction, rate));
            } else if i > 0 {
                assert(out[i] == s[i - 1] && out[j] == s[j - 1]);
            }
        }
        assert(out.to_multiset() =~= s.to_multiset().insert(x)) by {
            broadcast use vstd::multiset::group_multiset_axioms;

            vstd::seq_lib::lemma_multiset_commutative(seq![x], s);
            assert((seq![x] + s).to_multiset() =~= seq![x].to_multiset().add(s.to_multiset()));
            assert(seq![x] =~= Seq::<PositionView>::empty().push(x));
            Seq::<PositionView>::empty().to_multiset_ensures();
            assert(Seq::<PositionView>::empty().push(x).to_multiset() =~= Seq::<
                PositionView,
            >::empty().to_multiset().insert(x));
        }
    }
}

/// The ranked list is ordered and holds exactly the input positions.
pub proof fn lemma_sort_ranked_sorted(
    s: Seq<PositionView>,
    column: Option<SortColumn>,
    direction: SortDirection,
    rate: i64,
)
    ensures
        ranked_sorted(sort_ranked(s, column, direction, rate), column, direction, rate),
        sort_ranked(s, column, direction, rate).to_multiset() == s.to_multiset(),
        sort_ranked(s, column, direction, rate).len() == s.len(),
    decreases s.len(),
{
    if s.len() == 0 {
        s.to_multiset_ensures();
        sort_ranked(s, column, direction, rate).to_multiset_ensures();
        assert(sort_ranked(s, column, direction, rate).to_multiset() =~= s.to_multiset());
    } else {
        let d = s.drop_last();
        lemma_sort_ranked_sorted(d, column, direction, rate);
        lemma_insert_ranked_sorted(sort_ranked(d, column, direction, rate), s.last(), column,
            direction, rate);
        assert(sort_ranked(s, column, direction, rate).to_multiset() =~= s.to_multiset()) by {
            d.to_multiset_ensures();
            assert(d.push(s.last()).to_multiset() =~= d.to_multiset().insert(s.last()));
            assert(d.push(s.last()) =~= s);
        }
    }
}

/// Inserting a position that no entry ranks after appends it.
proof fn lemma_insert_ranked_at_end(
    s: Seq<PositionView>,
    x: PositionView,
    column: Option<SortColumn>,
    direction: SortDirection,
    rate: i64,
)
    requires
        forall|j: int| 0 <= j < s.len() ==> rank_le(#[trigger] s[j], x, column, direction, rate),
    ensures
        insert_ranked(s, x, column, direction, rate) == s.push(x),
{
    lemma_insert_ranked_at(s, x, column, direction, rate, s.len() as int);
    assert(s.subrange(0, s.len() as int) + seq![x] + s.subrange(s.len() as int, s.len() as int)
        =~= s.push(x));
}

/// Ranking an already ranked list leaves it exactly as it is: equal keys
/// are never reordered.
pub proof fn lemma_sort_ranked_stable(
    s: Seq<PositionView>,
    column: Option<SortColumn>,
    direction: SortDirection,
    rate: i64,
)
    requires
        ranked_sorted(s, column, direction, rate),
    ensures
        sort_ranked(s, column, direction, rate) == s,
    decreases s.len(),
{
    if s.len() > 0 {
        let d = s.drop_last();
        assert(ranked_sorted(d, column, direction, rate)) by {
            assert(forall|i: int| 0 <= i < d.len() ==> d[i] == s[i]);
        }
        lemma_sort_ranked_stable(d, column, direction, rate);
        assert(forall|j: int|
            0 <= j < d.len() ==> rank_le(#[trigger] d[j], s.last(), column, direction, rate)) by {
            assert(forall|j: int| 0 <= j < d.len() ==> d[j] == s[j]);
        }
        lemma_insert_ranked_at_end(d, s.last(), column, direction, rate);
        assert(d.push(s.last()) =~= s);
    }
}

/// Sort positions under the active column and direction.  The result is
/// the stable insertion sort of the input: ordered, a permutation, and
/// the identity whenever the input was already ordered.
pub fn sort_positions(
    v: &mut Vec<Position>,
    column: Option<SortColumn>,
    direction: SortDirection,
    rate: i64,
)
    requires
        positions_wf(positions_view(old(v)@)),
        amount_ok(rate),
    ensures
        positions_view(final(v)@) == sort_ranked(
            positions_view(old(v)@),
            column,
            direction,
            rate,
        ),
        positions_wf(positions_view(final(v)@)),
        final(v)@.len() == old(v)@.len(),
{
    let ghost orig = positions_view(v@);
    let mut out: Vec<Position> = Vec::new();
    let mut i: usize = 0;
    let n = v.len();
    proof {
        assert(orig.subrange(0, 0) =~= Seq::<PositionView>::empty());
    }
    while i < n
        invariant
            0 <= i <= n,
            n == v@.len(),
            v == old(v),
            amount_ok(rate),
            orig == positions_view(v@),
            positions_wf(orig),
            positions_view(out@) == sort_ranked(
                orig.subrange(0, i as int),
                column,
                direction,
                rate,
            ),
            forall|k: int| 0 <= k < out@.len() ==> position_wf(#[trigger] out@[k]@),
            out@.len() == i,
        decreases n - i,
    {
        let ghost sorted = positions_view(out@);
        proof {
            lemma_sort_ranked_sorted(orig.subrange(0, i as int), column, direction, rate);
        }
        let x = clone_position(&v[i]);
        let m = out.len();
        let mut j: usize = 0;
        while j < m && rank_le_exec(&out[j], &x, column, direction, rate)
            invariant
                0 <= j <= m,
                m == out@.len(),
                positions_view(out@) == sorted,
                forall|k: int| 0 <= k < out@.len() ==> position_wf(#[trigger] out@[k]@),
                position_wf(x@),
                amount_ok(rate),
                x@ == orig[i as int],
                0 <= i < orig.len(),
                orig == positions_view(v@),
                forall|k: int| 0 <= k < j ==> rank_le(#[trigger] sorted[k], x@, column, direction,
                    rate),
            decreases m - j,
        {
            j = j + 1;
        }
        proof {
            if j < m {
                assert(!rank_le(sorted[j as int], x@, column, direction, rate));
            }
        }
        let ghost prev_list = out@;
        out.insert(j, x);
        proof {
            lemma_insert_ranked_at(sorted, orig[i as int], column, direction, rate, j as int);
            assert forall|k: int| 0 <= k < out@.len() implies positions_view(out@)[k]
                == insert_ranked(sorted, orig[i as int], column, direction, rate)[k] by {
                if k < j {
                    assert(out@[k] == prev_list[k]);
                } else if k > j {
                    assert(out@[k] == prev_list[k - 1]);
                }
            }
            assert(positions_view(out@) =~= insert_ranked(sorted, orig[i as int], column,
                direction, rate));
            assert(orig.subrange(0, i as int + 1).drop_last() =~= orig.subrange(0, i as int));
            assert(orig.subrange(0, i as int + 1).last() == orig[i as int]);
            assert(positions_view(out@) =~= sort_ranked(
                orig.subrange(0, i as int + 1),
                column,
                direction,
                rate,
            ));
            assert forall|k: int| 0 <= k < out@.len() implies position_wf(
                #[trigger] out@[k]@,
            ) by {
                if k < j {
                    assert(out@[k] == prev_list[k]);
                } else if k > j {
                    assert(out@[k] == prev_list[k - 1]);
                }
            }
        }
        i = i + 1;
    }
    proof {
        assert(orig.subrange(0, n as int) =~= orig);
        lemma_sort_ranked_sorted(orig, column, direction, rate);
    }
    *v = out;
    proof {
        assert forall|k: int|
            0 <= k < positions_view(v@).len() implies position_wf(
            #[trigger] positions_view(v@)[k],
        ) by {
            assert(positions_view(v@)[k] == v@[k]@);
        }
    }
}

} // verus!
