//! Portfolio discovery order.
//!
//! The set of portfolios is discovered by scanning a directory; their
//! display order is deterministic: a portfolio named `main` sorts first,
//! the remainder alphabetically by name.

use vstd::prelude::*;

use crate::bytes::{clone_bytes, lemma_deep_view_index};

verus! {

/// Byte-wise lexicographic order on names.
pub open spec fn lex_le(a: Seq<u8>, b: Seq<u8>) -> bool
    decreases a.len(),
{
    if a.len() == 0 {
        true
    } else if b.len() == 0 {
        false
    } else if a[0] < b[0] {
        true
    } else if a[0] > b[0] {
        false
    } else {
        lex_le(a.drop_first(), b.drop_first())
    }
}

/// The name `main`.
pub open spec fn main_name() -> Seq<u8> {
    seq![109u8, 97u8, 105u8, 110u8]
}

/// The portfolio display order: `main` before everything, the rest
/// alphabetically.
pub open spec fn name_le(a: Seq<u8>, b: Seq<u8>) -> bool {
    if a == main_name() {
        true
    } else if b == main_name() {
        false
    } else {
        lex_le(a, b)
    }
}

pub proof fn lemma_lex_le_total(a: Seq<u8>, b: Seq<u8>)
    ensures
        lex_le(a, b) || lex_le(b, a),
    decreases a.len(),
{
    if a.len() > 0 && b.len() > 0 && a[0] == b[0] {
        lemma_lex_le_total(a.drop_first(), b.drop_first());
    }
}

pub proof fn lemma_lex_le_trans(a: Seq<u8>, b: Seq<u8>, c: Seq<u8>)
    requires
        lex_le(a, b),
        lex_le(b, c),
    ensures
        lex_le(a, c),
    decreases a.len(),
{
    if a.len() > 0 && b.len() > 0 && c.len() > 0 && a[0] == b[0] && b[0] == c[0] {
        lemma_lex_le_trans(a.drop_first(), b.drop_first(), c.drop_first());
    }
}

pub proof fn lemma_name_le_total(a: Seq<u8>, b: Seq<u8>)
    ensures
        name_le(a, b) || name_le(b, a),
{
    lemma_lex_le_total(a, b);
}

pub proof fn lemma_name_le_trans(a: Seq<u8>, b: Seq<u8>, c: Seq<u8>)
    requires
        name_le(a, b),
        name_le(b, c),
    ensures
        name_le(a, c),
{
    if a != main_name() && b != main_name() && c != main_name() {
        lemma_lex_le_trans(a, b, c);
    }
}

/// Insert `x` into the sorted list `s`, after any entries it does not
/// precede.
pub open spec fn insert_name(s: Seq<Seq<u8>>, x: Seq<u8>) -> Seq<Seq<u8>>
    decreases s.len(),
{
    if s.len() == 0 {
        seq![x]
    } else if name_le(s[0], x) {
        seq![s[0]] + insert_name(s.drop_first(), x)
    } else {
        seq![x] + s
    }
}

/// Insertion sort of portfolio names under [`name_le`].
pub open spec fn sort_names(s: Seq<Seq<u8>>) -> Seq<Seq<u8>>
    decreases s.len(),
{
    if s.len() == 0 {
        Seq::empty()
    } else {
        insert_name(sort_names(s.drop_last()), s.last())
    }
}

/// Inserting at the first position whose entry does not precede `x`
/// realizes `insert_name`.
proof fn lemma_insert_name_at(s: Seq<Seq<u8>>, x: Seq<u8>, k: int)
    requires
        0 <= k <= s.len(),
        forall|j: int| 0 <= j < k ==> name_le(#[trigger] s[j], x),
        k == s.len() || !name_le(s[k], x),
    ensures
        insert_name(s, x) == s.subrange(0, k) + seq![x] + s.subrange(k, s.len() as int),
    decreases s.len(),
{
    if s.len() == 0 {
        assert(insert_name(s, x) =~= s.subrange(0, k) + seq![x] + s.subrange(k, s.len() as int));
    } else if k == 0 {
        assert(insert_name(s, x) =~= s.subrange(0, 0) + seq![x] + s.subrange(0, s.len() as int));
    } else {
        assert(name_le(s[0], x));
        let d = s.drop_first();
        assert(forall|j: int| 0 <= j < k - 1 ==> name_le(#[trigger] d[j], x));
        lemma_insert_name_at(d, x, k - 1);
        assert(insert_name(s, x) =~= s.subrange(0, k) + seq![x] + s.subrange(k, s.len() as int))
            by {
            assert(d.subrange(0, k - 1) =~= s.subrange(1, k));
            assert(d.subrange(k - 1, d.len() as int) =~= s.subrange(k, s.len() as int));
        }
    }
}

/// A sorted list stays sorted when a name is inserted.
proof fn lemma_insert_name_sorted(s: Seq<Seq<u8>>, x: Seq<u8>)
    requires
        forall|i: int, j: int| 0 <= i <= j < s.len() ==> name_le(#[trigger] s[i], #[trigger] s[j]),
    ensures
        forall|i: int, j: int|
            0 <= i <= j < insert_name(s, x).len() ==> name_le(
                #[trigger] insert_name(s, x)[i],
                #[trigger] insert_name(s, x)[j],
            ),
        insert_name(s, x).to_multiset() == s.to_multiset().insert(x),
        insert_name(s, x).len() == s.len() + 1,
    decreases s.len(),
{
    let out = insert_name(s, x);
    if s.len() == 0 {
        assert(out =~= seq![x]);
        assert(out.to_multiset() =~= s.to_multiset().insert(x)) by {
            s.to_multiset_ensures();
            assert(out =~= s.push(x));
            assert(s.push(x).to_multiset() =~= s.to_multiset().insert(x));
        }
        lemma_name_le_refl(x);
    } else if name_le(s[0], x) {
        let d = s.drop_first();
        assert(forall|i: int, j: int|
            0 <= i <= j < d.len() ==> name_le(#[trigger] d[i], #[trigger] d[j])) by {
            assert(forall|i: int| 0 <= i < d.len() ==> d[i] == s[i + 1]);
        }
        lemma_insert_name_sorted(d, x);
        let rec = insert_name(d, x);
        assert(out =~= seq![s[0]] + rec);
        assert forall|i: int, j: int| 0 <= i <= j < out.len() implies name_le(
            #[trigger] out[i],
            #[trigger] out[j],
        ) by {
            if i == 0 && j > 0 {
                // s[0] precedes every element of rec: each is either x or
                // some element of d
                assert(out[j] == rec[j - 1]);
                rec.to_multiset_ensures();
                d.to_multiset_ensures();
                assert(rec.contains(rec[j - 1]));
                assert(rec.to_multiset().count(rec[j - 1]) > 0);
                if rec[j - 1] == x {
                    assert(name_le(out[i], out[j]));
                } else {
                    assert(d.to_multiset().insert(x).count(rec[j - 1]) > 0);
                    assert(d.to_multiset().count(rec[j - 1]) > 0);
                    assert(d.contains(rec[j - 1]));
                    let w = choose|w: int| 0 <= w < d.len() && d[w] == rec[j - 1];
                    assert(d[w] == s[w + 1]);
                    assert(name_le(s[0], s[w + 1]));
                }
            } else if i > 0 {
                assert(out[i] == rec[i - 1] && out[j] == rec[j - 1]);
            } else {
                lemma_name_le_refl(out[i]);
            }
        }
        assert(out.to_multiset() =~= s.to_multiset().insert(x)) by {
            broadcast use vstd::multiset::group_multiset_axioms;

            vstd::seq_lib::lemma_multiset_commutative(seq![s[0]], rec);
            vstd::seq_lib::lemma_multiset_commutative(seq![s[0]], d);
            assert(s =~= seq![s[0]] + d);
            assert((seq![s[0]] + rec).to_multiset() =~= seq![s[0]].to_multiset().add(
                rec.to_multiset(),
            ));
            assert((seq![s[0]] + d).to_multiset() =~= seq![s[0]].to_multiset().add(
                d.to_multiset(),
            ));
        }
    } else {
        assert(out =~= seq![x] + s);
        lemma_name_le_total(s[0], x);
        assert(name_le(x, s[0]));
        assert forall|i: int, j: int| 0 <= i <= j < out.len() implies name_le(
            #[trigger] out[i],
            #[trigger] out[j],
        ) by {
            if i == 0 && j > 0 {
                assert(out[j] == s[j - 1]);
                assert(name_le(s[0], s[j - 1]));
                lemma_name_le_trans(x, s[0], s[j - 1]);
            } else if i > 0 {
                assert(out[i] == s[i - 1] && out[j] == s[j - 1]);
            } else {
                lemma_name_le_refl(x);
            }
        }
        assert(out.to_multiset() =~= s.to_multiset().insert(x)) by {
            broadcast use vstd::multiset::group_multiset_axioms;

            vstd::seq_lib::lemma_multiset_commutative(seq![x], s);
            assert((seq![x] + s).to_multiset() =~= seq![x].to_multiset().add(s.to_multiset()));
            assert(seq![x] =~= Seq::<Seq<u8>>::empty().push(x));
            Seq::<Seq<u8>>::empty().to_multiset_ensures();
            assert(Seq::<Seq<u8>>::empty().push(x).to_multiset() =~= Seq::<Seq<u8>>::empty()
                .to_multiset().insert(x));
            assert(Seq::<Seq<u8>>::empty().to_multiset().len() == 0);
        }
    }
}

pub proof fn lemma_lex_le_refl(a: Seq<u8>)
    ensures
        lex_le(a, a),
    decreases a.len(),
{
    if a.len() > 0 {
        lemma_lex_le_refl(a.drop_first());
    }
}

pub proof fn lemma_name_le_refl(a: Seq<u8>)
    ensures
        name_le(a, a),
{
    lemma_lex_le_refl(a);
}

/// The sorted name list is ordered under [`name_le`] and holds exactly
/// the input names.
pub proof fn lemma_sort_names_sorted(s: Seq<Seq<u8>>)
    ensures
        forall|i: int, j: int|
            0 <= i <= j < sort_names(s).len() ==> name_le(
                #[trigger] sort_names(s)[i],
                #[trigger] sort_names(s)[j],
            ),
        sort_names(s).to_multiset() == s.to_multiset(),
        sort_names(s).len() == s.len(),
    decreases s.len(),
{
    if s.len() == 0 {
        s.to_multiset_ensures();
        sort_names(s).to_multiset_ensures();
        assert(sort_names(s).to_multiset() =~= s.to_multiset());
    } else {
        let d = s.drop_last();
        lemma_sort_names_sorted(d);
        lemma_insert_name_sorted(sort_names(d), s.last());
        assert(sort_names(s).to_multiset() =~= s.to_multiset()) by {
            assert(sort_names(d).to_multiset().insert(s.last()) == d.to_multiset().insert(
                s.last(),
            ));
            lemma_to_multiset_push(d, s.last());
            assert(d.push(s.last()) =~= s);
        }
    }
}

/// Pushing one element inserts it into the multiset of a sequence.
proof fn lemma_to_multiset_push(s: Seq<Seq<u8>>, x: Seq<u8>)
    ensures
        s.push(x).to_multiset() == s.to_multiset().insert(x),
{
    s.push(x).to_multiset_ensures();
    s.to_multiset_ensures();
    assert(s.push(x).drop_last() =~= s);
    s.push(x).lemma_add_last_back();
}

/// Decide `name_le` on two names.
pub fn name_le_exec(a: &Vec<u8>, b: &Vec<u8>) -> (r: bool)
    ensures
        r == name_le(a@, b@),
{
    if is_main(a) {
        return true;
    }
    if is_main(b) {
        return false;
    }
    let mut i: usize = 0;
    let an = a.len();
    let bn = b.len();
    proof {
        assert(a@.skip(0) =~= a@);
        assert(b@.skip(0) =~= b@);
    }
    while i < an && i < bn
        invariant
            0 <= i,
            an == a@.len(),
            bn == b@.len(),
            i <= an,
            i <= bn,
            a@ != main_name(),
            b@ != main_name(),
            forall|j: int| 0 <= j < i ==> a@[j] == b@[j],
            lex_le(a@, b@) == lex_le(a@.skip(i as int), b@.skip(i as int)),
        decreases an - i,
    {
        let ghost ar = a@.skip(i as int);
        let ghost br = b@.skip(i as int);
        proof {
            assert(ar[0] == a@[i as int] && br[0] == b@[i as int]);
            assert(ar.drop_first() =~= a@.skip(i as int + 1));
            assert(br.drop_first() =~= b@.skip(i as int + 1));
        }
        if a[i] < b[i] {
            return true;
        }
        if a[i] > b[i] {
            return false;
        }
        i = i + 1;
    }
    proof {
        assert(a@.skip(i as int).len() == 0 || b@.skip(i as int).len() == 0);
    }
    a.len() <= b.len()
}

/// Is this name `main`?
fn is_main(v: &Vec<u8>) -> (r: bool)
    ensures
        r == (v@ == main_name()),
{
    if v.len() == 4 && v[0] == 109 && v[1] == 97 && v[2] == 105 && v[3] == 110 {
        proof {
            assert(v@ =~= main_name());
        }
        true
    } else {
        proof {
            if v@ == main_name() {
                assert(v@.len() == 4);
                assert(v@[0] == 109 && v@[1] == 97 && v@[2] == 105 && v@[3] == 110);
            }
        }
        false
    }
}

/// Order discovered portfolio names for display: `main` first, the rest
/// alphabetically; equal names keep their relative order.
pub fn sort_portfolio_names(names: &Vec<Vec<u8>>) -> (r: Vec<Vec<u8>>)
    ensures
        r.deep_view() == sort_names(names.deep_view()),
{
    let mut out: Vec<Vec<u8>> = Vec::new();
    let mut i: usize = 0;
    proof {
        lemma_deep_view_index(names);
        assert(names.deep_view().subrange(0, 0) =~= Seq::<Seq<u8>>::empty());
    }
    while i < names.len()
        invariant
            0 <= i <= names@.len(),
            names.deep_view().len() == names@.len(),
            forall|k: int| 0 <= k < names@.len() ==> names.deep_view()[k] == names@[k]@,
            out.deep_view() == sort_names(names.deep_view().subrange(0, i as int)),
        decreases names@.len() - i,
    {
        let x = clone_bytes(&names[i]);
        let ghost sorted = out.deep_view();
        proof {
            lemma_deep_view_index(&out);
        }
        let n = out.len();
        let mut j: usize = 0;
        while j < n && name_le_exec(&out[j], &x)
            invariant
                0 <= j <= n,
                n == out@.len(),
                out.deep_view() == sorted,
                forall|k: int| 0 <= k < n ==> #[trigger] out@[k]@ == sorted[k],
                x@ == names@[i as int]@,
                forall|k: int| 0 <= k < j ==> name_le(#[trigger] sorted[k], x@),
            decreases n - j,
        {
            j = j + 1;
        }
        proof {
            if j < n {
                assert(!name_le(sorted[j as int], x@));
            }
        }
        let ghost prev_list = out@;
        out.insert(j, x);
        proof {
            lemma_deep_view_index(&out);
            lemma_insert_name_at(sorted, names@[i as int]@, j as int);
            assert forall|k: int| 0 <= k < out@.len() implies out.deep_view()[k] == insert_name(
                sorted,
                names@[i as int]@,
            )[k] by {
                if k < j {
                    assert(out@[k] == prev_list[k]);
                    assert(prev_list[k]@ == sorted[k]);
                } else if k == j {
                } else {
                    assert(out@[k] == prev_list[k - 1]);
                    assert(prev_list[k - 1]@ == sorted[k - 1]);
                }
            }
            assert(out.deep_view() =~= insert_name(sorted, names@[i as int]@));
            assert(names.deep_view().subrange(0, i as int + 1).drop_last() =~= names.deep_view()
                .subrange(0, i as int));
            assert(out.deep_view() =~= sort_names(names.deep_view().subrange(0, i as int + 1)));
        }
        i = i + 1;
    }
    proof {
        assert(names.deep_view().subrange(0, i as int) =~= names.deep_view());
    }
    out
}

} // verus!
