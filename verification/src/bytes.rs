//! Byte-string utilities: comparison, copying, ASCII-whitespace trimming,
//! and splitting on a separator byte.
//!
//! Holding files are UTF-8 text handled as raw bytes; every text
//! transformation the engine performs is defined here over `Seq<u8>`.

use vstd::prelude::*;

verus! {

/// ASCII whitespace, as trimmed from fields and line ends:
/// space, tab, line feed, form feed, carriage return.
pub open spec fn is_space(b: u8) -> bool {
    b == 32 || b == 9 || b == 10 || b == 12 || b == 13
}

fn byte_is_space(b: u8) -> (r: bool)
    ensures
        r == is_space(b),
{
    b == 32 || b == 9 || b == 10 || b == 12 || b == 13
}

/// Number of leading whitespace bytes.
pub open spec fn trim_start_len(s: Seq<u8>) -> int
    decreases s.len(),
{
    if s.len() > 0 && is_space(s[0]) {
        1 + trim_start_len(s.drop_first())
    } else {
        0
    }
}

/// Length of `s` once trailing whitespace is dropped.
pub open spec fn trim_end_len(s: Seq<u8>) -> int
    decreases s.len(),
{
    if s.len() > 0 && is_space(s[s.len() - 1]) {
        trim_end_len(s.drop_last())
    } else {
        s.len() as int
    }
}

/// `s` with leading and trailing ASCII whitespace removed.
pub open spec fn spec_trim(s: Seq<u8>) -> Seq<u8> {
    if trim_start_len(s) <= trim_end_len(s) {
        s.subrange(trim_start_len(s), trim_end_len(s))
    } else {
        Seq::empty()
    }
}

proof fn lemma_trim_start_len(s: Seq<u8>)
    ensures
        0 <= trim_start_len(s) <= s.len(),
        forall|j: int| 0 <= j < trim_start_len(s) ==> is_space(s[j]),
        trim_start_len(s) < s.len() ==> !is_space(s[trim_start_len(s)]),
    decreases s.len(),
{
    if s.len() > 0 && is_space(s[0]) {
        lemma_trim_start_len(s.drop_first());
        assert forall|j: int| 0 <= j < trim_start_len(s) implies is_space(s[j]) by {
            if j >= 1 {
                assert(is_space(s.drop_first()[j - 1]));
            }
        }
    }
}

proof fn lemma_trim_start_len_unique(s: Seq<u8>, k: int)
    requires
        0 <= k <= s.len(),
        forall|j: int| 0 <= j < k ==> is_space(s[j]),
        k == s.len() || !is_space(s[k]),
    ensures
        trim_start_len(s) == k,
    decreases s.len(),
{
    if k == 0 {
    } else {
        assert(is_space(s[0]));
        lemma_trim_start_len_unique(s.drop_first(), k - 1);
    }
}

proof fn lemma_trim_end_len(s: Seq<u8>)
    ensures
        0 <= trim_end_len(s) <= s.len(),
        forall|j: int| trim_end_len(s) <= j < s.len() ==> is_space(s[j]),
        trim_end_len(s) > 0 ==> !is_space(s[trim_end_len(s) - 1]),
    decreases s.len(),
{
    if s.len() > 0 && is_space(s[s.len() - 1]) {
        lemma_trim_end_len(s.drop_last());
        assert forall|j: int| trim_end_len(s) <= j < s.len() implies is_space(s[j]) by {
            if j < s.len() - 1 {
                assert(is_space(s.drop_last()[j]));
            }
        }
    }
}

proof fn lemma_trim_end_len_unique(s: Seq<u8>, k: int)
    requires
        0 <= k <= s.len(),
        forall|j: int| k <= j < s.len() ==> is_space(s[j]),
        k == 0 || !is_space(s[k - 1]),
    ensures
        trim_end_len(s) == k,
    decreases s.len(),
{
    if k == s.len() {
        if s.len() > 0 && is_space(s[s.len() - 1]) {
            assert(!is_space(s[k - 1]));
            assert(false);
        }
    } else {
        assert(is_space(s[s.len() - 1]));
        lemma_trim_end_len_unique(s.drop_last(), k);
    }
}

/// Copy a byte string.
pub fn clone_bytes(v: &Vec<u8>) -> (r: Vec<u8>)
    ensures
        r@ == v@,
{
    let mut r: Vec<u8> = Vec::new();
    let mut i: usize = 0;
    while i < v.len()
        invariant
            0 <= i <= v.len(),
            r@ == v@.subrange(0, i as int),
        decreases v.len() - i,
    {
        r.push(v[i]);
        i = i + 1;
        assert(r@ =~= v@.subrange(0, i as int));
    }
    assert(r@ =~= v@);
    r
}

/// Byte-string equality.
pub fn eq_bytes(a: &Vec<u8>, b: &Vec<u8>) -> (r: bool)
    ensures
        r <==> a@ == b@,
{
    if a.len() != b.len() {
        assert(a@ != b@) by {
            assert(a@.len() != b@.len());
        }
        return false;
    }
    let mut i: usize = 0;
    while i < a.len()
        invariant
            0 <= i <= a.len(),
            a.len() == b.len(),
            forall|j: int| 0 <= j < i ==> a@[j] == b@[j],
        decreases a.len() - i,
    {
        if a[i] != b[i] {
            return false;
        }
        i = i + 1;
    }
    assert(a@ =~= b@);
    true
}

/// Trim leading and trailing ASCII whitespace from a byte string.
pub fn trim_bytes(v: &Vec<u8>) -> (r: Vec<u8>)
    ensures
        r@ == spec_trim(v@),
{
    let mut start: usize = 0;
    while start < v.len() && byte_is_space(v[start])
        invariant
            0 <= start <= v.len(),
            forall|j: int| 0 <= j < start ==> is_space(v@[j]),
        decreases v.len() - start,
    {
        start = start + 1;
    }
    proof {
        lemma_trim_start_len_unique(v@, start as int);
    }
    let mut end: usize = v.len();
    while end > start && byte_is_space(v[end - 1])
        invariant
            start <= end <= v.len(),
            forall|j: int| end <= j < v.len() ==> is_space(v@[j]),
            forall|j: int| 0 <= j < start ==> is_space(v@[j]),
        decreases end,
    {
        end = end - 1;
    }
    let mut r: Vec<u8> = Vec::new();
    let mut i: usize = start;
    while i < end
        invariant
            start <= i <= end <= v.len(),
            r@ == v@.subrange(start as int, i as int),
        decreases end - i,
    {
        r.push(v[i]);
        i = i + 1;
        assert(r@ =~= v@.subrange(start as int, i as int));
    }
    proof {
        if end == start {
            // everything from `start` on is whitespace, so the trimmed
            // range is empty
            if trim_end_len(v@) > trim_start_len(v@) {
                lemma_trim_end_len(v@);
                lemma_trim_start_len(v@);
                assert(!is_space(v@[trim_end_len(v@) - 1]));
                assert(false);
            }
            assert(r@ =~= spec_trim(v@));
        } else {
            assert(!is_space(v@[end - 1]));
            lemma_trim_end_len_unique(v@, end as int);
            assert(r@ =~= spec_trim(v@));
        }
    }
    r
}

/// Index of the first occurrence of `sep` in `s`, or `s.len()` if absent.
pub open spec fn find_byte(s: Seq<u8>, sep: u8) -> int
    decreases s.len(),
{
    if s.len() == 0 {
        0
    } else if s[0] == sep {
        0
    } else {
        1 + find_byte(s.drop_first(), sep)
    }
}

pub proof fn lemma_find_byte(s: Seq<u8>, sep: u8)
    ensures
        0 <= find_byte(s, sep) <= s.len(),
        forall|j: int| 0 <= j < find_byte(s, sep) ==> s[j] != sep,
        find_byte(s, sep) < s.len() ==> s[find_byte(s, sep)] == sep,
    decreases s.len(),
{
    if s.len() > 0 && s[0] != sep {
        lemma_find_byte(s.drop_first(), sep);
        assert(forall|j: int|
            1 <= j < find_byte(s, sep) ==> #[trigger] s[j] == s.drop_first()[j - 1]);
    }
}

/// `find_byte` is pinned down by its characteristic properties.
pub proof fn lemma_find_byte_unique(s: Seq<u8>, sep: u8, k: int)
    requires
        0 <= k <= s.len(),
        forall|j: int| 0 <= j < k ==> s[j] != sep,
        k == s.len() || s[k] == sep,
    ensures
        find_byte(s, sep) == k,
    decreases s.len(),
{
    if k == 0 {
    } else {
        assert(s[0] != sep);
        lemma_find_byte_unique(s.drop_first(), sep, k - 1);
    }
}

/// `s` split at every occurrence of `sep`; always at least one piece,
/// and `n` separators give `n + 1` pieces.
pub open spec fn split_on(s: Seq<u8>, sep: u8) -> Seq<Seq<u8>>
    decreases s.len(),
{
    let i = find_byte(s, sep);
    if 0 <= i < s.len() {
        seq![s.subrange(0, i)] + split_on(s.subrange(i + 1, s.len() as int), sep)
    } else {
        seq![s]
    }
}

pub proof fn lemma_split_on_nonempty(s: Seq<u8>, sep: u8)
    ensures
        split_on(s, sep).len() >= 1,
{
    lemma_find_byte(s, sep);
}

/// Splitting a string that starts with the separator yields an empty
/// first piece followed by the split of the remainder.
proof fn lemma_split_on_sep(s: Seq<u8>, sep: u8)
    requires
        s.len() > 0,
        s[0] == sep,
    ensures
        split_on(s, sep) == seq![Seq::<u8>::empty()] + split_on(s.drop_first(), sep),
{
    assert(find_byte(s, sep) == 0);
    assert(s.subrange(0, 0) =~= Seq::<u8>::empty());
    assert(s.subrange(1, s.len() as int) =~= s.drop_first());
}

/// Splitting a string that starts with a non-separator prefixes that byte
/// onto the first piece of the remainder's split.
proof fn lemma_split_on_byte(s: Seq<u8>, sep: u8)
    requires
        s.len() > 0,
        s[0] != sep,
    ensures
        split_on(s.drop_first(), sep).len() >= 1,
        split_on(s, sep) == seq![seq![s[0]] + split_on(s.drop_first(), sep).first()] + split_on(
            s.drop_first(),
            sep,
        ).drop_first(),
{
    let d = s.drop_first();
    lemma_split_on_nonempty(d, sep);
    lemma_find_byte(d, sep);
    let j = find_byte(d, sep);
    assert(find_byte(s, sep) == 1 + j);
    if j < d.len() {
        assert(s.subrange(0, 1 + j) =~= seq![s[0]] + d.subrange(0, j));
        assert(s.subrange(1 + j + 1, s.len() as int) =~= d.subrange(j + 1, d.len() as int));
        assert(split_on(s, sep) =~= seq![seq![s[0]] + split_on(d, sep).first()] + split_on(
            d,
            sep,
        ).drop_first());
    } else {
        assert(split_on(d, sep) == seq![d]);
        assert(seq![s[0]] + d =~= s);
        assert(split_on(s, sep) =~= seq![seq![s[0]] + split_on(d, sep).first()] + split_on(
            d,
            sep,
        ).drop_first());
    }
}

/// The deep view of a vector of byte strings indexes to the views of its
/// elements.
pub proof fn lemma_deep_view_index(out: &Vec<Vec<u8>>)
    ensures
        out.deep_view().len() == out@.len(),
        forall|k: int| 0 <= k < out@.len() ==> out.deep_view()[k] == out@[k]@,
{
    assert forall|k: int| 0 <= k < out@.len() implies out.deep_view()[k] == out@[k]@ by {
        assert(out@[k].deep_view() =~= out@[k]@);
    }
}

/// `parts` with `c` prefixed onto its first piece.
spec fn cons_front(c: Seq<u8>, parts: Seq<Seq<u8>>) -> Seq<Seq<u8>>
    recommends
        parts.len() >= 1,
{
    seq![c + parts.first()] + parts.drop_first()
}

/// Split a byte string at every occurrence of `sep`.
pub fn split_bytes(v: &Vec<u8>, sep: u8) -> (r: Vec<Vec<u8>>)
    ensures
        r.deep_view() == split_on(v@, sep),
{
    let mut out: Vec<Vec<u8>> = Vec::new();
    let mut cur: Vec<u8> = Vec::new();
    let mut i: usize = 0;
    proof {
        assert(v@.skip(0) =~= v@);
        lemma_split_on_nonempty(v@, sep);
    }
    while i < v.len()
        invariant
            0 <= i <= v.len(),
            split_on(v@.skip(i as int), sep).len() >= 1,
            split_on(v@, sep) == out.deep_view() + cons_front(
                cur@,
                split_on(v@.skip(i as int), sep),
            ),
        decreases v.len() - i,
    {
        let ghost rest = v@.skip(i as int);
        proof {
            assert(rest[0] == v@[i as int]);
            assert(rest.drop_first() =~= v@.skip(i as int + 1));
            lemma_split_on_nonempty(v@.skip(i as int + 1), sep);
        }
        if v[i] == sep {
            let ghost prev_out = out.deep_view();
            let ghost prev_cur = cur@;
            proof {
                lemma_split_on_sep(rest, sep);
                assert(cons_front(prev_cur, split_on(rest, sep)) =~= seq![prev_cur] + split_on(
                    v@.skip(i as int + 1),
                    sep,
                )) by {
                    assert(prev_cur + Seq::<u8>::empty() =~= prev_cur);
                }
            }
            let ghost prev_list = out@;
            out.push(cur);
            cur = Vec::new();
            proof {
                lemma_deep_view_index(&out);
                assert forall|k: int| 0 <= k < out@.len() implies out.deep_view()[k] == (prev_out
                    + seq![prev_cur])[k] by {
                    if k < prev_list.len() {
                        assert(out@[k] == prev_list[k]);
                        assert(prev_out[k] == prev_list[k]@) by {
                            assert(prev_list[k].deep_view() =~= prev_list[k]@);
                        }
                    } else {
                        assert(out@[k]@ == prev_cur);
                    }
                }
                assert(out.deep_view() =~= prev_out + seq![prev_cur]);
                assert(cons_front(cur@, split_on(v@.skip(i as int + 1), sep)) =~= split_on(
                    v@.skip(i as int + 1),
                    sep,
                )) by {
                    assert(cur@ + split_on(v@.skip(i as int + 1), sep).first() =~= split_on(
                        v@.skip(i as int + 1),
                        sep,
                    ).first());
                    lemma_split_on_nonempty(v@.skip(i as int + 1), sep);
                }
                assert(split_on(v@, sep) =~= out.deep_view() + cons_front(
                    cur@,
                    split_on(v@.skip(i as int + 1), sep),
                ));
            }
        } else {
            let ghost prev_cur = cur@;
            proof {
                lemma_split_on_byte(rest, sep);
                assert(cons_front(prev_cur, split_on(rest, sep)) =~= cons_front(
                    prev_cur + seq![v@[i as int]],
                    split_on(v@.skip(i as int + 1), sep),
                )) by {
                    assert(prev_cur + (seq![rest[0]] + split_on(rest.drop_first(), sep).first())
                        =~= (prev_cur + seq![rest[0]]) + split_on(rest.drop_first(), sep).first());
                }
            }
            cur.push(v[i]);
            proof {
                assert(cur@ =~= prev_cur + seq![v@[i as int]]);
                assert(split_on(v@, sep) =~= out.deep_view() + cons_front(
                    cur@,
                    split_on(v@.skip(i as int + 1), sep),
                ));
            }
        }
        i = i + 1;
    }
    proof {
        assert(v@.skip(i as int) =~= Seq::<u8>::empty());
        assert(split_on(Seq::<u8>::empty(), sep) == seq![Seq::<u8>::empty()]);
        assert(cons_front(cur@, seq![Seq::<u8>::empty()]) =~= seq![cur@]) by {
            assert(cur@ + Seq::<u8>::empty() =~= cur@);
        }
    }
    let ghost prev_out = out.deep_view();
    let ghost prev_list = out@;
    let ghost prev_cur = cur@;
    out.push(cur);
    proof {
        lemma_deep_view_index(&out);
        assert forall|k: int| 0 <= k < out@.len() implies out.deep_view()[k] == (prev_out
            + seq![prev_cur])[k] by {
            if k < prev_list.len() {
                assert(out@[k] == prev_list[k]);
                assert(prev_out[k] == prev_list[k]@) by {
                    assert(prev_list[k].deep_view() =~= prev_list[k]@);
                }
            } else {
                assert(out@[k]@ == prev_cur);
            }
        }
        assert(out.deep_view() =~= prev_out + seq![prev_cur]);
        assert(out.deep_view() =~= split_on(v@, sep));
    }
    out
}

} // verus!
