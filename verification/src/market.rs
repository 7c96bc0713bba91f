//! Market classification.
//!
//! Exactly one rule partitions every symbol into one of two market
//! segments: a symbol containing the marker `.TW` trades on the Taiwan
//! market, every other symbol on the US market.  The same rule is used
//! for splitting holdings, grouping lines on save, and currency
//! conversion of gains.

use vstd::prelude::*;

use crate::amount::{all_digits, is_digit};
use crate::bytes::{spec_trim, trim_bytes};

verus! {

/// The two market segments a symbol can belong to.
#[derive(Clone, Copy, Debug, PartialEq, Eq, Structural)]
pub enum Market {
    Taiwan,
    Us,
}

/// The three bytes `.TW` stand at position `i` of `s`.
pub open spec fn tw_marker_at(s: Seq<u8>, i: int) -> bool {
    0 <= i && i + 3 <= s.len() && s[i] == 46 && s[i + 1] == 84 && s[i + 2] == 87
}

/// True iff `s` contains the byte sequence `.TW`.
pub open spec fn has_tw_marker(s: Seq<u8>) -> bool {
    exists|i: int| #[trigger] tw_marker_at(s, i)
}

/// The market segment of a symbol.
pub open spec fn spec_market_of(s: Seq<u8>) -> Market {
    if has_tw_marker(s) {
        Market::Taiwan
    } else {
        Market::Us
    }
}

/// Classify a symbol into its market segment.
pub fn market_of(symbol: &Vec<u8>) -> (m: Market)
    ensures
        m == spec_market_of(symbol@),
{
    if symbol.len() < 3 {
        proof {
            assert forall|j: int| !tw_marker_at(symbol@, j) by {}
        }
        return Market::Us;
    }
    let mut i: usize = 0;
    let limit = symbol.len() - 3;
    while i <= limit
        invariant
            symbol@.len() >= 3,
            limit == symbol@.len() - 3,
            0 <= i <= limit + 1,
            forall|j: int| j < i ==> !tw_marker_at(symbol@, j),
        decreases limit + 1 - i,
    {
        let n = symbol.len();
        if symbol[i] == 46 && symbol[i + 1] == 84 && symbol[i + 2] == 87 {
            proof {
                assert(tw_marker_at(symbol@, i as int));
            }
            return Market::Taiwan;
        }
        i = i + 1;
    }
    proof {
        assert forall|j: int| !tw_marker_at(symbol@, j) by {}
        assert(!has_tw_marker(symbol@));
    }
    Market::Us
}


/// ASCII uppercase of one byte.
pub open spec fn upper_byte(b: u8) -> u8 {
    if 97 <= b <= 122 {
        (b - 32) as u8
    } else {
        b
    }
}

/// ASCII uppercase of a byte string.
pub open spec fn upper_of(s: Seq<u8>) -> Seq<u8> {
    Seq::new(s.len(), |i: int| upper_byte(s[i]))
}

/// A new symbol as the add form accepts it: trimmed and uppercased, and
/// a bare number of four to six digits gets the Taiwan marker appended.
pub open spec fn spec_normalize_symbol(s: Seq<u8>) -> Seq<u8> {
    let t = upper_of(spec_trim(s));
    if all_digits(t) && 4 <= t.len() <= 6 {
        t + seq![46u8, 84u8, 87u8]
    } else {
        t
    }
}

/// Normalize a symbol typed into the add form.
pub fn normalize_symbol(s: &Vec<u8>) -> (r: Vec<u8>)
    ensures
        r@ == spec_normalize_symbol(s@),
{
    let t = trim_bytes(s);
    let mut up: Vec<u8> = Vec::new();
    let mut i: usize = 0;
    while i < t.len()
        invariant
            0 <= i <= t@.len(),
            up@.len() == i,
            forall|j: int| 0 <= j < i ==> up@[j] == upper_byte(t@[j]),
        decreases t@.len() - i,
    {
        let b = t[i];
        if 97 <= b && b <= 122 {
            up.push(b - 32);
        } else {
            up.push(b);
        }
        i = i + 1;
    }
    proof {
        assert(up@ =~= upper_of(t@));
    }
    let mut digits = up.len() >= 1;
    let mut k: usize = 0;
    while k < up.len()
        invariant
            0 <= k <= up@.len(),
            digits == (up@.len() >= 1 && forall|j: int|
                0 <= j < k ==> is_digit(#[trigger] up@[j])),
        decreases up@.len() - k,
    {
        let b = up[k];
        if b < 48 || b > 57 {
            proof {
                assert(!is_digit(up@[k as int]));
            }
            digits = false;
        }
        k = k + 1;
    }
    if digits && up.len() >= 4 && up.len() <= 6 {
        up.push(46);
        up.push(84);
        up.push(87);
        proof {
            assert(up@ =~= upper_of(t@) + seq![46u8, 84u8, 87u8]);
        }
    } else {
        proof {
            if up@.len() < 1 {
            } else if !(4 <= up@.len() <= 6) {
            } else {
                assert(!all_digits(up@));
            }
        }
    }
    up
}

/// Index of the first `.TW` marker in `s`, or `s.len()` when there is
/// none.
pub open spec fn find_tw_marker(s: Seq<u8>) -> int
    decreases s.len(),
{
    if s.len() < 3 {
        s.len() as int
    } else if s[0] == 46 && s[1] == 84 && s[2] == 87 {
        0
    } else {
        1 + find_tw_marker(s.drop_first())
    }
}

pub proof fn lemma_find_tw_marker(s: Seq<u8>)
    ensures
        0 <= find_tw_marker(s) <= s.len(),
        forall|j: int| 0 <= j < find_tw_marker(s) ==> !tw_marker_at(s, j),
        find_tw_marker(s) < s.len() ==> tw_marker_at(s, find_tw_marker(s)),
    decreases s.len(),
{
    if s.len() < 3 {
        assert forall|j: int| 0 <= j < find_tw_marker(s) implies !tw_marker_at(s, j) by {}
    } else if s[0] == 46 && s[1] == 84 && s[2] == 87 {
    } else {
        let d = s.drop_first();
        lemma_find_tw_marker(d);
        let f = find_tw_marker(s);
        assert forall|j: int| 0 <= j < f implies !tw_marker_at(s, j) by {
            if j >= 1 {
                assert(!tw_marker_at(d, j - 1));
                if tw_marker_at(s, j) {
                    assert(d[j - 1] == s[j] && d[j] == s[j + 1] && d[j + 1] == s[j + 2]);
                    assert(false);
                }
            }
        }
        if f < s.len() {
            assert(tw_marker_at(d, f - 1));
            assert(s[f] == d[f - 1] && s[f + 1] == d[f] && s[f + 2] == d[f + 1]);
        }
    }
}

/// `s` with every `.TW` marker removed, scanning left to right without
/// overlap, as the display-label default derives it from the symbol.
pub open spec fn spec_strip_tw(s: Seq<u8>) -> Seq<u8>
    decreases s.len(),
{
    let i = find_tw_marker(s);
    if 0 <= i && i + 3 <= s.len() {
        s.subrange(0, i) + spec_strip_tw(s.subrange(i + 3, s.len() as int))
    } else {
        s
    }
}

/// A string that does not start with the marker strips to its first byte
/// followed by the strip of the rest.
proof fn lemma_strip_tw_step(s: Seq<u8>)
    requires
        s.len() > 0,
        !tw_marker_at(s, 0),
    ensures
        spec_strip_tw(s) == seq![s[0]] + spec_strip_tw(s.drop_first()),
    decreases s.len(),
{
    let d = s.drop_first();
    lemma_find_tw_marker(s);
    lemma_find_tw_marker(d);
    let f = find_tw_marker(s);
    if s.len() < 3 {
        if s.len() == 1 {
            assert(spec_strip_tw(s) == s);
            assert(d.len() == 0);
            assert(spec_strip_tw(d) == d);
            assert(s =~= seq![s[0]] + d);
        } else {
            assert(spec_strip_tw(s) == s);
            assert(d.len() == 1);
            assert(spec_strip_tw(d) == d);
            assert(s =~= seq![s[0]] + d);
        }
    } else {
        assert(f == 1 + find_tw_marker(d));
        let g = find_tw_marker(d);
        if f + 3 <= s.len() {
            assert(s.subrange(0, f) =~= seq![s[0]] + d.subrange(0, g));
            assert(s.subrange(f + 3, s.len() as int) =~= d.subrange(g + 3, d.len() as int));
            assert(spec_strip_tw(s) =~= seq![s[0]] + spec_strip_tw(d));
        } else {
            assert(f == s.len());
            assert(g == d.len());
            assert(spec_strip_tw(s) == s);
            assert(spec_strip_tw(d) == d);
            assert(s =~= seq![s[0]] + d);
        }
    }
}

/// A string that starts with the marker strips to the strip of what
/// follows the marker.
proof fn lemma_strip_tw_marker(s: Seq<u8>)
    requires
        tw_marker_at(s, 0),
    ensures
        spec_strip_tw(s) == spec_strip_tw(s.subrange(3, s.len() as int)),
{
    assert(find_tw_marker(s) == 0);
    assert(s.subrange(0, 0) =~= Seq::<u8>::empty());
    assert(Seq::<u8>::empty() + spec_strip_tw(s.subrange(3, s.len() as int)) =~= spec_strip_tw(
        s.subrange(3, s.len() as int),
    ));
}

/// Remove every `.TW` marker from a symbol (the default display label).
pub fn strip_tw(s: &Vec<u8>) -> (r: Vec<u8>)
    ensures
        r@ == spec_strip_tw(s@),
{
    let mut out: Vec<u8> = Vec::new();
    let mut i: usize = 0;
    let n = s.len();
    proof {
        assert(s@.skip(0) =~= s@);
        assert(Seq::<u8>::empty() + spec_strip_tw(s@) =~= spec_strip_tw(s@));
    }
    while i < n
        invariant
            0 <= i <= n,
            n == s@.len(),
            spec_strip_tw(s@) == out@ + spec_strip_tw(s@.skip(i as int)),
        decreases n - i,
    {
        let ghost rest = s@.skip(i as int);
        if n - i >= 3 && s[i] == 46 && s[i + 1] == 84 && s[i + 2] == 87 {
            proof {
                assert(tw_marker_at(rest, 0));
                lemma_strip_tw_marker(rest);
                assert(rest.subrange(3, rest.len() as int) =~= s@.skip(i as int + 3));
            }
            i = i + 3;
        } else {
            let ghost prev = out@;
            proof {
                if tw_marker_at(rest, 0) {
                    assert(s@[i as int] == rest[0] && s@[i as int + 1] == rest[1] && s@[i as int
                        + 2] == rest[2]);
                    assert(false);
                }
                lemma_strip_tw_step(rest);
                assert(rest.drop_first() =~= s@.skip(i as int + 1));
                assert(rest[0] == s@[i as int]);
            }
            out.push(s[i]);
            proof {
                assert(out@ =~= prev + seq![s@[i as int]]);
                assert(prev + seq![s@[i as int]] + spec_strip_tw(s@.skip(i as int + 1)) =~= prev
                    + (seq![s@[i as int]] + spec_strip_tw(s@.skip(i as int + 1))));
            }
            i = i + 1;
        }
    }
    proof {
        assert(s@.skip(n as int) =~= Seq::<u8>::empty());
        assert(spec_strip_tw(Seq::<u8>::empty()) == Seq::<u8>::empty());
        assert(out@ + Seq::<u8>::empty() =~= out@);
    }
    out
}

} // verus!
