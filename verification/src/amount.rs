//! Decimal text for fixed-point amounts.
//!
//! A holding line stores quantity and cost basis as plain decimal text,
//! `digits` optionally followed by `.` and more digits.  Parsing yields a
//! fixed-point amount (four decimal places, truncating extra places);
//! anything that does not match the grammar, or exceeds [`MAX_AMOUNT`],
//! parses as `0`, mirroring the loader's rule that a missing or
//! unparsable amount defaults to zero.  Rendering writes the shortest
//! decimal form back (no trailing fractional zeros, no `.` for whole
//! amounts).

use vstd::prelude::*;

use crate::bytes::{find_byte, lemma_find_byte_unique};
use crate::money::{amount_ok, MAX_AMOUNT, SCALE};

verus! {

/// ASCII decimal digit.
pub open spec fn is_digit(b: u8) -> bool {
    48 <= b <= 57
}

/// Every byte of `s` is a decimal digit.
pub open spec fn all_digits(s: Seq<u8>) -> bool {
    forall|j: int| 0 <= j < s.len() ==> is_digit(s[j])
}

/// Value of a digit string read in base ten.
pub open spec fn digits_value(s: Seq<u8>) -> int
    decreases s.len(),
{
    if s.len() == 0 {
        0
    } else {
        digits_value(s.drop_last()) * 10 + (s.last() - 48)
    }
}

/// `10 ^ n`.
pub open spec fn pow10(n: nat) -> int
    decreases n,
{
    if n == 0 {
        1
    } else {
        10 * pow10((n - 1) as nat)
    }
}

/// Fractional digits scaled to four decimal places; places beyond the
/// fourth are truncated.
pub open spec fn frac_value(s: Seq<u8>) -> int {
    if s.len() >= 4 {
        digits_value(s.subrange(0, 4))
    } else {
        digits_value(s) * pow10((4 - s.len()) as nat)
    }
}

/// The integer and fractional digit fields of a decimal string, split at
/// the first `.` (an absent `.` leaves the fraction empty).
pub open spec fn amount_int_part(s: Seq<u8>) -> Seq<u8> {
    let i = find_byte(s, 46);
    if i < s.len() {
        s.subrange(0, i)
    } else {
        s
    }
}

pub open spec fn amount_frac_part(s: Seq<u8>) -> Seq<u8> {
    let i = find_byte(s, 46);
    if i < s.len() {
        s.subrange(i + 1, s.len() as int)
    } else {
        Seq::empty()
    }
}

/// The accepted grammar: digits, optionally one `.`, digits; at least one
/// digit in all.
pub open spec fn valid_amount(s: Seq<u8>) -> bool {
    &&& all_digits(amount_int_part(s))
    &&& all_digits(amount_frac_part(s))
    &&& amount_int_part(s).len() + amount_frac_part(s).len() >= 1
}

/// The fixed-point value a valid decimal string denotes.
pub open spec fn amount_value(s: Seq<u8>) -> int {
    digits_value(amount_int_part(s)) * SCALE + frac_value(amount_frac_part(s))
}

/// Parsing: the denoted value for valid strings within range, else `0`.
pub open spec fn spec_parse_amount(s: Seq<u8>) -> i64 {
    if valid_amount(s) && amount_value(s) <= MAX_AMOUNT {
        amount_value(s) as i64
    } else {
        0
    }
}

pub proof fn lemma_digits_value_nonneg(s: Seq<u8>)
    requires
        all_digits(s),
    ensures
        digits_value(s) >= 0,
    decreases s.len(),
{
    if s.len() > 0 {
        lemma_digits_value_nonneg(s.drop_last());
    }
}

/// A digit string's value is below `10 ^ length`.
pub proof fn lemma_digits_value_upper(s: Seq<u8>)
    requires
        all_digits(s),
    ensures
        0 <= digits_value(s) < pow10(s.len()),
    decreases s.len(),
{
    if s.len() > 0 {
        lemma_digits_value_upper(s.drop_last());
        assert(pow10(s.len()) == 10 * pow10((s.len() - 1) as nat));
    }
}

/// Reading one more digit multiplies the prefix value by ten and adds it.
proof fn lemma_digits_prefix_step(s: Seq<u8>, k: int)
    requires
        0 <= k < s.len(),
    ensures
        digits_value(s.subrange(0, k + 1)) == digits_value(s.subrange(0, k)) * 10 + (s[k] - 48),
{
    assert(s.subrange(0, k + 1).drop_last() =~= s.subrange(0, k));
    assert(s.subrange(0, k + 1).last() == s[k]);
}

/// Extending an all-digit string never decreases its value.
proof fn lemma_digits_prefix_monotonic(s: Seq<u8>, k: int)
    requires
        all_digits(s),
        0 <= k <= s.len(),
    ensures
        digits_value(s) >= digits_value(s.subrange(0, k)) >= 0,
    decreases s.len() - k,
{
    assert(all_digits(s.subrange(0, k)));
    lemma_digits_value_nonneg(s.subrange(0, k));
    if k < s.len() {
        lemma_digits_prefix_step(s, k);
        lemma_digits_prefix_monotonic(s, k + 1);
    } else {
        assert(s.subrange(0, k) =~= s);
    }
}

/// Parse a decimal byte string into a fixed-point amount.
pub fn parse_amount(v: &Vec<u8>) -> (r: i64)
    ensures
        r == spec_parse_amount(v@),
        amount_ok(r),
{
    let n = v.len();
    // locate the first '.', if any
    let mut dot: usize = 0;
    while dot < n && v[dot] != 46
        invariant
            0 <= dot <= n,
            n == v@.len(),
            forall|j: int| 0 <= j < dot ==> v@[j] != 46,
        decreases n - dot,
    {
        dot = dot + 1;
    }
    proof {
        lemma_find_byte_unique(v@, 46, dot as int);
    }
    let ghost ip = amount_int_part(v@);
    let ghost fp = amount_frac_part(v@);
    proof {
        if dot == n {
            assert(ip =~= v@.subrange(0, dot as int));
        }
    }
    let frac_len: usize = if dot < n {
        n - dot - 1
    } else {
        0
    };
    if dot == 0 && frac_len == 0 {
        // empty string or a lone '.': no digits at all
        return 0;
    }
    // integer part
    let mut units: u64 = 0;
    let mut j: usize = 0;
    while j < dot
        invariant
            0 <= j <= dot <= n,
            n == v@.len(),
            ip == amount_int_part(v@),
            fp == amount_frac_part(v@),
            ip == v@.subrange(0, dot as int),
            all_digits(ip.subrange(0, j as int)),
            units == digits_value(ip.subrange(0, j as int)),
            units <= 1_000_000,
        decreases dot - j,
    {
        let b = v[j];
        if b < 48 || b > 57 {
            proof {
                assert(ip[j as int] == v@[j as int]);
                assert(!is_digit(ip[j as int]));
                assert(!valid_amount(v@));
            }
            return 0;
        }
        let next: u64 = units * 10 + (b - 48) as u64;
        proof {
            lemma_digits_prefix_step(ip, j as int);
            assert(ip.subrange(0, j as int).push(ip[j as int]) =~= ip.subrange(0, j as int + 1));
        }
        if next > 1_000_000 {
            proof {
                if valid_amount(v@) {
                    assert(all_digits(ip));
                    assert(ip.len() == dot as int);
                    assert(ip[j as int] == v@[j as int]);
                    assert(digits_value(ip.subrange(0, j as int + 1)) == next);
                    lemma_digits_prefix_monotonic(ip, j as int + 1);
                    lemma_digits_value_nonneg(fp);
                    if fp.len() >= 4 {
                        assert(all_digits(fp.subrange(0, 4)));
                        lemma_digits_value_nonneg(fp.subrange(0, 4));
                    } else {
                        assert(pow10((4 - fp.len()) as nat) >= 1) by {
                            lemma_pow10_pos((4 - fp.len()) as nat);
                        }
                        assert(frac_value(fp) >= 0) by (nonlinear_arith)
                            requires
                                digits_value(fp) >= 0,
                                pow10((4 - fp.len()) as nat) >= 1,
                                fp.len() < 4,
                        ;
                    }
                    assert(digits_value(ip) * SCALE > MAX_AMOUNT) by (nonlinear_arith)
                        requires
                            digits_value(ip) > 1_000_000,
                    ;
                    assert(amount_value(v@) > MAX_AMOUNT);
                }
            }
            return 0;
        }
        units = next;
        j = j + 1;
    }
    proof {
        assert(ip.subrange(0, dot as int) =~= ip);
    }
    // fractional part: first four digits count, the rest only validate
    let mut frac_acc: u64 = 0;
    let mut taken: usize = 0;
    let mut k: usize = 0;
    while k < frac_len
        invariant
            0 <= k <= frac_len,
            n == v@.len(),
            ip == amount_int_part(v@),
            fp == amount_frac_part(v@),
            all_digits(ip),
            frac_len == fp.len(),
            dot < n ==> fp == v@.subrange(dot as int + 1, n as int),
            frac_len > 0 ==> dot < n,
            all_digits(fp.subrange(0, k as int)),
            taken == if k < 4 {
                k as int
            } else {
                4
            },
            frac_acc == digits_value(fp.subrange(0, taken as int)),
            taken == 0 ==> frac_acc == 0,
            taken == 1 ==> frac_acc <= 9,
            taken == 2 ==> frac_acc <= 99,
            taken == 3 ==> frac_acc <= 999,
            frac_acc <= 9999,
        decreases frac_len - k,
    {
        let b = v[dot + 1 + k];
        proof {
            assert(fp[k as int] == v@[dot as int + 1 + k as int]);
        }
        if b < 48 || b > 57 {
            proof {
                assert(!is_digit(fp[k as int]));
                assert(!valid_amount(v@));
            }
            return 0;
        }
        if taken < 4 {
            proof {
                lemma_digits_prefix_step(fp, taken as int);
            }
            frac_acc = frac_acc * 10 + (b - 48) as u64;
            taken = taken + 1;
        }
        k = k + 1;
        proof {
            assert(all_digits(fp.subrange(0, k as int)));
        }
    }
    proof {
        assert(fp.subrange(0, frac_len as int) =~= fp);
        assert(all_digits(fp));
        assert(all_digits(ip));
        assert(valid_amount(v@));
    }
    // scale the fraction out to four places
    let frac_fixed: u64 = if frac_len >= 4 {
        frac_acc
    } else if frac_len == 3 {
        frac_acc * 10
    } else if frac_len == 2 {
        frac_acc * 100
    } else if frac_len == 1 {
        frac_acc * 1000
    } else {
        0
    };
    proof {
        assert(pow10(0) == 1);
        assert(pow10(1) == 10);
        assert(pow10(2) == 100);
        assert(pow10(3) == 1000);
        lemma_digits_value_upper(fp.subrange(0, taken as int));
        if frac_len >= 4 {
            assert(fp.subrange(0, 4) =~= fp.subrange(0, taken as int));
        } else {
            assert(fp.subrange(0, taken as int) =~= fp);
        }
        assert(frac_fixed == frac_value(fp));
    }
    let total: u64 = units * 10_000 + frac_fixed;
    proof {
        assert(total == amount_value(v@));
    }
    if total > 10_000_000_000u64 {
        return 0;
    }
    total as i64
}

proof fn lemma_pow10_pos(n: nat)
    ensures
        pow10(n) >= 1,
    decreases n,
{
    if n > 0 {
        lemma_pow10_pos((n - 1) as nat);
    }
}

/// Decimal representation of a whole number, most significant digit first.
pub open spec fn dec_rep(n: nat) -> Seq<u8>
    decreases n,
{
    if n <= 9 {
        seq![(48 + n) as u8]
    } else {
        dec_rep((n / 10) as nat).push((48 + n % 10) as u8)
    }
}

/// Drop trailing `'0'` bytes.
pub open spec fn strip_zeros(s: Seq<u8>) -> Seq<u8>
    decreases s.len(),
{
    if s.len() > 0 && s.last() == 48 {
        strip_zeros(s.drop_last())
    } else {
        s
    }
}

/// The four digits of a fixed-point fraction, most significant first.
pub open spec fn frac_digits(f: int) -> Seq<u8>
    recommends
        0 <= f < 10_000,
{
    seq![
        (48 + f / 1000 % 10) as u8,
        (48 + f / 100 % 10) as u8,
        (48 + f / 10 % 10) as u8,
        (48 + f % 10) as u8,
    ]
}

/// Shortest decimal text for a fixed-point amount: the whole part, then,
/// if the fraction is non-zero, a `.` and the fraction without trailing
/// zeros.
pub open spec fn spec_render_amount(a: i64) -> Seq<u8>
    recommends
        amount_ok(a),
{
    let units = a / (SCALE as i64);
    let frac = (a as int) % (SCALE as int);
    if frac == 0 {
        dec_rep(units as nat)
    } else {
        dec_rep(units as nat) + seq![46u8] + strip_zeros(frac_digits(frac))
    }
}

/// Append the decimal representation of `n`.
fn push_dec(out: &mut Vec<u8>, n: u64)
    ensures
        final(out)@ == old(out)@ + dec_rep(n as nat),
    decreases n,
{
    if n <= 9 {
        out.push(48 + n as u8);
        assert(out@ =~= old(out)@ + dec_rep(n as nat));
    } else {
        push_dec(out, n / 10);
        out.push(48 + (n % 10) as u8);
        assert(out@ =~= old(out)@ + dec_rep(n as nat));
    }
}

/// Render a fixed-point amount as decimal text.
pub fn render_amount(a: i64) -> (r: Vec<u8>)
    requires
        amount_ok(a),
    ensures
        r@ == spec_render_amount(a),
{
    let ua = a as u64;
    let units: u64 = ua / 10_000;
    let frac: u64 = ua % 10_000;
    let mut out: Vec<u8> = Vec::new();
    push_dec(&mut out, units);
    proof {
        assert(Seq::<u8>::empty() + dec_rep(units as nat) =~= dec_rep(units as nat));
    }
    if frac == 0 {
        return out;
    }
    out.push(46);
    let mut fd: Vec<u8> = Vec::new();
    fd.push(48 + (frac / 1000 % 10) as u8);
    fd.push(48 + (frac / 100 % 10) as u8);
    fd.push(48 + (frac / 10 % 10) as u8);
    fd.push(48 + (frac % 10) as u8);
    proof {
        assert(fd@ =~= frac_digits(frac as int));
    }
    let ghost orig = fd@;
    while fd.len() > 0 && fd[fd.len() - 1] == 48
        invariant
            strip_zeros(fd@) == strip_zeros(orig),
        decreases fd.len(),
    {
        let ghost before = fd@;
        fd.pop();
        proof {
            assert(fd@ =~= before.drop_last());
        }
    }
    proof {
        assert(strip_zeros(fd@) == fd@);
    }
    let mut i: usize = 0;
    let ghost head = out@;
    while i < fd.len()
        invariant
            0 <= i <= fd.len(),
            out@ == head + fd@.subrange(0, i as int),
        decreases fd.len() - i,
    {
        out.push(fd[i]);
        i = i + 1;
        assert(out@ =~= head + fd@.subrange(0, i as int));
    }
    proof {
        assert(fd@.subrange(0, fd@.len() as int) =~= fd@);
        assert(out@ =~= spec_render_amount(a));
    }
    out
}

} // verus!
