//! Conversion between decimal amount strings and minor-unit integers.
//!
//! Amounts travel as text with up to four fractional digits. Parsing
//! normalizes the text to exactly four fractional digits — padding with
//! zeros when fewer are given, truncating (not rounding) any digit beyond
//! the fourth — and reads the result as a signed integer of minor units.
//! Formatting is the inverse: the minor-unit integer rendered with a decimal
//! point before its last four digits.

use vstd::prelude::*;

verus! {

/// ASCII codes the grammar speaks of.
pub const DOT: u8 = 0x2E;

pub const MINUS: u8 = 0x2D;

pub const PLUS: u8 = 0x2B;

pub const D0: u8 = 0x30;

pub const D9: u8 = 0x39;

/// Whether every byte is an ASCII decimal digit.
pub open spec fn all_digits(s: Seq<u8>) -> bool {
    forall|i: int| 0 <= i < s.len() ==> D0 <= #[trigger] s[i] <= D9
}

/// The number an ASCII digit string denotes.
pub open spec fn digits_value(s: Seq<u8>) -> int
    decreases s.len()
{
    if s.len() == 0 {
        0
    } else {
        digits_value(s.drop_last()) * 10 + (s.last() - D0)
    }
}

/// A run of ASCII zeros.
pub open spec fn zeros(n: nat) -> Seq<u8> {
    Seq::new(n, |i: int| D0)
}

/// The index of the last `.` in the text, or -1 when there is none.
pub open spec fn spec_last_dot(s: Seq<u8>) -> int
    decreases s.len()
{
    if s.len() == 0 {
        -1
    } else if s.last() == DOT {
        s.len() - 1
    } else {
        spec_last_dot(s.drop_last())
    }
}

/// The text normalized to a whole number of minor units: the last `.` is
/// removed, and the fractional part is brought to exactly four digits —
/// padded with zeros when shorter, truncated when longer. Text without a
/// `.` has four zeros appended.
pub open spec fn spec_normalize(s: Seq<u8>) -> Seq<u8> {
    let d = spec_last_dot(s);
    if d == -1 {
        s + zeros(4)
    } else {
        let body = s.subrange(0, d) + s.subrange(d + 1, s.len() as int);
        let frac = s.len() - 1 - d;
        if frac > 4 {
            body.subrange(0, body.len() - (frac - 4))
        } else {
            body + zeros((4 - frac) as nat)
        }
    }
}

/// Reading a byte string as a signed machine integer: an optional sign, then
/// at least one digit, denoting a value that fits an `i64`; anything else is
/// no integer.
pub open spec fn spec_parse_i64(s: Seq<u8>) -> Option<i64> {
    let neg = s.len() > 0 && s[0] == MINUS;
    let ds = if s.len() > 0 && (s[0] == MINUS || s[0] == PLUS) {
        s.drop_first()
    } else {
        s
    };
    if ds.len() == 0 || !all_digits(ds) {
        None
    } else {
        let v = if neg {
            -digits_value(ds)
        } else {
            digits_value(ds)
        };
        if i64::MIN <= v <= i64::MAX {
            Some(v as i64)
        } else {
            None
        }
    }
}

/// The minor-unit amount a decimal string denotes, if it is well formed
/// after normalization.
pub open spec fn spec_parse_amount(s: Seq<u8>) -> Option<i64> {
    spec_parse_i64(spec_normalize(s))
}

/// The minimal ASCII digit string of a non-negative number.
pub open spec fn spec_digits_of(n: nat) -> Seq<u8>
    decreases n
{
    if n < 10 {
        seq![(D0 + n) as u8]
    } else {
        spec_digits_of(n / 10).push((D0 + n % 10) as u8)
    }
}

/// An amount rendered as decimal text: the magnitude's digits, padded with
/// leading zeros to at least five, a `.` before the last four, and a leading
/// `-` for a negative amount.
pub open spec fn spec_format_amount(amount: i64) -> Seq<u8> {
    let mag = (if amount >= 0 { amount as int } else { -(amount as int) }) as nat;
    let ds = spec_digits_of(mag);
    let padded = if ds.len() >= 5 {
        ds
    } else {
        zeros((5 - ds.len()) as nat) + ds
    };
    let text = padded.subrange(0, padded.len() - 4) + seq![DOT]
        + padded.subrange(padded.len() - 4, padded.len() as int);
    if amount < 0 {
        seq![MINUS] + text
    } else {
        text
    }
}

/// A digit string denotes a non-negative number.
proof fn lemma_digits_value_nonneg(s: Seq<u8>)
    requires
        all_digits(s),
    ensures
        digits_value(s) >= 0,
    decreases s.len(),
{
    if s.len() > 0 {
        assert(all_digits(s.drop_last())) by {
            assert(forall|i: int| 0 <= i < s.len() - 1 ==> s.drop_last()[i] == s[i]);
        }
        lemma_digits_value_nonneg(s.drop_last());
    }
}

/// A digit string denotes at least as much as any of its prefixes.
proof fn lemma_digits_value_prefix(s: Seq<u8>, i: int)
    requires
        all_digits(s),
        0 <= i <= s.len(),
    ensures
        digits_value(s.subrange(0, i)) <= digits_value(s),
    decreases s.len() - i,
{
    if i < s.len() {
        lemma_digits_value_prefix(s, i + 1);
        let p = s.subrange(0, i + 1);
        assert(p.drop_last() =~= s.subrange(0, i));
        assert(all_digits(s.subrange(0, i))) by {
            assert(forall|j: int| 0 <= j < i ==> s.subrange(0, i)[j] == s[j]);
        }
        lemma_digits_value_nonneg(s.subrange(0, i));
        assert(digits_value(p) == digits_value(s.subrange(0, i)) * 10 + (s[i] - D0));
    } else {
        assert(s.subrange(0, i) =~= s);
    }
}

/// A number's digit string consists of digits, and is never empty.
proof fn lemma_digits_of_all_digits(n: nat)
    ensures
        all_digits(spec_digits_of(n)),
        spec_digits_of(n).len() >= 1,
    decreases n,
{
    if n >= 10 {
        lemma_digits_of_all_digits(n / 10);
        let s = spec_digits_of(n / 10);
        let t = spec_digits_of(n);
        assert forall|i: int| 0 <= i < t.len() implies D0 <= #[trigger] t[i] <= D9 by {
            if i < s.len() {
                assert(t[i] == s[i]);
            }
        }
    }
}

/// A number's digit string denotes that number.
proof fn lemma_digits_of_value(n: nat)
    ensures
        digits_value(spec_digits_of(n)) == n,
    decreases n,
{
    if n < 10 {
        let t = seq![(D0 + n) as u8];
        assert(t.drop_last() =~= Seq::<u8>::empty());
        assert(t.last() == (D0 + n) as u8);
        assert(digits_value(t) == digits_value(Seq::<u8>::empty()) * 10 + (t.last() - D0));
        assert(digits_value(t) == n);
    } else {
        lemma_digits_of_value(n / 10);
        let s = spec_digits_of(n / 10);
        let d = (D0 + n % 10) as u8;
        assert(spec_digits_of(n) == s.push(d));
        assert(s.push(d).drop_last() =~= s);
        assert(s.push(d).last() == d);
        assert(digits_value(s.push(d)) == digits_value(s) * 10 + (d - D0));
        assert(d - D0 == n % 10);
        vstd::arithmetic::div_mod::lemma_fundamental_div_mod(n as int, 10);
        assert((n / 10) * 10 + n % 10 == n);
        assert(digits_value(spec_digits_of(n)) == n);
    }
}

/// A run of zeros denotes zero.
proof fn lemma_zeros_value(k: nat)
    ensures
        digits_value(zeros(k)) == 0,
    decreases k,
{
    if k > 0 {
        assert(zeros(k).drop_last() =~= zeros((k - 1) as nat));
        assert(zeros(k).last() == D0);
        lemma_zeros_value((k - 1) as nat);
    }
}

/// Leading zeros do not change a digit string's value.
proof fn lemma_digits_value_leading_zeros(k: nat, s: Seq<u8>)
    ensures
        digits_value(zeros(k) + s) == digits_value(s),
    decreases s.len(),
{
    if s.len() == 0 {
        assert(zeros(k) + s =~= zeros(k));
        lemma_zeros_value(k);
    } else {
        assert((zeros(k) + s).drop_last() =~= zeros(k) + s.drop_last());
        assert((zeros(k) + s).last() == s.last());
        lemma_digits_value_leading_zeros(k, s.drop_last());
    }
}

/// The last dot of a text whose tail holds no dot lies in its head.
proof fn lemma_last_dot_suffix(s: Seq<u8>, k: int)
    requires
        0 <= k <= s.len(),
        forall|j: int| k <= j < s.len() ==> s[j] != DOT,
    ensures
        spec_last_dot(s) == spec_last_dot(s.subrange(0, k)),
    decreases s.len() - k,
{
    if k < s.len() {
        assert(s.last() != DOT);
        lemma_last_dot_suffix(s.drop_last(), k);
        assert(s.drop_last().subrange(0, k) =~= s.subrange(0, k));
    } else {
        assert(s.subrange(0, k) =~= s);
    }
}

/// The decimal representation is lossless: formatting an amount and parsing
/// the text back yields the amount.
pub proof fn lemma_format_parse_round_trip(amount: i64)
    ensures
        spec_parse_amount(spec_format_amount(amount)) == Some(amount),
{
    let mag = (if amount >= 0 { amount as int } else { -(amount as int) }) as nat;
    lemma_digits_of_all_digits(mag);
    lemma_digits_of_value(mag);
    let ds = spec_digits_of(mag);
    let padded = if ds.len() >= 5 {
        ds
    } else {
        zeros((5 - ds.len()) as nat) + ds
    };
    assert(all_digits(padded) && digits_value(padded) == mag) by {
        if ds.len() < 5 {
            let k = (5 - ds.len()) as nat;
            lemma_digits_value_leading_zeros(k, ds);
            assert forall|i: int| 0 <= i < padded.len() implies D0 <= #[trigger] padded[i] <= D9 by {
                if i >= k {
                    assert(padded[i] == ds[i - k]);
                }
            }
        }
    }
    let len = padded.len() as int;
    let text = padded.subrange(0, len - 4) + seq![DOT] + padded.subrange(len - 4, len);
    let full = spec_format_amount(amount);
    if amount >= 0 {
        assert(full == text);
        assert(full[len - 4] == DOT);
        assert(forall|j: int| len - 3 <= j < full.len() ==> full[j] != DOT);
        lemma_last_dot_suffix(full, len - 3);
        assert(full.subrange(0, len - 3).last() == DOT);
        assert(spec_last_dot(full) == len - 4);
        let body = full.subrange(0, len - 4) + full.subrange(len - 3, full.len() as int);
        assert(body =~= padded);
        assert(spec_normalize(full) =~= padded + zeros(0));
        assert(spec_normalize(full) =~= padded);
        assert(padded[0] != MINUS && padded[0] != PLUS);
        assert(spec_parse_i64(padded) == Some(amount));
    } else {
        assert(full == seq![MINUS] + text);
        assert(full[len - 3] == DOT);
        assert(forall|j: int| len - 2 <= j < full.len() ==> full[j] != DOT);
        lemma_last_dot_suffix(full, len - 2);
        assert(full.subrange(0, len - 2).last() == DOT);
        assert(spec_last_dot(full) == len - 3);
        let body = full.subrange(0, len - 3) + full.subrange(len - 2, full.len() as int);
        assert(body =~= seq![MINUS] + padded);
        assert(spec_normalize(full) =~= body + zeros(0));
        assert(spec_normalize(full) =~= seq![MINUS] + padded);
        assert(body[0] == MINUS);
        assert(body.drop_first() =~= padded);
        assert(spec_parse_i64(seq![MINUS] + padded) == Some(amount));
    }
}

/// The magnitude bound of a signed 64-bit integer.
const MAG_LIMIT: u128 = 0x8000_0000_0000_0000;

/// Index of the last `.` in the text, if any.
fn find_last_dot(s: &[u8]) -> (r: Option<usize>)
    ensures
        match r {
            Some(i) => i < s@.len() && spec_last_dot(s@) == i as int,
            None => spec_last_dot(s@) == -1,
        },
{
    let mut i: usize = s.len();
    proof {
        assert(s@.subrange(0, i as int) =~= s@);
    }
    while i > 0
        invariant
            i <= s@.len(),
            spec_last_dot(s@) == spec_last_dot(s@.subrange(0, i as int)),
        decreases i,
    {
        if s[i - 1] == DOT {
            proof {
                assert(s@.subrange(0, i as int).last() == DOT);
            }
            return Some(i - 1);
        }
        proof {
            assert(s@.subrange(0, i as int).drop_last() =~= s@.subrange(0, i as int - 1));
        }
        i = i - 1;
    }
    None
}

/// Append the bytes of `s[from..to]`.
fn extend_range(out: &mut Vec<u8>, s: &[u8], from: usize, to: usize)
    requires
        from <= to <= s@.len(),
    ensures
        final(out)@ == old(out)@ + s@.subrange(from as int, to as int),
{
    let ghost base = out@;
    let mut i: usize = from;
    proof {
        assert(base + s@.subrange(from as int, from as int) =~= base);
    }
    while i < to
        invariant
            from <= i <= to <= s@.len(),
            out@ == base + s@.subrange(from as int, i as int),
        decreases to - i,
    {
        out.push(s[i]);
        proof {
            assert(base + s@.subrange(from as int, i + 1 as int)
                =~= (base + s@.subrange(from as int, i as int)).push(s@[i as int]));
        }
        i = i + 1;
    }
}

/// Append a run of ASCII zeros.
fn push_zeros(out: &mut Vec<u8>, n: usize)
    ensures
        final(out)@ == old(out)@ + zeros(n as nat),
{
    let ghost base = out@;
    let mut i: usize = 0;
    proof {
        assert(base + zeros(0) =~= base);
    }
    while i < n
        invariant
            i <= n,
            out@ == base + zeros(i as nat),
        decreases n - i,
    {
        out.push(D0);
        proof {
            assert(base + zeros((i + 1) as nat) =~= (base + zeros(i as nat)).push(D0));
        }
        i = i + 1;
    }
}

/// The text normalized to a whole number of minor units.
fn normalize(s: &[u8]) -> (r: Vec<u8>)
    ensures
        r@ == spec_normalize(s@),
{
    let mut out: Vec<u8> = Vec::new();
    match find_last_dot(s) {
        None => {
            extend_range(&mut out, s, 0, s.len());
            push_zeros(&mut out, 4);
            proof {
                assert(out@ =~= spec_normalize(s@));
            }
        }
        Some(d) => {
            let frac = s.len() - 1 - d;
            if frac > 4 {
                extend_range(&mut out, s, 0, d);
                extend_range(&mut out, s, d + 1, s.len() - (frac - 4));
                proof {
                    assert(out@ =~= spec_normalize(s@));
                }
            } else {
                extend_range(&mut out, s, 0, d);
                extend_range(&mut out, s, d + 1, s.len());
                push_zeros(&mut out, 4 - frac);
                proof {
                    assert(out@ =~= spec_normalize(s@));
                }
            }
        }
    }
    out
}

/// Read a byte string as a signed machine integer: an optional sign, then at
/// least one digit, rejecting anything else and any value outside `i64`.
fn parse_i64(s: &[u8]) -> (r: Option<i64>)
    ensures
        r == spec_parse_i64(s@),
{
    let (neg, start): (bool, usize) = if s.len() > 0 && (s[0] == MINUS || s[0] == PLUS) {
        (s[0] == MINUS, 1)
    } else {
        (false, 0)
    };
    let ghost ds = if s@.len() > 0 && (s@[0] == MINUS || s@[0] == PLUS) {
        s@.drop_first()
    } else {
        s@
    };
    proof {
        assert(ds =~= s@.subrange(start as int, s@.len() as int));
    }
    if s.len() == start {
        return None;
    }
    let mut m: u128 = 0;
    let mut i: usize = start;
    proof {
        assert(s@.subrange(start as int, start as int) =~= Seq::<u8>::empty());
    }
    while i < s.len()
        invariant
            start <= i <= s@.len(),
            start < s@.len(),
            ds == s@.subrange(start as int, s@.len() as int),
            ds == (if s@.len() > 0 && (s@[0] == MINUS || s@[0] == PLUS) {
                s@.drop_first()
            } else {
                s@
            }),
            neg == (s@.len() > 0 && s@[0] == MINUS),
            all_digits(s@.subrange(start as int, i as int)),
            m == digits_value(s@.subrange(start as int, i as int)),
            m <= MAG_LIMIT,
        decreases s@.len() - i,
    {
        let ghost pre = s@.subrange(start as int, i as int);
        let c = s[i];
        if c < D0 || c > D9 {
            proof {
                assert(ds[i - start as int] == s@[i as int]);
                assert(!all_digits(ds));
            }
            return None;
        }
        m = m * 10 + (c - D0) as u128;
        i = i + 1;
        proof {
            let cur = s@.subrange(start as int, i as int);
            assert(cur.drop_last() =~= pre);
            assert(cur.last() == c);
            assert(digits_value(cur) == digits_value(pre) * 10 + (c - D0));
            assert forall|j: int| 0 <= j < cur.len() implies D0 <= #[trigger] cur[j] <= D9 by {
                if j < cur.len() - 1 {
                    assert(cur[j] == pre[j]);
                    assert(D0 <= pre[j] <= D9);
                }
            }
        }
        if m > MAG_LIMIT {
            proof {
                let cur = s@.subrange(start as int, i as int);
                assert(cur =~= ds.subrange(0, i - start as int));
                if all_digits(ds) {
                    lemma_digits_value_prefix(ds, i - start as int);
                    assert(digits_value(ds) >= digits_value(cur));
                    assert(digits_value(cur) == m);
                }
            }
            return None;
        }
    }
    proof {
        assert(s@.subrange(start as int, i as int) =~= ds);
    }
    if neg {
        if m == MAG_LIMIT {
            Some(i64::MIN)
        } else {
            Some(-(m as i64))
        }
    } else {
        if m == MAG_LIMIT {
            None
        } else {
            Some(m as i64)
        }
    }
}

/// Parse a decimal amount string into minor units: the last `.` is removed,
/// the fractional part is padded with zeros to four digits or truncated (not
/// rounded) beyond the fourth, and the result is read as a signed integer.
pub fn parse_amount(s: &[u8]) -> (r: Option<i64>)
    ensures
        r == spec_parse_amount(s@),
{
    let n = normalize(s);
    parse_i64(n.as_slice())
}

/// Render a minor-unit amount as decimal text with exactly four fractional
/// digits: the magnitude's digits padded with leading zeros to at least
/// five, a `.` before the last four, and a leading `-` when negative.
pub fn format_amount(amount: i64) -> (r: Vec<u8>)
    ensures
        r@ == spec_format_amount(amount),
{
    let mag: u64 = if amount < 0 {
        (-(amount as i128)) as u64
    } else {
        amount as u64
    };
    let mut rev: Vec<u8> = Vec::new();
    let mut n: u64 = mag;
    proof {
        assert(spec_digits_of(mag as nat) =~= spec_digits_of(n as nat) + rev@.reverse());
    }
    while n >= 10
        invariant
            spec_digits_of(mag as nat) == spec_digits_of(n as nat) + rev@.reverse(),
        decreases n,
    {
        let d = (n % 10) as u8 + D0;
        let ghost prev = rev@;
        rev.push(d);
        proof {
            assert(rev@.reverse() =~= seq![d] + prev.reverse());
            assert(spec_digits_of(n as nat) =~= spec_digits_of((n / 10) as nat) + seq![d]);
            assert(spec_digits_of((n / 10) as nat) + rev@.reverse()
                =~= spec_digits_of(n as nat) + prev.reverse());
        }
        n = n / 10;
    }
    let ghost prev = rev@;
    rev.push(n as u8 + D0);
    proof {
        assert(rev@.reverse() =~= seq![(n as u8 + D0) as u8] + prev.reverse());
        assert(spec_digits_of(n as nat) =~= seq![(n as u8 + D0) as u8]);
        assert(spec_digits_of(mag as nat) =~= rev@.reverse());
    }
    let mut padded: Vec<u8> = Vec::new();
    if rev.len() < 5 {
        push_zeros(&mut padded, 5 - rev.len());
    }
    let ghost pad = padded@;
    let mut k: usize = rev.len();
    proof {
        assert(pad + rev@.subrange(k as int, rev@.len() as int).reverse() =~= pad);
    }
    while k > 0
        invariant
            k <= rev@.len(),
            padded@ == pad + rev@.subrange(k as int, rev@.len() as int).reverse(),
        decreases k,
    {
        k = k - 1;
        padded.push(rev[k]);
        proof {
            assert(pad + rev@.subrange(k as int, rev@.len() as int).reverse()
                =~= (pad + rev@.subrange(k + 1 as int, rev@.len() as int).reverse()).push(
                rev@[k as int]));
        }
    }
    proof {
        assert(rev@.subrange(0, rev@.len() as int) =~= rev@);
        assert(padded@ =~= pad + rev@.reverse());
    }
    let mut out: Vec<u8> = Vec::new();
    if amount < 0 {
        out.push(MINUS);
    }
    let cut = padded.len() - 4;
    extend_range(&mut out, padded.as_slice(), 0, cut);
    out.push(DOT);
    extend_range(&mut out, padded.as_slice(), cut, padded.len());
    proof {
        assert(out@ =~= spec_format_amount(amount));
    }
    out
}

} // verus!
