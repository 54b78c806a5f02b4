//! Number tokens: the scan of a number and the prefix `strtod` accepts.
//!
//! Converting a token to a double (and printing or comparing doubles) is floating-point
//! work; the functions here take it as a closure, [`NumParse`], over the token's bytes
//! that returns the IEEE-754 bits of the double and its value saturated to `i32`.
use vstd::prelude::*;
use crate::store::{NodeId, SafeStore, NodeData};

verus! {

pub open spec fn is_digit(c: u8) -> bool {
    48 <= c <= 57
}

/// A byte that the number scan takes: a digit, a sign, an exponent letter or a point.
pub open spec fn is_number_byte(c: u8) -> bool {
    is_digit(c) || c == 43 || c == 45 || c == 101 || c == 69 || c == 46
}

/// Index of the first byte at or after `i` that the number scan does not take.
pub open spec fn scan_end(s: Seq<u8>, i: int) -> int
    decreases s.len() - i,
{
    if i < 0 || i >= s.len() || !is_number_byte(s[i]) {
        i
    } else {
        scan_end(s, i + 1)
    }
}

/// Whether a point occurs in `s[i..j]`.
pub open spec fn has_point(s: Seq<u8>, i: int, j: int) -> bool {
    exists|k: int| i <= k < j && s[k] == 46
}

pub proof fn lemma_scan_end_bounds(s: Seq<u8>, i: int)
    requires
        0 <= i <= s.len(),
    ensures
        i <= scan_end(s, i) <= s.len(),
        forall|k: int| i <= k < scan_end(s, i) ==> is_number_byte(s[k]),
    decreases s.len() - i,
{
    if i < s.len() && is_number_byte(s[i]) {
        lemma_scan_end_bounds(s, i + 1);
    }
}

/// Scan a C-style number token (digits, sign, exponent, decimal point) from `start`:
/// its end, and whether it holds a point. A start at or past the end gives `(start, false)`.
pub fn scan_number_token(input: &[u8], start: usize) -> (r: (usize, bool))
    ensures
        r.0 == scan_end(input@, start as int),
        r.1 == has_point(input@, start as int, r.0 as int),
        start >= input@.len() ==> r == (start, false),
{
    if start >= input.len() {
        return (start, false);
    }
    let mut i = start;
    let mut has_decimal = false;
    while i < input.len()
        invariant_except_break
            scan_end(input@, i as int) == scan_end(input@, start as int),
        invariant
            start <= i <= input@.len(),
            has_decimal == has_point(input@, start as int, i as int),
        ensures
            i == scan_end(input@, start as int),
            has_decimal == has_point(input@, start as int, i as int),
        decreases input.len() - i,
    {
        let c = input[i];
        if (c >= 48 && c <= 57) || c == 43 || c == 45 || c == 101 || c == 69 {
            i += 1;
            proof {
                assert forall|k: int| start <= k < i && input@[k] == 46 implies k < i - 1 by {}
            }
        } else if c == 46 {
            has_decimal = true;
            i += 1;
        } else {
            break;
        }
    }
    (i, has_decimal)
}

/// Index of the first non-digit at or after `i`.
pub open spec fn digits_end(s: Seq<u8>, i: int) -> int
    decreases s.len() - i,
{
    if i < 0 || i >= s.len() || !is_digit(s[i]) {
        i
    } else {
        digits_end(s, i + 1)
    }
}

pub proof fn lemma_digits_end_bounds(s: Seq<u8>, i: int)
    requires
        0 <= i <= s.len(),
    ensures
        i <= digits_end(s, i) <= s.len(),
    decreases s.len() - i,
{
    if i < s.len() && is_digit(s[i]) {
        lemma_digits_end_bounds(s, i + 1);
    }
}

/// Length of the prefix of `s` that `strtod` accepts: an optional sign, digits with an
/// optional fraction (at least one digit in all), and an exponent only where digits
/// follow it; `None` where no digit comes.
pub open spec fn strtod_len(s: Seq<u8>) -> Option<int> {
    let a = if s.len() > 0 && (s[0] == 43 || s[0] == 45) { 1int } else { 0int };
    let b = digits_end(s, a);
    let (c, frac_digits) = if b < s.len() && s[b] == 46 {
        (digits_end(s, b + 1), digits_end(s, b + 1) > b + 1)
    } else {
        (b, false)
    };
    if !(b > a || frac_digits) {
        None
    } else if c < s.len() && (s[c] == 101 || s[c] == 69) {
        let e = if c + 1 < s.len() && (s[c + 1] == 43 || s[c + 1] == 45) { c + 2 } else { c + 1 };
        let f = digits_end(s, e);
        if f == e { Some(c) } else { Some(f) }
    } else {
        Some(c)
    }
}

fn digits_from(s: &[u8], start: usize) -> (r: usize)
    requires
        start <= s@.len(),
    ensures
        r == digits_end(s@, start as int),
{
    let mut i = start;
    while i < s.len() && s[i] >= 48 && s[i] <= 57
        invariant
            start <= i <= s@.len(),
            digits_end(s@, i as int) == digits_end(s@, start as int),
        decreases s.len() - i,
    {
        i += 1;
    }
    i
}

/// Length of the prefix of `s` that `strtod` would accept (sign, digits, fraction, exponent).
pub fn strtod_prefix(s: &[u8]) -> (r: Option<usize>)
    ensures
        match r {
            Some(n) => strtod_len(s@) == Some(n as int),
            None => strtod_len(s@) is None,
        },
{
    let mut i: usize = 0;
    if i < s.len() && (s[i] == 43 || s[i] == 45) {
        i += 1;
    }
    let start_digits = i;
    i = digits_from(s, i);
    let mut saw_digit = i > start_digits;
    let b = i;
    proof { lemma_digits_end_bounds(s@, start_digits as int); }
    if i < s.len() && s[i] == 46 {
        i += 1;
        let frac = i;
        i = digits_from(s, i);
        proof { lemma_digits_end_bounds(s@, frac as int); }
        saw_digit = saw_digit || i > frac;
    }
    if !saw_digit {
        return None;
    }
    if i < s.len() && (s[i] == 101 || s[i] == 69) {
        let e = i;
        i += 1;
        if i < s.len() && (s[i] == 43 || s[i] == 45) {
            i += 1;
        }
        let exp = i;
        i = digits_from(s, i);
        if i == exp {
            i = e;
        }
    }
    Some(i)
}

/// The closure type that converts a number token to (IEEE-754 bits of the double,
/// the double saturated to `i32`).
pub open spec fn num_parse_ok<F: Fn(&[u8]) -> (u64, i32)>(f: F) -> bool {
    &&& forall|t: &[u8]| #[trigger] f.requires((t,))
    &&& forall|t1: &[u8], t2: &[u8], r1: (u64, i32), r2: (u64, i32)|
        t1@ == t2@ && #[trigger] f.ensures((t1,), r1) && #[trigger] f.ensures((t2,), r2) ==> r1 == r2
}

pub open spec fn num_trigger(r: (u64, i32)) -> bool {
    true
}

/// What a total, deterministic number conversion gives for a token.
pub open spec fn num_of<F: Fn(&[u8]) -> (u64, i32)>(f: F, t: Seq<u8>) -> (u64, i32) {
    choose|r: (u64, i32)| #![trigger num_trigger(r)] exists|s: &[u8]| s@ == t && #[trigger] f.ensures((s,), r)
}

/// Call a number conversion on a token.
pub fn call_num_parse<F: Fn(&[u8]) -> (u64, i32)>(f: &F, t: &[u8]) -> (r: (u64, i32))
    requires
        num_parse_ok(*f),
    ensures
        r == num_of(*f, t@),
{
    let r = f(t);
    assert(num_trigger(r));
    assert(exists|s: &[u8]| s@ == t@ && #[trigger] f.ensures((s,), r));
    r
}

/// What the number parse makes of the number that starts at `off`: the value from
/// the conversion of the accepted prefix of the scanned token, and the offset after it.
pub open spec fn spec_parse_number<F: Fn(&[u8]) -> (u64, i32)>(input: Seq<u8>, off: int, f: F) -> Option<((u64, i32), int)> {
    if off < 0 || off >= input.len() {
        None
    } else {
        let end = scan_end(input, off);
        if end == off {
            None
        } else {
            let token = input.subrange(off, end);
            match strtod_len(token) {
                None => None,
                Some(n) => if n == 0 { None } else { Some((num_of(f, token.subrange(0, n)), off + n)) },
            }
        }
    }
}

/// Parse a number at `offset` into `item`. Returns the new offset on success.
pub fn parse_number<F: Fn(&[u8]) -> (u64, i32)>(
    store: &mut SafeStore,
    item: NodeId,
    input: &[u8],
    offset: usize,
    conv: &F,
) -> (r: Option<usize>)
    requires
        old(store)@.live(item),
        num_parse_ok(*conv),
    ensures
        match spec_parse_number(input@, offset as int, *conv) {
            None => r is None && final(store)@ == old(store)@,
            Some((v, end)) => r == Some(end as usize) && end <= input@.len()
                && final(store)@ == old(store)@.with_node(item, NodeData {
                    ty: crate::types::NUMBER, valueint: v.1, valuedouble: v.0, ..old(store)@.nodes[item] }),
        },
{
    if offset >= input.len() {
        return None;
    }
    let (end, _has_dot) = scan_number_token(input, offset);
    if end == offset {
        return None;
    }
    proof { lemma_scan_end_bounds(input@, offset as int); }
    let token = crate::string::slice_range(input, offset, end);
    let n = match strtod_prefix(token) {
        Some(n) => n,
        None => return None,
    };
    if n == 0 {
        return None;
    }
    proof { lemma_strtod_len_bound(token@); }
    let prefix = crate::string::slice_range(token, 0, n);
    let (bits, saturated) = call_num_parse(conv, prefix);
    store.set_valuedouble(item, bits);
    store.set_valueint(item, saturated);
    store.set_ty(item, crate::types::NUMBER);
    proof {
        let d = NodeData { ty: crate::types::NUMBER, valueint: saturated, valuedouble: bits, ..old(store)@.nodes[item] };
        assert(store@.nodes =~= old(store)@.nodes.insert(item, d));
        assert(store@ == old(store)@.with_node(item, d));
    }
    Some(offset + n)
}

pub proof fn lemma_strtod_len_bound(s: Seq<u8>)
    ensures
        strtod_len(s) matches Some(n) ==> 0 <= n <= s.len(),
{
    let a = if s.len() > 0 && (s[0] == 43 || s[0] == 45) { 1int } else { 0int };
    lemma_digits_end_bounds(s, a);
    let b = digits_end(s, a);
    if b < s.len() && s[b] == 46 {
        lemma_digits_end_bounds(s, b + 1);
    }
    let c = if b < s.len() && s[b] == 46 { digits_end(s, b + 1) } else { b };
    if c < s.len() {
        let e = if c + 1 < s.len() && (s[c + 1] == 43 || s[c + 1] == 45) { c + 2 } else { c + 1 };
        lemma_digits_end_bounds(s, e);
    }
}

} // verus!

verus! {

/// A parsed number ends after its first byte and within the input.
pub proof fn lemma_parse_number_bounds<F: Fn(&[u8]) -> (u64, i32)>(input: Seq<u8>, off: int, f: F)
    ensures
        spec_parse_number(input, off, f) matches Some((v, e)) ==> off < e <= input.len(),
{
    if 0 <= off < input.len() {
        lemma_scan_end_bounds(input, off);
        let end = scan_end(input, off);
        lemma_strtod_len_bound(input.subrange(off, end));
    }
}

} // verus!
