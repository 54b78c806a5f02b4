//! String parsing (including `\uXXXX` surrogate pairs) and JSON string escaping.
use vstd::prelude::*;
use crate::store::{NodeId, SafeStore, NodeData, StrId};

verus! {

/// The value of an ASCII hex digit.
pub open spec fn hex_digit(c: u8) -> Option<u32> {
    if 48 <= c <= 57 {
        Some((c - 48) as u32)
    } else if 65 <= c <= 70 {
        Some((c - 55) as u32)
    } else if 97 <= c <= 102 {
        Some((c - 87) as u32)
    } else {
        None
    }
}

/// Four hex digits read big-endian; any non-hex digit among them
/// makes the result 0 (not a failure); fewer than four bytes is a failure.
pub open spec fn spec_hex4(s: Seq<u8>) -> Option<u32> {
    if s.len() < 4 {
        None
    } else {
        match (hex_digit(s[0]), hex_digit(s[1]), hex_digit(s[2]), hex_digit(s[3])) {
            (Some(a), Some(b), Some(c), Some(d)) => Some((a * 4096 + b * 256 + c * 16 + d) as u32),
            _ => Some(0),
        }
    }
}

fn hex_value(c: u8) -> (r: Option<u32>)
    ensures
        r == hex_digit(c),
        r matches Some(v) ==> v < 16,
{
    if c >= 48 && c <= 57 {
        Some((c - 48) as u32)
    } else if c >= 65 && c <= 70 {
        Some((c - 55) as u32)
    } else if c >= 97 && c <= 102 {
        Some((c - 87) as u32)
    } else {
        None
    }
}

pub fn parse_hex4(input: &[u8]) -> (r: Option<u32>)
    ensures
        r == spec_hex4(input@),
        r matches Some(v) ==> v <= 0xFFFF,
{
    if input.len() < 4 {
        return None;
    }
    let a = hex_value(input[0]);
    let b = hex_value(input[1]);
    let c = hex_value(input[2]);
    let d = hex_value(input[3]);
    match (a, b, c, d) {
        (Some(a), Some(b), Some(c), Some(d)) => Some(a * 4096 + b * 256 + c * 16 + d),
        _ => Some(0),
    }
}

/// UTF-8 encoding of a Unicode scalar value.
pub open spec fn utf8_encode(cp: u32) -> Seq<u8> {
    if cp < 0x80 {
        seq![cp as u8]
    } else if cp < 0x800 {
        seq![(0xC0 + cp / 64) as u8, (0x80 + cp % 64) as u8]
    } else if cp < 0x10000 {
        seq![(0xE0 + cp / 4096) as u8, (0x80 + (cp / 64) % 64) as u8, (0x80 + cp % 64) as u8]
    } else {
        seq![
            (0xF0 + cp / 262144) as u8,
            (0x80 + (cp / 4096) % 64) as u8,
            (0x80 + (cp / 64) % 64) as u8,
            (0x80 + cp % 64) as u8,
        ]
    }
}

fn encode_utf8(cp: u32) -> (r: Vec<u8>)
    requires
        cp <= 0x10FFFF,
    ensures
        r@ == utf8_encode(cp),
{
    let mut out: Vec<u8> = Vec::new();
    if cp < 0x80 {
        out.push(cp as u8);
    } else if cp < 0x800 {
        out.push((0xC0 + cp / 64) as u8);
        out.push((0x80 + cp % 64) as u8);
    } else if cp < 0x10000 {
        out.push((0xE0 + cp / 4096) as u8);
        out.push((0x80 + (cp / 64) % 64) as u8);
        out.push((0x80 + cp % 64) as u8);
    } else {
        out.push((0xF0 + cp / 262144) as u8);
        out.push((0x80 + (cp / 4096) % 64) as u8);
        out.push((0x80 + (cp / 64) % 64) as u8);
        out.push((0x80 + cp % 64) as u8);
    }
    assert(out@ =~= utf8_encode(cp));
    out
}

/// The code point that a `\uXXXX` escape (or a surrogate pair of two of them) at the
/// start of `s` denotes, with the length of the escape; `None` where it is rejected:
/// fewer than six bytes, a lone low surrogate, or a high surrogate not followed by
/// `\u` and a low surrogate.
pub open spec fn utf16_escape(s: Seq<u8>) -> Option<(u32, int)> {
    if s.len() < 6 {
        None
    } else {
        let first = spec_hex4(s.subrange(2, 6)).unwrap();
        if 0xDC00 <= first <= 0xDFFF {
            None
        } else if 0xD800 <= first <= 0xDBFF {
            if s.len() < 12 || s[6] != 92 || s[7] != 117 {
                None
            } else {
                let second = spec_hex4(s.subrange(8, 12)).unwrap();
                if !(0xDC00 <= second <= 0xDFFF) {
                    None
                } else {
                    Some(((0x10000 + (first - 0xD800) * 1024 + (second - 0xDC00)) as u32, 12))
                }
            }
        } else {
            Some((first, 6))
        }
    }
}

/// The UTF-8 bytes and the escape length of a `\uXXXX` escape at the start of `s`.
pub open spec fn spec_utf16_to_utf8(s: Seq<u8>) -> Option<(Seq<u8>, int)> {
    match utf16_escape(s) {
        Some((cp, n)) => Some((utf8_encode(cp), n)),
        None => None,
    }
}

/// Convert a `\uXXXX` or surrogate pair starting at `input[0] == b'\\'`.
/// Returns (utf8 bytes, input sequence length).
pub fn utf16_literal_to_utf8(input: &[u8]) -> (r: Option<(Vec<u8>, usize)>)
    ensures
        match r {
            Some((v, n)) => spec_utf16_to_utf8(input@) == Some((v@, n as int)),
            None => spec_utf16_to_utf8(input@) is None,
        },
{
    if input.len() < 6 {
        return None;
    }
    let first_code = match parse_hex4(slice_range(input, 2, 6)) {
        Some(v) => v,
        None => return None,
    };
    if first_code >= 0xDC00 && first_code <= 0xDFFF {
        return None;
    }
    let (codepoint, sequence_length) = if first_code >= 0xD800 && first_code <= 0xDBFF {
        if input.len() < 12 {
            return None;
        }
        if input[6] != 92 || input[7] != 117 {
            return None;
        }
        let second_code = match parse_hex4(slice_range(input, 8, 12)) {
            Some(v) => v,
            None => return None,
        };
        if !(second_code >= 0xDC00 && second_code <= 0xDFFF) {
            return None;
        }
        (0x10000 + (first_code - 0xD800) * 1024 + (second_code - 0xDC00), 12usize)
    } else {
        (first_code, 6usize)
    };
    let out = encode_utf8(codepoint);
    Some((out, sequence_length))
}

/// The subslice `s[start..end]`.
pub fn slice_range(s: &[u8], start: usize, end: usize) -> (r: &[u8])
    requires
        start <= end <= s@.len(),
    ensures
        r@ == s@.subrange(start as int, end as int),
{
    &s[start..end]
}

/// Index of the quote that closes a string body starting at `i`, skipping the byte after
/// each backslash; `None` where the text ends first.
pub open spec fn string_close(s: Seq<u8>, i: int) -> Option<int>
    decreases s.len() - i,
{
    if i < 0 || i >= s.len() {
        None
    } else if s[i] == 34 {
        Some(i)
    } else if s[i] == 92 {
        if i + 1 >= s.len() {
            None
        } else {
            string_close(s, i + 2)
        }
    } else {
        string_close(s, i + 1)
    }
}

/// The byte a one-letter escape stands for.
pub open spec fn simple_escape(c: u8) -> Option<u8> {
    if c == 98 {
        Some(8u8)
    } else if c == 102 {
        Some(12u8)
    } else if c == 110 {
        Some(10u8)
    } else if c == 114 {
        Some(13u8)
    } else if c == 116 {
        Some(9u8)
    } else if c == 34 || c == 92 || c == 47 {
        Some(c)
    } else {
        None
    }
}

/// The decoded bytes of `s[p..end]` (a string body), or the index of the first escape
/// that are rejected.
#[verifier::opaque]
pub open spec fn decode_body(s: Seq<u8>, p: int, end: int) -> Result<Seq<u8>, int>
    decreases end - p,
{
    if p < 0 || p >= end || end > s.len() {
        Ok(seq![])
    } else if s[p] != 92 {
        match decode_body(s, p + 1, end) {
            Ok(r) => Ok(seq![s[p]] + r),
            Err(e) => Err(e),
        }
    } else if p + 1 >= end {
        Err(p)
    } else if s[p + 1] == 117 {
        match spec_utf16_to_utf8(s.subrange(p, end)) {
            Some((b, n)) => if n > 0 {
                match decode_body(s, p + n, end) {
                    Ok(r) => Ok(b + r),
                    Err(e) => Err(e),
                }
            } else {
                Err(p)
            },
            None => Err(p),
        }
    } else {
        match simple_escape(s[p + 1]) {
            Some(c) => match decode_body(s, p + 2, end) {
                Ok(r) => Ok(seq![c] + r),
                Err(e) => Err(e),
            },
            None => Err(p),
        }
    }
}

/// The string parse at `off`: the decoded bytes and the offset after the closing
/// quote, or the offset where it fails.
pub open spec fn spec_parse_string(s: Seq<u8>, off: int) -> Result<(Seq<u8>, int), int> {
    if off < 0 || off >= s.len() || s[off] != 34 {
        Err(off)
    } else {
        match string_close(s, off + 1) {
            None => Err(off + 1),
            Some(e) => match decode_body(s, off + 1, e) {
                Err(p) => Err(p),
                Ok(b) => Ok((b, e + 1)),
            },
        }
    }
}

pub proof fn lemma_string_close_bounds(s: Seq<u8>, i: int)
    requires
        0 <= i,
    ensures
        string_close(s, i) matches Some(e) ==> i <= e < s.len() && s[e] == 34,
    decreases s.len() - i,
{
    if 0 <= i < s.len() && s[i] != 34 {
        if s[i] == 92 {
            if i + 1 < s.len() {
                lemma_string_close_bounds(s, i + 2);
            }
        } else {
            lemma_string_close_bounds(s, i + 1);
        }
    }
}

pub proof fn lemma_decode_err_bound(s: Seq<u8>, p: int, end: int)
    ensures
        decode_body(s, p, end) matches Err(x) ==> p <= x < end,
    decreases end - p,
{
    reveal(decode_body);
    if 0 <= p < end && end <= s.len() {
        if s[p] != 92 {
            lemma_decode_err_bound(s, p + 1, end);
        } else if p + 1 < end {
            if s[p + 1] == 117 {
                match spec_utf16_to_utf8(s.subrange(p, end)) {
                    Some((b, n)) => { if n > 0 { lemma_decode_err_bound(s, p + n, end); } },
                    None => {},
                }
            } else {
                lemma_decode_err_bound(s, p + 2, end);
            }
        }
    }
}

/// Where a string parse fails: at the offset itself, or within the text after it.
pub proof fn lemma_parse_string_bounds(s: Seq<u8>, off: int)
    requires
        0 <= off <= s.len(),
    ensures
        spec_parse_string(s, off) matches Err(e) ==> off <= e <= s.len(),
        spec_parse_string(s, off) matches Ok((b, e)) ==> off + 2 <= e <= s.len(),
{
    lemma_string_close_bounds(s, off + 1);
    if off < s.len() && s[off] == 34 {
        match string_close(s, off + 1) {
            Some(e) => { lemma_decode_err_bound(s, off + 1, e); },
            None => {},
        }
    }
}

proof fn lemma_utf16_len(s: Seq<u8>)
    ensures
        spec_utf16_to_utf8(s) matches Some((b, n)) ==> (n == 6 || n == 12) && n <= s.len(),
{
}

/// The result of a decode of `s[p..end]` given the decode of what follows the bytes
/// already produced.
pub open spec fn decode_join(out: Seq<u8>, rest: Result<Seq<u8>, int>) -> Result<Seq<u8>, int> {
    match rest {
        Ok(r) => Ok(out + r),
        Err(e) => Err(e),
    }
}

/// Append every byte of `b` to `out`.
pub fn push_all(out: &mut Vec<u8>, b: &Vec<u8>)
    ensures
        final(out)@ == old(out)@ + b@,
{
    let ghost pre = out@;
    let mut j: usize = 0;
    while j < b.len()
        invariant
            j <= b@.len(),
            out@ == pre + b@.subrange(0, j as int),
        decreases b.len() - j,
    {
        out.push(b[j]);
        j += 1;
        proof { assert(out@ =~= pre + b@.subrange(0, j as int)); }
    }
    assert(b@.subrange(0, b@.len() as int) =~= b@);
}

/// Decode the next byte or escape of a string body at `p` (before `end`): the bytes it
/// stands for and the index after it, or the index of a rejected escape.
fn decode_step(input: &[u8], p: usize, end: usize) -> (r: Result<(Vec<u8>, usize), usize>)
    requires
        p < end < input@.len(),
    ensures
        match r {
            Ok((b, np)) => p < np <= end
                && decode_body(input@, p as int, end as int) == decode_join(b@, decode_body(input@, np as int, end as int)),
            Err(x) => decode_body(input@, p as int, end as int) == Err::<Seq<u8>, int>(x as int),
        },
{
    reveal(decode_body);
    let mut out: Vec<u8> = Vec::new();
    if input[p] != 92 {
        out.push(input[p]);
        proof {
            assert(out@ =~= seq![input@[p as int]]);
            match decode_body(input@, p + 1, end as int) {
                Ok(rr) => { assert(seq![input@[p as int]] + rr =~= out@ + rr); },
                Err(x) => {},
            }
        }
        return Ok((out, p + 1));
    }
    if p + 1 >= end {
        return Err(p);
    }
    let c = input[p + 1];
    if c == 117 {
        let rest = slice_range(input, p, end);
        proof { lemma_utf16_len(rest@); }
        return match utf16_literal_to_utf8(rest) {
            Some((bytes, n)) => Ok((bytes, p + n)),
            None => Err(p),
        };
    }
    let b: u8 = if c == 98 {
        8
    } else if c == 102 {
        12
    } else if c == 110 {
        10
    } else if c == 114 {
        13
    } else if c == 116 {
        9
    } else if c == 34 || c == 92 || c == 47 {
        c
    } else {
        return Err(p);
    };
    out.push(b);
    proof {
        assert(out@ =~= seq![b]);
    }
    Ok((out, p + 2))
}

/// Parse a JSON string at `offset` (must start with `"`). On success, sets the item to a
/// String holding the decoded bytes and returns the offset after the closing quote; on
/// failure returns the offset where it failed and leaves the store as it was.
pub fn parse_string(store: &mut SafeStore, item: NodeId, input: &[u8], offset: usize) -> (r: Result<usize, usize>)
    requires
        old(store)@.live(item),
    ensures
        match spec_parse_string(input@, offset as int) {
            Err(e) => r == Err::<usize, usize>(e as usize) && final(store)@ == old(store)@,
            Ok((b, end)) => if old(store)@.fail_allocs {
                r == Err::<usize, usize>(offset) && final(store)@ == old(store)@
            } else {
                r == Ok::<usize, usize>(end as usize) && end <= input@.len()
                && exists|sid: StrId| {
                    &&& !old(store)@.strings.contains_key(sid)
                    &&& sid.0 < final(store)@.str_slots
                    &&& final(store)@.strings == old(store)@.strings.insert(sid, b)
                    &&& final(store)@.nodes == old(store)@.nodes.insert(item, NodeData {
                        ty: crate::types::STRING, valuestring: Some(sid), ..old(store)@.nodes[item] })
                    &&& final(store)@.str_slots >= old(store)@.str_slots
                    &&& final(store)@.fail_allocs == old(store)@.fail_allocs
                }
            },
        },
{
    if offset >= input.len() || input[offset] != 34 {
        return Err(offset);
    }
    let mut input_end = offset + 1;
    while input_end < input.len() && input[input_end] != 34
        invariant
            offset < input_end <= input@.len(),
            offset < input@.len(),
            input@[offset as int] == 34,
            string_close(input@, offset + 1) == string_close(input@, input_end as int),
        decreases input.len() - input_end,
    {
        if input[input_end] == 92 {
            if input_end + 1 >= input.len() {
                return Err(offset + 1);
            }
            input_end += 1;
        }
        input_end += 1;
    }
    if input_end >= input.len() || input[input_end] != 34 {
        return Err(offset + 1);
    }
    let ghost e = input_end as int;
    assert(string_close(input@, offset + 1) == Some(e));
    let mut output: Vec<u8> = Vec::new();
    let mut p = offset + 1;
    while p < input_end
        invariant
            offset < p,
            input_end < input@.len(),
            e == input_end,
            input@[offset as int] == 34,
            string_close(input@, offset + 1) == Some(e),
            decode_body(input@, offset + 1, e) == decode_join(output@, decode_body(input@, p as int, e)),
        decreases input_end - p,
    {
        match decode_step(input, p, input_end) {
            Err(x) => {
                return Err(x);
            },
            Ok((bytes, np)) => {
                let ghost pre = output@;
                push_all(&mut output, &bytes);
                proof {
                    match decode_body(input@, np as int, e) {
                        Ok(r) => { assert(pre + (bytes@ + r) =~= output@ + r); },
                        Err(x) => {},
                    }
                }
                p = np;
            },
        }
    }
    proof {
        reveal(decode_body);
        assert(decode_body(input@, p as int, e) == Ok::<Seq<u8>, int>(seq![]));
        assert(output@ + seq![] =~= output@);
    }
    let sid = match store.alloc_str(output.as_slice()) {
        Some(sid) => sid,
        None => return Err(offset),
    };
    store.set_ty(item, crate::types::STRING);
    store.set_valuestring_id(item, Some(sid));
    proof {
        let d = NodeData { ty: crate::types::STRING, valuestring: Some(sid), ..old(store)@.nodes[item] };
        assert(store@.nodes =~= old(store)@.nodes.insert(item, d));
    }
    Ok(input_end + 1)
}

/// Lower-case hex digit of a value below 16.
pub open spec fn hex_lower(v: u8) -> u8 {
    if v < 10 {
        (48 + v) as u8
    } else {
        (87 + v) as u8
    }
}

/// How one byte appears inside a printed JSON string.
pub open spec fn escape_byte(c: u8) -> Seq<u8> {
    if c == 34 {
        seq![92u8, 34u8]
    } else if c == 92 {
        seq![92u8, 92u8]
    } else if c == 8 {
        seq![92u8, 98u8]
    } else if c == 12 {
        seq![92u8, 102u8]
    } else if c == 10 {
        seq![92u8, 110u8]
    } else if c == 13 {
        seq![92u8, 114u8]
    } else if c == 9 {
        seq![92u8, 116u8]
    } else if c < 32 {
        seq![92u8, 117u8, 48u8, 48u8, hex_lower(c / 16), hex_lower(c % 16)]
    } else {
        seq![c]
    }
}

/// The escaped form of every byte of `s`, in order.
pub open spec fn escaped_body(s: Seq<u8>) -> Seq<u8>
    decreases s.len(),
{
    if s.len() == 0 {
        seq![]
    } else {
        escaped_body(s.drop_last()) + escape_byte(s.last())
    }
}

/// A quoted JSON string; an absent string prints as `""`.
pub open spec fn spec_escape_string(input: Option<Seq<u8>>) -> Seq<u8> {
    match input {
        Some(s) => seq![34u8] + escaped_body(s) + seq![34u8],
        None => seq![34u8, 34u8],
    }
}

/// The number of bytes the escaped form of `c` takes: two for a quote, a backslash and the
/// five control bytes with a short escape, six for another control byte, else one.
pub open spec fn escape_width(c: u8) -> nat {
    if c == 34 || c == 92 || c == 8 || c == 9 || c == 10 || c == 12 || c == 13 {
        2
    } else if c < 32 {
        6
    } else {
        1
    }
}

/// The sum of the escape widths of the bytes of `s`.
pub open spec fn escaped_width(s: Seq<u8>) -> nat
    decreases s.len(),
{
    if s.len() == 0 { 0 } else { escaped_width(s.drop_last()) + escape_width(s.last()) }
}

/// No byte of `s` needs escaping: no quote, no backslash, no control byte.
pub open spec fn plain_text(s: Seq<u8>) -> bool {
    forall|i: int| 0 <= i < s.len() ==> s[i] != 34 && s[i] != 92 && s[i] >= 32
}

proof fn lemma_escaped_body(s: Seq<u8>)
    ensures
        escaped_body(s).len() == escaped_width(s),
        forall|i: int| 0 <= i < escaped_body(s).len() ==> escaped_body(s)[i] >= 32,
        plain_text(s) ==> escaped_body(s) == s,
    decreases s.len(),
{
    if s.len() > 0 {
        let p = s.drop_last();
        lemma_escaped_body(p);
        let c = s.last();
        let e = escape_byte(c);
        assert(forall|i: int| 0 <= i < e.len() ==> e[i] >= 32) by {
            if c < 32 && !(c == 8 || c == 9 || c == 10 || c == 12 || c == 13) {
                assert(hex_lower(c / 16) >= 32 && hex_lower(c % 16) >= 32);
            }
        }
        let b = escaped_body(s);
        assert(b == escaped_body(p) + e);
        assert forall|i: int| 0 <= i < b.len() implies b[i] >= 32 by {
            if i < escaped_body(p).len() {
                assert(b[i] == escaped_body(p)[i]);
            } else {
                assert(b[i] == e[i - escaped_body(p).len()]);
            }
        }
        if plain_text(s) {
            assert(plain_text(p)) by {
                assert forall|i: int| 0 <= i < p.len() implies p[i] != 34 && p[i] != 92 && p[i] >= 32 by {
                    assert(p[i] == s[i]);
                }
            }
            assert(s[s.len() - 1] == c);
            assert(s == p.push(c));
            assert(e == seq![c]);
            assert(b =~= s);
        }
    }
}

/// A quoted string begins and ends with a quote, holds no control byte, is two bytes longer
/// than the escape widths of the text, and is the text itself between quotes when nothing in
/// it needs escaping.
pub proof fn law_escape_string(s: Seq<u8>)
    ensures
        ({
            let r = spec_escape_string(Some(s));
            &&& r[0] == 34u8
            &&& r[r.len() - 1] == 34u8
            &&& forall|i: int| 0 <= i < r.len() ==> r[i] >= 32
            &&& r.len() == 2 + escaped_width(s)
            &&& plain_text(s) ==> r == seq![34u8] + s + seq![34u8]
        }),
{
    lemma_escaped_body(s);
    let b = escaped_body(s);
    let r = spec_escape_string(Some(s));
    assert(r == seq![34u8] + b + seq![34u8]);
    assert forall|i: int| 0 <= i < r.len() implies r[i] >= 32 by {
        if 0 < i < r.len() - 1 {
            assert(r[i] == b[i - 1]);
        }
    }
}

fn push_escaped(out: &mut Vec<u8>, c: u8)
    ensures
        final(out)@ == old(out)@ + escape_byte(c),
{
    let ghost o = out@;
    if c == 34 {
        out.push(92);
        out.push(34);
    } else if c == 92 {
        out.push(92);
        out.push(92);
    } else if c == 8 {
        out.push(92);
        out.push(98);
    } else if c == 12 {
        out.push(92);
        out.push(102);
    } else if c == 10 {
        out.push(92);
        out.push(110);
    } else if c == 13 {
        out.push(92);
        out.push(114);
    } else if c == 9 {
        out.push(92);
        out.push(116);
    } else if c < 32 {
        out.push(92);
        out.push(117);
        out.push(48);
        out.push(48);
        let hi = c / 16;
        let lo = c % 16;
        out.push(if hi < 10 { 48 + hi } else { 87 + hi });
        out.push(if lo < 10 { 48 + lo } else { 87 + lo });
    } else {
        out.push(c);
    }
    assert(out@ =~= o + escape_byte(c));
}

pub fn escape_string(input: Option<&[u8]>) -> (r: Vec<u8>)
    ensures
        r@ == spec_escape_string(crate::types::opt_bytes(input)),
{
    let mut out: Vec<u8> = Vec::new();
    out.push(34);
    match input {
        None => {
            out.push(34);
            assert(out@ =~= seq![34u8, 34u8]);
            out
        },
        Some(s) => {
            let mut i: usize = 0;
            while i < s.len()
                invariant
                    i <= s@.len(),
                    out@ == seq![34u8] + escaped_body(s@.subrange(0, i as int)),
                decreases s.len() - i,
            {
                let ghost pre = s@.subrange(0, i as int);
                push_escaped(&mut out, s[i]);
                proof {
                    assert(s@.subrange(0, i + 1).drop_last() =~= pre);
                }
                i = i + 1;
            }
            out.push(34);
            assert(s@.subrange(0, s@.len() as int) =~= s@);
            out
        },
    }
}

} // verus!
