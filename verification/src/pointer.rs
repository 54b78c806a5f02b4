//! JSON Pointer (RFC 6901) tokens: matching, encoding, decoding, array indices.
use vstd::prelude::*;
use crate::types::{spec_tolower, spec_ci_compare, opt_bytes};

verus! {

/// Whether the pointer token at the start of `p` (up to a `/` or the end) names `name`:
/// `~0` stands for `~` and `~1` for `/`; bytes compare exactly or ignoring ASCII case.
pub open spec fn token_matches(name: Seq<u8>, p: Seq<u8>, cs: bool) -> bool
    decreases p.len(),
{
    if p.len() == 0 || p[0] == 47 {
        name.len() == 0
    } else if name.len() == 0 {
        false
    } else if p[0] == 126 {
        p.len() >= 2 && ((p[1] == 48 && name[0] == 126) || (p[1] == 49 && name[0] == 47))
            && token_matches(name.drop_first(), p.subrange(2, p.len() as int), cs)
    } else {
        (if cs { name[0] == p[0] } else { spec_tolower(name[0]) == spec_tolower(p[0]) })
            && token_matches(name.drop_first(), p.drop_first(), cs)
    }
}

/// The pointer `p` starts with the token `enc`, which ends there (at the end or a `/`).
pub open spec fn starts_token(p: Seq<u8>, enc: Seq<u8>) -> bool {
    &&& enc.len() <= p.len()
    &&& p.subrange(0, enc.len() as int) == enc
    &&& (enc.len() == p.len() || p[enc.len() as int] == 47)
}

/// A case-sensitive pointer token names a key exactly when it is the key's encoding: the
/// pointer starts with the encoded key, and the token ends there (at the end or a `/`).
/// So a token never names a key it is only a prefix of, nor one longer or shorter.
pub proof fn law_token_matches(name: Seq<u8>, p: Seq<u8>)
    ensures
        token_matches(name, p, true) <==> starts_token(p, encode_token(name)),
    decreases p.len(),
{
    let enc = encode_token(name);
    if name.len() == 0 {
        assert(enc =~= Seq::<u8>::empty());
        assert(p.subrange(0, 0) =~= Seq::<u8>::empty());
    } else {
        let c = name[0];
        let rest = encode_token(name.drop_first());
        let head: Seq<u8> = if c == 47 { seq![126u8, 49u8] } else if c == 126 { seq![126u8, 48u8] } else { seq![c] };
        assert(enc == head + rest);
        if p.len() == 0 || p[0] == 47 {
            if enc.len() <= p.len() && p.subrange(0, enc.len() as int) == enc {
                assert(p.subrange(0, enc.len() as int)[0] == p[0]);
                assert(enc[0] == head[0]);
            }
        } else if p[0] == 126 {
            let q = p.subrange(2, p.len() as int);
            if p.len() >= 2 {
                law_token_matches(name.drop_first(), q);
                if (p[1] == 48 && c == 126) || (p[1] == 49 && c == 47) {
                    // the escape is the encoding of `c`
                    assert(head == p.subrange(0, 2));
                    if rest.len() <= q.len() {
                        assert(p.subrange(0, enc.len() as int) =~= p.subrange(0, 2) + q.subrange(0, rest.len() as int));
                    }
                    if enc.len() < p.len() {
                        assert(p[enc.len() as int] == q[rest.len() as int]);
                    }
                    if enc.len() <= p.len() && p.subrange(0, enc.len() as int) == enc {
                        assert(q.subrange(0, rest.len() as int) =~= p.subrange(0, enc.len() as int).subrange(2, enc.len() as int));
                        assert(enc.subrange(2, enc.len() as int) =~= rest);
                    }
                } else {
                    if enc.len() <= p.len() && p.subrange(0, enc.len() as int) == enc {
                        assert(p.subrange(0, enc.len() as int)[0] == p[0]);
                        assert(p.subrange(0, enc.len() as int)[1] == p[1]);
                        assert(enc[0] == head[0]);
                        assert(enc[1] == head[1]);
                    }
                }
            } else {
                if enc.len() <= p.len() && p.subrange(0, enc.len() as int) == enc {
                    assert(p.subrange(0, enc.len() as int)[0] == p[0]);
                    assert(enc[0] == head[0]);
                }
            }
        } else {
            let q = p.drop_first();
            law_token_matches(name.drop_first(), q);
            if c == p[0] {
                assert(head == seq![c]);
                if rest.len() <= q.len() {
                    assert(p.subrange(0, enc.len() as int) =~= seq![c] + q.subrange(0, rest.len() as int));
                }
                if enc.len() < p.len() {
                    assert(p[enc.len() as int] == q[rest.len() as int]);
                }
                if enc.len() <= p.len() && p.subrange(0, enc.len() as int) == enc {
                    assert(q.subrange(0, rest.len() as int) =~= p.subrange(0, enc.len() as int).drop_first());
                    assert(enc.drop_first() =~= rest);
                }
            } else {
                if enc.len() <= p.len() && p.subrange(0, enc.len() as int) == enc {
                    assert(p.subrange(0, enc.len() as int)[0] == p[0]);
                    assert(enc[0] == head[0]);
                }
            }
        }
    }
}

/// Whether a pointer token names a key: an absent name matches nothing.
pub fn compare_pointers(name: Option<&[u8]>, pointer: &[u8], case_sensitive: bool) -> (r: bool)
    ensures
        r == (match name {
            Some(n) => token_matches(n@, pointer@, case_sensitive),
            None => false,
        }),
{
    let nm = match name {
        Some(n) => n,
        None => return false,
    };
    let mut ni: usize = 0;
    let mut pi: usize = 0;
    proof {
        assert(nm@.subrange(0, nm@.len() as int) =~= nm@);
        assert(pointer@.subrange(0, pointer@.len() as int) =~= pointer@);
    }
    while ni < nm.len() && pi < pointer.len() && pointer[pi] != 47
        invariant
            name == Some(nm),
            ni <= nm@.len(),
            pi <= pointer@.len(),
            token_matches(nm@, pointer@, case_sensitive)
                == token_matches(nm@.subrange(ni as int, nm@.len() as int), pointer@.subrange(pi as int, pointer@.len() as int), case_sensitive),
        decreases pointer@.len() - pi,
    {
        let ghost nr = nm@.subrange(ni as int, nm@.len() as int);
        let ghost pr = pointer@.subrange(pi as int, pointer@.len() as int);
        proof {
            assert(pr[0] == pointer@[pi as int]);
            assert(nr[0] == nm@[ni as int]);
            if pi + 1 < pointer@.len() {
                assert(pr[1] == pointer@[pi + 1]);
            }
        }
        if pointer[pi] == 126 {
            let ok = (pi + 1 < pointer.len() && pointer[pi + 1] == 48 && nm[ni] == 126)
                || (pi + 1 < pointer.len() && pointer[pi + 1] == 49 && nm[ni] == 47);
            if !ok {
                return false;
            }
            proof {
                assert(nr.drop_first() =~= nm@.subrange(ni + 1, nm@.len() as int));
                assert(pr.subrange(2, pr.len() as int) =~= pointer@.subrange(pi + 2, pointer@.len() as int));
            }
            pi += 1;
        } else {
            let differ = if case_sensitive {
                nm[ni] != pointer[pi]
            } else {
                crate::types::c_tolower(nm[ni]) != crate::types::c_tolower(pointer[pi])
            };
            if differ {
                return false;
            }
            proof {
                assert(nr.drop_first() =~= nm@.subrange(ni + 1, nm@.len() as int));
                assert(pr.drop_first() =~= pointer@.subrange(pi + 1, pointer@.len() as int));
            }
        }
        ni += 1;
        pi += 1;
    }
    proof {
        let nr = nm@.subrange(ni as int, nm@.len() as int);
        let pr = pointer@.subrange(pi as int, pointer@.len() as int);
        if pi < pointer@.len() {
            assert(pr[0] == pointer@[pi as int]);
        }
        if ni < nm@.len() {
            assert(nr.len() > 0);
        }
    }
    let pointer_ended = pi >= pointer.len() || pointer[pi] == 47;
    let name_ended = ni >= nm.len();
    pointer_ended == name_ended
}

/// The RFC 6901 encoding of a reference token: `~` as `~0`, `/` as `~1`.
pub open spec fn encode_token(s: Seq<u8>) -> Seq<u8>
    decreases s.len(),
{
    if s.len() == 0 {
        Seq::empty()
    } else {
        let c = s[0];
        (if c == 47 { seq![126u8, 49u8] } else if c == 126 { seq![126u8, 48u8] } else { seq![c] })
            + encode_token(s.drop_first())
    }
}

/// The number of bytes of a token once encoded.
pub open spec fn encoded_len(s: Seq<u8>) -> nat
    decreases s.len(),
{
    if s.len() == 0 {
        0
    } else {
        (if s[0] == 47 || s[0] == 126 { 2nat } else { 1nat }) + encoded_len(s.drop_first())
    }
}

proof fn lemma_encode_prefix(s: Seq<u8>, i: int)
    requires
        0 <= i < s.len(),
    ensures
        encode_token(s.subrange(0, i + 1)) == encode_token(s.subrange(0, i))
            + (if s[i] == 47 { seq![126u8, 49u8] } else if s[i] == 126 { seq![126u8, 48u8] } else { seq![s[i]] }),
        encoded_len(s.subrange(0, i + 1)) == encoded_len(s.subrange(0, i)) + (if s[i] == 47 || s[i] == 126 { 2nat } else { 1nat }),
    decreases i,
{
    let a = s.subrange(0, i + 1);
    let b = s.subrange(0, i);
    if i > 0 {
        lemma_encode_prefix(s.drop_first(), i - 1);
        assert(a.drop_first() =~= s.drop_first().subrange(0, i));
        assert(b.drop_first() =~= s.drop_first().subrange(0, i - 1));
        assert(a[0] == s[0]);
        assert(b[0] == s[0]);
    } else {
        assert(a.drop_first() =~= Seq::<u8>::empty());
        assert(b =~= Seq::<u8>::empty());
    }
}

pub proof fn lemma_encoded_len(s: Seq<u8>)
    ensures
        encode_token(s).len() == encoded_len(s),
        encoded_len(s) <= 2 * s.len(),
    decreases s.len(),
{
    if s.len() > 0 {
        lemma_encoded_len(s.drop_first());
    }
}

/// The length of a name once encoded as a pointer token.
pub fn pointer_encoded_length(s: &[u8]) -> (r: usize)
    requires
        2 * s@.len() <= usize::MAX,
    ensures
        r == encoded_len(s@),
{
    let mut len: usize = 0;
    let mut i: usize = 0;
    while i < s.len()
        invariant
            i <= s@.len(),
            2 * s@.len() <= usize::MAX,
            len == encoded_len(s@.subrange(0, i as int)),
            len <= 2 * i,
        decreases s.len() - i,
    {
        proof { lemma_encode_prefix(s@, i as int); }
        len += 1;
        if s[i] == 126 || s[i] == 47 {
            len += 1;
        }
        i += 1;
    }
    proof { assert(s@.subrange(0, s@.len() as int) =~= s@); }
    len
}

/// A name encoded as a pointer token (`~` as `~0`, `/` as `~1`).
pub fn encode_string_as_pointer(source: &[u8]) -> (r: Vec<u8>)
    ensures
        r@ == encode_token(source@),
{
    let mut dest: Vec<u8> = Vec::new();
    let mut i: usize = 0;
    proof { assert(source@.subrange(0, 0) =~= Seq::<u8>::empty()); }
    while i < source.len()
        invariant
            i <= source@.len(),
            dest@ == encode_token(source@.subrange(0, i as int)),
        decreases source.len() - i,
    {
        proof { lemma_encode_prefix(source@, i as int); }
        let c = source[i];
        if c == 47 {
            dest.push(126);
            dest.push(49);
        } else if c == 126 {
            dest.push(126);
            dest.push(48);
        } else {
            dest.push(c);
        }
        proof {
            assert(dest@ =~= encode_token(source@.subrange(0, i as int + 1)));
        }
        i += 1;
    }
    proof { assert(source@.subrange(0, source@.len() as int) =~= source@); }
    dest
}

/// The RFC 6901 decoding of a token: `~0` and `~1` back to `~` and `/`. At a `~` followed by
/// anything else, the rest is kept as it is.
pub open spec fn decode_token(s: Seq<u8>) -> Seq<u8>
    decreases s.len(),
{
    if s.len() == 0 {
        Seq::empty()
    } else if s[0] == 126 && s.len() >= 2 && s[1] == 48 {
        seq![126u8] + decode_token(s.subrange(2, s.len() as int))
    } else if s[0] == 126 && s.len() >= 2 && s[1] == 49 {
        seq![47u8] + decode_token(s.subrange(2, s.len() as int))
    } else if s[0] == 126 && s.len() >= 2 {
        s
    } else {
        seq![s[0]] + decode_token(s.drop_first())
    }
}

/// A pointer token decoded (into a new buffer).
pub fn decode_pointer(string: &[u8]) -> (r: Vec<u8>)
    ensures
        r@ == decode_token(string@),
{
    let mut out: Vec<u8> = Vec::new();
    let mut i: usize = 0;
    proof { assert(string@.subrange(0, string@.len() as int) =~= string@); }
    while i < string.len()
        invariant
            i <= string@.len(),
            decode_token(string@) == out@ + decode_token(string@.subrange(i as int, string@.len() as int)),
        decreases string.len() - i,
    {
        let ghost rest = string@.subrange(i as int, string@.len() as int);
        if string[i] == 126 && i + 1 < string.len() {
            if string[i + 1] == 48 {
                out.push(126);
                proof {
                    assert(rest.subrange(2, rest.len() as int) =~= string@.subrange(i + 2, string@.len() as int));
                    assert(out@ + decode_token(string@.subrange(i + 2, string@.len() as int))
                        =~= out@.drop_last() + (seq![126u8] + decode_token(rest.subrange(2, rest.len() as int))));
                }
                i += 2;
                continue;
            } else if string[i + 1] == 49 {
                out.push(47);
                proof {
                    assert(rest.subrange(2, rest.len() as int) =~= string@.subrange(i + 2, string@.len() as int));
                    assert(out@ + decode_token(string@.subrange(i + 2, string@.len() as int))
                        =~= out@.drop_last() + (seq![47u8] + decode_token(rest.subrange(2, rest.len() as int))));
                }
                i += 2;
                continue;
            } else {
                let ghost before = out@;
                let mut j = i;
                while j < string.len()
                    invariant
                        i <= j <= string@.len(),
                        out@ == before + string@.subrange(i as int, j as int),
                    decreases string.len() - j,
                {
                    out.push(string[j]);
                    proof { assert(string@.subrange(i as int, j + 1) =~= string@.subrange(i as int, j as int).push(string@[j as int])); }
                    j += 1;
                }
                return out;
            }
        }
        out.push(string[i]);
        proof {
            assert(rest.drop_first() =~= string@.subrange(i + 1, string@.len() as int));
            assert(out@ + decode_token(string@.subrange(i + 1, string@.len() as int))
                =~= out@.drop_last() + (seq![rest[0]] + decode_token(rest.drop_first())));
        }
        i += 1;
    }
    proof { assert(string@.subrange(string@.len() as int, string@.len() as int) =~= Seq::<u8>::empty()); }
    out
}

/// Decoding an encoded token gives it back.
pub proof fn lemma_decode_encode(s: Seq<u8>)
    ensures
        decode_token(encode_token(s)) == s,
    decreases s.len(),
{
    if s.len() > 0 {
        lemma_decode_encode(s.drop_first());
        let e = encode_token(s);
        let rest = encode_token(s.drop_first());
        let c = s[0];
        if c == 47 || c == 126 {
            assert(e.subrange(2, e.len() as int) =~= rest);
        } else {
            assert(e.drop_first() =~= rest);
        }
        assert(seq![c] + s.drop_first() =~= s);
    }
}

} // verus!

verus! {

pub open spec fn is_digit_byte(b: u8) -> bool {
    48 <= b <= 57
}

/// The index after the run of digits from `i`.
pub open spec fn digit_run(s: Seq<u8>, i: int) -> int
    decreases s.len() - i,
{
    if i < 0 || i >= s.len() || !is_digit_byte(s[i]) { i } else { digit_run(s, i + 1) }
}

pub proof fn lemma_digit_run(s: Seq<u8>, i: int)
    requires
        0 <= i <= s.len(),
    ensures
        i <= digit_run(s, i) <= s.len(),
        forall|k: int| i <= k < digit_run(s, i) ==> is_digit_byte(#[trigger] s[k]),
        digit_run(s, i) < s.len() ==> !is_digit_byte(s[digit_run(s, i)]),
    decreases s.len() - i,
{
    if i < s.len() && is_digit_byte(s[i]) {
        lemma_digit_run(s, i + 1);
    }
}

pub open spec fn sat(x: int) -> int {
    if x > usize::MAX { usize::MAX as int } else { x }
}

/// The decimal value of the first `n` bytes (digits), saturated at `usize::MAX` at each step.
pub open spec fn sat_value(s: Seq<u8>, n: int) -> int
    decreases n,
{
    if n <= 0 {
        0
    } else {
        sat(sat(sat_value(s, n - 1) * 10) + (s[n - 1] - 48))
    }
}

/// The decimal index at the start of a token (no leading zero
/// before another digit), which must end the token (at a `/`, a NUL or the end).
pub open spec fn array_index(p: Seq<u8>) -> Option<usize> {
    if p.len() > 1 && p[0] == 48 && p[1] != 47 && p[1] != 0 && is_digit_byte(p[1]) {
        None
    } else {
        let e = digit_run(p, 0);
        if e < p.len() && p[e] != 0 && p[e] != 47 { None } else { Some(sat_value(p, e) as usize) }
    }
}

pub fn decode_array_index(pointer: &[u8]) -> (r: Option<usize>)
    ensures
        r == array_index(pointer@),
{
    if pointer.len() > 1 && pointer[0] == 48 && pointer[1] != 47 && pointer[1] != 0 {
        if pointer[1] >= 48 && pointer[1] <= 57 {
            return None;
        }
    }
    proof { lemma_digit_run(pointer@, 0); }
    let mut parsed: usize = 0;
    let mut pos: usize = 0;
    while pos < pointer.len() && pointer[pos] >= 48 && pointer[pos] <= 57
        invariant
            pos <= pointer@.len(),
            digit_run(pointer@, 0) == digit_run(pointer@, pos as int),
            parsed == sat_value(pointer@, pos as int),
        decreases pointer.len() - pos,
    {
        let d = (pointer[pos] - 48) as usize;
        let m = if parsed > usize::MAX / 10 { usize::MAX } else { parsed * 10 };
        parsed = if m > usize::MAX - d { usize::MAX } else { m + d };
        pos += 1;
    }
    if pos < pointer.len() && pointer[pos] != 0 && pointer[pos] != 47 {
        return None;
    }
    Some(parsed)
}

} // verus!
