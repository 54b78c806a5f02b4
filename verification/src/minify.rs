//! In-place minify: strips whitespace and comments outside strings.
use vstd::prelude::*;

verus! {

/// Index just after a `//` comment whose body starts at `i`: past the first newline,
/// or where the text ends.
pub open spec fn line_comment_end(s: Seq<u8>, i: int) -> int
    decreases s.len() - i,
{
    if i < 0 || i >= s.len() || s[i] == 0 {
        i
    } else if s[i] == 10 {
        i + 1
    } else {
        line_comment_end(s, i + 1)
    }
}

/// Index just after a `/* */` comment whose body starts at `i`, or where the text ends.
pub open spec fn block_comment_end(s: Seq<u8>, i: int) -> int
    decreases s.len() - i,
{
    if i < 0 || i >= s.len() || s[i] == 0 {
        i
    } else if i + 1 < s.len() && s[i] == 42 && s[i + 1] == 47 {
        i + 2
    } else {
        block_comment_end(s, i + 1)
    }
}

/// The bytes that minify copies from a string body starting at `i` (after the opening
/// quote): every byte up to and including the closing quote; a backslash directly
/// before a quote takes that quote along.
pub open spec fn string_copy(s: Seq<u8>, i: int) -> Seq<u8>
    decreases s.len() - i,
{
    if i < 0 || i >= s.len() || s[i] == 0 {
        seq![]
    } else if s[i] == 34 {
        seq![34u8]
    } else if i + 1 < s.len() && s[i] == 92 && s[i + 1] == 34 {
        seq![92u8, 34u8] + string_copy(s, i + 2)
    } else {
        seq![s[i]] + string_copy(s, i + 1)
    }
}

/// Index where minify goes on after a string body starting at `i`.
pub open spec fn string_end(s: Seq<u8>, i: int) -> int
    decreases s.len() - i,
{
    if i < 0 || i >= s.len() || s[i] == 0 {
        i
    } else if s[i] == 34 {
        i + 1
    } else if i + 1 < s.len() && s[i] == 92 && s[i + 1] == 34 {
        string_end(s, i + 2)
    } else {
        string_end(s, i + 1)
    }
}

pub proof fn lemma_ends_advance(s: Seq<u8>, i: int)
    requires
        0 <= i <= s.len(),
    ensures
        i <= line_comment_end(s, i) <= s.len(),
        i <= block_comment_end(s, i) <= s.len(),
        i <= string_end(s, i) <= s.len(),
    decreases s.len() - i,
{
    if i < s.len() && s[i] != 0 {
        lemma_ends_advance(s, i + 1);
        if i + 2 <= s.len() {
            lemma_ends_advance(s, i + 2);
        }
    }
}

/// The minified text of `s` from index `i` on.
pub open spec fn minified_from(s: Seq<u8>, i: int) -> Seq<u8>
    decreases s.len() - i,
{
    if i < 0 || i >= s.len() || s[i] == 0 {
        seq![]
    } else {
        let c = s[i];
        if c == 32 || c == 9 || c == 13 || c == 10 {
            minified_from(s, i + 1)
        } else if c == 47 {
            if i + 1 < s.len() && s[i + 1] == 47 {
                let j = line_comment_end(s, i + 2);
                if i < j <= s.len() { minified_from(s, j) } else { seq![] }
            } else if i + 1 < s.len() && s[i + 1] == 42 {
                let j = block_comment_end(s, i + 2);
                if i < j <= s.len() { minified_from(s, j) } else { seq![] }
            } else {
                minified_from(s, i + 1)
            }
        } else if c == 34 {
            let j = string_end(s, i + 1);
            if i < j <= s.len() { seq![34u8] + string_copy(s, i + 1) + minified_from(s, j) } else { seq![] }
        } else {
            seq![c] + minified_from(s, i + 1)
        }
    }
}

/// The minified text of a NUL-terminated buffer (the whole buffer where it holds no NUL).
pub open spec fn minified(s: Seq<u8>) -> Seq<u8> {
    minified_from(s, 0)
}

/// Whether the string body starting at `i` ends at a closing quote (rather than at the end
/// of the text).
pub open spec fn string_closed(s: Seq<u8>, i: int) -> bool
    decreases s.len() - i,
{
    if i < 0 || i >= s.len() || s[i] == 0 {
        false
    } else if s[i] == 34 {
        true
    } else if i + 1 < s.len() && s[i] == 92 && s[i + 1] == 34 {
        string_closed(s, i + 2)
    } else {
        string_closed(s, i + 1)
    }
}

proof fn lemma_shift_ends(a: Seq<u8>, b: Seq<u8>, k: int)
    requires
        0 <= k,
    ensures
        line_comment_end(a + b, a.len() + k) == a.len() + line_comment_end(b, k),
        block_comment_end(a + b, a.len() + k) == a.len() + block_comment_end(b, k),
        string_end(a + b, a.len() + k) == a.len() + string_end(b, k),
        string_copy(a + b, a.len() + k) == string_copy(b, k),
    decreases b.len() - k,
{
    let w = a + b;
    let n = a.len() as int;
    if k < b.len() {
        assert(w[n + k] == b[k]);
        if k + 1 < b.len() {
            assert(w[n + k + 1] == b[k + 1]);
        }
        lemma_shift_ends(a, b, k + 1);
        if k + 2 <= b.len() {
            lemma_shift_ends(a, b, k + 2);
        }
    }
}

proof fn lemma_shift_minified(a: Seq<u8>, b: Seq<u8>, k: int)
    requires
        0 <= k,
    ensures
        minified_from(a + b, a.len() + k) == minified_from(b, k),
    decreases b.len() - k,
{
    let w = a + b;
    let n = a.len() as int;
    if 0 <= k < b.len() && b[k] != 0 {
        assert(w[n + k] == b[k]);
        if k + 1 < b.len() {
            assert(w[n + k + 1] == b[k + 1]);
        }
        lemma_shift_ends(a, b, k + 1);
        if k + 2 <= b.len() {
            lemma_shift_ends(a, b, k + 2);
        }
        lemma_ends_advance(b, k + 1);
        if k + 2 <= b.len() {
            lemma_ends_advance(b, k + 2);
        }
        lemma_shift_minified(a, b, k + 1);
        let c = b[k];
        if c == 47 && k + 1 < b.len() && b[k + 1] == 47 {
            let j = line_comment_end(b, k + 2);
            if k < j <= b.len() { lemma_shift_minified(a, b, j); }
        } else if c == 47 && k + 1 < b.len() && b[k + 1] == 42 {
            let j = block_comment_end(b, k + 2);
            if k < j <= b.len() { lemma_shift_minified(a, b, j); }
        } else if c == 34 {
            let j = string_end(b, k + 1);
            if k < j <= b.len() { lemma_shift_minified(a, b, j); }
        }
    } else if 0 <= k < b.len() {
        assert(w[n + k] == b[k]);
    }
}

/// Copying a string body again gives the same bytes and ends where the copy ends, when
/// what follows the copy cannot extend it.
proof fn lemma_string_again(s: Seq<u8>, k: int, r: Seq<u8>)
    requires
        0 <= k <= s.len(),
        string_closed(s, k) || r.len() == 0 || r[0] == 0,
    ensures
        string_copy(string_copy(s, k) + r, 0) == string_copy(s, k),
        string_end(string_copy(s, k) + r, 0) == string_copy(s, k).len(),
        !string_closed(s, k) ==> string_end(s, k) >= s.len() || s[string_end(s, k)] == 0,
        string_copy(s, k).len() > 0 ==> string_copy(s, k)[0] == s[k],
    decreases s.len() - k,
{
    let sc = string_copy(s, k);
    let w = sc + r;
    if k >= s.len() || s[k] == 0 {
        assert(w =~= r);
    } else if s[k] == 34 {
        assert(w[0] == 34);
    } else if k + 1 < s.len() && s[k] == 92 && s[k + 1] == 34 {
        lemma_string_again(s, k + 2, r);
        let rest = string_copy(s, k + 2);
        assert(sc == seq![92u8, 34u8] + rest);
        assert(w =~= seq![92u8, 34u8] + (rest + r));
        assert(w[0] == 92 && w[1] == 34);
        lemma_shift_ends(seq![92u8, 34u8], rest + r, 0);
    } else {
        lemma_string_again(s, k + 1, r);
        let c = s[k];
        let rest = string_copy(s, k + 1);
        assert(sc == seq![c] + rest);
        assert(w =~= seq![c] + (rest + r));
        assert(w[0] == c);
        if c == 92 && w.len() > 1 {
            if rest.len() > 0 {
                assert(w[1] == rest[0]);
            } else {
                assert(w[1] == r[0]);
            }
        }
        lemma_shift_ends(seq![c], rest + r, 0);
    }
}

proof fn lemma_minified_again(s: Seq<u8>, i: int, tail: Seq<u8>)
    requires
        0 <= i <= s.len(),
        tail.len() == 0 || tail[0] == 0,
    ensures
        minified_from(minified_from(s, i) + tail, 0) == minified_from(s, i),
    decreases s.len() - i,
{
    let m = minified_from(s, i);
    let w = m + tail;
    if i >= s.len() || s[i] == 0 {
        assert(w =~= tail);
    } else {
        let c = s[i];
        lemma_ends_advance(s, i + 1);
        if i + 2 <= s.len() {
            lemma_ends_advance(s, i + 2);
        }
        if c == 32 || c == 9 || c == 13 || c == 10 {
            lemma_minified_again(s, i + 1, tail);
        } else if c == 47 {
            if i + 1 < s.len() && s[i + 1] == 47 {
                let j = line_comment_end(s, i + 2);
                if i < j <= s.len() { lemma_minified_again(s, j, tail); } else { assert(w =~= tail); }
            } else if i + 1 < s.len() && s[i + 1] == 42 {
                let j = block_comment_end(s, i + 2);
                if i < j <= s.len() { lemma_minified_again(s, j, tail); } else { assert(w =~= tail); }
            } else {
                lemma_minified_again(s, i + 1, tail);
            }
        } else if c == 34 {
            let j = string_end(s, i + 1);
            let sc = string_copy(s, i + 1);
            let r1 = minified_from(s, j);
            lemma_string_again(s, i + 1, seq![]);
            if !string_closed(s, i + 1) {
                assert(r1 =~= seq![]);
                assert(r1 + tail =~= tail);
            }
            lemma_string_again(s, i + 1, r1 + tail);
            lemma_minified_again(s, j, tail);
            assert(m == seq![34u8] + sc + r1);
            let a = seq![34u8];
            assert(w =~= a + (sc + (r1 + tail)));
            lemma_shift_ends(a, sc + (r1 + tail), 0);
            assert(string_end(w, 1) == 1 + sc.len());
            assert(string_copy(w, 1) == sc);
            assert(w =~= (a + sc) + (r1 + tail));
            lemma_shift_minified(a + sc, r1 + tail, 0);
            assert(w[0] == 34);
        } else {
            lemma_minified_again(s, i + 1, tail);
            let r1 = minified_from(s, i + 1);
            assert(m == seq![c] + r1);
            assert(w =~= seq![c] + (r1 + tail));
            assert(w[0] == c);
            lemma_shift_minified(seq![c], r1 + tail, 0);
        }
    }
}

/// Minifying minified text changes nothing: the minified text followed by its terminator
/// (and whatever lies after it) minifies to itself.
pub proof fn law_minify_idempotent(s: Seq<u8>, tail: Seq<u8>)
    requires
        tail.len() == 0 || tail[0] == 0,
    ensures
        minified(minified(s) + tail) == minified(s),
{
    lemma_minified_again(s, 0, tail);
}

/// Minify a NUL-terminated buffer in place. Returns the new content length (not including NUL).
pub fn minify(buf: &mut [u8]) -> (n: usize)
    ensures
        final(buf)@.len() == old(buf)@.len(),
        n == minified(old(buf)@).len(),
        final(buf)@.subrange(0, n as int) == minified(old(buf)@),
        n < old(buf)@.len() ==> final(buf)@[n as int] == 0,
        forall|k: int| #![trigger old(buf)@[k]] 0 <= k < old(buf)@.len() && old(buf)@[k] == 0
            && (forall|j: int| 0 <= j < k ==> old(buf)@[j] != 0)
            ==> n <= k && (forall|j: int| k <= j < old(buf)@.len() && j != n ==> final(buf)@[j] == old(buf)@[j]),
{
    let ghost orig = buf@;
    let len = buf.len();
    if len == 0 {
        return 0;
    }
    let mut input: usize = 0;
    let mut output: usize = 0;
    while input < len && buf[input] != 0
        invariant
            len == orig.len(),
            buf@.len() == len,
            output <= input <= len,
            forall|j: int| input <= j < len ==> buf@[j] == orig[j],
            forall|j: int| 0 <= j < input ==> orig[j] != 0,
            minified(orig) == buf@.subrange(0, output as int) + minified_from(orig, input as int),
        decreases len - input,
    {
        let c = buf[input];
        let ghost i0 = input as int;
        let ghost prefix = buf@.subrange(0, output as int);
        proof { lemma_ends_advance(orig, i0); }
        if c == 32 || c == 9 || c == 13 || c == 10 {
            input += 1;
        } else if c == 47 {
            if input + 1 < len && buf[input + 1] == 47 {
                input += 2;
                proof { lemma_ends_advance(orig, input as int); }
                let ghost target = line_comment_end(orig, input as int);
                assert(minified_from(orig, i0) == minified_from(orig, target));
                while input < len && buf[input] != 0
                    invariant_except_break
                        line_comment_end(orig, input as int) == target,
                    invariant
                        len == orig.len(),
                        buf@.len() == len,
                        output <= input <= len,
                        forall|j: int| input <= j < len ==> buf@[j] == orig[j],
                        forall|j: int| 0 <= j < input ==> orig[j] != 0,
                    ensures
                        input == target,
                    decreases len - input,
                {
                    if buf[input] == 10 {
                        input += 1;
                        break;
                    }
                    input += 1;
                }
            } else if input + 1 < len && buf[input + 1] == 42 {
                input += 2;
                proof { lemma_ends_advance(orig, input as int); }
                let ghost target = block_comment_end(orig, input as int);
                assert(minified_from(orig, i0) == minified_from(orig, target));
                while input < len && buf[input] != 0
                    invariant_except_break
                        block_comment_end(orig, input as int) == target,
                    invariant
                        len == orig.len(),
                        buf@.len() == len,
                        output <= input <= len,
                        forall|j: int| input <= j < len ==> buf@[j] == orig[j],
                        forall|j: int| 0 <= j < input ==> orig[j] != 0,
                    ensures
                        input == target,
                    decreases len - input,
                {
                    if input + 1 < len && buf[input] == 42 && buf[input + 1] == 47 {
                        input += 2;
                        break;
                    }
                    input += 1;
                }
            } else {
                input += 1;
            }
        } else if c == 34 {
            buf[output] = c;
            input += 1;
            output += 1;
            proof {
                lemma_ends_advance(orig, input as int);
                assert(buf@.subrange(0, output as int) =~= prefix + seq![34u8]);
                assert(minified_from(orig, i0) == seq![34u8] + string_copy(orig, i0 + 1)
                    + minified_from(orig, string_end(orig, i0 + 1)));
                assert(minified(orig) == buf@.subrange(0, output as int) + string_copy(orig, input as int)
                    + minified_from(orig, string_end(orig, input as int)));
            }
            while input < len && buf[input] != 0
                invariant_except_break
                    buf@.subrange(0, output as int) + string_copy(orig, input as int)
                        + minified_from(orig, string_end(orig, input as int))
                        == minified(orig),
                invariant
                    len == orig.len(),
                    buf@.len() == len,
                    output <= input <= len,
                    i0 < input,
                    forall|j: int| input <= j < len ==> buf@[j] == orig[j],
                    forall|j: int| 0 <= j < input ==> orig[j] != 0,
                ensures
                    buf@.subrange(0, output as int) + minified_from(orig, input as int) == minified(orig),
                decreases len - input,
            {
                let ghost pre = buf@.subrange(0, output as int);
                let ghost j0 = input as int;
                let d = buf[input];
                buf[output] = d;
                if d == 34 {
                    input += 1;
                    output += 1;
                    proof {
                        assert(buf@.subrange(0, output as int) =~= pre + seq![34u8]);
                    }
                    break;
                } else if input + 1 < len && d == 92 && buf[input + 1] == 34 {
                    buf[output + 1] = 34;
                    input += 2;
                    output += 2;
                    proof {
                        assert(buf@.subrange(0, output as int) =~= pre + seq![92u8, 34u8]);
                        assert(string_copy(orig, j0) == seq![92u8, 34u8] + string_copy(orig, j0 + 2));
                    }
                } else {
                    input += 1;
                    output += 1;
                    proof {
                        assert(buf@.subrange(0, output as int) =~= pre + seq![d]);
                        assert(string_copy(orig, j0) == seq![d] + string_copy(orig, j0 + 1));
                    }
                }
            }
        } else {
            buf[output] = c;
            input += 1;
            output += 1;
            proof {
                assert(buf@.subrange(0, output as int) =~= prefix + seq![c]);
            }
        }
    }
    let ghost at_end = buf@;
    if output < len {
        buf[output] = 0;
    }
    proof {
        assert forall|k: int| #![trigger orig[k]] 0 <= k < orig.len() && orig[k] == 0
            && (forall|j: int| 0 <= j < k ==> orig[j] != 0)
            implies output <= k && (forall|j: int| k <= j < orig.len() && j != output ==> buf@[j] == orig[j]) by {
            if k < input {
                assert(orig[k] != 0);
            }
            if input < k {
                assert(orig[input as int] != 0);
            }
        }
    }
    output
}

} // verus!
