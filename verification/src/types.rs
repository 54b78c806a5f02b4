//! Type flags of a node, and the byte-string comparisons that object keys use.
use vstd::prelude::*;

verus! {

/// Version numbers of this library's interface.
pub const VERSION_MAJOR: u32 = 1;
pub const VERSION_MINOR: u32 = 7;
pub const VERSION_PATCH: u32 = 19;
pub const VERSION_STRING: &'static str = "1.7.19";

pub const INVALID: i32 = 0;
pub const FALSE: i32 = 1;
pub const TRUE: i32 = 2;
pub const NULL: i32 = 4;
pub const NUMBER: i32 = 8;
pub const STRING: i32 = 16;
pub const ARRAY: i32 = 32;
pub const OBJECT: i32 = 64;
pub const RAW: i32 = 128;

pub const IS_REFERENCE: i32 = 256;
pub const STRING_IS_CONST: i32 = 512;

/// Deepest nesting that the parser and the printer accept.
pub const NESTING_LIMIT: usize = 1000;
/// Deepest nesting that a recursive duplicate follows.
pub const CIRCULAR_LIMIT: usize = 10000;

pub const TYPE_MASK: i32 = 0xFF;

/// The kind of a node: the low byte of its type word.
pub open spec fn spec_type_kind(ty: i32) -> i32 {
    ty & 0xFF
}

pub open spec fn spec_is_reference(ty: i32) -> bool {
    ty & 256 != 0
}

pub open spec fn spec_string_is_const(ty: i32) -> bool {
    ty & 512 != 0
}

pub fn type_kind(ty: i32) -> (r: i32)
    ensures
        r == spec_type_kind(ty),
        0 <= r <= 255,
{
    assert(0 <= ty & 0xFF <= 255) by (bit_vector);
    ty & TYPE_MASK
}

pub fn is_reference(ty: i32) -> (r: bool)
    ensures
        r == spec_is_reference(ty),
{
    ty & IS_REFERENCE != 0
}

pub fn string_is_const(ty: i32) -> (r: bool)
    ensures
        r == spec_string_is_const(ty),
{
    ty & STRING_IS_CONST != 0
}

/// Lower case of an ASCII upper-case letter; every other byte unchanged.
pub open spec fn spec_tolower(b: u8) -> u8 {
    if 65 <= b && b <= 90 {
        (b + 32) as u8
    } else {
        b
    }
}

/// POSIX C-locale `tolower` (ASCII only).
pub fn c_tolower(b: u8) -> (r: u8)
    ensures
        r == spec_tolower(b),
{
    if b >= 65 && b <= 90 {
        b + 32
    } else {
        b
    }
}

/// The view of an optional byte slice.
pub open spec fn opt_bytes(o: Option<&[u8]>) -> Option<Seq<u8>> {
    match o {
        Some(s) => Some(s@),
        None => None,
    }
}

/// Case-insensitive comparison of `a` and `b` from index `i` on, as C's `strcasecmp`
/// over NUL-terminated copies: the difference of the lowered bytes at the first
/// mismatch, where a string that has ended reads as NUL.
pub open spec fn ci_diff_from(a: Seq<u8>, b: Seq<u8>, i: int) -> int
    decreases a.len() - i,
{
    if i < 0 {
        0
    } else if i >= a.len() || i >= b.len() {
        if a.len() == b.len() {
            0
        } else if a.len() < b.len() {
            0 - spec_tolower(b[i])
        } else {
            0 + spec_tolower(a[i])
        }
    } else if spec_tolower(a[i]) != spec_tolower(b[i]) {
        spec_tolower(a[i]) - spec_tolower(b[i])
    } else {
        ci_diff_from(a, b, i + 1)
    }
}

/// The lowered byte of `z` at `i`, reading a string that has ended as NUL.
pub open spec fn low_at(z: Seq<u8>, i: int) -> int {
    if 0 <= i < z.len() { spec_tolower(z[i]) as int } else { 0 }
}

/// A string with no NUL byte.
pub open spec fn nul_free(z: Seq<u8>) -> bool {
    forall|i: int| 0 <= i < z.len() ==> z[i] != 0
}

proof fn lemma_ci_from(x: Seq<u8>, y: Seq<u8>, i: int)
    requires
        nul_free(x),
        nul_free(y),
        0 <= i <= x.len(),
        i <= y.len(),
    ensures
        (ci_diff_from(x, y, i) == 0) <==> (x.len() == y.len()
            && forall|j: int| i <= j < x.len() ==> spec_tolower(x[j]) == spec_tolower(y[j])),
        ci_diff_from(x, y, i) != 0 ==> exists|i0: int| #![trigger low_at(x, i0)]
            i <= i0 <= x.len() && i0 <= y.len() && low_at(x, i0) != low_at(y, i0)
            && (forall|j: int| i <= j < i0 ==> low_at(x, j) == low_at(y, j))
            && ci_diff_from(x, y, i) == low_at(x, i0) - low_at(y, i0),
    decreases x.len() - i,
{
    if i >= x.len() || i >= y.len() {
        if x.len() < y.len() {
            assert(y[i] != 0);
            assert(low_at(x, i) != low_at(y, i));
        } else if x.len() > y.len() {
            assert(x[i] != 0);
            assert(low_at(x, i) != low_at(y, i));
        }
    } else if spec_tolower(x[i]) != spec_tolower(y[i]) {
        assert(low_at(x, i) != low_at(y, i));
    } else {
        lemma_ci_from(x, y, i + 1);
        if ci_diff_from(x, y, i) != 0 {
            let i0 = choose|i0: int| #![trigger low_at(x, i0)]
                i + 1 <= i0 <= x.len() && i0 <= y.len() && low_at(x, i0) != low_at(y, i0)
                && (forall|j: int| i + 1 <= j < i0 ==> low_at(x, j) == low_at(y, j))
                && ci_diff_from(x, y, i + 1) == low_at(x, i0) - low_at(y, i0);
            assert(low_at(x, i) == low_at(y, i));
            assert(forall|j: int| i <= j < i0 ==> low_at(x, j) == low_at(y, j));
        }
    }
}

/// For two strings without NUL bytes, the case-insensitive compare is zero exactly when they
/// have the same length and agree byte for byte once lowered; otherwise it is the
/// difference of the lowered bytes at the first place they differ (an ended string reading
/// as NUL there).
pub proof fn law_ci_compare(x: Seq<u8>, y: Seq<u8>)
    requires
        nul_free(x),
        nul_free(y),
    ensures
        (ci_diff_from(x, y, 0) == 0) <==> (x.len() == y.len()
            && forall|j: int| 0 <= j < x.len() ==> spec_tolower(x[j]) == spec_tolower(y[j])),
        ci_diff_from(x, y, 0) != 0 ==> exists|i0: int| #![trigger low_at(x, i0)]
            0 <= i0 <= x.len() && i0 <= y.len() && low_at(x, i0) != low_at(y, i0)
            && (forall|j: int| 0 <= j < i0 ==> low_at(x, j) == low_at(y, j))
            && ci_diff_from(x, y, 0) == low_at(x, i0) - low_at(y, i0),
{
    lemma_ci_from(x, y, 0);
}

/// The difference of two bytes as a signed number.
fn byte_diff(a: u8, b: u8) -> (r: i32)
    ensures
        r == a - b,
{
    a as i32 - b as i32
}

/// Case-insensitive compare: two absent strings, or one, compare unequal (1).
pub open spec fn spec_ci_compare(a: Option<Seq<u8>>, b: Option<Seq<u8>>) -> int {
    match (a, b) {
        (Some(x), Some(y)) => ci_diff_from(x, y, 0),
        _ => 1,
    }
}

/// Case-insensitive byte compare. Two absent inputs are not equal (returns 1).
pub fn case_insensitive_strcmp(a: Option<&[u8]>, b: Option<&[u8]>) -> (r: i32)
    ensures
        r == spec_ci_compare(opt_bytes(a), opt_bytes(b)),
{
    if a.is_none() || b.is_none() {
        return 1;
    }
    let x = a.unwrap();
    let y = b.unwrap();
    let n = if x.len() < y.len() {
        x.len()
    } else {
        y.len()
    };
    let mut i: usize = 0;
    while i < n
        invariant
            a == Some(x),
            b == Some(y),
            n <= x@.len(),
            n <= y@.len(),
            n == x@.len() || n == y@.len(),
            i <= n,
            ci_diff_from(x@, y@, 0) == ci_diff_from(x@, y@, i + 0),
        decreases n - i,
    {
        let ca = c_tolower(x[i]);
        let cb = c_tolower(y[i]);
        if ca != cb {
            return byte_diff(ca, cb);
        }
        i = i + 1;
    }
    if x.len() == y.len() {
        0
    } else if x.len() < y.len() {
        byte_diff(0, c_tolower(y[n]))
    } else {
        byte_diff(c_tolower(x[n]), 0)
    }
}

/// Byte-wise equality of two slices.
pub fn bytes_equal(x: &[u8], y: &[u8]) -> (r: bool)
    ensures
        r == (x@ == y@),
{
    if x.len() != y.len() {
        return false;
    }
    let mut i: usize = 0;
    while i < x.len()
        invariant
            x@.len() == y@.len(),
            i <= x@.len(),
            forall|j: int| 0 <= j < i ==> x@[j] == y@[j],
        decreases x.len() - i,
    {
        if x[i] != y[i] {
            return false;
        }
        i = i + 1;
    }
    assert(x@ =~= y@);
    true
}

/// Whether two optional keys match: exactly when `case_sensitive`, else by
/// [`case_insensitive_strcmp`]. An absent key never matches exactly.
pub open spec fn spec_bytes_eq_case(a: Option<Seq<u8>>, b: Option<Seq<u8>>, case_sensitive: bool) -> bool {
    if case_sensitive {
        match (a, b) {
            (Some(x), Some(y)) => x == y,
            _ => false,
        }
    } else {
        spec_ci_compare(a, b) == 0
    }
}

pub fn bytes_eq_case(a: Option<&[u8]>, b: Option<&[u8]>, case_sensitive: bool) -> (r: bool)
    ensures
        r == spec_bytes_eq_case(opt_bytes(a), opt_bytes(b), case_sensitive),
{
    if case_sensitive {
        match (a, b) {
            (Some(x), Some(y)) => bytes_equal(x, y),
            _ => false,
        }
    } else {
        case_insensitive_strcmp(a, b) == 0
    }
}

} // verus!
