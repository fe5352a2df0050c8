//! Byte-level helpers shared by the expression parser and the
//! exclusion-file parser: ASCII whitespace tests, case folding,
//! trimming, and comparisons, each with its specification.

use vstd::prelude::*;

verus! {

/// ASCII space.
pub const SP: u8 = 32;

/// ASCII horizontal tab.
pub const TAB: u8 = 9;

/// ASCII line feed.
pub const LF: u8 = 10;

/// ASCII form feed.
pub const FF: u8 = 12;

/// ASCII carriage return.
pub const CR: u8 = 13;

/// ASCII comma, the entry separator of the expression grammar.
pub const COMMA: u8 = 44;

/// ASCII equals sign, the name/value separator of the expression grammar.
pub const EQUALS: u8 = 61;

/// ASCII number sign, the comment marker of the exclusion-file format.
pub const HASH: u8 = 35;

/// ASCII colon, the directive name/value separator.
pub const COLON: u8 = 58;

/// ASCII slash, the leading byte of a path pattern.
pub const SLASH: u8 = 47;

/// ASCII asterisk, the wildcard of a path pattern.
pub const STAR: u8 = 42;

/// ASCII dollar sign, the end-of-path anchor of a path pattern.
pub const DOLLAR: u8 = 36;

/// ASCII lower-case y, the affirmative expression value.
pub const YES_BYTE: u8 = 121;

/// ASCII lower-case n, the negative expression value.
pub const NO_BYTE: u8 = 110;

/// ASCII whitespace: space, tab, line feed, form feed, carriage return.
pub open spec fn is_space(c: u8) -> bool {
    c == SP || c == TAB || c == LF || c == FF || c == CR
}

/// ASCII lower-casing of one byte.
pub open spec fn lower_byte(c: u8) -> u8 {
    if 65 <= c <= 90 {
        (c + 32) as u8
    } else {
        c
    }
}

/// ASCII lower-casing of a byte sequence.
pub open spec fn lower_seq(s: Seq<u8>) -> Seq<u8> {
    s.map_values(|c: u8| lower_byte(c))
}

/// The sequence with trailing ASCII whitespace removed.
pub open spec fn trim_end_spec(s: Seq<u8>) -> Seq<u8>
    decreases s.len(),
{
    if s.len() > 0 && is_space(s.last()) {
        trim_end_spec(s.drop_last())
    } else {
        s
    }
}

/// The sequence with leading ASCII whitespace removed.
pub open spec fn trim_start_spec(s: Seq<u8>) -> Seq<u8>
    decreases s.len(),
{
    if s.len() > 0 && is_space(s[0]) {
        trim_start_spec(s.skip(1))
    } else {
        s
    }
}

/// The sequence with both leading and trailing ASCII whitespace removed.
pub open spec fn trim_spec(s: Seq<u8>) -> Seq<u8> {
    trim_end_spec(trim_start_spec(s))
}

/// Executable ASCII whitespace test.
pub fn is_space_byte(c: u8) -> (r: bool)
    ensures
        r == is_space(c),
{
    c == SP || c == TAB || c == LF || c == FF || c == CR
}

/// Executable ASCII lower-casing of one byte.
pub fn lower_byte_exec(c: u8) -> (r: u8)
    ensures
        r == lower_byte(c),
{
    if 65 <= c && c <= 90 {
        c + 32
    } else {
        c
    }
}

/// ASCII lower-casing of a byte slice into a fresh vector.
pub fn lower_vec(s: &[u8]) -> (r: Vec<u8>)
    ensures
        r@ == lower_seq(s@),
{
    let mut out: Vec<u8> = Vec::new();
    let mut i: usize = 0;
    while i < s.len()
        invariant
            i <= s.len(),
            out@.len() == i,
            forall|k: int| 0 <= k < i ==> out@[k] == lower_byte(s@[k]),
        decreases s.len() - i,
    {
        out.push(lower_byte_exec(s[i]));
        i = i + 1;
    }
    proof {
        assert(out@ =~= lower_seq(s@));
    }
    out
}

/// Exact byte-sequence equality.
pub fn bytes_eq(a: &[u8], b: &[u8]) -> (r: bool)
    ensures
        r == (a@ == b@),
{
    if a.len() != b.len() {
        return false;
    }
    let mut i: usize = 0;
    while i < a.len()
        invariant
            a@.len() == b@.len(),
            i <= a.len(),
            forall|k: int| 0 <= k < i ==> a@[k] == b@[k],
        decreases a.len() - i,
    {
        if a[i] != b[i] {
            return false;
        }
        i = i + 1;
    }
    proof {
        assert(a@ =~= b@);
    }
    true
}

/// ASCII case-insensitive byte-sequence equality.
pub fn eq_ignore_case(a: &[u8], b: &[u8]) -> (r: bool)
    ensures
        r == (lower_seq(a@) == lower_seq(b@)),
{
    if a.len() != b.len() {
        return false;
    }
    let mut i: usize = 0;
    while i < a.len()
        invariant
            a@.len() == b@.len(),
            i <= a.len(),
            forall|k: int| 0 <= k < i ==> lower_byte(a@[k]) == lower_byte(b@[k]),
        decreases a.len() - i,
    {
        if lower_byte_exec(a[i]) != lower_byte_exec(b[i]) {
            assert(lower_seq(a@)[i as int] != lower_seq(b@)[i as int]);
            return false;
        }
        i = i + 1;
    }
    proof {
        assert(lower_seq(a@) =~= lower_seq(b@));
    }
    true
}

/// The position of the first occurrence of byte `c` at or after `i`, or
/// the sequence's length when there is none.
pub open spec fn find_byte_from(s: Seq<u8>, i: int, c: u8) -> int
    decreases s.len() - i,
{
    if 0 <= i < s.len() && s[i] != c {
        find_byte_from(s, i + 1, c)
    } else {
        i
    }
}

/// The found position never precedes the start, never passes the end, and
/// carries the byte when it lies inside; nothing between start and found
/// position does.
pub proof fn lemma_find_byte_from(s: Seq<u8>, i: int, c: u8)
    requires
        0 <= i <= s.len(),
    ensures
        i <= find_byte_from(s, i, c) <= s.len(),
        find_byte_from(s, i, c) < s.len() ==> s[find_byte_from(s, i, c)] == c,
        forall|k: int| i <= k < find_byte_from(s, i, c) ==> s[k] != c,
    decreases s.len() - i,
{
    if i < s.len() && s[i] != c {
        lemma_find_byte_from(s, i + 1, c);
    }
}

/// Executable search for the first occurrence of a byte.
pub fn find_byte(s: &[u8], i: usize, c: u8) -> (r: usize)
    requires
        i <= s.len(),
    ensures
        r as int == find_byte_from(s@, i as int, c),
        i <= r <= s.len(),
{
    let mut j = i;
    while j < s.len() && s[j] != c
        invariant
            i <= j <= s.len(),
            find_byte_from(s@, i as int, c) == find_byte_from(s@, j as int, c),
        decreases s.len() - j,
    {
        j = j + 1;
    }
    j
}

/// The slice with leading and trailing ASCII whitespace removed.
pub fn trim(s: &[u8]) -> (r: &[u8])
    ensures
        r@ == trim_spec(s@),
{
    let mut a: usize = 0;
    while a < s.len() && is_space_byte(s[a])
        invariant
            a <= s.len(),
            forall|k: int| 0 <= k < a ==> is_space(s@[k]),
        decreases s.len() - a,
    {
        a = a + 1;
    }
    let mut b: usize = s.len();
    while b > a && is_space_byte(s[b - 1])
        invariant
            a <= b <= s.len(),
            forall|k: int| b <= k < s.len() ==> is_space(s@[k]),
        decreases b,
    {
        b = b - 1;
    }
    proof {
        lemma_trim_start_at(s@, 0, a as int, s@.len() as int);
        assert(s@.subrange(0, s@.len() as int) =~= s@);
        lemma_trim_end_at(s@, a as int, b as int, s@.len() as int);
    }
    vstd::slice::slice_subrange(s, a, b)
}

/// If every byte from `t` on is whitespace and the byte before `t` (if it
/// lies at or after `a`) is not, trimming the subrange `[a, b)` from the
/// end yields the subrange `[a, t)`.
pub proof fn lemma_trim_end_at(s: Seq<u8>, a: int, t: int, b: int)
    requires
        0 <= a <= t <= b <= s.len(),
        forall|k: int| t <= k < b ==> is_space(s[k]),
        t > a ==> !is_space(s[t - 1]),
    ensures
        trim_end_spec(s.subrange(a, b)) == s.subrange(a, t),
    decreases b - t,
{
    if b == t {
        let sub = s.subrange(a, b);
        if sub.len() > 0 {
            assert(sub.last() == s[b - 1]);
        }
        assert(trim_end_spec(sub) == sub);
    } else {
        let sub = s.subrange(a, b);
        assert(sub.last() == s[b - 1]);
        assert(is_space(sub.last()));
        assert(sub.drop_last() =~= s.subrange(a, b - 1));
        lemma_trim_end_at(s, a, t, b - 1);
    }
}

/// If every byte before `t` (at or after `a`) is whitespace and the byte
/// at `t` (if it lies before `b`) is not, trimming the subrange `[a, b)`
/// from the start yields the subrange `[t, b)`.
pub proof fn lemma_trim_start_at(s: Seq<u8>, a: int, t: int, b: int)
    requires
        0 <= a <= t <= b <= s.len(),
        forall|k: int| a <= k < t ==> is_space(s[k]),
        t < b ==> !is_space(s[t]),
    ensures
        trim_start_spec(s.subrange(a, b)) == s.subrange(t, b),
    decreases t - a,
{
    if a == t {
        let sub = s.subrange(a, b);
        if sub.len() > 0 {
            assert(sub[0] == s[a]);
        }
        assert(trim_start_spec(sub) == sub);
    } else {
        let sub = s.subrange(a, b);
        assert(sub[0] == s[a]);
        assert(is_space(sub[0]));
        assert(sub.skip(1) =~= s.subrange(a + 1, b));
        lemma_trim_start_at(s, a + 1, t, b);
    }
}

} // verus!
