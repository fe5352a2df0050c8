//! Path-pattern matching with the special characters of an exclusion
//! file: `*` matches any run of bytes, and a trailing `$` anchors the
//! pattern to the end of the path. Each chunk between wildcards is
//! matched at its first occurrence in the still unconsumed path suffix.

use vstd::prelude::*;

use crate::bytes::{bytes_eq, find_byte_from, lemma_find_byte_from, DOLLAR, STAR};

verus! {

/// The leftmost position at or after `k` where `needle` occurs in `hay`,
/// if any.
pub open spec fn find_sub_from(hay: Seq<u8>, needle: Seq<u8>, k: int) -> Option<int>
    decreases hay.len() + 1 - k,
{
    if 0 <= k && k + needle.len() <= hay.len() {
        if hay.subrange(k, k + needle.len()) == needle {
            Some(k)
        } else {
            find_sub_from(hay, needle, k + 1)
        }
    } else {
        None
    }
}

/// The pattern with every trailing `*` removed.
pub open spec fn strip_stars(p: Seq<u8>) -> Seq<u8>
    decreases p.len(),
{
    if p.len() > 0 && p.last() == STAR {
        strip_stars(p.drop_last())
    } else {
        p
    }
}

/// The pattern actually matched, and whether the match is anchored: a
/// trailing `$` is stripped and anchors the match, unless a `*` stands
/// right before it, in which case all trailing `*` are stripped too and
/// the match is unanchored (a wildcard right before the anchor makes the
/// anchor pointless).
pub open spec fn effective_pattern(pattern: Seq<u8>) -> (Seq<u8>, bool) {
    if pattern.len() > 0 && pattern.last() == DOLLAR {
        let p = pattern.drop_last();
        if p.len() > 0 && p.last() == STAR {
            (strip_stars(p), false)
        } else {
            (p, true)
        }
    } else {
        (pattern, false)
    }
}

/// Matching of the pattern chunks after a `*`: the chunk running from `i`
/// to the next `*` must occur in the path at or after `j` (first
/// occurrence); the remaining chunks continue after it; when the chunks
/// are exhausted, an anchored match must have consumed the path exactly.
pub open spec fn match_from(p: Seq<u8>, i: int, path: Seq<u8>, j: int, anchored: bool) -> bool
    decreases p.len() - i,
    via match_from_decreases
{
    let k = find_byte_from(p, i, STAR);
    let chunk = p.subrange(i, k);
    match find_sub_from(path, chunk, j) {
        None => false,
        Some(off) => {
            let j2 = off + chunk.len();
            if k < p.len() {
                match_from(p, k + 1, path, j2, anchored)
            } else {
                !anchored || j2 == path.len()
            }
        },
    }
}

#[via_fn]
proof fn match_from_decreases(p: Seq<u8>, i: int, path: Seq<u8>, j: int, anchored: bool) {
    if 0 <= i <= p.len() {
        lemma_find_byte_from(p, i, STAR);
    }
}

/// Whether the path matches the pattern: after stripping the anchor, the
/// chunk before the first `*` must be a literal prefix of the path, and
/// the remaining chunks must occur in order; an anchored match must end
/// exactly at the end of the path.
pub open spec fn path_match_spec(pattern: Seq<u8>, path: Seq<u8>) -> bool {
    let pa = effective_pattern(pattern);
    let p = pa.0;
    let anchored = pa.1;
    let k = find_byte_from(p, 0, STAR);
    let first = p.subrange(0, k);
    if first.len() <= path.len() && path.subrange(0, first.len() as int) == first {
        if k < p.len() {
            match_from(p, k + 1, path, first.len() as int, anchored)
        } else {
            !anchored || first.len() == path.len()
        }
    } else {
        false
    }
}

/// The empty pattern matches every path: its single chunk is the empty
/// prefix.
pub proof fn lemma_empty_pattern_matches(path: Seq<u8>)
    ensures
        path_match_spec(Seq::<u8>::empty(), path),
{
    let p = Seq::<u8>::empty();
    assert(find_byte_from(p, 0, STAR) == 0);
    assert(path.subrange(0, 0) =~= p.subrange(0, 0));
}

/// If everything from `t` to `b` is a `*` and the byte before `t` (if
/// inside) is not, stripping trailing stars from the prefix of length `b`
/// leaves the prefix of length `t`.
pub proof fn lemma_strip_stars_at(s: Seq<u8>, t: int, b: int)
    requires
        0 <= t <= b <= s.len(),
        forall|k: int| t <= k < b ==> s[k] == STAR,
        t > 0 ==> s[t - 1] != STAR,
    ensures
        strip_stars(s.subrange(0, b)) == s.subrange(0, t),
    decreases b - t,
{
    if b == t {
        let sub = s.subrange(0, b);
        if sub.len() > 0 {
            assert(sub.last() == s[b - 1]);
        }
        assert(strip_stars(sub) == sub);
    } else {
        let sub = s.subrange(0, b);
        assert(sub.last() == s[b - 1]);
        assert(sub.drop_last() =~= s.subrange(0, b - 1));
        lemma_strip_stars_at(s, t, b - 1);
    }
}

/// Executable search for the first occurrence, at or after `j` in the
/// path, of the pattern chunk running from `ci` to `ck`.
fn find_chunk(path: &[u8], j: usize, pattern: &[u8], ci: usize, ck: usize) -> (r: Option<usize>)
    requires
        ci <= ck <= pattern.len(),
        j <= path.len(),
    ensures
        ({
            let found = find_sub_from(path@, pattern@.subrange(ci as int, ck as int), j as int);
            match r {
                Some(off) => found == Some(off as int) && j <= off && off + (ck - ci) <= path.len(),
                None => found is None,
            }
        }),
{
    let clen = ck - ci;
    let needle = vstd::slice::slice_subrange(pattern, ci, ck);
    if clen > path.len() || j > path.len() - clen {
        proof {
            assert(find_sub_from(path@, needle@, j as int) is None);
        }
        return None;
    }
    let mut off = j;
    loop
        invariant
            ci <= ck <= pattern.len(),
            clen == ck - ci,
            j <= off,
            off + clen <= path.len(),
            clen == needle@.len(),
            needle@ == pattern@.subrange(ci as int, ck as int),
            find_sub_from(path@, needle@, j as int) == find_sub_from(path@, needle@, off as int),
        decreases path.len() - off,
    {
        let cand = vstd::slice::slice_subrange(path, off, off + clen);
        if bytes_eq(cand, needle) {
            proof {
                assert(find_sub_from(path@, needle@, off as int) == Some(off as int));
            }
            return Some(off);
        }
        if off + clen >= path.len() {
            proof {
                assert(find_sub_from(path@, needle@, off as int + 1) is None);
                assert(find_sub_from(path@, needle@, off as int) is None);
            }
            return None;
        }
        off = off + 1;
    }
}

/// Whether the path matches the pattern, per the wildcard and anchor
/// rules: `*` matches any run of bytes, a trailing `$` anchors the match
/// to the end of the path, and an empty pattern matches every path.
pub fn path_match(pattern: &[u8], path: &[u8]) -> (b: bool)
    ensures
        b == path_match_spec(pattern@, path@),
{
    let mut pend = pattern.len();
    let mut anchored = false;
    if pattern.len() > 0 && pattern[pattern.len() - 1] == DOLLAR {
        let q = pattern.len() - 1;
        if q > 0 && pattern[q - 1] == STAR {
            let mut t = q;
            while t > 0 && pattern[t - 1] == STAR
                invariant
                    t <= q < pattern.len(),
                    forall|k: int| t <= k < q ==> pattern@[k] == STAR,
                decreases t,
            {
                t = t - 1;
            }
            proof {
                assert(pattern@.drop_last() =~= pattern@.subrange(0, q as int));
                lemma_strip_stars_at(pattern@, t as int, q as int);
            }
            pend = t;
        } else {
            proof {
                assert(pattern@.drop_last() =~= pattern@.subrange(0, q as int));
            }
            pend = q;
            anchored = true;
        }
    }
    let ghost p = effective_pattern(pattern@).0;
    proof {
        assert(p =~= pattern@.subrange(0, pend as int));
        assert(anchored == effective_pattern(pattern@).1);
    }
    // The first chunk must be a literal prefix of the path.
    let k = star_scan(pattern, 0, pend);
    proof {
        assert(p.subrange(0, k as int) =~= pattern@.subrange(0, k as int));
    }
    if k > path.len() {
        return false;
    }
    let first = vstd::slice::slice_subrange(pattern, 0, k);
    let head = vstd::slice::slice_subrange(path, 0, k);
    if !bytes_eq(head, first) {
        return false;
    }
    if k >= pend {
        return !anchored || k == path.len();
    }
    // Each later chunk must occur, in order, in the unconsumed suffix.
    let mut ci = k + 1;
    let mut j: usize = k;
    loop
        invariant
            ci <= pend <= pattern.len(),
            j <= path.len(),
            p == pattern@.subrange(0, pend as int),
            path_match_spec(pattern@, path@) == match_from(p, ci as int, path@, j as int, anchored),
        decreases pend - ci,
    {
        let ck = star_scan(pattern, ci, pend);
        proof {
            assert(p.subrange(ci as int, ck as int) =~= pattern@.subrange(ci as int, ck as int));
        }
        match find_chunk(path, j, pattern, ci, ck) {
            Some(off) => {
                j = off + (ck - ci);
                if ck < pend {
                    ci = ck + 1;
                } else {
                    return !anchored || j == path.len();
                }
            },
            None => {
                return false;
            },
        }
    }
}

/// The position of the first `*` at or after `i` and before `end`, or
/// `end` itself: the next chunk boundary of the effective pattern.
fn star_scan(pattern: &[u8], i: usize, end: usize) -> (r: usize)
    requires
        i <= end <= pattern.len(),
    ensures
        r as int == find_byte_from(pattern@.subrange(0, end as int), i as int, STAR),
        i <= r <= end,
{
    let ghost p = pattern@.subrange(0, end as int);
    let mut k = i;
    while k < end && pattern[k] != STAR
        invariant
            i <= k <= end <= pattern.len(),
            p == pattern@.subrange(0, end as int),
            find_byte_from(p, i as int, STAR) == find_byte_from(p, k as int, STAR),
        decreases end - k,
    {
        k = k + 1;
    }
    k
}

} // verus!
