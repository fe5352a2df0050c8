//! The textual preference-expression parser: comma-separated `name=value`
//! entries, where a value of `y` or `n` merges `Yes` or `No` into the
//! registered usage of that name, and anything malformed is silently
//! ignored. After each entry the input is resynchronised at the next
//! comma, so malformed trailing content cannot desynchronise later
//! entries.

use vstd::prelude::*;

use crate::bytes::{find_byte, find_byte_from, is_space, is_space_byte, lemma_find_byte_from, lemma_trim_end_at, trim_end_spec, COMMA, EQUALS, NO_BYTE, YES_BYTE};
use crate::model::{find_name, max_name_len, merge_state, ItemV, State};
use crate::prefs::UsagePreferences;

verus! {

/// The position of the first non-whitespace byte at or after `i`, or the
/// end of the sequence.
pub open spec fn skip_ws_from(s: Seq<u8>, i: int) -> int
    decreases s.len() - i,
{
    if 0 <= i < s.len() && is_space(s[i]) {
        skip_ws_from(s, i + 1)
    } else {
        i
    }
}

/// Whitespace skipping stays between its start and the end of the
/// sequence and lands on a non-whitespace byte if it lands inside.
pub proof fn lemma_skip_ws_from(s: Seq<u8>, i: int)
    requires
        0 <= i <= s.len(),
    ensures
        i <= skip_ws_from(s, i) <= s.len(),
        skip_ws_from(s, i) < s.len() ==> !is_space(s[skip_ws_from(s, i)]),
        forall|k: int| i <= k < skip_ws_from(s, i) ==> is_space(s[k]),
    decreases s.len() - i,
{
    if i < s.len() && is_space(s[i]) {
        lemma_skip_ws_from(s, i + 1);
    }
}

/// The position where a name token scan starting at `i` stops: at the
/// first `=` or `,`, at the end of the input, or after `budget` bytes,
/// whichever comes first.
pub open spec fn scan_name_end(s: Seq<u8>, i: int, budget: nat) -> int
    decreases budget,
{
    if budget > 0 && 0 <= i < s.len() && s[i] != EQUALS && s[i] != COMMA {
        scan_name_end(s, i + 1, (budget - 1) as nat)
    } else {
        i
    }
}

/// Name scanning stays between its start and the end of the sequence,
/// and every scanned byte is neither `=` nor `,`.
pub proof fn lemma_scan_name_end(s: Seq<u8>, i: int, budget: nat)
    requires
        0 <= i <= s.len(),
    ensures
        i <= scan_name_end(s, i, budget) <= s.len(),
        forall|k: int| i <= k < scan_name_end(s, i, budget) ==> s[k] != EQUALS && s[k] != COMMA,
    decreases budget,
{
    if budget > 0 && i < s.len() && s[i] != EQUALS && s[i] != COMMA {
        lemma_scan_name_end(s, i + 1, (budget - 1) as nat);
    }
}

/// One parsed name: the index of the matching registered usage (if the
/// scanned, end-trimmed token is followed by `=` and names one), and the
/// position just past the `=` (or where scanning stopped, if no `=`
/// follows).
pub open spec fn spec_parse_name(items: Seq<ItemV>, s: Seq<u8>, i: int, budget: nat) -> (Option<
    int,
>, int) {
    let a = skip_ws_from(s, i);
    let b = scan_name_end(s, a, budget);
    let c = skip_ws_from(s, b);
    if 0 <= c < s.len() && s[c] == EQUALS {
        (find_name(items, trim_end_spec(s.subrange(a, b))), c + 1)
    } else {
        (None, c)
    }
}

/// One parsed value: `Yes` for a lone `y`, `No` for a lone `n` (each with
/// surrounding whitespace, ending at a comma or at the end of the input),
/// `Unknown` for anything else; and the position where parsing stopped.
pub open spec fn spec_parse_value(s: Seq<u8>, i: int) -> (State, int) {
    let a = skip_ws_from(s, i);
    if 0 <= a < s.len() {
        let v = if s[a] == YES_BYTE {
            State::Yes
        } else if s[a] == NO_BYTE {
            State::No
        } else {
            State::Unknown
        };
        let b = skip_ws_from(s, a + 1);
        if b >= s.len() || s[b] == COMMA {
            (v, b)
        } else {
            (State::Unknown, b)
        }
    } else {
        (State::Unknown, a)
    }
}

/// The forest after merging a parsed value into the node at `idx`.
pub open spec fn update_value(items: Seq<ItemV>, idx: int, v: State) -> Seq<ItemV> {
    items.update(idx, ItemV { value: merge_state(items[idx].value, v), ..items[idx] })
}

/// One entry step: parse a name; on a match, parse a value and merge it
/// into the matched node; then discard everything up to and including the
/// next comma. Yields the new forest and the position of the next entry.
pub open spec fn spec_step(items: Seq<ItemV>, s: Seq<u8>, i: int, budget: nat) -> (Seq<ItemV>, int) {
    let n = spec_parse_name(items, s, i, budget);
    let after = match n.0 {
        Some(idx) => {
            let v = spec_parse_value(s, n.1);
            (update_value(items, idx, v.0), v.1)
        },
        None => (items, n.1),
    };
    let e = find_byte_from(s, after.1, COMMA);
    (after.0, if e < s.len() {
        e + 1
    } else {
        e
    })
}

/// A step always consumes at least one byte while input remains.
pub proof fn lemma_spec_step_advances(items: Seq<ItemV>, s: Seq<u8>, i: int, budget: nat)
    requires
        0 <= i < s.len(),
    ensures
        i < spec_step(items, s, i, budget).1 <= s.len() + 1,
        spec_step(items, s, i, budget).1 == s.len() + 1 ==> s[s.len() - 1] == COMMA,
{
    lemma_skip_ws_from(s, i);
    let a = skip_ws_from(s, i);
    lemma_scan_name_end(s, a, budget);
    let b = scan_name_end(s, a, budget);
    lemma_skip_ws_from(s, b);
    let c = skip_ws_from(s, b);
    let n = spec_parse_name(items, s, i, budget);
    if 0 <= c < s.len() && s[c] == EQUALS && n.0 is Some {
        let a2 = skip_ws_from(s, c + 1);
        lemma_skip_ws_from(s, c + 1);
        if a2 < s.len() {
            lemma_skip_ws_from(s, a2 + 1);
            crate::bytes::lemma_find_byte_from(s, skip_ws_from(s, a2 + 1), COMMA);
        } else {
            crate::bytes::lemma_find_byte_from(s, a2, COMMA);
        }
    } else {
        crate::bytes::lemma_find_byte_from(s, n.1, COMMA);
    }
}

/// The whole parse: entry steps from position `i` until the input is
/// exhausted.
pub open spec fn spec_parse(items: Seq<ItemV>, s: Seq<u8>, i: int, budget: nat) -> Seq<ItemV>
    decreases s.len() + 1 - i,
    via spec_parse_decreases
{
    if 0 <= i < s.len() {
        let st = spec_step(items, s, i, budget);
        spec_parse(st.0, s, st.1, budget)
    } else {
        items
    }
}

#[via_fn]
proof fn spec_parse_decreases(items: Seq<ItemV>, s: Seq<u8>, i: int, budget: nat) {
    if 0 <= i < s.len() {
        lemma_spec_step_advances(items, s, i, budget);
    }
}

/// A well-formed entry: it holds no comma, and if it holds an `=` at all,
/// a value byte follows the first one (after optional whitespace), so
/// that value parsing never runs past the end of the entry.
pub open spec fn wf_entry(e: Seq<u8>) -> bool {
    &&& forall|k: int| 0 <= k < e.len() ==> e[k] != COMMA
    &&& (find_byte_from(e, 0, EQUALS) < e.len() ==> skip_ws_from(
        e,
        find_byte_from(e, 0, EQUALS) + 1,
    ) < e.len())
}

/// A well-formed expression: a comma-separated list of well-formed
/// entries.
pub open spec fn wf_expr(s: Seq<u8>) -> bool
    decreases s.len(),
    via wf_expr_decreases
{
    let c = find_byte_from(s, 0, COMMA);
    if 0 <= c < s.len() {
        wf_entry(s.subrange(0, c)) && wf_expr(s.subrange(c + 1, s.len() as int))
    } else {
        wf_entry(s)
    }
}

#[via_fn]
proof fn wf_expr_decreases(s: Seq<u8>) {
    lemma_find_byte_from(s, 0, COMMA);
}

/// Within an entry followed by a comma and further input, whitespace
/// skipping agrees with skipping in the entry alone: the comma stops it
/// just as the end of the entry would.
proof fn lemma_skip_ws_embed(e: Seq<u8>, t: Seq<u8>, i: int)
    requires
        0 <= i <= e.len(),
    ensures
        skip_ws_from(e + seq![COMMA] + t, i) == skip_ws_from(e, i),
    decreases e.len() - i,
{
    let s = e + seq![COMMA] + t;
    if i < e.len() {
        assert(s[i] == e[i]);
        if is_space(e[i]) {
            lemma_skip_ws_embed(e, t, i + 1);
        }
    } else {
        assert(s[i] == COMMA);
    }
}

/// Name scanning agrees likewise: the comma stops it just as the end of
/// the entry would.
proof fn lemma_scan_embed(e: Seq<u8>, t: Seq<u8>, i: int, budget: nat)
    requires
        0 <= i <= e.len(),
    ensures
        scan_name_end(e + seq![COMMA] + t, i, budget) == scan_name_end(e, i, budget),
    decreases budget,
{
    let s = e + seq![COMMA] + t;
    if i < e.len() {
        assert(s[i] == e[i]);
        if budget > 0 && e[i] != EQUALS && e[i] != COMMA {
            lemma_scan_embed(e, t, i + 1, (budget - 1) as nat);
        }
    } else {
        assert(s[i] == COMMA);
    }
}

/// In an entry free of commas, the search for the next comma runs to the
/// end of the entry, and in the embedded form it finds exactly the
/// inserted comma.
proof fn lemma_comma_embed(e: Seq<u8>, t: Seq<u8>, i: int)
    requires
        0 <= i <= e.len(),
        forall|k: int| 0 <= k < e.len() ==> e[k] != COMMA,
    ensures
        find_byte_from(e, i, COMMA) == e.len(),
        find_byte_from(e + seq![COMMA] + t, i, COMMA) == e.len(),
{
    let s = e + seq![COMMA] + t;
    lemma_find_byte_from(e, i, COMMA);
    lemma_find_byte_from(s, i, COMMA);
    let r = find_byte_from(s, i, COMMA);
    assert(s[e.len() as int] == COMMA);
    if r < e.len() {
        assert(s[r] == e[r]);
    }
}

/// One entry step on a well-formed entry consumes the entry exactly, both
/// alone (running to its end) and embedded before a comma and further
/// input (running one byte past the comma), with the same effect on the
/// forest either way.
proof fn lemma_step_embed(items: Seq<ItemV>, e: Seq<u8>, t: Seq<u8>, budget: nat)
    requires
        wf_entry(e),
    ensures
        spec_step(items, e + seq![COMMA] + t, 0, budget).0 == spec_step(items, e, 0, budget).0,
        spec_step(items, e + seq![COMMA] + t, 0, budget).1 == e.len() + 1,
        spec_step(items, e, 0, budget).1 == e.len(),
{
    let s = e + seq![COMMA] + t;
    lemma_skip_ws_embed(e, t, 0);
    lemma_skip_ws_from(e, 0);
    let a = skip_ws_from(e, 0);
    lemma_scan_embed(e, t, a, budget);
    lemma_scan_name_end(e, a, budget);
    let b = scan_name_end(e, a, budget);
    lemma_skip_ws_embed(e, t, b);
    lemma_skip_ws_from(e, b);
    let c = skip_ws_from(e, b);
    if c < e.len() && e[c] == EQUALS {
        assert(s[c] == e[c]);
        assert(s.subrange(a, b) =~= e.subrange(a, b));
        let opt = find_name(items, trim_end_spec(e.subrange(a, b)));
        // The found `=` is the first one in the entry: everything before
        // it is leading whitespace, scanned name bytes, or whitespace.
        lemma_find_byte_from(e, 0, EQUALS);
        let q = find_byte_from(e, 0, EQUALS);
        assert(q == c) by {
            if q < c {
                assert(e[q] == EQUALS);
                if q < a {
                    assert(is_space(e[q]));
                } else if q < b {
                    assert(e[q] != EQUALS);
                } else {
                    assert(is_space(e[q]));
                }
            }
        }
        match opt {
            Some(idx) => {
                let av = skip_ws_from(e, c + 1);
                lemma_skip_ws_embed(e, t, c + 1);
                lemma_skip_ws_from(e, c + 1);
                assert(av < e.len());
                assert(s[av] == e[av]);
                lemma_skip_ws_embed(e, t, av + 1);
                lemma_skip_ws_from(e, av + 1);
                let bv = skip_ws_from(e, av + 1);
                if bv < e.len() {
                    assert(s[bv] == e[bv]);
                    assert(e[bv] != COMMA);
                } else {
                    assert(s[bv] == COMMA);
                }
                assert(spec_parse_value(s, c + 1) == spec_parse_value(e, c + 1));
                lemma_comma_embed(e, t, bv);
            },
            None => {
                lemma_comma_embed(e, t, c + 1);
            },
        }
    } else {
        if c < e.len() {
            assert(s[c] == e[c]);
        } else {
            assert(s[c] == COMMA);
        }
        lemma_comma_embed(e, t, c);
    }
}

/// Whitespace skipping is position-independent: skipping within the
/// suffix after a fixed prefix is skipping in the suffix alone, shifted.
proof fn lemma_skip_ws_shift(u: Seq<u8>, w: Seq<u8>, d: int)
    requires
        0 <= d,
    ensures
        skip_ws_from(u + w, u.len() + d) == u.len() + skip_ws_from(w, d),
    decreases w.len() - d,
{
    let s = u + w;
    if d < w.len() {
        assert(s[u.len() + d] == w[d]);
        if is_space(w[d]) {
            lemma_skip_ws_shift(u, w, d + 1);
        }
    }
}

/// Name scanning is position-independent in the same way.
proof fn lemma_scan_shift(u: Seq<u8>, w: Seq<u8>, d: int, budget: nat)
    requires
        0 <= d,
    ensures
        scan_name_end(u + w, u.len() + d, budget) == u.len() + scan_name_end(w, d, budget),
    decreases budget,
{
    let s = u + w;
    if d < w.len() {
        assert(s[u.len() + d] == w[d]);
        if budget > 0 && w[d] != EQUALS && w[d] != COMMA {
            lemma_scan_shift(u, w, d + 1, (budget - 1) as nat);
        }
    }
}

/// Byte searching is position-independent in the same way.
proof fn lemma_find_byte_shift(u: Seq<u8>, w: Seq<u8>, d: int, c: u8)
    requires
        0 <= d,
    ensures
        find_byte_from(u + w, u.len() + d, c) == u.len() + find_byte_from(w, d, c),
    decreases w.len() - d,
{
    let s = u + w;
    if d < w.len() {
        assert(s[u.len() + d] == w[d]);
        if w[d] != c {
            lemma_find_byte_shift(u, w, d + 1, c);
        }
    }
}

/// One entry step is position-independent: a step within the suffix after
/// a fixed prefix has the same effect as the step in the suffix alone,
/// with its cursor shifted.
proof fn lemma_step_shift(items: Seq<ItemV>, u: Seq<u8>, w: Seq<u8>, d: int, budget: nat)
    requires
        0 <= d <= w.len(),
    ensures
        spec_step(items, u + w, u.len() + d, budget).0 == spec_step(items, w, d, budget).0,
        spec_step(items, u + w, u.len() + d, budget).1 == u.len() + spec_step(
            items,
            w,
            d,
            budget,
        ).1,
{
    let s = u + w;
    lemma_skip_ws_shift(u, w, d);
    lemma_skip_ws_from(w, d);
    let a = skip_ws_from(w, d);
    lemma_scan_shift(u, w, a, budget);
    lemma_scan_name_end(w, a, budget);
    let b = scan_name_end(w, a, budget);
    lemma_skip_ws_shift(u, w, b);
    lemma_skip_ws_from(w, b);
    let c = skip_ws_from(w, b);
    if c < w.len() {
        assert(s[u.len() + c] == w[c]);
    }
    if c < w.len() && w[c] == EQUALS {
        assert(s.subrange(u.len() + a, u.len() + b) =~= w.subrange(a, b));
        match find_name(items, trim_end_spec(w.subrange(a, b))) {
            Some(idx) => {
                lemma_skip_ws_shift(u, w, c + 1);
                lemma_skip_ws_from(w, c + 1);
                let av = skip_ws_from(w, c + 1);
                if av < w.len() {
                    assert(s[u.len() + av] == w[av]);
                    lemma_skip_ws_shift(u, w, av + 1);
                    lemma_skip_ws_from(w, av + 1);
                    let bv = skip_ws_from(w, av + 1);
                    if bv < w.len() {
                        assert(s[u.len() + bv] == w[bv]);
                    }
                    lemma_find_byte_shift(u, w, bv, COMMA);
                    crate::bytes::lemma_find_byte_from(w, bv, COMMA);
                } else {
                    lemma_find_byte_shift(u, w, av, COMMA);
                    crate::bytes::lemma_find_byte_from(w, av, COMMA);
                }
            },
            None => {
                lemma_find_byte_shift(u, w, c + 1, COMMA);
                crate::bytes::lemma_find_byte_from(w, c + 1, COMMA);
            },
        }
    } else {
        lemma_find_byte_shift(u, w, c, COMMA);
        crate::bytes::lemma_find_byte_from(w, c, COMMA);
    }
}

/// The whole parse is position-independent: parsing the suffix after a
/// fixed prefix equals parsing the suffix alone.
proof fn lemma_parse_shift(items: Seq<ItemV>, u: Seq<u8>, w: Seq<u8>, d: int, budget: nat)
    requires
        0 <= d,
    ensures
        spec_parse(items, u + w, u.len() + d, budget) == spec_parse(items, w, d, budget),
    decreases w.len() + 1 - d,
{
    if d < w.len() {
        lemma_step_shift(items, u, w, d, budget);
        let st = spec_step(items, w, d, budget);
        lemma_spec_step_advances(items, w, d, budget);
        lemma_parse_shift(st.0, u, w, st.1, budget);
    }
}

/// Parsing distributes over splitting at a comma: on a well-formed
/// expression `a`, parsing `a ++ "," ++ b` into a forest yields exactly
/// what parsing `a` and then parsing `b` yields, whatever `b` holds. A
/// malformed trailing entry of `a` could otherwise swallow the separator;
/// well-formedness rules that out.
pub proof fn lemma_parse_split(items: Seq<ItemV>, a: Seq<u8>, b: Seq<u8>, budget: nat)
    requires
        wf_expr(a),
    ensures
        spec_parse(items, a + seq![COMMA] + b, 0, budget) == spec_parse(
            spec_parse(items, a, 0, budget),
            b,
            0,
            budget,
        ),
    decreases a.len(),
{
    let s = a + seq![COMMA] + b;
    let c = find_byte_from(a, 0, COMMA);
    lemma_find_byte_from(a, 0, COMMA);
    if c < a.len() {
        let e = a.subrange(0, c);
        let a2 = a.subrange(c + 1, a.len() as int);
        let t = a2 + seq![COMMA] + b;
        assert(s =~= e + seq![COMMA] + t);
        assert(a =~= e + seq![COMMA] + a2);
        lemma_step_embed(items, e, t, budget);
        lemma_step_embed(items, e, a2, budget);
        let items1 = spec_step(items, e, 0, budget).0;
        // The combined parse takes the first entry, then continues at the
        // start of `t`.
        assert(spec_parse(items, s, 0, budget) == spec_parse(items1, s, c + 1, budget));
        assert(s =~= (e + seq![COMMA]) + t);
        lemma_parse_shift(items1, e + seq![COMMA], t, 0, budget);
        assert(spec_parse(items1, s, c + 1, budget) == spec_parse(items1, t, 0, budget));
        // The parse of `a` alone takes the same first entry.
        assert(spec_parse(items, a, 0, budget) == spec_parse(items1, a, c + 1, budget));
        assert(a =~= (e + seq![COMMA]) + a2);
        lemma_parse_shift(items1, e + seq![COMMA], a2, 0, budget);
        assert(spec_parse(items1, a, c + 1, budget) == spec_parse(items1, a2, 0, budget));
        // Both sides now continue from `items1`, and the tail is again a
        // well-formed expression.
        lemma_parse_split(items1, a2, b, budget);
    } else {
        // The whole of `a` is one well-formed entry.
        lemma_step_embed(items, a, b, budget);
        let items1 = spec_step(items, a, 0, budget).0;
        assert(spec_parse(items, s, 0, budget) == spec_parse(items1, s, a.len() + 1 as int, budget));
        assert(s =~= (a + seq![COMMA]) + b);
        lemma_parse_shift(items1, a + seq![COMMA], b, 0, budget);
        if a.len() == 0 {
            assert(skip_ws_from(a, 0) == 0);
            assert(scan_name_end(a, 0, budget) == 0);
            assert(find_byte_from(a, 0, COMMA) == 0);
            assert(items1 == items);
        } else {
            assert(spec_parse(items, a, 0, budget) == spec_parse(items1, a, a.len() as int, budget));
        }
    }
}

/// Executable whitespace skipping.
fn skip_ws(s: &[u8], i: usize) -> (r: usize)
    requires
        i <= s.len(),
    ensures
        r as int == skip_ws_from(s@, i as int),
        i <= r <= s.len(),
{
    let mut j = i;
    while j < s.len() && is_space_byte(s[j])
        invariant
            i <= j <= s.len(),
            skip_ws_from(s@, i as int) == skip_ws_from(s@, j as int),
        decreases s.len() - j,
    {
        j = j + 1;
    }
    j
}

/// Executable name-token scanning, bounded by the longest registered
/// name.
fn scan_name(s: &[u8], i: usize, budget: usize) -> (r: usize)
    requires
        i <= s.len(),
    ensures
        r as int == scan_name_end(s@, i as int, budget as nat),
        i <= r <= s.len(),
{
    let mut j = i;
    let mut left = budget;
    while j < s.len() && left > 0 && s[j] != EQUALS && s[j] != COMMA
        invariant
            i <= j <= s.len(),
            scan_name_end(s@, i as int, budget as nat) == scan_name_end(s@, j as int, left as nat),
        decreases left,
    {
        j = j + 1;
        left = left - 1;
    }
    j
}

/// Parse one name token: scan up to the longest registered name, trim
/// trailing whitespace, and on a following `=` look the token up among
/// the registered usages.
fn parse_name(prefs: &UsagePreferences, expr: &[u8], i: usize) -> (r: (Option<usize>, usize))
    requires
        prefs.wf(),
        i <= expr.len(),
    ensures
        ({
            let sn = spec_parse_name(prefs@, expr@, i as int, max_name_len(prefs@));
            &&& match r.0 {
                Some(k) => sn.0 == Some(k as int) && (k as int) < prefs@.len(),
                None => sn.0 is None,
            }
            &&& r.1 as int == sn.1
            &&& i <= r.1 <= expr.len()
        }),
{
    let a = skip_ws(expr, i);
    let b = scan_name(expr, a, prefs.max_len());
    let c = skip_ws(expr, b);
    if c < expr.len() && expr[c] == EQUALS {
        let mut t = b;
        while t > a && is_space_byte(expr[t - 1])
            invariant
                a <= t <= b <= expr.len(),
                forall|k: int| t <= k < b ==> is_space(expr@[k]),
            decreases t,
        {
            t = t - 1;
        }
        proof {
            lemma_trim_end_at(expr@, a as int, t as int, b as int);
        }
        let name = vstd::slice::slice_subrange(expr, a, t);
        (prefs.index_of(name), c + 1)
    } else {
        (None, c)
    }
}

/// Parse one value token: a lone `y` or `n`, whitespace-tolerant, ending
/// at a comma or the end of the input; anything else is `Unknown`.
fn parse_value(expr: &[u8], i: usize) -> (r: (State, usize))
    requires
        i <= expr.len(),
    ensures
        ({
            let sv = spec_parse_value(expr@, i as int);
            &&& r.0 == sv.0
            &&& r.1 as int == sv.1
            &&& i <= r.1 <= expr.len()
        }),
{
    let a = skip_ws(expr, i);
    if a < expr.len() {
        let v = if expr[a] == YES_BYTE {
            State::Yes
        } else if expr[a] == NO_BYTE {
            State::No
        } else {
            State::Unknown
        };
        let b = skip_ws(expr, a + 1);
        if b >= expr.len() || expr[b] == COMMA {
            (v, b)
        } else {
            (State::Unknown, b)
        }
    } else {
        (State::Unknown, a)
    }
}

/// Parse a preference expression into the given forest: each entry whose
/// name matches a registered usage and whose value is a lone `y` or `n`
/// merges that value into the usage; every other entry is silently
/// discarded up to the next comma.
pub fn parse(prefs: &mut UsagePreferences, expr: &[u8])
    requires
        old(prefs).wf(),
    ensures
        final(prefs).wf(),
        final(prefs)@ == spec_parse(old(prefs)@, expr@, 0, max_name_len(old(prefs)@)),
{
    let ghost orig = prefs@;
    let ghost budget = max_name_len(orig);
    let mut i: usize = 0;
    while i < expr.len()
        invariant
            prefs.wf(),
            i <= expr.len(),
            max_name_len(prefs@) == budget,
            spec_parse(orig, expr@, 0, budget) == spec_parse(prefs@, expr@, i as int, budget),
        decreases expr.len() - i,
    {
        let ghost pre = prefs@;
        let ghost i0 = i as int;
        let n = parse_name(prefs, expr, i);
        let next: usize = match n.0 {
            Some(idx) => {
                let v = parse_value(expr, n.1);
                prefs.merge_value(idx, v.0);
                v.1
            },
            None => n.1,
        };
        let e = find_byte(expr, next, COMMA);
        if e < expr.len() {
            i = e + 1;
        } else {
            i = e;
        }
        proof {
            assert(max_name_len(prefs@) == budget);
            assert(spec_step(pre, expr@, i0, budget) == (prefs@, i as int));
            assert(spec_parse(pre, expr@, i0, budget) == spec_parse(prefs@, expr@, i as int, budget));
        }
    }
}

} // verus!
