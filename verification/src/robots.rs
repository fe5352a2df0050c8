//! The extended exclusion-file format: a line-oriented parser that groups
//! directives by consecutive `User-Agent` lines, admission (allow /
//! disallow) resolution by pattern specificity, and aggregation of
//! `Content-Usage` preferences across the most specific matching rules.

use vstd::prelude::*;

use crate::bytes::{
    eq_ignore_case, find_byte, find_byte_from, lemma_find_byte_from, lower_seq, lower_vec,
    trim_spec, COLON, HASH, LF, SLASH, SP, STAR, TAB,
};
use crate::model::{default_items, max_name_len, merge_forest, ItemV};
use crate::parser::spec_parse;
use crate::pattern::{path_match, path_match_spec};
use crate::prefs::UsagePreferences;

verus! {

/// The model of one `Content-Usage` rule: its source line, the path
/// pattern it applies to (empty means every path), and the preference
/// forest parsed from its expression.
pub ghost struct CULineV {
    pub line: int,
    pub path: Seq<u8>,
    pub usage: Seq<ItemV>,
}

/// The model of one admission rule: its source line, whether it allows or
/// disallows, and the path pattern it applies to.
pub ghost struct AdmLineV {
    pub line: int,
    pub allow: bool,
    pub path: Seq<u8>,
}

/// The model of one group: the line its first `User-Agent` stood on (zero
/// for the implicit group open before any `User-Agent`), its case-folded
/// agent names, and its rules in source order.
pub ghost struct GroupV {
    pub line: int,
    pub agents: Seq<Seq<u8>>,
    pub usages: Seq<CULineV>,
    pub admissions: Seq<AdmLineV>,
}

/// One `Content-Usage` rule.
struct ContentUsageLine {
    line: usize,
    path: Vec<u8>,
    usage: UsagePreferences,
}

impl View for ContentUsageLine {
    type V = CULineV;

    closed spec fn view(&self) -> CULineV {
        CULineV { line: self.line as int, path: self.path@, usage: self.usage@ }
    }
}

/// One admission (allow or disallow) rule.
struct AdmissionLine {
    line: usize,
    allow: bool,
    path: Vec<u8>,
}

impl View for AdmissionLine {
    type V = AdmLineV;

    closed spec fn view(&self) -> AdmLineV {
        AdmLineV { line: self.line as int, allow: self.allow, path: self.path@ }
    }
}

/// A block of the exclusion file sharing one or more user agents.
struct Group {
    line: usize,
    user_agents: Vec<Vec<u8>>,
    usage_preferences: Vec<ContentUsageLine>,
    admissions: Vec<AdmissionLine>,
}

impl View for Group {
    type V = GroupV;

    closed spec fn view(&self) -> GroupV {
        GroupV {
            line: self.line as int,
            agents: self.user_agents@.map_values(|a: Vec<u8>| a@),
            usages: self.usage_preferences@.map_values(|u: ContentUsageLine| u@),
            admissions: self.admissions@.map_values(|a: AdmissionLine| a@),
        }
    }
}

impl Group {
    /// Every preference forest held by this group is well-formed.
    spec fn wf(&self) -> bool {
        forall|u: int|
            0 <= u < self.usage_preferences@.len()
                ==> (#[trigger] self.usage_preferences@[u]).usage.wf()
    }
}

/// A parsed exclusion file: its groups in source order.
pub struct Robots {
    groups: Vec<Group>,
}

impl View for Robots {
    type V = Seq<GroupV>;

    closed spec fn view(&self) -> Seq<GroupV> {
        self.groups@.map_values(|g: Group| g@)
    }
}

impl Robots {
    /// The file's internal invariant: every preference forest held by any
    /// group is well-formed.
    pub closed spec fn wf(&self) -> bool {
        forall|k: int| 0 <= k < self.groups@.len() ==> (#[trigger] self.groups@[k]).wf()
    }
}

/// The directive name `user-agent`, case-folded.
pub open spec fn kw_user_agent() -> Seq<u8> {
    seq![117u8, 115u8, 101u8, 114u8, 45u8, 97u8, 103u8, 101u8, 110u8, 116u8]
}

/// The directive name `allow`.
pub open spec fn kw_allow() -> Seq<u8> {
    seq![97u8, 108u8, 108u8, 111u8, 119u8]
}

/// The directive name `disallow`.
pub open spec fn kw_disallow() -> Seq<u8> {
    seq![100u8, 105u8, 115u8, 97u8, 108u8, 108u8, 111u8, 119u8]
}

/// The directive name `content-usage`.
pub open spec fn kw_content_usage() -> Seq<u8> {
    seq![99u8, 111u8, 110u8, 116u8, 101u8, 110u8, 116u8, 45u8, 117u8, 115u8, 97u8, 103u8, 101u8]
}

/// The wildcard user agent `*`.
pub open spec fn wildcard_agent() -> Seq<u8> {
    seq![STAR]
}

/// The position of the first space or tab at or after `i`, or the end.
pub open spec fn first_sp_tab(s: Seq<u8>, i: int) -> int
    decreases s.len() - i,
{
    if 0 <= i < s.len() && s[i] != SP && s[i] != TAB {
        first_sp_tab(s, i + 1)
    } else {
        i
    }
}

/// The split of a `Content-Usage` value into path pattern and expression:
/// a value starting with `/` is split at its first space or tab (and
/// discarded entirely when it has none — a path with no expression is
/// meaningless); any other value is all expression, applying to every
/// path.
pub open spec fn cu_split(value: Seq<u8>) -> Option<(Seq<u8>, Seq<u8>)> {
    if value.len() > 0 && value[0] == SLASH {
        let k = first_sp_tab(value, 0);
        if k < value.len() {
            Some((value.subrange(0, k), value.subrange(k + 1, value.len() as int)))
        } else {
            None
        }
    } else {
        Some((Seq::empty(), value))
    }
}

/// One directive line integrated into a group: `content-usage` appends a
/// preference rule whose expression is parsed into a default forest,
/// `allow` and `disallow` append admission rules, and any other directive
/// is ignored.
pub open spec fn group_line(g: GroupV, name: Seq<u8>, value: Seq<u8>, ln: int) -> GroupV {
    if lower_seq(name) == kw_content_usage() {
        match cu_split(value) {
            Some(pe) => GroupV {
                usages: g.usages.push(
                    CULineV {
                        line: ln,
                        path: pe.0,
                        usage: spec_parse(default_items(), pe.1, 0, max_name_len(default_items())),
                    },
                ),
                ..g
            },
            None => g,
        }
    } else if lower_seq(name) == kw_allow() {
        GroupV { admissions: g.admissions.push(AdmLineV { line: ln, allow: true, path: value }), ..g }
    } else if lower_seq(name) == kw_disallow() {
        GroupV {
            admissions: g.admissions.push(AdmLineV { line: ln, allow: false, path: value }),
            ..g
        }
    } else {
        g
    }
}

/// The running state of the exclusion-file parser: the finished groups,
/// the group being filled, and whether the last processed directive line
/// was a `user-agent` line.
pub ghost struct RobotsStateV {
    pub done: Seq<GroupV>,
    pub cur: GroupV,
    pub ua: bool,
}

/// A group freshly opened at the given line, with nothing in it.
pub open spec fn empty_group(ln: int) -> GroupV {
    GroupV { line: ln, agents: Seq::empty(), usages: Seq::empty(), admissions: Seq::empty() }
}

/// One line of the exclusion file: comments are cut at `#`; a line
/// without `:` is skipped; a `user-agent` line continues the current run
/// of user-agent lines or, if none is running, flushes the current group
/// (when one was opened by a `user-agent` line) and opens a fresh one;
/// any other directive attaches to the current group and ends the run.
pub open spec fn process_line(st: RobotsStateV, l: Seq<u8>, ln: int) -> RobotsStateV {
    let stripped = l.subrange(0, find_byte_from(l, 0, HASH));
    let c = find_byte_from(stripped, 0, COLON);
    if c < stripped.len() {
        let name = trim_spec(stripped.subrange(0, c));
        let value = trim_spec(stripped.subrange(c + 1, stripped.len() as int));
        if lower_seq(name) == kw_user_agent() {
            let st1 = if !st.ua {
                RobotsStateV {
                    done: if st.cur.line != 0 {
                        st.done.push(st.cur)
                    } else {
                        st.done
                    },
                    cur: empty_group(ln),
                    ua: true,
                }
            } else {
                st
            };
            RobotsStateV {
                done: st1.done,
                cur: GroupV { agents: st1.cur.agents.push(lower_seq(value)), ..st1.cur },
                ua: true,
            }
        } else {
            RobotsStateV { done: st.done, cur: group_line(st.cur, name, value, ln), ua: false }
        }
    } else {
        st
    }
}

/// The parser folded over the input's lines (separated by line feeds),
/// numbering lines from `ln`.
pub open spec fn parse_lines(s: Seq<u8>, i: int, st: RobotsStateV, ln: int) -> RobotsStateV
    decreases s.len() - i,
    via parse_lines_decreases
{
    if 0 <= i < s.len() {
        let e = find_byte_from(s, i, LF);
        let st2 = process_line(st, s.subrange(i, e), ln);
        parse_lines(s, if e < s.len() {
            e + 1
        } else {
            e
        }, st2, ln + 1)
    } else {
        st
    }
}

#[via_fn]
proof fn parse_lines_decreases(s: Seq<u8>, i: int, st: RobotsStateV, ln: int) {
    if 0 <= i < s.len() {
        lemma_find_byte_from(s, i, LF);
    }
}

/// The initial parser state: no finished groups, the implicit group open
/// at line zero, no user-agent run.
pub open spec fn initial_state() -> RobotsStateV {
    RobotsStateV { done: Seq::empty(), cur: empty_group(0), ua: false }
}

/// The groups of an exclusion file: the parser folded over every line,
/// with the final in-progress group flushed unconditionally.
pub open spec fn robots_spec(s: Seq<u8>) -> Seq<GroupV> {
    let st = parse_lines(s, 0, initial_state(), 1);
    st.done.push(st.cur)
}

/// The virtual admission rule in force before any rule matches: disallow
/// with the empty pattern, so a path no rule matches is not admitted.
pub open spec fn init_admission() -> AdmLineV {
    AdmLineV { line: 0, allow: false, path: Seq::empty() }
}

/// Whether rule `a` displaces the current rule: a strictly longer pattern
/// always wins; at equal length an allow rule wins (so an allow displaces
/// a disallow of the same length, and a later disallow of that length
/// cannot displace it); a strictly shorter pattern never wins.
pub open spec fn more_specific(a: AdmLineV, cur: AdmLineV) -> bool {
    a.path.len() > cur.path.len() || (a.path.len() == cur.path.len() && a.allow)
}

/// The admission rule left standing after scanning `rules` in order,
/// starting from `cur`: each rule whose pattern matches the path and
/// which is more specific than the current rule becomes current.
pub open spec fn admit_fold(rules: Seq<AdmLineV>, path: Seq<u8>, cur: AdmLineV) -> AdmLineV
    decreases rules.len(),
{
    if rules.len() == 0 {
        cur
    } else {
        let c2 = if path_match_spec(rules[0].path, path) && more_specific(rules[0], cur) {
            rules[0]
        } else {
            cur
        };
        admit_fold(rules.skip(1), path, c2)
    }
}

/// All admission rules of the given groups, in source order.
pub open spec fn all_admissions(gs: Seq<GroupV>) -> Seq<AdmLineV>
    decreases gs.len(),
{
    if gs.len() == 0 {
        Seq::empty()
    } else {
        all_admissions(gs.drop_last()) + gs.last().admissions
    }
}

/// Whether the admission rules of the given groups admit the path:
/// the most specific matching rule decides, and a path that no rule
/// matches is not admitted.
pub open spec fn is_admitted_spec(gs: Seq<GroupV>, path: Seq<u8>) -> bool {
    admit_fold(all_admissions(gs), path, init_admission()).allow
}

/// Folding a concatenation folds the parts in order.
pub proof fn lemma_admit_fold_append(a: Seq<AdmLineV>, b: Seq<AdmLineV>, path: Seq<u8>, cur: AdmLineV)
    ensures
        admit_fold(a + b, path, cur) == admit_fold(b, path, admit_fold(a, path, cur)),
    decreases a.len(),
{
    if a.len() == 0 {
        assert(a + b =~= b);
    } else {
        assert((a + b).skip(1) =~= a.skip(1) + b);
        assert((a + b)[0] == a[0]);
        let c2 = if path_match_spec(a[0].path, path) && more_specific(a[0], cur) {
            a[0]
        } else {
            cur
        };
        lemma_admit_fold_append(a.skip(1), b, path, c2);
    }
}

/// Folding one rule takes one displacement step.
pub proof fn lemma_admit_fold_one(x: AdmLineV, path: Seq<u8>, cur: AdmLineV)
    ensures
        admit_fold(seq![x], path, cur) == (if path_match_spec(x.path, path) && more_specific(x, cur) {
            x
        } else {
            cur
        }),
{
    let c2 = if path_match_spec(x.path, path) && more_specific(x, cur) {
        x
    } else {
        cur
    };
    assert(seq![x].skip(1) =~= Seq::<AdmLineV>::empty());
    assert(admit_fold(Seq::<AdmLineV>::empty(), path, c2) == c2);
}

/// All `Content-Usage` rules of the given groups, in source order.
pub open spec fn all_usages(gs: Seq<GroupV>) -> Seq<CULineV>
    decreases gs.len(),
{
    if gs.len() == 0 {
        Seq::empty()
    } else {
        all_usages(gs.drop_last()) + gs.last().usages
    }
}

/// The specificity scan over `Content-Usage` rules: keep the running
/// maximum matched pattern length and the rules matching at exactly that
/// length; a strictly longer match restarts the collection, an
/// equal-length match joins it, a shorter one is dropped.
pub open spec fn pref_select(rules: Seq<CULineV>, path: Seq<u8>, len: nat, acc: Seq<CULineV>) -> (
    nat,
    Seq<CULineV>,
)
    decreases rules.len(),
{
    if rules.len() == 0 {
        (len, acc)
    } else {
        let r0 = rules[0];
        let next = if path_match_spec(r0.path, path) {
            if r0.path.len() > len {
                (r0.path.len(), seq![r0])
            } else if r0.path.len() == len {
                (len, acc.push(r0))
            } else {
                (len, acc)
            }
        } else {
            (len, acc)
        };
        pref_select(rules.skip(1), path, next.0, next.1)
    }
}

/// Selecting over a concatenation selects over the parts in order.
pub proof fn lemma_pref_select_append(
    a: Seq<CULineV>,
    b: Seq<CULineV>,
    path: Seq<u8>,
    len: nat,
    acc: Seq<CULineV>,
)
    ensures
        pref_select(a + b, path, len, acc) == pref_select(
            b,
            path,
            pref_select(a, path, len, acc).0,
            pref_select(a, path, len, acc).1,
        ),
    decreases a.len(),
{
    if a.len() == 0 {
        assert(a + b =~= b);
    } else {
        assert((a + b).skip(1) =~= a.skip(1) + b);
        assert((a + b)[0] == a[0]);
        let r0 = a[0];
        let next = if path_match_spec(r0.path, path) {
            if r0.path.len() > len {
                (r0.path.len(), seq![r0])
            } else if r0.path.len() == len {
                (len, acc.push(r0))
            } else {
                (len, acc)
            }
        } else {
            (len, acc)
        };
        lemma_pref_select_append(a.skip(1), b, path, next.0, next.1);
    }
}

/// Selecting one rule takes one specificity step.
pub proof fn lemma_pref_select_one(x: CULineV, path: Seq<u8>, len: nat, acc: Seq<CULineV>)
    ensures
        pref_select(seq![x], path, len, acc) == (if path_match_spec(x.path, path) {
            if x.path.len() > len {
                (x.path.len(), seq![x])
            } else if x.path.len() == len {
                (len, acc.push(x))
            } else {
                (len, acc)
            }
        } else {
            (len, acc)
        }),
{
    let next = if path_match_spec(x.path, path) {
        if x.path.len() > len {
            (x.path.len(), seq![x])
        } else if x.path.len() == len {
            (len, acc.push(x))
        } else {
            (len, acc)
        }
    } else {
        (len, acc)
    };
    assert(seq![x].skip(1) =~= Seq::<CULineV>::empty());
    assert(pref_select(Seq::<CULineV>::empty(), path, next.0, next.1) == next);
}

/// A forest merged with the forests of the given rules, in order.
pub open spec fn merge_many(items: Seq<ItemV>, rules: Seq<CULineV>) -> Seq<ItemV>
    decreases rules.len(),
{
    if rules.len() == 0 {
        items
    } else {
        merge_many(merge_forest(items, rules[0].usage), rules.skip(1))
    }
}

/// Merging a concatenation merges the parts in order.
pub proof fn lemma_merge_many_append(items: Seq<ItemV>, a: Seq<CULineV>, b: Seq<CULineV>)
    ensures
        merge_many(items, a + b) == merge_many(merge_many(items, a), b),
    decreases a.len(),
{
    if a.len() == 0 {
        assert(a + b =~= b);
    } else {
        assert((a + b).skip(1) =~= a.skip(1) + b);
        assert((a + b)[0] == a[0]);
        lemma_merge_many_append(merge_forest(items, a[0].usage), a.skip(1), b);
    }
}

/// Merging one rule merges one forest.
pub proof fn lemma_merge_many_one(items: Seq<ItemV>, x: CULineV)
    ensures
        merge_many(items, seq![x]) == merge_forest(items, x.usage),
{
    assert(seq![x].skip(1) =~= Seq::<CULineV>::empty());
    assert(merge_many(merge_forest(items, x.usage), Seq::<CULineV>::empty()) == merge_forest(
        items,
        x.usage,
    ));
}

/// The preferences for a path across the given groups: every rule of
/// greatest specificity whose pattern matches the path merges its forest,
/// in scan order, into one default forest. Ties at equal specificity all
/// apply; their effects compose deny-dominantly.
pub open spec fn preferences_spec(gs: Seq<GroupV>, path: Seq<u8>) -> Seq<ItemV> {
    merge_many(default_items(), pref_select(all_usages(gs), path, 0, Seq::empty()).1)
}

/// Whether the group names the (case-folded) user agent.
pub open spec fn agent_match(g: GroupV, ua: Seq<u8>) -> bool {
    exists|k: int| 0 <= k < g.agents.len() && lower_seq(#[trigger] g.agents[k]) == lower_seq(ua)
}

/// The groups naming the given user agent, in source order.
pub open spec fn matching_groups(gs: Seq<GroupV>, ua: Seq<u8>) -> Seq<GroupV>
    decreases gs.len(),
{
    if gs.len() == 0 {
        Seq::empty()
    } else {
        let rest = matching_groups(gs.drop_last(), ua);
        if agent_match(gs.last(), ua) {
            rest.push(gs.last())
        } else {
            rest
        }
    }
}

/// The answer of the whole exclusion file for one user agent and path:
/// the agent's own groups if they admit the path, else the wildcard
/// groups if they admit it, else nothing (crawling is not permitted). The
/// wildcard fallback applies whether the agent's groups disallowed the
/// path or simply never mentioned the agent.
pub open spec fn preferences_opt_spec(gs: Seq<GroupV>, ua: Seq<u8>, path: Seq<u8>) -> Option<
    Seq<ItemV>,
> {
    let lua = lower_seq(ua);
    let own = matching_groups(gs, lua);
    if is_admitted_spec(own, path) {
        Some(preferences_spec(own, path))
    } else {
        let wild = matching_groups(gs, wildcard_agent());
        if is_admitted_spec(wild, path) {
            Some(preferences_spec(wild, path))
        } else {
            None
        }
    }
}

/// The views of the groups selected by a list of indices.
spec fn sel_views(gs: Seq<Group>, idxs: Seq<usize>) -> Seq<GroupV> {
    idxs.map_values(|i: usize| gs[i as int]@)
}

impl ContentUsageLine {
    /// A `Content-Usage` rule from its parts.
    fn new(line: usize, path: Vec<u8>, usage: UsagePreferences) -> (r: Self)
        ensures
            r.line == line,
            r.path == path,
            r.usage == usage,
    {
        ContentUsageLine { line, path, usage }
    }
}

impl AdmissionLine {
    /// An admission rule from its parts.
    fn new(line: usize, allow: bool, path: Vec<u8>) -> (r: Self)
        ensures
            r.line == line,
            r.allow == allow,
            r.path == path,
    {
        AdmissionLine { line, allow, path }
    }
}

impl Group {
    /// A group freshly opened at the given line.
    fn empty(line: usize) -> (g: Group)
        ensures
            g@ == empty_group(line as int),
            g.wf(),
            g.line == line,
    {
        let g = Group {
            line,
            user_agents: Vec::new(),
            usage_preferences: Vec::new(),
            admissions: Vec::new(),
        };
        proof {
            assert(g@.agents =~= empty_group(line as int).agents);
            assert(g@.usages =~= empty_group(line as int).usages);
            assert(g@.admissions =~= empty_group(line as int).admissions);
        }
        g
    }

    /// Integrate one loosely parsed directive line into this group.
    fn parse_line(&mut self, line: usize, name: &[u8], value: &[u8])
        requires
            old(self).wf(),
        ensures
            final(self).wf(),
            final(self)@ == group_line(old(self)@, name@, value@, line as int),
    {
        let kw_cu: [u8; 13] = [99, 111, 110, 116, 101, 110, 116, 45, 117, 115, 97, 103, 101];
        let kw_al: [u8; 5] = [97, 108, 108, 111, 119];
        let kw_di: [u8; 8] = [100, 105, 115, 97, 108, 108, 111, 119];
        proof {
            assert(lower_seq(kw_content_usage()) =~= kw_content_usage());
            assert(lower_seq(kw_allow()) =~= kw_allow());
            assert(lower_seq(kw_disallow()) =~= kw_disallow());
            assert(kw_cu@ =~= kw_content_usage());
            assert(kw_al@ =~= kw_allow());
            assert(kw_di@ =~= kw_disallow());
        }
        if eq_ignore_case(name, kw_cu.as_slice()) {
            let ghost pre = self@;
            let (path, expr): (&[u8], &[u8]) = if value.len() > 0 && value[0] == SLASH {
                let mut k: usize = 0;
                while k < value.len() && value[k] != SP && value[k] != TAB
                    invariant
                        k <= value.len(),
                        first_sp_tab(value@, 0) == first_sp_tab(value@, k as int),
                    decreases value.len() - k,
                {
                    k = k + 1;
                }
                if k >= value.len() {
                    proof {
                        assert(cu_split(value@) is None);
                        assert(self@ =~= group_line(pre, name@, value@, line as int));
                    }
                    return ;
                }
                (
                    vstd::slice::slice_subrange(value, 0, k),
                    vstd::slice::slice_subrange(value, k + 1, value.len()),
                )
            } else {
                let empty: &[u8] = vstd::slice::slice_subrange(value, 0, 0);
                proof {
                    assert(empty@ =~= Seq::<u8>::empty());
                }
                (empty, value)
            };
            let mut usage = UsagePreferences::default();
            usage.parse(expr);
            let rule = ContentUsageLine::new(line, vstd::slice::slice_to_vec(path), usage);
            let ghost rv = rule@;
            let ghost pre_items = old(self).usage_preferences@;
            self.usage_preferences.push(rule);
            proof {
                assert(cu_split(value@) == Some((path@, expr@)));
                assert(self@.usages =~= pre.usages.push(rv));
                assert(self@ =~= group_line(pre, name@, value@, line as int));
                assert forall|u: int|
                    0 <= u < self.usage_preferences@.len() implies (#[trigger] self
                    .usage_preferences@[u]).usage.wf() by {
                    if u < pre_items.len() {
                        assert(self.usage_preferences@[u] == pre_items[u]);
                    }
                }
            }
        } else if eq_ignore_case(name, kw_al.as_slice()) {
            let ghost pre = self@;
            let rule = AdmissionLine::new(line, true, vstd::slice::slice_to_vec(value));
            let ghost rv = rule@;
            self.admissions.push(rule);
            proof {
                assert(self@.admissions =~= pre.admissions.push(rv));
                assert(self@ =~= group_line(pre, name@, value@, line as int));
            }
        } else if eq_ignore_case(name, kw_di.as_slice()) {
            let ghost pre = self@;
            let rule = AdmissionLine::new(line, false, vstd::slice::slice_to_vec(value));
            let ghost rv = rule@;
            self.admissions.push(rule);
            proof {
                assert(self@.admissions =~= pre.admissions.push(rv));
                assert(self@ =~= group_line(pre, name@, value@, line as int));
            }
        } else {
            proof {
                assert(self@ =~= group_line(self@, name@, value@, line as int));
            }
        }
    }

    /// Performs path matching according to the special character rules of
    /// an exclusion file: `*` is a wildcard and a trailing `$` anchors the
    /// pattern to the end of the path. Comment handling has already
    /// happened by the time a pattern reaches this function.
    pub fn path_match(pattern: &[u8], path: &[u8]) -> (b: bool)
        ensures
            b == path_match_spec(pattern@, path@),
    {
        path_match(pattern, path)
    }

    /// Whether the admission rules across the selected groups admit the
    /// path: the most specific matching rule decides; a path no rule
    /// matches is not admitted.
    fn is_admitted(groups: &Vec<Group>, sel: &Vec<usize>, path: &[u8]) -> (r: bool)
        requires
            forall|k: int| 0 <= k < sel@.len() ==> (#[trigger] sel@[k]) < groups@.len(),
        ensures
            r == is_admitted_spec(sel_views(groups@, sel@), path@),
    {
        let ghost gvs = sel_views(groups@, sel@);
        let mut allow = false;
        let mut plen: usize = 0;
        let ghost mut curv = init_admission();
        let mut si: usize = 0;
        while si < sel.len()
            invariant
                forall|k: int| 0 <= k < sel@.len() ==> (#[trigger] sel@[k]) < groups@.len(),
                gvs == sel_views(groups@, sel@),
                si <= sel@.len(),
                curv.allow == allow,
                curv.path.len() == plen,
                curv == admit_fold(all_admissions(gvs.take(si as int)), path@, init_admission()),
            decreases sel@.len() - si,
        {
            let gi = sel[si];
            let g = &groups[gi];
            let ghost base = curv;
            let ghost advs = gvs[si as int].admissions;
            let mut ai: usize = 0;
            while ai < g.admissions.len()
                invariant
                    ai <= g.admissions@.len(),
                    advs == g@.admissions,
                    advs.len() == g.admissions@.len(),
                    forall|k: int| 0 <= k < advs.len() ==> advs[k] == g.admissions@[k]@,
                    curv.allow == allow,
                    curv.path.len() == plen,
                    curv == admit_fold(advs.take(ai as int), path@, base),
                decreases g.admissions@.len() - ai,
            {
                let ghost prev = curv;
                let a = &g.admissions[ai];
                if Group::path_match(a.path.as_slice(), path) {
                    if a.path.len() > plen || (a.path.len() == plen && a.allow) {
                        allow = a.allow;
                        plen = a.path.len();
                        proof {
                            curv = a@;
                        }
                    }
                }
                proof {
                    let x = advs[ai as int];
                    assert(curv == if path_match_spec(x.path, path@) && more_specific(x, prev) {
                        x
                    } else {
                        prev
                    });
                    assert(advs.take(ai + 1) =~= advs.take(ai as int) + seq![x]);
                    lemma_admit_fold_append(advs.take(ai as int), seq![x], path@, base);
                    lemma_admit_fold_one(x, path@, prev);
                }
                ai = ai + 1;
            }
            proof {
                assert(advs.take(advs.len() as int) =~= advs);
                assert(gvs.take(si + 1).drop_last() =~= gvs.take(si as int));
                assert(all_admissions(gvs.take(si + 1)) == all_admissions(gvs.take(si as int))
                    + advs);
                lemma_admit_fold_append(
                    all_admissions(gvs.take(si as int)),
                    advs,
                    path@,
                    init_admission(),
                );
            }
            si = si + 1;
        }
        proof {
            assert(gvs.take(gvs.len() as int) =~= gvs);
        }
        allow
    }

    /// The preferences for a path across the selected groups: the most
    /// specific matching `Content-Usage` rules (all of them, at equal
    /// specificity) merge their forests into one default forest.
    fn preferences(groups: &Vec<Group>, sel: &Vec<usize>, path: &[u8]) -> (r: UsagePreferences)
        requires
            forall|k: int| 0 <= k < sel@.len() ==> (#[trigger] sel@[k]) < groups@.len(),
            forall|k: int| 0 <= k < groups@.len() ==> (#[trigger] groups@[k]).wf(),
        ensures
            r.wf(),
            r@ == preferences_spec(sel_views(groups@, sel@), path@),
    {
        let ghost gvs = sel_views(groups@, sel@);
        let mut best: usize = 0;
        let mut matching: Vec<(usize, usize)> = Vec::new();
        let ghost mut accv = Seq::<CULineV>::empty();
        let mut si: usize = 0;
        while si < sel.len()
            invariant
                forall|k: int| 0 <= k < sel@.len() ==> (#[trigger] sel@[k]) < groups@.len(),
                forall|k: int| 0 <= k < groups@.len() ==> (#[trigger] groups@[k]).wf(),
                gvs == sel_views(groups@, sel@),
                si <= sel@.len(),
                (best as nat, accv) == pref_select(
                    all_usages(gvs.take(si as int)),
                    path@,
                    0,
                    Seq::<CULineV>::empty(),
                ),
                matching@.len() == accv.len(),
                forall|k: int|
                    0 <= k < matching@.len() ==> (#[trigger] matching@[k]).0 < groups@.len()
                        && matching@[k].1 < groups@[matching@[k].0 as int].usage_preferences@.len()
                        && groups@[matching@[k].0 as int].usage_preferences@[matching@[k].1 as int]@
                        == accv[k],
            decreases sel@.len() - si,
        {
            let gi = sel[si];
            let g = &groups[gi];
            let ghost base_len = best as nat;
            let ghost base_acc = accv;
            let ghost cuvs = gvs[si as int].usages;
            let mut ui: usize = 0;
            while ui < g.usage_preferences.len()
                invariant
                    forall|k: int| 0 <= k < groups@.len() ==> (#[trigger] groups@[k]).wf(),
                    gi < groups@.len(),
                    g == &groups[gi as int],
                    ui <= g.usage_preferences@.len(),
                    cuvs == g@.usages,
                    cuvs.len() == g.usage_preferences@.len(),
                    forall|k: int| 0 <= k < cuvs.len() ==> cuvs[k] == g.usage_preferences@[k]@,
                    (best as nat, accv) == pref_select(cuvs.take(ui as int), path@, base_len, base_acc),
                    matching@.len() == accv.len(),
                    forall|k: int|
                        0 <= k < matching@.len() ==> (#[trigger] matching@[k]).0 < groups@.len()
                            && matching@[k].1 < groups@[matching@[k].0 as int].usage_preferences@.len()
                            && groups@[matching@[k].0 as int].usage_preferences@[matching@[k].1 as int]@
                            == accv[k],
                decreases g.usage_preferences@.len() - ui,
            {
                let ghost prev_len = best as nat;
                let ghost prev_acc = accv;
                let u = &g.usage_preferences[ui];
                if Group::path_match(u.path.as_slice(), path) {
                    if u.path.len() > best {
                        best = u.path.len();
                        matching = Vec::new();
                        matching.push((gi, ui));
                        proof {
                            accv = seq![cuvs[ui as int]];
                        }
                    } else if u.path.len() == best {
                        matching.push((gi, ui));
                        proof {
                            accv = accv.push(cuvs[ui as int]);
                        }
                    }
                }
                proof {
                    let x = cuvs[ui as int];
                    assert((best as nat, accv) == if path_match_spec(x.path, path@) {
                        if x.path.len() > prev_len {
                            (x.path.len(), seq![x])
                        } else if x.path.len() == prev_len {
                            (prev_len, prev_acc.push(x))
                        } else {
                            (prev_len, prev_acc)
                        }
                    } else {
                        (prev_len, prev_acc)
                    });
                    assert(cuvs.take(ui + 1) =~= cuvs.take(ui as int) + seq![x]);
                    lemma_pref_select_append(cuvs.take(ui as int), seq![x], path@, base_len, base_acc);
                    lemma_pref_select_one(x, path@, prev_len, prev_acc);
                }
                ui = ui + 1;
            }
            proof {
                assert(cuvs.take(cuvs.len() as int) =~= cuvs);
                assert(gvs.take(si + 1).drop_last() =~= gvs.take(si as int));
                assert(all_usages(gvs.take(si + 1)) == all_usages(gvs.take(si as int)) + cuvs);
                lemma_pref_select_append(
                    all_usages(gvs.take(si as int)),
                    cuvs,
                    path@,
                    0,
                    Seq::<CULineV>::empty(),
                );
            }
            si = si + 1;
        }
        proof {
            assert(gvs.take(gvs.len() as int) =~= gvs);
        }
        let mut prefs = UsagePreferences::default();
        let mut mi: usize = 0;
        while mi < matching.len()
            invariant
                forall|k: int| 0 <= k < groups@.len() ==> (#[trigger] groups@[k]).wf(),
                mi <= matching@.len(),
                matching@.len() == accv.len(),
                forall|k: int|
                    0 <= k < matching@.len() ==> (#[trigger] matching@[k]).0 < groups@.len()
                        && matching@[k].1 < groups@[matching@[k].0 as int].usage_preferences@.len()
                        && groups@[matching@[k].0 as int].usage_preferences@[matching@[k].1 as int]@
                        == accv[k],
                prefs.wf(),
                prefs@ == merge_many(default_items(), accv.take(mi as int)),
            decreases matching@.len() - mi,
        {
            let ghost before = prefs@;
            let pair = matching[mi];
            let other = &groups[pair.0].usage_preferences[pair.1].usage;
            proof {
                assert(other@ == accv[mi as int].usage);
            }
            prefs.merge(other);
            proof {
                let x = accv[mi as int];
                assert(accv.take(mi + 1) =~= accv.take(mi as int) + seq![x]);
                lemma_merge_many_append(default_items(), accv.take(mi as int), seq![x]);
                lemma_merge_many_one(before, x);
            }
            mi = mi + 1;
        }
        proof {
            assert(accv.take(accv.len() as int) =~= accv);
        }
        prefs
    }
}

/// One line handed to the parser state: the exact executable counterpart
/// of `process_line`.
fn handle_line(groups: &mut Vec<Group>, group: &mut Group, ua: &mut bool, l: &[u8], ln: usize)
    requires
        old(group).wf(),
        forall|k: int| 0 <= k < old(groups)@.len() ==> (#[trigger] old(groups)@[k]).wf(),
    ensures
        final(group).wf(),
        forall|k: int| 0 <= k < final(groups)@.len() ==> (#[trigger] final(groups)@[k]).wf(),
        (RobotsStateV {
            done: final(groups)@.map_values(|g: Group| g@),
            cur: final(group)@,
            ua: *final(ua),
        }) == process_line(
            RobotsStateV {
                done: old(groups)@.map_values(|g: Group| g@),
                cur: old(group)@,
                ua: *old(ua),
            },
            l@,
            ln as int,
        ),
{
    let ghost st0 = RobotsStateV {
        done: groups@.map_values(|g: Group| g@),
        cur: group@,
        ua: *ua,
    };
    let h = find_byte(l, 0, HASH);
    let stripped = vstd::slice::slice_subrange(l, 0, h);
    let c = find_byte(stripped, 0, COLON);
    if c < stripped.len() {
        let name = crate::bytes::trim(vstd::slice::slice_subrange(stripped, 0, c));
        let value = crate::bytes::trim(
            vstd::slice::slice_subrange(stripped, c + 1, stripped.len()),
        );
        let kw_ua: [u8; 10] = [117, 115, 101, 114, 45, 97, 103, 101, 110, 116];
        proof {
            assert(kw_ua@ =~= kw_user_agent());
            assert(lower_seq(kw_user_agent()) =~= kw_user_agent());
        }
        if eq_ignore_case(name, kw_ua.as_slice()) {
            if !*ua {
                let mut fresh = Group::empty(ln);
                core::mem::swap(group, &mut fresh);
                if fresh.line != 0 {
                    groups.push(fresh);
                    proof {
                        assert(groups@.map_values(|g: Group| g@) =~= st0.done.push(st0.cur));
                    }
                }
                *ua = true;
            }
            let ghost mid = RobotsStateV {
                done: groups@.map_values(|g: Group| g@),
                cur: group@,
                ua: *ua,
            };
            group.user_agents.push(lower_vec(value));
            proof {
                assert(group@.agents =~= mid.cur.agents.push(lower_seq(value@)));
            }
        } else {
            *ua = false;
            group.parse_line(ln, name, value);
        }
    }
}

impl Robots {
    /// Parse an exclusion file: each line is truncated at its first `#`,
    /// split at its first `:` into a directive name and value (lines
    /// without `:` are skipped), and dispatched case-insensitively;
    /// groups are delimited by runs of consecutive `User-Agent` lines.
    pub fn parse(input: &[u8]) -> (r: Robots)
        ensures
            r.wf(),
            r@ == robots_spec(input@),
    {
        let mut groups: Vec<Group> = Vec::new();
        let mut group = Group::empty(0);
        let mut ua = false;
        let mut line: usize = 0;
        let mut i: usize = 0;
        proof {
            assert(groups@.map_values(|g: Group| g@) =~= Seq::<GroupV>::empty());
        }
        while i < input.len()
            invariant
                i <= input.len(),
                line <= i,
                group.wf(),
                forall|k: int| 0 <= k < groups@.len() ==> (#[trigger] groups@[k]).wf(),
                parse_lines(input@, 0, initial_state(), 1) == parse_lines(
                    input@,
                    i as int,
                    RobotsStateV {
                        done: groups@.map_values(|g: Group| g@),
                        cur: group@,
                        ua: ua,
                    },
                    line as int + 1,
                ),
            decreases input.len() - i,
        {
            let ghost sti = RobotsStateV {
                done: groups@.map_values(|g: Group| g@),
                cur: group@,
                ua: ua,
            };
            let ghost i0 = i as int;
            let e = find_byte(input, i, LF);
            let l = vstd::slice::slice_subrange(input, i, e);
            line = line + 1;
            handle_line(&mut groups, &mut group, &mut ua, l, line);
            if e < input.len() {
                i = e + 1;
            } else {
                i = e;
            }
            proof {
                let stn = RobotsStateV {
                    done: groups@.map_values(|g: Group| g@),
                    cur: group@,
                    ua: ua,
                };
                assert(stn == process_line(sti, input@.subrange(i0, e as int), line as int));
                assert(parse_lines(input@, i0, sti, line as int) == parse_lines(
                    input@,
                    i as int,
                    stn,
                    line as int + 1,
                ));
            }
        }
        let ghost stf = RobotsStateV {
            done: groups@.map_values(|g: Group| g@),
            cur: group@,
            ua: ua,
        };
        groups.push(group);
        let r = Robots { groups };
        proof {
            assert(r@ =~= stf.done.push(stf.cur));
        }
        r
    }

    /// The indices of the groups naming the given user agent.
    fn group_indices(&self, ua: &[u8]) -> (r: Vec<usize>)
        ensures
            forall|k: int| 0 <= k < r@.len() ==> (#[trigger] r@[k]) < self.groups@.len(),
            sel_views(self.groups@, r@) == matching_groups(self@, ua@),
    {
        let mut sel: Vec<usize> = Vec::new();
        let mut gi: usize = 0;
        proof {
            assert(sel_views(self.groups@, sel@) =~= matching_groups(self@.take(0), ua@));
        }
        while gi < self.groups.len()
            invariant
                gi <= self.groups@.len(),
                self@.len() == self.groups@.len(),
                forall|k: int| 0 <= k < sel@.len() ==> (#[trigger] sel@[k]) < self.groups@.len(),
                sel_views(self.groups@, sel@) == matching_groups(self@.take(gi as int), ua@),
            decreases self.groups@.len() - gi,
        {
            let g = &self.groups[gi];
            let ghost agents = self@[gi as int].agents;
            let mut found = false;
            let mut aj: usize = 0;
            while aj < g.user_agents.len()
                invariant
                    aj <= g.user_agents@.len(),
                    agents == g@.agents,
                    agents.len() == g.user_agents@.len(),
                    forall|k: int| 0 <= k < agents.len() ==> agents[k] == g.user_agents@[k]@,
                    !found ==> forall|k: int|
                        0 <= k < aj ==> lower_seq(#[trigger] agents[k]) != lower_seq(ua@),
                    found ==> agent_match(g@, ua@),
                decreases g.user_agents@.len() - aj,
            {
                if eq_ignore_case(g.user_agents[aj].as_slice(), ua) {
                    found = true;
                    proof {
                        assert(lower_seq(agents[aj as int]) == lower_seq(ua@));
                        assert(agent_match(g@, ua@));
                    }
                }
                aj = aj + 1;
            }
            proof {
                assert(g@ == self@[gi as int]);
            }
            let ghost pre = sel@;
            if found {
                sel.push(gi);
                proof {
                    assert(sel_views(self.groups@, sel@) =~= sel_views(self.groups@, pre).push(
                        self@[gi as int],
                    ));
                }
            } else {
                proof {
                    assert(!agent_match(g@, ua@));
                }
            }
            proof {
                assert(self@.take(gi + 1).drop_last() =~= self@.take(gi as int));
                assert(self@.take(gi + 1).last() == self@[gi as int]);
            }
            gi = gi + 1;
        }
        proof {
            assert(self@.take(self@.len() as int) =~= self@);
        }
        sel
    }

    /// The preferences that apply to a user agent for a path: `Some` when
    /// crawling is permitted, holding the forest to interrogate; `None`
    /// when neither the agent's own groups nor the wildcard groups admit
    /// the path.
    pub fn preferences(&self, user_agent: &[u8], path: &[u8]) -> (r: Option<UsagePreferences>)
        requires
            self.wf(),
        ensures
            match r {
                Some(p) => p.wf() && preferences_opt_spec(self@, user_agent@, path@) == Some(p@),
                None => preferences_opt_spec(self@, user_agent@, path@) is None,
            },
    {
        let lua = lower_vec(user_agent);
        let own = self.group_indices(lua.as_slice());
        if Group::is_admitted(&self.groups, &own, path) {
            Some(Group::preferences(&self.groups, &own, path))
        } else {
            let star: [u8; 1] = [STAR];
            proof {
                assert(star@ =~= wildcard_agent());
            }
            let wild = self.group_indices(star.as_slice());
            if Group::is_admitted(&self.groups, &wild, path) {
                Some(Group::preferences(&self.groups, &wild, path))
            } else {
                None
            }
        }
    }
}

} // verus!
