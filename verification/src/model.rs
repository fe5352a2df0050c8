//! The mathematical model of a preference forest: the three-valued state
//! lattice with its deny-dominant merge, forest nodes with parent links,
//! cascade-to-root resolution, and forest-to-forest merging.

use vstd::prelude::*;

verus! {

/// A three-valued preference: unset, permitted, or refused.
///
/// The merge operator over this lattice is deny-dominant: once a node has
/// merged a `No`, no later `Yes` can revert it.
#[derive(PartialEq, Eq, Clone, Copy, Debug, Structural)]
pub enum State {
    Unknown,
    Yes,
    No,
}

/// The resolved answer handed to callers: a preference is either granted
/// or refused. An `Unknown` state never converts; evaluation falls back to
/// the caller's default instead.
#[derive(PartialEq, Eq, Clone, Copy, Debug, Structural)]
pub enum UsagePreference {
    Allowed,
    Denied,
}

/// The merged value of two states: `No` if either is `No`, else `Yes` if
/// either is `Yes`, else `Unknown`.
pub open spec fn merge_state(a: State, b: State) -> State {
    if a is No || b is No {
        State::No
    } else if a is Yes || b is Yes {
        State::Yes
    } else {
        State::Unknown
    }
}

impl State {
    /// Merge another state into this one, deny-dominantly.
    pub fn merge(&mut self, other: State)
        ensures
            *final(self) == merge_state(*old(self), other),
    {
        *self = match (*self, other) {
            (State::No, _) | (_, State::No) => State::No,
            (State::Yes, _) | (_, State::Yes) => State::Yes,
            (State::Unknown, State::Unknown) => State::Unknown,
        };
    }
}

/// Converting a resolved state to an answer: `Unknown` falls back to the
/// caller's default.
pub open spec fn state_preference(s: State, dflt: UsagePreference) -> UsagePreference {
    match s {
        State::Unknown => dflt,
        State::Yes => UsagePreference::Allowed,
        State::No => UsagePreference::Denied,
    }
}

/// The model of one forest node: a name, an optional parent (by index into
/// the same forest), and the merged state so far.
pub ghost struct ItemV {
    pub name: Seq<u8>,
    pub parent: Option<int>,
    pub value: State,
}

/// A registered name never holds the separators of the expression grammar.
pub open spec fn wf_name(name: Seq<u8>) -> bool {
    forall|k: int|
        0 <= k < name.len() ==> name[k] != crate::bytes::COMMA && name[k] != crate::bytes::EQUALS
}

/// Forest well-formedness: a parent always stands strictly before its
/// child, so the parent chain is acyclic and upward walks terminate;
/// names are unique and free of separators.
pub open spec fn forest_wf(items: Seq<ItemV>) -> bool {
    &&& forall|i: int|
        0 <= i < items.len() ==> (#[trigger] items[i].parent matches Some(p) ==> 0 <= p < i)
    &&& forall|i: int, j: int|
        0 <= i < j < items.len() ==> (#[trigger] items[i].name) != (#[trigger] items[j].name)
    &&& forall|i: int| 0 <= i < items.len() ==> wf_name(#[trigger] items[i].name)
}

/// The index of the first (hence, in a well-formed forest, only) node with
/// the given name, searching from position `i`.
pub open spec fn find_name_from(items: Seq<ItemV>, name: Seq<u8>, i: int) -> Option<int>
    decreases items.len() - i,
{
    if 0 <= i < items.len() {
        if items[i].name == name {
            Some(i)
        } else {
            find_name_from(items, name, i + 1)
        }
    } else {
        None
    }
}

/// The index of the node with the given name, if registered.
pub open spec fn find_name(items: Seq<ItemV>, name: Seq<u8>) -> Option<int> {
    find_name_from(items, name, 0)
}

/// The longest registered name; it bounds name-token scanning in the
/// expression parser.
pub open spec fn max_name_len(items: Seq<ItemV>) -> nat
    decreases items.len(),
{
    if items.len() == 0 {
        0
    } else if max_name_len(items.drop_last()) >= items.last().name.len() {
        max_name_len(items.drop_last())
    } else {
        items.last().name.len()
    }
}

/// Cascade resolution: the state of node `i`, falling back to its nearest
/// ancestor whose state is not `Unknown`; `Unknown` if the walk reaches a
/// root without finding one.
pub open spec fn resolved_at(items: Seq<ItemV>, i: int) -> State
    decreases i,
{
    if 0 <= i < items.len() {
        if items[i].value != State::Unknown {
            items[i].value
        } else {
            match items[i].parent {
                Some(p) => if 0 <= p < i {
                    resolved_at(items, p)
                } else {
                    State::Unknown
                },
                None => State::Unknown,
            }
        }
    } else {
        State::Unknown
    }
}

/// Evaluation: an unregistered name yields the default; a registered one
/// yields its cascade-resolved state, with `Unknown` falling back to the
/// default.
pub open spec fn eval_spec(items: Seq<ItemV>, name: Seq<u8>, dflt: UsagePreference) -> UsagePreference {
    match find_name(items, name) {
        Some(i) => state_preference(resolved_at(items, i), dflt),
        None => dflt,
    }
}

/// The value of one node after merging with another forest: if the other
/// forest registers the same name, its cascade-resolved state is merged
/// into this node's raw value; otherwise the node is untouched.
pub open spec fn merged_value(it: ItemV, other: Seq<ItemV>) -> State {
    match find_name(other, it.name) {
        Some(j) => merge_state(it.value, resolved_at(other, j)),
        None => it.value,
    }
}

/// Forest-to-forest merge: every node of `items` takes the merged value;
/// names and parent links are untouched.
pub open spec fn merge_forest(items: Seq<ItemV>, other: Seq<ItemV>) -> Seq<ItemV> {
    Seq::new(items.len(), |i: int| ItemV { value: merged_value(items[i], other), ..items[i] })
}

/// A left fold of deny-dominant merges into one starting state.
pub open spec fn merge_all(init: State, s: Seq<State>) -> State
    decreases s.len(),
{
    if s.len() == 0 {
        init
    } else {
        merge_all(merge_state(init, s[0]), s.skip(1))
    }
}

/// The parent index of a freshly registered node, as the model sees it.
pub open spec fn opt_index(p: Option<usize>) -> Option<int> {
    match p {
        Some(i) => Some(i as int),
        None => None,
    }
}

/// The name of the blanket automated-processing preference.
pub open spec fn name_all() -> Seq<u8> {
    seq![97u8, 108u8, 108u8]
}

/// The name of the AI-training preference.
pub open spec fn name_train_ai() -> Seq<u8> {
    seq![116u8, 114u8, 97u8, 105u8, 110u8, 45u8, 97u8, 105u8]
}

/// The name of the generative-AI-training preference.
pub open spec fn name_train_genai() -> Seq<u8> {
    seq![116u8, 114u8, 97u8, 105u8, 110u8, 45u8, 103u8, 101u8, 110u8, 97u8, 105u8]
}

/// The name of the AI-use preference.
pub open spec fn name_ai_use() -> Seq<u8> {
    seq![97u8, 105u8, 45u8, 117u8, 115u8, 101u8]
}

/// The name of the search preference.
pub open spec fn name_search() -> Seq<u8> {
    seq![115u8, 101u8, 97u8, 114u8, 99u8, 104u8]
}

/// The predefined default forest: `all` at the root; `train-ai`, `ai-use`
/// and `search` under `all`; `train-genai` under `train-ai`.
pub open spec fn default_items() -> Seq<ItemV> {
    seq![
        ItemV { name: name_all(), parent: None, value: State::Unknown },
        ItemV { name: name_train_ai(), parent: Some(0), value: State::Unknown },
        ItemV { name: name_train_genai(), parent: Some(1), value: State::Unknown },
        ItemV { name: name_ai_use(), parent: Some(0), value: State::Unknown },
        ItemV { name: name_search(), parent: Some(0), value: State::Unknown },
    ]
}

/// If some node at or past `j` carries the name, the search from `j`
/// succeeds.
pub proof fn lemma_find_name_some(items: Seq<ItemV>, name: Seq<u8>, i: int, j: int)
    requires
        0 <= j <= i < items.len(),
        items[i].name == name,
    ensures
        find_name_from(items, name, j) is Some,
    decreases i - j,
{
    if items[j].name != name {
        lemma_find_name_some(items, name, i, j + 1);
    }
}

/// Searching from the start equals searching from `i` when no node before
/// `i` carries the name.
pub proof fn lemma_find_name_prefix(items: Seq<ItemV>, name: Seq<u8>, i: int)
    requires
        0 <= i <= items.len(),
        forall|k: int| 0 <= k < i ==> (#[trigger] items[k].name) != name,
    ensures
        find_name(items, name) == find_name_from(items, name, i),
    decreases i,
{
    if i > 0 {
        lemma_find_name_prefix(items, name, i - 1);
    }
}

/// A name that no node carries is not found.
pub proof fn lemma_find_name_none(items: Seq<ItemV>, name: Seq<u8>)
    requires
        forall|k: int| 0 <= k < items.len() ==> (#[trigger] items[k].name) != name,
    ensures
        find_name(items, name) is None,
{
    lemma_find_name_prefix(items, name, items.len() as int);
}

/// Appending a node extends the longest-name bound in the obvious way.
pub proof fn lemma_max_name_len_push(s: Seq<ItemV>, x: ItemV)
    ensures
        max_name_len(s.push(x)) == if max_name_len(s) >= x.name.len() {
            max_name_len(s)
        } else {
            x.name.len()
        },
{
    assert(s.push(x).drop_last() =~= s);
}

/// The longest-name bound depends on the names alone.
pub proof fn lemma_max_name_len_pointwise(a: Seq<ItemV>, b: Seq<ItemV>)
    requires
        a.len() == b.len(),
        forall|i: int| 0 <= i < a.len() ==> (#[trigger] a[i].name) == b[i].name,
    ensures
        max_name_len(a) == max_name_len(b),
    decreases a.len(),
{
    if a.len() > 0 {
        lemma_max_name_len_pointwise(a.drop_last(), b.drop_last());
    }
}

/// An unregistered name always evaluates to the caller's default,
/// whatever that default is.
pub proof fn lemma_eval_unregistered(items: Seq<ItemV>, name: Seq<u8>, dflt: UsagePreference)
    requires
        find_name(items, name) is None,
    ensures
        eval_spec(items, name, dflt) == dflt,
{
}

/// Deny-dominance: however a sequence of merges into one node is
/// interleaved, if the start state or any merged state is `No`, the final
/// state is `No`.
pub proof fn lemma_deny_dominant(init: State, s: Seq<State>)
    requires
        init is No || exists|i: int| 0 <= i < s.len() && s[i] is No,
    ensures
        merge_all(init, s) is No,
    decreases s.len(),
{
    if s.len() > 0 {
        if init is No || s[0] is No {
            assert(merge_state(init, s[0]) is No);
            lemma_deny_dominant(merge_state(init, s[0]), s.skip(1));
        } else {
            let i = choose|i: int| 0 <= i < s.len() && s[i] is No;
            assert(s.skip(1)[i - 1] is No);
            lemma_deny_dominant(merge_state(init, s[0]), s.skip(1));
        }
    }
}

/// Cascade: a node whose own state is set resolves to it; a node with
/// `Unknown` state resolves to its parent's resolution (hence to its
/// nearest ancestor whose state is set); a root with `Unknown` state
/// resolves to `Unknown`, which evaluation turns into the caller's
/// default.
pub proof fn lemma_cascade(items: Seq<ItemV>, i: int)
    requires
        forest_wf(items),
        0 <= i < items.len(),
    ensures
        items[i].value != State::Unknown ==> resolved_at(items, i) == items[i].value,
        items[i].value == State::Unknown
            ==> (items[i].parent matches Some(p) ==> resolved_at(items, i) == resolved_at(items, p)),
        items[i].value == State::Unknown && items[i].parent is None
            ==> resolved_at(items, i) == State::Unknown,
{
}

} // verus!
