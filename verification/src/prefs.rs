//! The preference forest: an ordered list of named three-state nodes with
//! optional parent links, supporting registration, deny-dominant merging,
//! cascade evaluation, and the textual expression parser.

use vstd::prelude::*;

use crate::bytes::bytes_eq;
use crate::model::{
    default_items, eval_spec, find_name, find_name_from, forest_wf, max_name_len, merge_forest,
    merge_state, merged_value, name_ai_use, name_all, name_search, name_train_ai,
    name_train_genai, opt_index, resolved_at, wf_name, ItemV, State, UsagePreference,
};
use crate::model::{
    lemma_find_name_none, lemma_find_name_prefix, lemma_find_name_some,
    lemma_max_name_len_pointwise, lemma_max_name_len_push,
};

verus! {

/// One registered preference node.
struct Item {
    name: Vec<u8>,
    parent: Option<usize>,
    value: State,
}

impl View for Item {
    type V = ItemV;

    closed spec fn view(&self) -> ItemV {
        ItemV { name: self.name@, parent: opt_index(self.parent), value: self.value }
    }
}

/// An ordered forest of named preference nodes. Parents always stand
/// before their children, so upward walks terminate; `max_len` records the
/// longest registered name and bounds name-token scanning in the parser.
pub struct UsagePreferences {
    items: Vec<Item>,
    max_len: usize,
}

impl View for UsagePreferences {
    type V = Seq<ItemV>;

    closed spec fn view(&self) -> Seq<ItemV> {
        self.items@.map_values(|it: Item| it@)
    }
}

impl UsagePreferences {
    /// Automated processing: using assets in automated analysis of text
    /// and data to generate information such as patterns, trends and
    /// correlations.
    pub const ALL: &'static str = "all";

    /// Artificial-intelligence (or machine-learning) training.
    pub const TRAIN_AI: &'static str = "train-ai";

    /// Generative-AI training: training models that generate text, images
    /// or other synthetic content.
    pub const TRAIN_GENAI: &'static str = "train-genai";

    /// AI use: using assets as input to a trained model during its
    /// operation, as opposed to its training.
    pub const AI_USE: &'static str = "ai-use";

    /// Search: using assets in an application that directs users to the
    /// location the assets were retrieved from.
    pub const SEARCH: &'static str = "search";

    /// The forest's internal invariant: the model is well-formed and
    /// `max_len` is exactly the longest registered name.
    pub closed spec fn wf(&self) -> bool {
        &&& forest_wf(self@)
        &&& self.max_len == max_name_len(self@)
    }

    /// A blank forest with no usages registered.
    ///
    /// Use the `Default` implementation instead to get the standard set of
    /// usages.
    #[must_use]
    pub fn blank() -> (r: Self)
        ensures
            r.wf(),
            r@ == Seq::<ItemV>::empty(),
    {
        let r = UsagePreferences { items: Vec::new(), max_len: 0 };
        proof {
            assert(r@ =~= Seq::<ItemV>::empty());
        }
        r
    }

    /// The number of registered usages.
    pub fn len(&self) -> (r: usize)
        ensures
            r == self@.len(),
    {
        self.items.len()
    }

    /// The length of the longest registered name.
    pub fn max_len(&self) -> (r: usize)
        requires
            self.wf(),
        ensures
            r == max_name_len(self@),
    {
        self.max_len
    }

    /// Common logic for the registration of a usage.
    fn add_inner(&mut self, usage: &[u8], parent: Option<usize>)
        requires
            old(self).wf(),
            wf_name(usage@),
            find_name(old(self)@, usage@) is None,
            parent matches Some(p) ==> p < old(self)@.len(),
        ensures
            final(self).wf(),
            final(self)@ == old(self)@.push(
                ItemV { name: usage@, parent: opt_index(parent), value: State::Unknown },
            ),
    {
        proof {
            assert forall|i: int| 0 <= i < self@.len() implies (#[trigger] self@[i].name)
                != usage@ by {
                if self@[i].name == usage@ {
                    lemma_find_name_some(self@, usage@, i, 0);
                }
            }
        }
        if self.max_len < usage.len() {
            self.max_len = usage.len();
        }
        let name = vstd::slice::slice_to_vec(usage);
        let ghost pre = self@;
        self.items.push(Item { name, parent, value: State::Unknown });
        proof {
            let itv = ItemV { name: usage@, parent: opt_index(parent), value: State::Unknown };
            assert(self@ =~= pre.push(itv));
            lemma_max_name_len_push(pre, itv);
        }
    }

    /// Register a root-level usage.
    ///
    /// The name must be free of the separators `,` and `=` and must not
    /// duplicate a registered name.
    pub fn add(&mut self, usage: &[u8])
        requires
            old(self).wf(),
            wf_name(usage@),
            find_name(old(self)@, usage@) is None,
        ensures
            final(self).wf(),
            final(self)@ == old(self)@.push(ItemV { name: usage@, parent: None, value: State::Unknown }),
    {
        self.add_inner(usage, None);
    }

    /// Register a usage under an already registered parent, which is
    /// consulted when no preference is expressed for this usage.
    pub fn add_child(&mut self, usage: &[u8], parent: &[u8])
        requires
            old(self).wf(),
            wf_name(usage@),
            find_name(old(self)@, usage@) is None,
            find_name(old(self)@, parent@) is Some,
        ensures
            final(self).wf(),
            final(self)@ == old(self)@.push(
                ItemV {
                    name: usage@,
                    parent: find_name(old(self)@, parent@),
                    value: State::Unknown,
                },
            ),
    {
        let p = match self.index_of(parent) {
            Some(p) => p,
            None => {
                proof {
                    assert(false);
                }
                0
            },
        };
        self.add_inner(usage, Some(p));
    }

    /// The index of the registered usage with the given name, if any.
    pub(crate) fn index_of(&self, usage: &[u8]) -> (r: Option<usize>)
        ensures
            match r {
                Some(i) => find_name(self@, usage@) == Some(i as int) && i < self@.len(),
                None => find_name(self@, usage@) is None,
            },
    {
        let mut i: usize = 0;
        while i < self.items.len()
            invariant
                i <= self.items.len(),
                self@.len() == self.items@.len(),
                forall|k: int| 0 <= k < i ==> (#[trigger] self@[k].name) != usage@,
            decreases self.items.len() - i,
        {
            if bytes_eq(self.items[i].name.as_slice(), usage) {
                proof {
                    lemma_find_name_prefix(self@, usage@, i as int);
                }
                return Some(i);
            }
            i = i + 1;
        }
        proof {
            lemma_find_name_prefix(self@, usage@, i as int);
        }
        None
    }

    /// The cascade-resolved state of the node at index `i`: its own state
    /// if set, else the state of its nearest ancestor whose state is set,
    /// else `Unknown`.
    fn get_state(&self, i: usize) -> (r: State)
        requires
            self.wf(),
            i < self@.len(),
        ensures
            r == resolved_at(self@, i as int),
    {
        let mut cur = i;
        loop
            invariant
                self.wf(),
                cur < self@.len(),
                self@.len() == self.items@.len(),
                resolved_at(self@, i as int) == resolved_at(self@, cur as int),
            decreases cur,
        {
            if !matches!(self.items[cur].value, State::Unknown) {
                return self.items[cur].value;
            }
            match self.items[cur].parent {
                Some(p) => {
                    cur = p;
                },
                None => {
                    return State::Unknown;
                },
            }
        }
    }

    /// Evaluate the preference for the given usage, cascading to ancestors
    /// where this usage's own state is unset. An unregistered usage, or a
    /// cascade that resolves to `Unknown`, yields the caller's default.
    pub fn eval(&self, usage: &[u8], dflt: UsagePreference) -> (r: UsagePreference)
        requires
            self.wf(),
        ensures
            r == eval_spec(self@, usage@, dflt),
    {
        let i = match self.index_of(usage) {
            Some(i) => i,
            None => {
                return dflt;
            },
        };
        match self.get_state(i) {
            State::Unknown => dflt,
            State::Yes => UsagePreference::Allowed,
            State::No => UsagePreference::Denied,
        }
    }

    /// Combine two forests: every usage of `self` that is also registered
    /// in `other` merges `other`'s cascade-resolved state for it into its
    /// own raw state, deny-dominantly. Usages absent from `other` are
    /// untouched.
    pub fn merge(&mut self, other: &UsagePreferences)
        requires
            old(self).wf(),
            other.wf(),
        ensures
            final(self).wf(),
            final(self)@ == merge_forest(old(self)@, other@),
    {
        let ghost orig = self@;
        let mut i: usize = 0;
        while i < self.items.len()
            invariant
                other.wf(),
                i <= self.items.len(),
                self@.len() == self.items@.len(),
                self@.len() == orig.len(),
                self.max_len == max_name_len(orig),
                forall|k: int|
                    0 <= k < orig.len() ==> (#[trigger] self@[k]).name == orig[k].name
                        && self@[k].parent == orig[k].parent,
                forall|k: int| 0 <= k < i ==> (#[trigger] self@[k]).value == merged_value(orig[k], other@),
                forall|k: int| i <= k < orig.len() ==> (#[trigger] self@[k]).value == orig[k].value,
            decreases self.items.len() - i,
        {
            let ghost snap = self@;
            proof {
                assert(self.items@[i as int].name@ == snap[i as int].name);
            }
            match other.index_of(self.items[i].name.as_slice()) {
                Some(j) => {
                    let st = other.get_state(j);
                    let mut v = self.items[i].value;
                    v.merge(st);
                    self.items[i].value = v;
                    proof {
                        let itv = ItemV {
                            value: merge_state(snap[i as int].value, resolved_at(other@, j as int)),
                            ..snap[i as int]
                        };
                        assert(self@ =~= snap.update(i as int, itv));
                        assert(self@[i as int].value == merged_value(orig[i as int], other@));
                    }
                },
                None => {
                    proof {
                        assert(merged_value(orig[i as int], other@) == orig[i as int].value);
                    }
                },
            }
            i = i + 1;
        }
        proof {
            assert(self@ =~= merge_forest(orig, other@));
            lemma_max_name_len_pointwise(self@, orig);
            assert(forest_wf(self@));
        }
    }

    /// Parse a preference expression and merge each well-formed entry's
    /// value into the matching registered usage. Malformed or unmatched
    /// entries are silently ignored.
    pub fn parse(&mut self, expr: &[u8])
        requires
            old(self).wf(),
        ensures
            final(self).wf(),
            final(self)@ == crate::parser::spec_parse(old(self)@, expr@, 0, max_name_len(old(self)@)),
    {
        crate::parser::parse(self, expr);
    }

    /// Merge a parsed entry value into the node at index `i`.
    pub(crate) fn merge_value(&mut self, i: usize, v: State)
        requires
            old(self).wf(),
            i < old(self)@.len(),
        ensures
            final(self).wf(),
            max_name_len(final(self)@) == max_name_len(old(self)@),
            final(self)@ == old(self)@.update(
                i as int,
                ItemV {
                    value: merge_state(old(self)@[i as int].value, v),
                    ..old(self)@[i as int]
                },
            ),
    {
        let ghost orig = self@;
        let mut cur = self.items[i].value;
        cur.merge(v);
        self.items[i].value = cur;
        proof {
            let itv = ItemV { value: merge_state(orig[i as int].value, v), ..orig[i as int] };
            assert(self@ =~= orig.update(i as int, itv));
            lemma_max_name_len_pointwise(self@, orig);
            assert(forest_wf(self@));
        }
    }
}

impl Default for UsagePreferences {
    /// The standard forest: root `all`; `train-ai`, `ai-use` and `search`
    /// under `all`; `train-genai` under `train-ai`.
    fn default() -> (r: Self)
        ensures
            r.wf(),
            r@ == default_items(),
    {
        let mut v = UsagePreferences::blank();
        let all: [u8; 3] = [97, 108, 108];
        let train_ai: [u8; 8] = [116, 114, 97, 105, 110, 45, 97, 105];
        let train_genai: [u8; 11] = [116, 114, 97, 105, 110, 45, 103, 101, 110, 97, 105];
        let ai_use: [u8; 6] = [97, 105, 45, 117, 115, 101];
        let search: [u8; 6] = [115, 101, 97, 114, 99, 104];
        proof {
            assert(all@ =~= name_all());
            assert(train_ai@ =~= name_train_ai());
            assert(train_genai@ =~= name_train_genai());
            assert(ai_use@ =~= name_ai_use());
            assert(search@ =~= name_search());
        }
        proof {
            assert(name_all().len() == 3);
            assert(name_train_ai().len() == 8);
            assert(name_train_genai().len() == 11);
            assert(name_ai_use().len() == 6);
            assert(name_search().len() == 6);
            assert(name_ai_use()[0] != name_search()[0]);
            lemma_find_name_none(v@, name_all());
        }
        v.add(all.as_slice());
        proof {
            lemma_find_name_none(v@, name_train_ai());
            assert(find_name(v@, name_all()) == Some(0int));
        }
        v.add_child(train_ai.as_slice(), all.as_slice());
        proof {
            lemma_find_name_none(v@, name_train_genai());
            assert(find_name_from(v@, name_train_ai(), 1) == Some(1int));
            assert(find_name(v@, name_train_ai()) == Some(1int));
        }
        v.add_child(train_genai.as_slice(), train_ai.as_slice());
        proof {
            lemma_find_name_none(v@, name_ai_use());
            assert(find_name(v@, name_all()) == Some(0int));
        }
        v.add_child(ai_use.as_slice(), all.as_slice());
        proof {
            lemma_find_name_none(v@, name_search());
            assert(find_name(v@, name_all()) == Some(0int));
        }
        v.add_child(search.as_slice(), all.as_slice());
        proof {
            assert(v@ =~= default_items());
        }
        v
    }
}

} // verus!
