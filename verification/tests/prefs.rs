//! Tests of the preference forest: registration, parsing, cascade
//! evaluation, and merging.

use sup_ai::{parse, UsagePreference, UsagePreferences};

const ALL: &str = UsagePreferences::ALL;
const TRAIN_AI: &str = UsagePreferences::TRAIN_AI;
const TRAIN_GENAI: &str = UsagePreferences::TRAIN_GENAI;
const SEARCH: &str = UsagePreferences::SEARCH;
const AI_USE: &str = UsagePreferences::AI_USE;
const EVERYTHING: &[&str] = &[ALL, TRAIN_AI, TRAIN_GENAI, SEARCH];

fn assert_unset(up: &UsagePreferences, usage: &str) {
    // There isn't an API for testing if something is set.
    // This checks that by testing that both defaults pass through.
    assert_eq!(
        up.eval(usage.as_bytes(), UsagePreference::Denied),
        UsagePreference::Denied
    );
    assert_eq!(
        up.eval(usage.as_bytes(), UsagePreference::Allowed),
        UsagePreference::Allowed
    );
}

fn assert_allowed(up: &UsagePreferences, usage: &str) {
    assert_eq!(
        up.eval(usage.as_bytes(), UsagePreference::Denied),
        UsagePreference::Allowed
    );
}

fn assert_denied(up: &UsagePreferences, usage: &str) {
    assert_eq!(
        up.eval(usage.as_bytes(), UsagePreference::Allowed),
        UsagePreference::Denied
    );
}

#[test]
fn make_blank() {
    let up = UsagePreferences::blank();
    assert_eq!(up.len(), 0);
    assert_eq!(up.max_len(), 0);
}

#[test]
fn make_default() {
    let up = UsagePreferences::default();
    assert_eq!(up.len(), 5);
    assert_eq!(up.max_len(), 11);
}

#[test]
fn allow_tdm() {
    let mut up = UsagePreferences::default();
    up.parse(b"all=y");
    for usage in EVERYTHING {
        assert_allowed(&up, usage);
    }
}

#[test]
fn allow_ai() {
    let mut up = UsagePreferences::default();
    up.parse(b"train-ai=y");
    assert_unset(&up, ALL);
    assert_allowed(&up, TRAIN_AI);
    assert_allowed(&up, TRAIN_GENAI);
    assert_unset(&up, SEARCH);
    assert_unset(&up, AI_USE);
}

#[test]
fn deny_search() {
    let mut up = UsagePreferences::default();
    up.parse(b"search=n");
    assert_unset(&up, ALL);
    assert_unset(&up, TRAIN_AI);
    assert_unset(&up, TRAIN_GENAI);
    assert_denied(&up, SEARCH);
    assert_unset(&up, AI_USE);
}

#[test]
fn full() {
    let mut up = UsagePreferences::default();
    up.parse(b"train-genai=y,search=n,all=y,train-ai=n,ai-use=n");
    assert_allowed(&up, ALL);
    assert_denied(&up, TRAIN_AI);
    assert_allowed(&up, TRAIN_GENAI);
    assert_denied(&up, SEARCH);
    assert_denied(&up, AI_USE);
}

#[test]
fn full_split() {
    let mut up = UsagePreferences::default();
    up.parse(b"search=y,all=n");
    up.parse(b"train-genai=n,train-ai=y");
    up.parse(b"ai-use=y");
    assert_denied(&up, ALL);
    assert_allowed(&up, TRAIN_AI);
    assert_denied(&up, TRAIN_GENAI);
    assert_allowed(&up, SEARCH);
    assert_allowed(&up, AI_USE);
}

#[test]
fn deny_overrides_allow() {
    let mut up = UsagePreferences::default();
    up.parse(b"train-ai=y,train-ai=n,train-ai=y");
    assert_unset(&up, ALL);
    assert_denied(&up, TRAIN_AI);
    assert_denied(&up, TRAIN_GENAI);
    assert_unset(&up, SEARCH);
    assert_unset(&up, AI_USE);
}

#[test]
fn whitespace() {
    let mut up = UsagePreferences::default();
    up.parse(b", all\t=\ry\n,,   =");
    for usage in EVERYTHING {
        assert_allowed(&up, usage);
    }
}

#[test]
fn invalid_value() {
    let mut up = UsagePreferences::default();
    up.parse(b"all=junk,all=y,all=no");
    for usage in EVERYTHING {
        assert_allowed(&up, usage);
    }
}

#[test]
fn invalid_key() {
    let mut up = UsagePreferences::default();
    up.parse(b"a=y,bcdefghijklmnopqrstuvwxyz=y");
    assert_unset(&up, "a");
    assert_unset(&up, "bcdefghijklmnopqrstuvwxyz");
}

#[test]
fn invalid_unicode() {
    let mut up = UsagePreferences::default();
    up.parse(&[0xff, 0x00]);
    for usage in EVERYTHING {
        assert_unset(&up, usage);
    }
}

#[test]
fn custom_domain() {
    let mut up = UsagePreferences::blank();
    up.add(b"a");
    up.add(b"b");
    up.add_child(b"c", b"a");

    up.parse(b"a=y,b=y");
    assert_allowed(&up, "a");
    assert_allowed(&up, "b");
    assert_allowed(&up, "c");
}

#[test]
fn merge() {
    let mut up1 = UsagePreferences::default();
    up1.parse(b"train-gen=y");
    let mut up2 = UsagePreferences::default();
    up2.parse(b"train-ai=n");
    up1.merge(&up2);
    assert_unset(&up1, ALL);
    assert_denied(&up1, TRAIN_AI);
    assert_denied(&up1, TRAIN_GENAI);
    assert_unset(&up1, AI_USE);
    assert_unset(&up1, SEARCH);
}

#[test]
fn merge_unrelated() {
    let mut up1 = UsagePreferences::default();
    up1.parse(b"train-gen=y");
    let mut up2 = UsagePreferences::blank();
    up2.add(TRAIN_AI.as_bytes());
    up2.add(b"a");
    up2.parse(b"train-ai=n, a=y");
    up1.merge(&up2);
    assert_unset(&up1, ALL);
    assert_denied(&up1, TRAIN_AI);
    assert_denied(&up1, TRAIN_GENAI);
    assert_unset(&up1, AI_USE);
    assert_unset(&up1, SEARCH);
    assert_unset(&up1, "a");
}

#[test]
fn parse_free_function() {
    let mut up = UsagePreferences::default();
    parse(&mut up, b"search=y");
    assert_allowed(&up, SEARCH);
    assert_unset(&up, ALL);
}

#[test]
fn parse_empty_input() {
    let mut up = UsagePreferences::default();
    up.parse(b"");
    for usage in EVERYTHING {
        assert_unset(&up, usage);
    }
    assert_unset(&up, AI_USE);
}

#[test]
fn unregistered_gets_default() {
    let up = UsagePreferences::default();
    assert_eq!(
        up.eval(b"no-such-usage", UsagePreference::Allowed),
        UsagePreference::Allowed
    );
    assert_eq!(
        up.eval(b"no-such-usage", UsagePreference::Denied),
        UsagePreference::Denied
    );
    let blank = UsagePreferences::blank();
    assert_eq!(
        blank.eval(b"all", UsagePreference::Denied),
        UsagePreference::Denied
    );
}

#[test]
fn cascade_to_nearest_ancestor() {
    // train-genai is unset and falls back to train-ai, its nearest
    // ancestor with a set state, not to all.
    let mut up = UsagePreferences::default();
    up.parse(b"all=y,train-ai=n");
    assert_denied(&up, TRAIN_GENAI);
    // An unset root falls back to the caller's default.
    assert_allowed(&up, ALL);
    let mut up2 = UsagePreferences::default();
    up2.parse(b"train-ai=n");
    assert_unset(&up2, ALL);
    assert_denied(&up2, TRAIN_GENAI);
}

#[test]
fn deny_dominant_across_merges() {
    // One No among the merges pins the node to Denied, wherever it stands.
    let mut up = UsagePreferences::default();
    up.parse(b"search=y");
    up.parse(b"search=n");
    up.parse(b"search=y");
    assert_denied(&up, SEARCH);
}

#[test]
fn split_parse_agrees_with_joined() {
    // Parsing "a ++ , ++ b" equals parsing a, then b, on the same forest.
    let a: &[u8] = b"all=y, search=n";
    let b: &[u8] = b"train-ai=n,ai-use=y";
    let mut joined = UsagePreferences::default();
    let mut expr = Vec::new();
    expr.extend_from_slice(a);
    expr.push(b',');
    expr.extend_from_slice(b);
    joined.parse(&expr);
    let mut split = UsagePreferences::default();
    split.parse(a);
    split.parse(b);
    for usage in [ALL, TRAIN_AI, TRAIN_GENAI, SEARCH, AI_USE] {
        assert_eq!(
            joined.eval(usage.as_bytes(), UsagePreference::Allowed),
            split.eval(usage.as_bytes(), UsagePreference::Allowed)
        );
        assert_eq!(
            joined.eval(usage.as_bytes(), UsagePreference::Denied),
            split.eval(usage.as_bytes(), UsagePreference::Denied)
        );
    }
}

#[test]
fn value_with_trailing_garbage_is_ignored() {
    let mut up = UsagePreferences::default();
    up.parse(b"all=y z,search=n");
    assert_unset(&up, ALL);
    assert_denied(&up, SEARCH);
}

#[test]
fn blanket_allow_reaches_every_key() {
    let mut up = UsagePreferences::default();
    up.parse(b"all=y");
    for usage in [ALL, TRAIN_AI, TRAIN_GENAI, SEARCH, AI_USE] {
        assert_eq!(
            up.eval(usage.as_bytes(), UsagePreference::Denied),
            UsagePreference::Allowed
        );
    }
}
