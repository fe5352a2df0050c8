//! Tests of the exclusion-file parser, admission resolution, preference
//! aggregation, and path-pattern matching.

use sup_ai::pattern::path_match;
use sup_ai::robots::Robots;
use sup_ai::{UsagePreference, UsagePreferences};

fn assert_allowed(up: &UsagePreferences, usage: &str) {
    assert_eq!(
        up.eval(usage.as_bytes(), UsagePreference::Denied),
        UsagePreference::Allowed
    );
}

fn assert_denied(up: &UsagePreferences, usage: &str) {
    assert_eq!(
        up.eval(usage.as_bytes(), UsagePreference::Allowed),
        UsagePreference::Denied
    );
}

#[test]
fn parse_basic() {
    const FILE: &[u8] = br#"
User-Agent: *
# Comments
disAllow: /
allow: /*e**mple**$ # A very bad, but still valid, use of the '*' rule
allow:/allow # Whatever
content-usage :train-ai=y, search=y
 content-usage: /*.jpg$ train-ai=n
user-agenT:WhateVer#
allow: /
allow: /**
disallow  : /*$
allow: /
content-usage: all=y
User-Agent: *
user-agent:otherrrrrr
Content-Usage: search=n
content-USAGE: /NO-PREFS
allow: # no path
"#;
    let r = Robots::parse(FILE);
    assert!(r.preferences(b"ExampleBot", b"/foo").is_none());
    assert!(r.preferences(b"whateverbot", b"/example").is_some());
    let p = r.preferences(b"eXaMpLeBot", b"/allowed").unwrap();
    assert_allowed(&p, UsagePreferences::TRAIN_AI);
    let p = r.preferences(b"otherBot", b"/allow/nope.jpg").unwrap();
    assert_denied(&p, UsagePreferences::TRAIN_AI);
    let p = r.preferences(b"ExampleBot", b"/allow/nope.jpg/blah").unwrap();
    assert_allowed(&p, UsagePreferences::TRAIN_AI);
    let p = r.preferences(b"whatever", b"/allow/nope.jpg").unwrap();
    assert_allowed(&p, UsagePreferences::TRAIN_AI);
    let p = r.preferences(b"ExampleBot", b"/allow/nope.jpg/blah").unwrap();
    assert_denied(&p, UsagePreferences::SEARCH);
}

#[test]
fn wildcard_group_with_content_usage() {
    const FILE: &[u8] = b"User-Agent: *\nDisallow: /\nAllow: /public\nContent-Usage: /public train-ai=y\n";
    let r = Robots::parse(FILE);
    let p = r.preferences(b"anybot", b"/public/x").unwrap();
    assert_allowed(&p, UsagePreferences::TRAIN_AI);
    assert!(r.preferences(b"anybot", b"/private").is_none());
}

#[test]
fn equal_specificity_ties_merge_deny_dominant() {
    // Two rules of equal pattern length both apply; their forests merge,
    // and the No wins regardless of rule order.
    const FILE: &[u8] =
        b"User-Agent: *\nAllow: /\nContent-Usage: /data train-ai=y\nContent-Usage: /data train-ai=n\n";
    let r = Robots::parse(FILE);
    let p = r.preferences(b"bot", b"/data/x").unwrap();
    assert_denied(&p, UsagePreferences::TRAIN_AI);

    const FILE2: &[u8] =
        b"User-Agent: *\nAllow: /\nContent-Usage: /data train-ai=n\nContent-Usage: /data train-ai=y\n";
    let r2 = Robots::parse(FILE2);
    let p2 = r2.preferences(b"bot", b"/data/x").unwrap();
    assert_denied(&p2, UsagePreferences::TRAIN_AI);
}

#[test]
fn longer_pattern_wins_preferences() {
    const FILE: &[u8] =
        b"User-Agent: *\nAllow: /\nContent-Usage: /a train-ai=n\nContent-Usage: /a/b train-ai=y\n";
    let r = Robots::parse(FILE);
    let p = r.preferences(b"bot", b"/a/b/c").unwrap();
    assert_allowed(&p, UsagePreferences::TRAIN_AI);
}

#[test]
fn no_matching_rule_is_not_admitted() {
    // With no admission rules at all, nothing is admitted.
    const FILE: &[u8] = b"User-Agent: somebot\nContent-Usage: all=y\n";
    let r = Robots::parse(FILE);
    assert!(r.preferences(b"somebot", b"/x").is_none());
    assert!(r.preferences(b"otherbot", b"/x").is_none());
}

#[test]
fn equal_length_allow_beats_disallow() {
    const FILE: &[u8] = b"User-Agent: *\nDisallow: /ab\nAllow: /cd\n";
    let r = Robots::parse(FILE);
    // Both patterns have length three; only one matches each path.
    assert!(r.preferences(b"bot", b"/cd/x").is_some());
    assert!(r.preferences(b"bot", b"/ab/x").is_none());

    // At the same path and equal length, the allow displaces the disallow
    // and a later disallow of that length does not displace it.
    const FILE2: &[u8] = b"User-Agent: *\nDisallow: /a\nAllow: /a\nDisallow: /a\n";
    let r2 = Robots::parse(FILE2);
    assert!(r2.preferences(b"bot", b"/a").is_some());
}

#[test]
fn specific_group_falls_back_to_wildcard() {
    // The wildcard section applies when the agent's own section does not
    // admit the path, even though the agent has a section of its own.
    const FILE: &[u8] = b"User-Agent: mybot\nDisallow: /\nUser-Agent: *\nAllow: /\nContent-Usage: search=n\n";
    let r = Robots::parse(FILE);
    let p = r.preferences(b"mybot", b"/x").unwrap();
    assert_denied(&p, UsagePreferences::SEARCH);
}

#[test]
fn consecutive_user_agents_share_a_group() {
    const FILE: &[u8] = b"User-Agent: one\nUser-Agent: two\nAllow: /\nContent-Usage: train-ai=n\n";
    let r = Robots::parse(FILE);
    let p = r.preferences(b"ONE", b"/x").unwrap();
    assert_denied(&p, UsagePreferences::TRAIN_AI);
    let p = r.preferences(b"two", b"/y").unwrap();
    assert_denied(&p, UsagePreferences::TRAIN_AI);
}

#[test]
fn content_usage_path_without_expression_is_dropped() {
    const FILE: &[u8] = b"User-Agent: *\nAllow: /\nContent-Usage: /only-a-path\n";
    let r = Robots::parse(FILE);
    let p = r.preferences(b"bot", b"/only-a-path/x").unwrap();
    // The rule was dropped, so nothing is set.
    assert_eq!(
        p.eval(UsagePreferences::TRAIN_AI.as_bytes(), UsagePreference::Allowed),
        UsagePreference::Allowed
    );
    assert_eq!(
        p.eval(UsagePreferences::TRAIN_AI.as_bytes(), UsagePreference::Denied),
        UsagePreference::Denied
    );
}

#[test]
fn path_match_empty_pattern() {
    assert!(path_match(b"", b"/anything"));
    assert!(path_match(b"", b""));
    assert!(path_match(b"", b"/a/b/c"));
}

#[test]
fn path_match_anchor() {
    assert!(path_match(b"/x$", b"/x"));
    assert!(!path_match(b"/x$", b"/xy"));
}

#[test]
fn path_match_wildcard_anchor() {
    assert!(path_match(b"/a*c$", b"/abbbc"));
    assert!(!path_match(b"/a*c$", b"/abbbcd"));
}

#[test]
fn path_match_wildcards() {
    assert!(path_match(b"/a*b*c", b"/a-b-c-d"));
    assert!(!path_match(b"/a*b*c", b"/a-c-b"));
    assert!(path_match(b"/fish*.php", b"/fishheads/catfish.php?parameters"));
    // A trailing '*' right before the anchor makes the anchor pointless.
    assert!(path_match(b"/x*$", b"/x/anything"));
    // First occurrence matching is what anchors check against.
    assert!(!path_match(b"/a*b$", b"/axbxb"));
}

#[test]
fn path_match_prefix() {
    assert!(path_match(b"/pub", b"/public"));
    assert!(!path_match(b"/pub", b"/qub"));
    assert!(!path_match(b"/public", b"/pub"));
}
