//! A decision engine for crawlers: given a user agent and a URL path, it
//! answers whether fetching is permitted and which content-usage permissions
//! (AI training, generative-AI training, search indexing, ...) apply.
//!
//! The engine couples two small grammars: a compact preference expression
//! language (comma-separated `key=y|n` pairs) over a hierarchical
//! three-state preference forest, and an extended exclusion-file format
//! (robots.txt plus a `content-usage` directive) that attaches those
//! preferences and admission rules to user agents and path patterns.

pub mod bytes;
pub mod model;
pub mod parser;
pub mod pattern;
pub mod prefs;
pub mod robots;

pub use model::State;
pub use model::UsagePreference;
pub use parser::parse;
pub use prefs::UsagePreferences;
