//! A rule-driven conversational response engine in the style of the classic
//! ELIZA program.
//!
//! Given a ruleset of weighted keywords, decomposition patterns, reassembly
//! templates, synonym classes, word substitution tables and fixed phrase
//! lists, the engine turns a line of user text into a reply: it normalizes
//! the input, checks it against the quit phrases, rewrites words through the
//! `pre` table, selects the highest-weight keyword whose pattern decomposes
//! the input, and expands one of the matching decomposition's reassembly
//! templates with the captured groups, rewritten through the `post` table.

pub mod eliza;
pub mod pattern;
pub mod rules;
pub mod text;

pub use crate::eliza::{Eliza, Response};
pub use crate::rules::{ConfigError, Decomposition, Keyword, Replacement, Rules, Synonym};
