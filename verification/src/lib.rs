//! A part-of-speech stop-tag filter for tokenized Japanese text.
//!
//! Tokens carry a hierarchical part-of-speech annotation of up to four
//! comma-separated levels.  A configuration names the tag paths to drop;
//! each path is normalized to a canonical four-level, wildcard-padded
//! pattern, and the filter removes every token whose own normalized
//! pattern is in that stop set.

pub mod filter;
pub mod json;
pub mod pattern;
pub mod token;
