//! A keyword-redaction engine.
//!
//! The library stores a list of keywords in a sorted, deduplicated
//! dictionary and redacts every occurrence of a dictionary entry in an
//! input text, replacing each matched span with mask characters while
//! reporting which spans were redacted.  Matching is leftmost-longest,
//! may fold ASCII case, and may skip interior whitespace of the text.

pub mod chars;
pub mod filter;
pub mod laws;
pub mod matching;
