//! Iteration over the non-overlapping matches of a compiled pattern: whole
//! matches, capture groups, and the pieces of text between matches.

pub mod engine;
pub mod text;
pub mod captures;
pub mod find;
pub mod split;

pub use captures::{Captures, SubCaptures, SubCapturesPos};
pub use engine::{Error, Regex};
pub use find::{FindCaptures, FindMatches};
pub use split::{RegexSplits, RegexSplitsN};
