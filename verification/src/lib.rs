//! A verified core for rendering textual diffs: a parser that rebuilds a
//! File / Block / Line model from unified and git diff text, a
//! longest-common-subsequence engine that splits two strings into Same /
//! Add / Rem segments, an alignment engine that pairs changed elements by a
//! normalized edit distance, and the helpers that turn the model into
//! highlighted output.

use vstd::prelude::*;

pub mod difference;
pub mod parser;
pub mod rematch;
pub mod render;
pub mod tokenize;

verus! {

/// Kind of token boundary used when two strings are compared.
#[derive(Clone, Copy, PartialEq, Eq, Structural, Debug)]
pub enum SplitType {
    Character,
    Word,
    Line,
    SmartWord,
}

} // verus!
