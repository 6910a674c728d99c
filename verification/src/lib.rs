//! Call trees from collapsed stack samples.
//!
//! A collapsed stack line reads `frame1;frame2;...;frameN <count>`. The crate
//! turns an ordered sequence of such lines into a rooted call tree whose nodes
//! carry the cumulative count of every sample that passes through them, and
//! writes that tree as the JSON document that flame graph viewers read.

pub mod builder;
pub mod json;
pub mod laws;
pub mod page;
pub mod record;
pub mod tree;
pub mod trie;

use crate::builder::{build_tree, grow, records};
use crate::json::{json_outcome, EncodeError};
use vstd::prelude::*;

verus! {

/// Turns collapsed stack lines into the JSON text of their call tree.
///
/// The lines are read in order and must be grouped: lines that share the
/// first frames of their paths follow one another, as they do after sorting.
/// This is not checked; a prefix that comes back after other lines starts a
/// second subtree under the same label.
pub fn collapse_to_json(stacks: &[&str]) -> (r: Result<String, EncodeError>)
    ensures
        json_outcome(grow(records(stacks@)), r),
{
    build_tree(stacks).to_json()
}

} // verus!
