//! A snippet-expansion and interactive-tabstop engine: elaborates a parsed
//! template into a normalized tabstop tree, renders it into concrete text
//! with per-tabstop character ranges, and tracks those ranges live while the
//! user edits and navigates between tabstops.

pub mod active;
pub mod elaborate;
pub mod host;
pub mod range;
pub mod render;
pub mod transform;

use vstd::prelude::*;

verus! {

/// A tabstop identifier: the raw number written in the template while
/// elaboration is in progress, and afterwards a dense 0-based resolved
/// position into the elaborated tabstop table. The terminal tabstop, where
/// the cursor lands when the session completes, carries raw number 0 and
/// orders after every other tabstop, so it sits last in the table.
#[derive(PartialEq, Eq, Structural, Hash, Debug, PartialOrd, Ord, Clone, Copy)]
pub struct TabstopIdx(pub usize);

} // verus!
