//! Commit identifiers.

use vstd::prelude::*;

verus! {

/// An opaque, content-derived commit identifier. The commit graph owns the
/// real identifier bytes; this layer only ever compares identifiers for
/// equality and hands them back to the graph, so a plain machine word of
/// identity is all it needs to carry.
#[derive(Clone, Copy, PartialEq, Eq, Structural, PartialOrd, Ord, Hash, Debug)]
pub struct CommitId(pub u64);

} // verus!
