//! Node identifiers.
use vstd::prelude::*;

verus! {

/// The identifier of a cluster member.
///
/// Identifiers are unique, totally ordered, and carry no other meaning here.
pub type NodeId = u64;

} // verus!
