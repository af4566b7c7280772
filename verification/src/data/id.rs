//! Identifiers and points in time.

use vstd::prelude::*;

verus! {

/// Identifier of an entity of the triple store.
#[derive(Clone, Copy, Debug, PartialEq, Eq, PartialOrd, Ord, Hash, Structural)]
pub struct EntityId(pub u64);

/// Identifier of an attribute of the triple store.
#[derive(Clone, Copy, Debug, PartialEq, Eq, PartialOrd, Ord, Hash, Structural)]
pub struct AttrId(pub u64);

/// A logical point in time. A scan "as of" a validity sees the facts that were
/// asserted at that point or before it.
#[derive(Clone, Copy, Debug, PartialEq, Eq, PartialOrd, Ord, Hash, Structural)]
pub struct Validity(pub i64);

} // verus!
