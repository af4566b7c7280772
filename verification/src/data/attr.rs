//! Attributes as the schema describes them.

use vstd::prelude::*;
use crate::data::id::AttrId;

verus! {

/// The type of the values that an attribute takes.
#[derive(Clone, Copy, Debug, PartialEq, Eq, Structural)]
pub enum AttributeTyping {
    /// The values are references to entities.
    Ref,
    Bool,
    Int,
    Float,
    Str,
    List,
}

impl AttributeTyping {
    /// Whether the values are references to entities.
    pub fn is_ref_type(&self) -> (yes: bool)
        ensures
            yes == (*self is Ref),
    {
        match self {
            AttributeTyping::Ref => true,
            _ => false,
        }
    }
}

/// How the store indexes the values of an attribute.
#[derive(Clone, Copy, Debug, PartialEq, Eq, Structural)]
pub enum AttributeIndex {
    /// No index by value.
    Unindexed,
    /// A secondary index by value.
    Indexed,
    /// A secondary index by value, in which a value names at most one entity.
    Identity,
}

impl AttributeIndex {
    /// Whether the store keeps an index by value.
    pub fn should_index(&self) -> (yes: bool)
        ensures
            yes == !(*self is Unindexed),
    {
        match self {
            AttributeIndex::Unindexed => false,
            _ => true,
        }
    }
}

/// What the schema says of one attribute.
#[derive(Clone, Copy, Debug, PartialEq, Eq, Structural)]
pub struct Attribute {
    pub id: AttrId,
    pub val_type: AttributeTyping,
    pub indexing: AttributeIndex,
}

} // verus!
