//! The errors of a running query.

use vstd::prelude::*;

verus! {

/// What can go wrong while a query runs. A plan that is inconsistent in itself
/// is no such error: the functions of this crate rule it out by `requires`.
#[derive(Debug, PartialEq, Eq)]
pub enum QueryError {
    /// A bound column had to hold an entity reference and held another value.
    NotAnEntity,
    /// The storage engine failed while reading; the text is the engine's own.
    Storage(String),
    /// The relation is of a kind that this evaluator does not execute.
    Unsupported,
}

impl Clone for QueryError {
    fn clone(&self) -> (out: Self)
        ensures
            out == *self,
    {
        match self {
            QueryError::NotAnEntity => QueryError::NotAnEntity,
            QueryError::Storage(text) => QueryError::Storage(text.clone()),
            QueryError::Unsupported => QueryError::Unsupported,
        }
    }
}

impl QueryError {
    /// What went wrong, in words; for a storage error, the engine's own text.
    pub fn message(&self) -> (text: String)
        ensures
            text@ == match *self {
                QueryError::NotAnEntity => "a bound column holds no entity reference"@,
                QueryError::Storage(engine) => engine@,
                QueryError::Unsupported => "this kind of relation is not evaluated"@,
            },
    {
        match self {
            QueryError::NotAnEntity => "a bound column holds no entity reference".to_owned(),
            QueryError::Storage(engine) => engine.clone(),
            QueryError::Unsupported => "this kind of relation is not evaluated".to_owned(),
        }
    }
}

} // verus!
