//! The join core of a query engine over a triple store.
//!
//! A query is a tree of relations: literal tables, the facts of an attribute
//! as of a point in time, and inner joins of the two. Its rows come as a
//! fallible sequence that is pulled element by element and that ends behind
//! its first error. Every join is proved to give the rows of the nested-loop
//! join, whichever way the table or the store is read.

pub mod data;
pub mod error;
pub mod runtime;
pub mod transact;
