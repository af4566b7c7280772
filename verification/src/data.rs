//! The values that flow through a query: identifiers, values, rows and names.

pub mod attr;
pub mod id;
pub mod keyword;
pub mod tuple;
pub mod value;
