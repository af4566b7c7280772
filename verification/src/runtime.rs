//! What a query reads from.

pub mod transact;
