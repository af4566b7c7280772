//! Relations and the joins over them.

pub mod cursor;
pub mod fixed;
pub mod joiner;
pub mod laws;
pub mod nested_loop;
pub mod query;
pub mod stream;
pub mod triple;
