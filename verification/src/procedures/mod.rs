//! The three operations of the index: answering a prefix, loading entries,
//! and voting for a name.

pub mod get;
pub mod load;
pub mod vote;
pub mod names;
