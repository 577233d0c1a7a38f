//! An in-memory typeahead index: a prefix tree whose nodes cache the most
//! popular names found below them.

pub mod entry;
pub mod top;
pub mod node;
pub mod tree;
pub mod model;
pub mod procedures;
pub mod exact;
pub mod shape;
pub mod order;
pub mod endpoints;
pub mod env;
