//! Linked-list containers over an index-addressed node store.

mod arena;
mod chain;
pub mod double_linked_list;
pub mod laws;
pub mod linked_list;
pub mod model;
