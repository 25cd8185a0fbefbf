//! Transactional in-memory indexes over `u32` keys.
//!
//! Every index comes as a committed base, a log of staged changes, a read-only
//! view of the two together, and a builder that owns both.
pub mod flat_set_index;
pub mod int_set;
pub mod interner;
pub mod node_set_index;
pub mod node_set_laws;
pub mod one_index;
pub mod set_map;
pub mod tree;
pub mod tree_laws;
pub mod tree_model;
