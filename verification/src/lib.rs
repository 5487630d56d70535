//! Dense directed graphs: a deduplicating node arena, an adjacency matrix
//! and a breadth-first traversal, with machine-checked contracts.
pub mod construction;
pub mod listing;
pub mod matrix_graph;
pub mod node_storage;
pub mod serialization;
pub mod text;
pub mod tgf_text;
pub mod traversable;
pub mod types;
