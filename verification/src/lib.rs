//! Durable and bounded state for a versioned incremental graph.
//!
//! A graph of computations is kept across versions: what was computed for each key, at which
//! versions it holds, and who read whom. Its values can be paged out to a store, its skeleton
//! can be saved as a snapshot and loaded again, and cold values can be evicted while memory is
//! short.
pub mod analysis;
pub mod change_laws;
pub mod configure_dice;
pub mod core_laws;
pub mod core_state;
pub mod dup_stats;
pub mod force_dirty;
pub mod graph;
pub mod graph_laws;
pub mod graph_types;
pub mod hydration;
pub mod nodes;
pub mod persist;
pub mod persist_ext;
pub mod pressure;
pub mod snapshot;
pub mod snapshot_laws;
pub mod sort;
pub mod store;
pub mod text;
pub mod tracker;
pub mod value;
pub mod versions;
