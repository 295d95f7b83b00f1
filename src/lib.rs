//! A hierarchical navigable small-world (HNSW) index for approximate
//! nearest-neighbour search, with its structural operations verified.
//!
//! The index stores caller-chosen string ids, an opaque item per node and
//! per-layer neighbour lists. Distances enter as integer keys whose order
//! is the order of the distances they stand for.

pub mod types;
pub mod graph;
pub mod laws;
