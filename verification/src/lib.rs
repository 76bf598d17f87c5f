//! An in-memory approximate nearest-neighbour index over fixed-dimensional
//! vectors, built around a hierarchical navigable small-world (HNSW) graph.
//!
//! Vector components are carried as IEEE 754 bit patterns (`u64`), so the
//! verified core never performs floating-point arithmetic itself: distances
//! are produced by a pluggable [`DistanceCalculator`] and the core only
//! compares them.

pub mod errors;
pub mod hnsw;
pub mod neighbor;
pub mod node;
pub mod vector;

pub use errors::HnswError;
pub use hnsw::HnswIndex;
pub use hnsw::IndexStats;
pub use node::Node;
pub use vector::DistanceCalculator;
pub use vector::VectorItem;
