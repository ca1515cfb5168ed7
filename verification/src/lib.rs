//! An approximate nearest-neighbour index over a layered proximity graph.
//!
//! Vectors are kept as the bit patterns of their 32-bit components and
//! distances as unsigned keys, smaller meaning closer, so that every rule of
//! the index is stated and proved over integers.

pub mod error;
pub mod graph;
pub mod index;
pub mod laws;
pub mod level;
pub mod params;
pub mod ranking;
pub mod search;
pub mod snapshot;

pub use error::HnswError;
pub use graph::{Adjacency, Layer, Point};
pub use index::{HNSWIndex, IndexStats, Snapshot};
pub use params::HNSWParams;
pub use ranking::Neighbor;
