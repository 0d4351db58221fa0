//! Proximity graphs: how they are stored, and how they are searched.

pub mod answers;
pub mod best_first;
pub mod egb;
pub mod elias_fano;
pub mod encoded;
pub mod frontier;
pub mod graph;
pub mod graph_laws;
pub mod graph_trait;
pub mod growable;
pub mod model;
pub mod neighbors;
pub mod pruning;
pub mod query;
pub mod search;
pub mod search_laws;
pub mod slots;
pub mod stream_vbyte;
pub mod zeta;

pub use graph_trait::GraphTrait;
pub use growable::{GraphFixedDegree, GrowableGraph};
pub use neighbors::{NeighborData, Neighbors, PlainNeighbors};
use vstd::prelude::*;

verus! {

/// The graph whose neighbours are stored as they are.
pub type Graph = graph::Graph<neighbors::PlainNeighbors>;

} // verus!
