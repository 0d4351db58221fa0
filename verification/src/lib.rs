//! Proximity graphs for approximate nearest-neighbour search.

pub mod blocks;
pub mod datasets;
pub mod graph;
pub mod heap;
pub mod hnsw_utils;
pub mod npy;
pub mod options;
pub mod permutation_file;
pub mod report;
pub mod seismic;
pub mod sorted;
pub mod text;
pub mod visited;
