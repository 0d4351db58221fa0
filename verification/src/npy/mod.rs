//! One-dimensional arrays of unsigned integers in the `.npy` format.

pub mod chars;
pub mod data;
pub mod header;
pub mod reader;
pub mod writer;
pub mod laws;
