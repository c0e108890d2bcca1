//! Site percolation on a cubic lattice: a lattice of occupied and empty
//! cells, and the largest cluster of face-adjacent cells of one kind.

pub mod lattice;
pub mod component;
pub mod generator;
pub mod mesh;
