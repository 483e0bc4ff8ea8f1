//! Disjoint-set forest with path compression and union by size, the
//! clustering engine of a long-range percolation sampler.
pub mod norms;
pub mod percolation;
pub mod union_find;

pub use union_find::UnionFind;
