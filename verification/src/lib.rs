//! Regional price similarity pipeline: a symmetric correlation matrix over
//! named regions, a complete weighted graph derived from it (edge weight is
//! the inverse square of the correlation), and a deterministic minimum
//! spanning tree extracted by Kruskal's algorithm with union-find.

pub mod corr_matrix;
pub mod errors;
pub mod graph;
pub mod mst;
