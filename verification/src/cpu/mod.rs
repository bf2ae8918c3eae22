//! Indices that run on the CPU.

pub mod beam;
pub mod beam_laws;
pub mod build_graph;
pub mod build_laws;
pub mod connected_laws;
pub mod construction;
pub mod distance_laws;
pub mod diversity;
pub mod graph_laws;
pub mod greedy;
pub mod hnsw;
pub mod hnsw_laws;
pub mod insertion;
pub mod layers;
pub mod levels;
pub mod slots;
pub mod sq8;
pub mod sq8_laws;
pub mod store;
