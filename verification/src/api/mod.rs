//! Entry points: one function to build an index, one to query it and one to query it with its own
//! vectors.

pub mod answer_laws;
pub mod backend;
pub mod binary;
pub mod cpu;
pub mod gpu;
pub mod quantised;
