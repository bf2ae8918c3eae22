//! The host side of indices whose vectors live on a compute device.

pub mod index_laws;
pub mod ivf_gpu;
pub mod launch;
pub mod partition;
pub mod probe;
pub mod query_run;
pub mod result_laws;
pub mod run_laws;
pub mod tasks;
