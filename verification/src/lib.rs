//! Approximate nearest neighbour indices.

pub mod api;
pub mod cpu;
pub mod errors;
pub mod gpu;
pub mod parallel;
pub mod utils;

pub use api::binary::{
    build_exhaustive_index_binary, build_exhaustive_index_rabitq, build_exhaustive_index_turboquant,
    build_ivf_index_binary, build_ivf_index_rabitq, build_ivf_index_turboquant, convert_counts,
    query_exhaustive_index_binary, query_exhaustive_index_binary_self,
    query_exhaustive_index_rabitq, query_exhaustive_index_rabitq_self,
    query_exhaustive_index_turboquant, query_exhaustive_index_turboquant_self,
    query_ivf_index_binary, query_ivf_index_binary_self, query_ivf_index_rabitq,
    query_ivf_index_rabitq_self, query_ivf_index_turboquant, query_ivf_index_turboquant_self,
};
pub use api::cpu::{
    build_annoy_index, build_balltree_index, build_exhaustive_index, build_hnsw_index,
    build_hnsw_sq8_index, build_ivf_index, build_kd_tree_index, build_kmknn_index, build_lsh_index,
    build_nndescent_index, build_vamana_index, query_annoy_index, query_annoy_self,
    query_balltree_index, query_balltree_self, query_exhaustive_index, query_exhaustive_self,
    query_hnsw_index, query_hnsw_self, query_ivf_index, query_ivf_self, query_kd_tree_index,
    query_kd_tree_self, query_kmknn_index, query_kmknn_self, query_lsh_index, query_lsh_self,
    query_nndescent_index, query_nndescent_self, query_vamana_index, query_vamana_self,
};
pub use api::gpu::{
    build_exhaustive_index_gpu, build_ivf_index_gpu, build_nndescent_index_gpu,
    extract_nndescent_knn_gpu, query_exhaustive_index_gpu, query_exhaustive_index_gpu_self,
    query_ivf_index_gpu, query_ivf_index_gpu_self, query_nndescent_index_gpu,
    query_nndescent_index_gpu_self,
};
pub use api::quantised::{
    build_exhaustive_bf16_index, build_exhaustive_opq_index, build_exhaustive_pq_index,
    build_exhaustive_sq8_index, build_ivf_bf16_index, build_ivf_opq_index, build_ivf_pq_index,
    build_ivf_sq8_index, query_exhaustive_bf16_index, query_exhaustive_bf16_self,
    query_exhaustive_opq_index, query_exhaustive_opq_index_self, query_exhaustive_pq_index,
    query_exhaustive_pq_index_self, query_exhaustive_sq8_index, query_exhaustive_sq8_self,
    query_ivf_bf16_index, query_ivf_bf16_self, query_ivf_opq_index, query_ivf_opq_index_self,
    query_ivf_pq_index, query_ivf_pq_index_self, query_ivf_sq8_index, query_ivf_sq8_self,
};
