//! Entry points for indices that keep vectors in fewer bits.
use super::backend::{query_rows, rows_answered, IndexBuild, RowSearch, SelfSearch, TotalSelfSearch};
use super::cpu::ClusterSettings;
use crate::errors::AnnSearchErrors;
use crate::parallel::KnnOptionResult;
use crate::utils::dist::{metric_or_default, resolve_metric};
use crate::utils::matrix::MatView;
use vstd::prelude::*;

verus! {

/// Build an exhaustive bf16 index. A text that names no metric stands for squared Euclidean
/// distance.
pub fn build_exhaustive_bf16_index<T, I>(
    mat: &MatView<'_, T>,
    dist_metric: &str,
) -> (r: Result<I, AnnSearchErrors>) where
    T: Copy + Send + Sync,
    I: IndexBuild<T, Settings = ()>,

    requires
        mat.wf(),
    ensures
        call_ensures(
            I::build,
            (mat, metric_or_default(dist_metric@), ()),
            r,
        ),
{
    I::build(mat, resolve_metric(dist_metric), ())
}

/// Query an exhaustive bf16 index with every row of a matrix.
pub fn query_exhaustive_bf16_index<T, I>(
    query_mat: &MatView<'_, T>,
    index: &I,
    k: usize,
    return_dist: bool,
) -> (r: KnnOptionResult<T>) where T: Copy + Send + Sync, I: RowSearch<T, Params = ()>
    requires
        query_mat.wf(),
    ensures
        rows_answered(index, query_mat, k, (), return_dist, r),
{
    query_rows(query_mat, index, k, (), return_dist)
}

/// Query an exhaustive bf16 index with its own vectors.
pub fn query_exhaustive_bf16_self<T, I>(
    index: &I,
    k: usize,
    return_dist: bool,
    verbose: bool,
) -> (r: KnnOptionResult<T>) where I: TotalSelfSearch<T, SelfParams = ()>
    ensures
        r matches Ok(found) && call_ensures(
            I::generate_knn,
            (index, k, (), return_dist, verbose),
            found,
        ),
{
    Ok(index.generate_knn(k, (), return_dist, verbose))
}

/// Build an exhaustive SQ8 index. A text that names no metric stands for squared Euclidean
/// distance.
pub fn build_exhaustive_sq8_index<T, I>(
    mat: &MatView<'_, T>,
    dist_metric: &str,
) -> (r: Result<I, AnnSearchErrors>) where
    T: Copy + Send + Sync,
    I: IndexBuild<T, Settings = ()>,

    requires
        mat.wf(),
    ensures
        call_ensures(
            I::build,
            (mat, metric_or_default(dist_metric@), ()),
            r,
        ),
{
    I::build(mat, resolve_metric(dist_metric), ())
}

/// Query an exhaustive SQ8 index with every row of a matrix.
pub fn query_exhaustive_sq8_index<T, I>(
    query_mat: &MatView<'_, T>,
    index: &I,
    k: usize,
    return_dist: bool,
) -> (r: KnnOptionResult<T>) where T: Copy + Send + Sync, I: RowSearch<T, Params = ()>
    requires
        query_mat.wf(),
    ensures
        rows_answered(index, query_mat, k, (), return_dist, r),
{
    query_rows(query_mat, index, k, (), return_dist)
}

/// Query an exhaustive SQ8 index with its own vectors.
pub fn query_exhaustive_sq8_self<T, I>(
    index: &I,
    k: usize,
    return_dist: bool,
    verbose: bool,
) -> (r: KnnOptionResult<T>) where I: TotalSelfSearch<T, SelfParams = ()>
    ensures
        r matches Ok(found) && call_ensures(
            I::generate_knn,
            (index, k, (), return_dist, verbose),
            found,
        ),
{
    Ok(index.generate_knn(k, (), return_dist, verbose))
}

/// What a product quantised index is built with.
pub struct ProductSettings {
    /// The number of parts of a vector.
    pub m: usize,
    /// The largest number of training rounds.
    pub max_iters: Option<usize>,
    /// The number of centroids of a part.
    pub n_pq_centroids: Option<usize>,
    /// The seed of random choices.
    pub seed: usize,
    /// Report progress.
    pub verbose: bool,
}

/// Build an exhaustive PQ index. A text that names no metric stands for squared Euclidean distance.
pub fn build_exhaustive_pq_index<T, I>(
    mat: &MatView<'_, T>,
    m: usize,
    max_iters: Option<usize>,
    n_pq_centroids: Option<usize>,
    dist_metric: &str,
    seed: usize,
    verbose: bool,
) -> (r: Result<I, AnnSearchErrors>) where
    T: Copy + Send + Sync,
    I: IndexBuild<T, Settings = ProductSettings>,

    requires
        mat.wf(),
    ensures
        call_ensures(
            I::build,
            (
                mat,
                metric_or_default(dist_metric@),
                (ProductSettings { m, max_iters, n_pq_centroids, seed, verbose }),
            ),
            r,
        ),
{
    I::build(
        mat,
        resolve_metric(dist_metric),
        ProductSettings { m, max_iters, n_pq_centroids, seed, verbose },
    )
}

/// Query an exhaustive PQ index with every row of a matrix.
pub fn query_exhaustive_pq_index<T, I>(
    query_mat: &MatView<'_, T>,
    index: &I,
    k: usize,
    return_dist: bool,
) -> (r: KnnOptionResult<T>) where T: Copy + Send + Sync, I: RowSearch<T, Params = ()>
    requires
        query_mat.wf(),
    ensures
        rows_answered(index, query_mat, k, (), return_dist, r),
{
    query_rows(query_mat, index, k, (), return_dist)
}

/// Query an exhaustive PQ index with its own vectors.
pub fn query_exhaustive_pq_index_self<T, I>(
    index: &I,
    k: usize,
    return_dist: bool,
    verbose: bool,
) -> (r: KnnOptionResult<T>) where I: SelfSearch<T, SelfParams = ()>
    ensures
        call_ensures(I::generate_knn, (index, k, (), return_dist, verbose), r),
{
    index.generate_knn(k, (), return_dist, verbose)
}

/// Build an exhaustive OPQ index. A text that names no metric stands for squared Euclidean
/// distance.
pub fn build_exhaustive_opq_index<T, I>(
    mat: &MatView<'_, T>,
    m: usize,
    max_iters: Option<usize>,
    n_pq_centroids: Option<usize>,
    dist_metric: &str,
    seed: usize,
    verbose: bool,
) -> (r: Result<I, AnnSearchErrors>) where
    T: Copy + Send + Sync,
    I: IndexBuild<T, Settings = ProductSettings>,

    requires
        mat.wf(),
    ensures
        call_ensures(
            I::build,
            (
                mat,
                metric_or_default(dist_metric@),
                (ProductSettings { m, max_iters, n_pq_centroids, seed, verbose }),
            ),
            r,
        ),
{
    I::build(
        mat,
        resolve_metric(dist_metric),
        ProductSettings { m, max_iters, n_pq_centroids, seed, verbose },
    )
}

/// Query an exhaustive OPQ index with every row of a matrix.
pub fn query_exhaustive_opq_index<T, I>(
    query_mat: &MatView<'_, T>,
    index: &I,
    k: usize,
    return_dist: bool,
) -> (r: KnnOptionResult<T>) where T: Copy + Send + Sync, I: RowSearch<T, Params = ()>
    requires
        query_mat.wf(),
    ensures
        rows_answered(index, query_mat, k, (), return_dist, r),
{
    query_rows(query_mat, index, k, (), return_dist)
}

/// Query an exhaustive OPQ index with its own vectors.
pub fn query_exhaustive_opq_index_self<T, I>(
    index: &I,
    k: usize,
    return_dist: bool,
    verbose: bool,
) -> (r: KnnOptionResult<T>) where I: SelfSearch<T, SelfParams = ()>
    ensures
        call_ensures(I::generate_knn, (index, k, (), return_dist, verbose), r),
{
    index.generate_knn(k, (), return_dist, verbose)
}

/// Build an IVF bf16 index. A text that names no metric stands for squared Euclidean distance.
pub fn build_ivf_bf16_index<T, I, K>(
    mat: &MatView<'_, T>,
    nlist: Option<usize>,
    k_means_params: Option<K>,
    dist_metric: &str,
    seed: usize,
    verbose: bool,
) -> (r: Result<I, AnnSearchErrors>) where
    T: Copy + Send + Sync,
    I: IndexBuild<T, Settings = ClusterSettings<K>>,

    requires
        mat.wf(),
    ensures
        call_ensures(
            I::build,
            (
                mat,
                metric_or_default(dist_metric@),
                (ClusterSettings { nlist, k_means_params, seed, verbose }),
            ),
            r,
        ),
{
    I::build(
        mat,
        resolve_metric(dist_metric),
        ClusterSettings { nlist, k_means_params, seed, verbose },
    )
}

/// Query an IVF bf16 index with every row of a matrix.
pub fn query_ivf_bf16_index<T, I>(
    query_mat: &MatView<'_, T>,
    index: &I,
    k: usize,
    nprobe: Option<usize>,
    return_dist: bool,
) -> (r: KnnOptionResult<T>) where T: Copy + Send + Sync, I: RowSearch<T, Params = Option<usize>>
    requires
        query_mat.wf(),
    ensures
        rows_answered(index, query_mat, k, nprobe, return_dist, r),
{
    query_rows(query_mat, index, k, nprobe, return_dist)
}

/// Query an IVF bf16 index with its own vectors.
pub fn query_ivf_bf16_self<T, I>(
    index: &I,
    k: usize,
    nprobe: Option<usize>,
    return_dist: bool,
    verbose: bool,
) -> (r: KnnOptionResult<T>) where I: TotalSelfSearch<T, SelfParams = Option<usize>>
    ensures
        r matches Ok(found) && call_ensures(
            I::generate_knn,
            (index, k, nprobe, return_dist, verbose),
            found,
        ),
{
    Ok(index.generate_knn(k, nprobe, return_dist, verbose))
}

/// Build an IVF SQ8 index. A text that names no metric stands for squared Euclidean distance.
pub fn build_ivf_sq8_index<T, I, K>(
    mat: &MatView<'_, T>,
    nlist: Option<usize>,
    k_means_params: Option<K>,
    dist_metric: &str,
    seed: usize,
    verbose: bool,
) -> (r: Result<I, AnnSearchErrors>) where
    T: Copy + Send + Sync,
    I: IndexBuild<T, Settings = ClusterSettings<K>>,

    requires
        mat.wf(),
    ensures
        call_ensures(
            I::build,
            (
                mat,
                metric_or_default(dist_metric@),
                (ClusterSettings { nlist, k_means_params, seed, verbose }),
            ),
            r,
        ),
{
    I::build(
        mat,
        resolve_metric(dist_metric),
        ClusterSettings { nlist, k_means_params, seed, verbose },
    )
}

/// Query an IVF SQ8 index with every row of a matrix.
pub fn query_ivf_sq8_index<T, I>(
    query_mat: &MatView<'_, T>,
    index: &I,
    k: usize,
    nprobe: Option<usize>,
    return_dist: bool,
) -> (r: KnnOptionResult<T>) where T: Copy + Send + Sync, I: RowSearch<T, Params = Option<usize>>
    requires
        query_mat.wf(),
    ensures
        rows_answered(index, query_mat, k, nprobe, return_dist, r),
{
    query_rows(query_mat, index, k, nprobe, return_dist)
}

/// Query an IVF SQ8 index with its own vectors.
pub fn query_ivf_sq8_self<T, I>(
    index: &I,
    k: usize,
    nprobe: Option<usize>,
    return_dist: bool,
    verbose: bool,
) -> (r: KnnOptionResult<T>) where I: TotalSelfSearch<T, SelfParams = Option<usize>>
    ensures
        r matches Ok(found) && call_ensures(
            I::generate_knn,
            (index, k, nprobe, return_dist, verbose),
            found,
        ),
{
    Ok(index.generate_knn(k, nprobe, return_dist, verbose))
}

/// What a product quantised index over clusters is built with.
pub struct ClusterProductSettings<K> {
    /// The number of clusters; the square root of the number of vectors where it is not given.
    pub nlist: Option<usize>,
    /// The number of parts of a vector.
    pub m: usize,
    /// How the clusters are trained.
    pub k_means_params: Option<K>,
    /// The number of centroids of a part.
    pub n_pq_centroids: Option<usize>,
    /// The seed of random choices.
    pub seed: usize,
    /// Report progress.
    pub verbose: bool,
}

/// Build an IVF PQ index. A text that names no metric stands for squared Euclidean distance.
pub fn build_ivf_pq_index<T, I, K>(
    mat: &MatView<'_, T>,
    nlist: Option<usize>,
    m: usize,
    k_means_params: Option<K>,
    n_pq_centroids: Option<usize>,
    dist_metric: &str,
    seed: usize,
    verbose: bool,
) -> (r: Result<I, AnnSearchErrors>) where
    T: Copy + Send + Sync,
    I: IndexBuild<T, Settings = ClusterProductSettings<K>>,

    requires
        mat.wf(),
    ensures
        call_ensures(
            I::build,
            (
                mat,
                metric_or_default(dist_metric@),
                (ClusterProductSettings {
                    nlist,
                    m,
                    k_means_params,
                    n_pq_centroids,
                    seed,
                    verbose,
                }),
            ),
            r,
        ),
{
    I::build(
        mat,
        resolve_metric(dist_metric),
        ClusterProductSettings { nlist, m, k_means_params, n_pq_centroids, seed, verbose },
    )
}

/// Query an IVF PQ index with every row of a matrix.
pub fn query_ivf_pq_index<T, I>(
    query_mat: &MatView<'_, T>,
    index: &I,
    k: usize,
    nprobe: Option<usize>,
    return_dist: bool,
) -> (r: KnnOptionResult<T>) where T: Copy + Send + Sync, I: RowSearch<T, Params = Option<usize>>
    requires
        query_mat.wf(),
    ensures
        rows_answered(index, query_mat, k, nprobe, return_dist, r),
{
    query_rows(query_mat, index, k, nprobe, return_dist)
}

/// Query an IVF PQ index with its own vectors.
pub fn query_ivf_pq_index_self<T, I>(
    index: &I,
    k: usize,
    nprobe: Option<usize>,
    return_dist: bool,
    verbose: bool,
) -> (r: KnnOptionResult<T>) where I: SelfSearch<T, SelfParams = Option<usize>>
    ensures
        call_ensures(I::generate_knn, (index, k, nprobe, return_dist, verbose), r),
{
    index.generate_knn(k, nprobe, return_dist, verbose)
}

/// What an index over clusters with optimised product quantisation is built with.
pub struct ClusterRotatedSettings<K> {
    /// The number of clusters; the square root of the number of vectors where it is not given.
    pub nlist: Option<usize>,
    /// The number of parts of a vector.
    pub m: usize,
    /// How the clusters are trained.
    pub k_means_params: Option<K>,
    /// The number of rounds that the rotation is optimised in.
    pub n_opq_iter: Option<usize>,
    /// The number of centroids of a part.
    pub n_opq_centroids: Option<usize>,
    /// The seed of random choices.
    pub seed: usize,
    /// Report progress.
    pub verbose: bool,
}

/// Build an IVF OPQ index. A text that names no metric stands for squared Euclidean distance.
pub fn build_ivf_opq_index<T, I, K>(
    mat: &MatView<'_, T>,
    nlist: Option<usize>,
    m: usize,
    k_means_params: Option<K>,
    n_opq_centroids: Option<usize>,
    n_opq_iter: Option<usize>,
    dist_metric: &str,
    seed: usize,
    verbose: bool,
) -> (r: Result<I, AnnSearchErrors>) where
    T: Copy + Send + Sync,
    I: IndexBuild<T, Settings = ClusterRotatedSettings<K>>,

    requires
        mat.wf(),
    ensures
        call_ensures(
            I::build,
            (mat, metric_or_default(dist_metric@), (ClusterRotatedSettings {
                nlist,
                m,
                k_means_params,
                n_opq_iter,
                n_opq_centroids,
                seed,
                verbose,
            })),
            r,
        ),
{
    I::build(mat, resolve_metric(dist_metric), (ClusterRotatedSettings {
                nlist,
                m,
                k_means_params,
                n_opq_iter,
                n_opq_centroids,
                seed,
                verbose,
            }))
}

/// Query an IVF OPQ index with every row of a matrix.
pub fn query_ivf_opq_index<T, I>(
    query_mat: &MatView<'_, T>,
    index: &I,
    k: usize,
    nprobe: Option<usize>,
    return_dist: bool,
) -> (r: KnnOptionResult<T>) where T: Copy + Send + Sync, I: RowSearch<T, Params = Option<usize>>
    requires
        query_mat.wf(),
    ensures
        rows_answered(index, query_mat, k, nprobe, return_dist, r),
{
    query_rows(query_mat, index, k, nprobe, return_dist)
}

/// Query an IVF OPQ index with its own vectors.
pub fn query_ivf_opq_index_self<T, I>(
    index: &I,
    k: usize,
    nprobe: Option<usize>,
    return_dist: bool,
    verbose: bool,
) -> (r: KnnOptionResult<T>) where I: SelfSearch<T, SelfParams = Option<usize>>
    ensures
        call_ensures(I::generate_knn, (index, k, nprobe, return_dist, verbose), r),
{
    index.generate_knn(k, nprobe, return_dist, verbose)
}

} // verus!
