//! Entry points for indices on a compute device.
use super::backend::{keep_distances, query_rows, rows_answered, IndexBuild, RowSearch, SelfSearch};
use super::cpu::ClusterSettings;
use crate::errors::AnnSearchErrors;
use crate::parallel::KnnOptionResult;
use crate::utils::dist::{metric_or_default, resolve_metric};
use crate::utils::matrix::{flat_row, matrix_to_flat, MatView};
use vstd::prelude::*;

verus! {

/// Neighbours and distances of many samples.
pub type KnnBatchResult<T> = Result<(Vec<Vec<usize>>, Vec<Vec<T>>), AnnSearchErrors>;

/// An index that is queried with a matrix at once.
pub trait BatchSearch<T: Copy> {
    /// What a query is run with, besides the number of neighbours.
    type BatchParams;

    /// Find the nearest vectors to every row of a matrix.
    fn query_batch(
        &self,
        query_mat: &MatView<'_, T>,
        k: usize,
        params: Self::BatchParams,
        verbose: bool,
    ) -> KnnBatchResult<T>
        requires
            query_mat.wf(),
    ;
}

/// `r` is the answer `res` of an index, with distances where these were asked for.
pub open spec fn batch_kept<T>(
    res: KnnBatchResult<T>,
    return_dist: bool,
    r: KnnOptionResult<T>,
) -> bool {
    match res {
        Ok(found) => r == Ok::<(Vec<Vec<usize>>, Option<Vec<Vec<T>>>), AnnSearchErrors>(
            (
                found.0,
                if return_dist {
                    Some(found.1)
                } else {
                    None
                },
            ),
        ),
        Err(e) => r == Err::<(Vec<Vec<usize>>, Option<Vec<Vec<T>>>), AnnSearchErrors>(e),
    }
}

/// Build an exhaustive index on a device. A text that names no metric stands for squared Euclidean
/// distance.
pub fn build_exhaustive_index_gpu<T, I, D>(
    mat: &MatView<'_, T>,
    dist_metric: &str,
    device: D,
) -> (r: Result<I, AnnSearchErrors>) where T: Copy, I: IndexBuild<T, Settings = D>
    requires
        mat.wf(),
    ensures
        call_ensures(I::build, (mat, metric_or_default(dist_metric@), device), r),
{
    I::build(mat, resolve_metric(dist_metric), device)
}

/// Query an exhaustive index on a device with every row of a matrix.
pub fn query_exhaustive_index_gpu<T, I>(
    query_mat: &MatView<'_, T>,
    index: &I,
    k: usize,
    return_dist: bool,
    verbose: bool,
) -> (r: KnnOptionResult<T>) where T: Copy, I: BatchSearch<T, BatchParams = ()>
    requires
        query_mat.wf(),
    ensures
        exists|res: KnnBatchResult<T>| #[trigger]
            call_ensures(I::query_batch, (index, query_mat, k, (), verbose), res) && batch_kept(
                res,
                return_dist,
                r,
            ),
{
    match index.query_batch(query_mat, k, (), verbose) {
        Ok((indices, distances)) => Ok(keep_distances(indices, distances, return_dist)),
        Err(e) => Err(e),
    }
}

/// Query an exhaustive index on a device with its own vectors.
pub fn query_exhaustive_index_gpu_self<T, I>(
    index: &I,
    k: usize,
    return_dist: bool,
    verbose: bool,
) -> (r: KnnOptionResult<T>) where I: SelfSearch<T, SelfParams = ()>
    ensures
        call_ensures(I::generate_knn, (index, k, (), return_dist, verbose), r),
{
    index.generate_knn(k, (), return_dist, verbose)
}

/// What an index over clusters on a device is built with.
pub struct DeviceClusterSettings<K, D> {
    /// The number of clusters and how they are trained.
    pub clusters: ClusterSettings<K>,
    /// The device.
    pub device: D,
}

/// What a query of an index over clusters on a device is run with.
pub struct DeviceClusterParams {
    /// The number of clusters to look into.
    pub nprobe: Option<usize>,
    /// The number of queries to process at once.
    pub nquery: Option<usize>,
}

/// Build an IVF index on a device. A text that names no metric stands for squared Euclidean
/// distance.
pub fn build_ivf_index_gpu<T, I, K, D>(
    mat: &MatView<'_, T>,
    nlist: Option<usize>,
    k_means_params: Option<K>,
    dist_metric: &str,
    seed: usize,
    verbose: bool,
    device: D,
) -> (r: Result<I, AnnSearchErrors>) where
    T: Copy,
    I: IndexBuild<T, Settings = DeviceClusterSettings<K, D>>,

    requires
        mat.wf(),
    ensures
        call_ensures(
            I::build,
            (
                mat,
                metric_or_default(dist_metric@),
                (DeviceClusterSettings {
                    clusters: ClusterSettings { nlist, k_means_params, seed, verbose },
                    device,
                }),
            ),
            r,
        ),
{
    let clusters = ClusterSettings { nlist, k_means_params, seed, verbose };
    I::build(mat, resolve_metric(dist_metric), DeviceClusterSettings { clusters, device })
}

/// Query an IVF index on a device with every row of a matrix.
pub fn query_ivf_index_gpu<T, I>(
    query_mat: &MatView<'_, T>,
    index: &I,
    k: usize,
    nprobe: Option<usize>,
    nquery: Option<usize>,
    return_dist: bool,
    verbose: bool,
) -> (r: KnnOptionResult<T>) where T: Copy, I: BatchSearch<T, BatchParams = DeviceClusterParams>
    requires
        query_mat.wf(),
    ensures
        exists|res: KnnBatchResult<T>| #[trigger]
            call_ensures(
                I::query_batch,
                (index, query_mat, k, (DeviceClusterParams { nprobe, nquery }), verbose),
                res,
            ) && batch_kept(res, return_dist, r),
{
    match index.query_batch(query_mat, k, DeviceClusterParams { nprobe, nquery }, verbose) {
        Ok((indices, distances)) => Ok(keep_distances(indices, distances, return_dist)),
        Err(e) => Err(e),
    }
}

/// Query an IVF index on a device with its own vectors.
pub fn query_ivf_index_gpu_self<T, I>(
    index: &I,
    k: usize,
    nprobe: Option<usize>,
    nquery: Option<usize>,
    return_dist: bool,
    verbose: bool,
) -> (r: KnnOptionResult<T>) where I: SelfSearch<T, SelfParams = DeviceClusterParams>
    ensures
        call_ensures(
            I::generate_knn,
            (index, k, (DeviceClusterParams { nprobe, nquery }), return_dist, verbose),
            r,
        ),
{
    index.generate_knn(k, DeviceClusterParams { nprobe, nquery }, return_dist, verbose)
}

/// From this many queries on, a batch is searched on the device.
pub const GPU_BATCH_THRESHOLD: usize = 32;

/// The seed of searches on the device.
pub const GPU_SEARCH_SEED: usize = 42;

/// What an NNDescent index on a device is built with.
pub struct DeviceDescentSettings<A, D> {
    /// The number of neighbours in the graph.
    pub k: Option<usize>,
    /// The number of neighbours before pruning.
    pub build_k: Option<usize>,
    /// The largest number of rounds.
    pub max_iters: Option<usize>,
    /// The number of trees that the first neighbours are taken from.
    pub n_trees: Option<usize>,
    /// The share of changes below which the rounds end.
    pub delta: Option<A>,
    /// The share of neighbours that a round looks at.
    pub rho: Option<A>,
    /// The number of rounds in which the neighbours are refined.
    pub refine_knn: Option<usize>,
    /// The seed of random choices.
    pub seed: usize,
    /// Report progress.
    pub verbose: bool,
    /// Keep the vectors on the device.
    pub retain_gpu: bool,
    /// The device.
    pub device: D,
}

/// An NNDescent index on a device. Single rows are searched on the CPU, batches on the device.
pub trait DeviceDescent<T: Copy>: RowSearch<T, Params = Option<usize>> {
    /// What a search on the device is run with.
    type SearchParams;

    /// Find the nearest vectors to a batch of vectors on the device.
    fn query_batch_gpu(
        &self,
        queries_flat: &[T],
        n_queries: usize,
        query_params: Option<Self::SearchParams>,
        k: usize,
        seed: usize,
    ) -> KnnBatchResult<T>;

    /// Find the nearest vectors to every vector of the index on the device.
    fn self_query_gpu(
        &self,
        k: usize,
        query_params: Option<Self::SearchParams>,
        seed: usize,
    ) -> KnnBatchResult<T>;

    /// The neighbours that the graph holds.
    fn extract_knn(&self, return_dist: bool) -> (Vec<Vec<usize>>, Option<Vec<Vec<T>>>);
}

/// Build an NNDescent index on a device. A text that names no metric stands for squared Euclidean
/// distance.
pub fn build_nndescent_index_gpu<T, I, A, D>(
    mat: &MatView<'_, T>,
    dist_metric: &str,
    k: Option<usize>,
    build_k: Option<usize>,
    max_iters: Option<usize>,
    n_trees: Option<usize>,
    delta: Option<A>,
    rho: Option<A>,
    refine_knn: Option<usize>,
    seed: usize,
    verbose: bool,
    retain_gpu: bool,
    device: D,
) -> (r: Result<I, AnnSearchErrors>) where
    T: Copy,
    I: IndexBuild<T, Settings = DeviceDescentSettings<A, D>>,

    requires
        mat.wf(),
    ensures
        call_ensures(
            I::build,
            (
                mat,
                metric_or_default(dist_metric@),
                (DeviceDescentSettings {
                    k,
                    build_k,
                    max_iters,
                    n_trees,
                    delta,
                    rho,
                    refine_knn,
                    seed,
                    verbose,
                    retain_gpu,
                    device,
                }),
            ),
            r,
        ),
{
    I::build(
        mat,
        resolve_metric(dist_metric),
        DeviceDescentSettings {
            k,
            build_k,
            max_iters,
            n_trees,
            delta,
            rho,
            refine_knn,
            seed,
            verbose,
            retain_gpu,
            device,
        },
    )
}

/// The numbers of a matrix, one row behind the other.
pub open spec fn rows_in_line<T: Copy>(mat: &MatView<'_, T>, flat: Seq<T>) -> bool {
    &&& flat.len() == mat.nrows * mat.ncols
    &&& forall|i: int|
        0 <= i < mat.nrows ==> #[trigger] flat_row(flat, mat.ncols as int, i) == mat.row_values(i)
}

/// The rows of the matrix are to be searched on the device: there are many, and no search width is
/// asked for.
pub open spec fn on_device(n_queries: usize, ef_search: Option<usize>) -> bool {
    n_queries >= 32 && ef_search.is_none()
}

/// Query an NNDescent index on a device with every row of a matrix. Many rows without a search
/// width are searched at once on the device; otherwise every row is searched on the CPU.
pub fn query_nndescent_index_gpu<T, I>(
    query_mat: &MatView<'_, T>,
    index: &I,
    k: usize,
    ef_search: Option<usize>,
    query_params: Option<I::SearchParams>,
    return_dist: bool,
) -> (r: KnnOptionResult<T>) where T: Copy + Send + Sync, I: DeviceDescent<T>
    requires
        query_mat.wf(),
        query_mat.nrows * query_mat.ncols <= usize::MAX,
    ensures
        on_device(query_mat.nrows, ef_search) ==> exists|flat: &[T], res: KnnBatchResult<T>|
            rows_in_line(query_mat, flat@) && #[trigger] call_ensures(
                I::query_batch_gpu,
                (index, flat, query_mat.nrows, query_params, k, 42usize),
                res,
            ) && batch_kept(res, return_dist, r),
        !on_device(query_mat.nrows, ef_search) ==> rows_answered(
            index,
            query_mat,
            k,
            ef_search,
            return_dist,
            r,
        ),
{
    let n_queries: usize = query_mat.nrows;
    if n_queries >= GPU_BATCH_THRESHOLD && ef_search.is_none() {
        let (queries_flat, rows, _) = matrix_to_flat(query_mat);
        let flat = queries_flat.as_slice();
        let res = index.query_batch_gpu(flat, rows, query_params, k, GPU_SEARCH_SEED);
        proof {
            assert(rows_in_line(query_mat, flat@));
            assert(call_ensures(
                I::query_batch_gpu,
                (index, flat, query_mat.nrows, query_params, k, 42usize),
                res,
            ));
        }
        match res {
            Ok((indices, distances)) => Ok(keep_distances(indices, distances, return_dist)),
            Err(e) => Err(e),
        }
    } else {
        query_rows(query_mat, index, k, ef_search, return_dist)
    }
}

/// The neighbours that the graph of an NNDescent index holds. Nothing is searched.
pub fn extract_nndescent_knn_gpu<T, I>(index: &I, return_dist: bool) -> (r: (
    Vec<Vec<usize>>,
    Option<Vec<Vec<T>>>,
)) where T: Copy, I: DeviceDescent<T>
    ensures
        call_ensures(I::extract_knn, (index, return_dist), r),
{
    index.extract_knn(return_dist)
}

/// Query an NNDescent index on a device with its own vectors.
pub fn query_nndescent_index_gpu_self<T, I>(
    index: &I,
    k: usize,
    query_params: Option<I::SearchParams>,
    return_dist: bool,
) -> (r: KnnOptionResult<T>) where T: Copy, I: DeviceDescent<T>
    ensures
        exists|res: KnnBatchResult<T>| #[trigger]
            call_ensures(I::self_query_gpu, (index, k, query_params, 42usize), res) && batch_kept(
                res,
                return_dist,
                r,
            ),
{
    let res = index.self_query_gpu(k, query_params, GPU_SEARCH_SEED);
    proof {
        assert(call_ensures(I::self_query_gpu, (index, k, query_params, 42usize), res));
    }
    match res {
        Ok((indices, distances)) => Ok(keep_distances(indices, distances, return_dist)),
        Err(e) => Err(e),
    }
}

} // verus!
