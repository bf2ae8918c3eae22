//! Entry points for indices that keep vectors as they are.
use super::backend::{query_rows, rows_answered, IndexBuild, IndexNew, RowSearch, SelfSearch};
use crate::cpu::diversity::ids;
use crate::cpu::hnsw::{distances_of, HnswIndex};
use crate::cpu::levels::levels_of;
use crate::errors::AnnSearchErrors;
use crate::parallel::{
    error_of, firsts, flagged, many_flagged, query_parallel, query_parallel_with_flags, results_of,
    seconds, untangled, KnnOptionResult, KnnResult,
};
use crate::utils::dist::{metric_or_default, resolve_metric, Dist};
use crate::utils::float::AnnSearchFloat;
use crate::utils::matrix::{MatView, RowView};
use crate::utils::random::small_rng_words;
use vstd::prelude::*;

verus! {

/// Build an exhaustive index. A text that names no metric stands for squared Euclidean distance.
pub fn build_exhaustive_index<T, I>(
    mat: &MatView<'_, T>,
    dist_metric: &str,
) -> (r: I) where
    T: Copy + Send + Sync,
    I: IndexNew<T, Settings = ()>,

    requires
        mat.wf(),
    ensures
        call_ensures(
            I::new,
            (mat, metric_or_default(dist_metric@), ()),
            r,
        ),
{
    I::new(mat, resolve_metric(dist_metric), ())
}

/// Query an exhaustive index with every row of a matrix.
pub fn query_exhaustive_index<T, I>(
    query_mat: &MatView<'_, T>,
    index: &I,
    k: usize,
    return_dist: bool,
) -> (r: KnnOptionResult<T>) where T: Copy + Send + Sync, I: RowSearch<T, Params = ()>
    requires
        query_mat.wf(),
    ensures
        rows_answered(index, query_mat, k, (), return_dist, r),
{
    query_rows(query_mat, index, k, (), return_dist)
}

/// Query an exhaustive index with its own vectors.
pub fn query_exhaustive_self<T, I>(
    index: &I,
    k: usize,
    return_dist: bool,
    verbose: bool,
) -> (r: KnnOptionResult<T>) where I: SelfSearch<T, SelfParams = ()>
    ensures
        call_ensures(I::generate_knn, (index, k, (), return_dist, verbose), r),
{
    index.generate_knn(k, (), return_dist, verbose)
}

/// What an index over clusters is built with.
pub struct ClusterSettings<K> {
    /// The number of clusters; the square root of the number of vectors where it is not given.
    pub nlist: Option<usize>,
    /// How the clusters are trained.
    pub k_means_params: Option<K>,
    /// The seed of random choices.
    pub seed: usize,
    /// Report progress.
    pub verbose: bool,
}

/// Build a kMkNN index. A text that names no metric stands for squared Euclidean distance.
pub fn build_kmknn_index<T, I, K>(
    mat: &MatView<'_, T>,
    dist_metric: &str,
    nlist: Option<usize>,
    k_means_params: Option<K>,
    seed: usize,
    verbose: bool,
) -> (r: Result<I, AnnSearchErrors>) where
    T: Copy + Send + Sync,
    I: IndexBuild<T, Settings = ClusterSettings<K>>,

    requires
        mat.wf(),
    ensures
        call_ensures(
            I::build,
            (
                mat,
                metric_or_default(dist_metric@),
                (ClusterSettings { nlist, k_means_params, seed, verbose }),
            ),
            r,
        ),
{
    I::build(
        mat,
        resolve_metric(dist_metric),
        ClusterSettings { nlist, k_means_params, seed, verbose },
    )
}

/// Query a kMkNN index with every row of a matrix.
pub fn query_kmknn_index<T, I>(
    query_mat: &MatView<'_, T>,
    index: &I,
    k: usize,
    return_dist: bool,
) -> (r: KnnOptionResult<T>) where T: Copy + Send + Sync, I: RowSearch<T, Params = ()>
    requires
        query_mat.wf(),
    ensures
        rows_answered(index, query_mat, k, (), return_dist, r),
{
    query_rows(query_mat, index, k, (), return_dist)
}

/// Query a kMkNN index with its own vectors.
pub fn query_kmknn_self<T, I>(
    index: &I,
    k: usize,
    return_dist: bool,
    verbose: bool,
) -> (r: KnnOptionResult<T>) where I: SelfSearch<T, SelfParams = ()>
    ensures
        call_ensures(I::generate_knn, (index, k, (), return_dist, verbose), r),
{
    index.generate_knn(k, (), return_dist, verbose)
}

/// What a forest of trees is built with.
pub struct ForestSettings {
    /// The number of trees.
    pub n_trees: usize,
    /// The seed of random choices.
    pub seed: usize,
}

/// Build an Annoy index. A text that names no metric stands for squared Euclidean distance.
pub fn build_annoy_index<T, I>(
    mat: &MatView<'_, T>,
    dist_metric: &str,
    n_trees: usize,
    seed: usize,
) -> (r: Result<I, AnnSearchErrors>) where
    T: Copy + Send + Sync,
    I: IndexBuild<T, Settings = ForestSettings>,

    requires
        mat.wf(),
    ensures
        call_ensures(
            I::build,
            (mat, metric_or_default(dist_metric@), (ForestSettings { n_trees, seed })),
            r,
        ),
{
    I::build(mat, resolve_metric(dist_metric), (ForestSettings { n_trees, seed }))
}

/// Query an Annoy index with every row of a matrix.
pub fn query_annoy_index<T, I>(
    query_mat: &MatView<'_, T>,
    index: &I,
    k: usize,
    search_budget: Option<usize>,
    return_dist: bool,
) -> (r: KnnOptionResult<T>) where T: Copy + Send + Sync, I: RowSearch<T, Params = Option<usize>>
    requires
        query_mat.wf(),
    ensures
        rows_answered(index, query_mat, k, search_budget, return_dist, r),
{
    query_rows(query_mat, index, k, search_budget, return_dist)
}

/// Query an Annoy index with its own vectors.
pub fn query_annoy_self<T, I>(
    index: &I,
    k: usize,
    search_budget: Option<usize>,
    return_dist: bool,
    verbose: bool,
) -> (r: KnnOptionResult<T>) where I: SelfSearch<T, SelfParams = Option<usize>>
    ensures
        call_ensures(I::generate_knn, (index, k, search_budget, return_dist, verbose), r),
{
    index.generate_knn(k, search_budget, return_dist, verbose)
}

/// Build a ball tree index. A text that names no metric stands for squared Euclidean distance.
pub fn build_balltree_index<T, I>(
    mat: &MatView<'_, T>,
    dist_metric: &str,
    seed: usize,
) -> (r: Result<I, AnnSearchErrors>) where
    T: Copy + Send + Sync,
    I: IndexBuild<T, Settings = usize>,

    requires
        mat.wf(),
    ensures
        call_ensures(
            I::build,
            (mat, metric_or_default(dist_metric@), seed),
            r,
        ),
{
    I::build(mat, resolve_metric(dist_metric), seed)
}

/// Query a ball tree index with every row of a matrix.
pub fn query_balltree_index<T, I>(
    query_mat: &MatView<'_, T>,
    index: &I,
    k: usize,
    search_budget: Option<usize>,
    return_dist: bool,
) -> (r: KnnOptionResult<T>) where T: Copy + Send + Sync, I: RowSearch<T, Params = Option<usize>>
    requires
        query_mat.wf(),
    ensures
        rows_answered(index, query_mat, k, search_budget, return_dist, r),
{
    query_rows(query_mat, index, k, search_budget, return_dist)
}

/// Query a ball tree index with its own vectors.
pub fn query_balltree_self<T, I>(
    index: &I,
    k: usize,
    search_budget: Option<usize>,
    return_dist: bool,
    verbose: bool,
) -> (r: KnnOptionResult<T>) where I: SelfSearch<T, SelfParams = Option<usize>>
    ensures
        call_ensures(I::generate_knn, (index, k, search_budget, return_dist, verbose), r),
{
    index.generate_knn(k, search_budget, return_dist, verbose)
}

/// Build an HNSW index. A text that names no metric stands for squared Euclidean distance.
pub fn build_hnsw_index<T: AnnSearchFloat>(
    mat: &MatView<'_, T>,
    m: usize,
    ef_construction: usize,
    dist_metric: &str,
    seed: usize,
) -> (r: HnswIndex<T>)
    requires
        mat.wf(),
        mat.nrows * mat.ncols <= usize::MAX,
        mat.nrows <= u32::MAX,
        m * 17 <= usize::MAX,
        m != 1 || mat.nrows == 0,
    ensures
        r.wf(),
        r.built_from(
            mat,
            m,
            ef_construction,
            metric_or_default(dist_metric@),
            levels_of::<T>(small_rng_words(usize::BITS, seed as u64, mat.nrows as nat), m),
            false,
        ),
{
    let metric = resolve_metric(dist_metric);
    HnswIndex::build(mat, m, ef_construction, &metric, seed)
}

/// Build an HNSW index over vectors that are quantised to one byte per dimension.
pub fn build_hnsw_sq8_index<T: AnnSearchFloat>(
    mat: &MatView<'_, T>,
    m: usize,
    ef_construction: usize,
    seed: usize,
) -> (r: HnswIndex<T>)
    requires
        mat.wf(),
        mat.nrows * mat.ncols <= usize::MAX,
        mat.nrows <= u32::MAX,
        m * 17 <= usize::MAX,
        m != 1 || mat.nrows == 0,
        mat.ncols > 0,
    ensures
        r.wf(),
        r.built_from(
            mat,
            m,
            ef_construction,
            Dist::SquaredEuclidean,
            levels_of::<T>(small_rng_words(usize::BITS, seed as u64, mat.nrows as nat), m),
            true,
        ),
{
    HnswIndex::build_sq8(mat, m, ef_construction, seed)
}

/// Query an HNSW index with every row of a matrix. Rows with other dimensions than the index are
/// refused.
pub fn query_hnsw_index<T: AnnSearchFloat>(
    query_mat: &MatView<'_, T>,
    index: &HnswIndex<T>,
    k: usize,
    ef_search: usize,
    return_dist: bool,
) -> (r: KnnOptionResult<T>)
    requires
        query_mat.wf(),
        index.wf(),
        query_mat.nrows > 0 && query_mat.ncols == index.dim ==> index.n > 0,
    ensures
        r matches Err(e) ==> query_mat.nrows > 0 && query_mat.ncols != index.dim && e
            == (AnnSearchErrors::DimensionMismatch {
            expected: index.dim,
            actual: query_mat.ncols,
        }),
        r matches Ok(found) ==> (query_mat.nrows == 0 || query_mat.ncols == index.dim)
            && found.0@.len() == query_mat.nrows && (found.1.is_some() == return_dist) && (
        found.1 matches Some(d) ==> d@.len() == query_mat.nrows) && forall|i: int|
            0 <= i < query_mat.nrows ==> {
                let dist = index.query_distance(query_mat.row_values(i));
                let s = index.found_by(dist, k, ef_search);
                (#[trigger] found.0@[i])@ == ids(s) && (found.1 matches Some(d) ==> d@[i]@
                    == distances_of(s, dist))
            },
{
    let row_fn = |i: usize| -> (res: KnnResult<T>)
        requires
            query_mat.wf(),
            index.wf(),
            query_mat.ncols == index.dim ==> index.n > 0,
            i < query_mat.nrows,
        ensures
            res matches Err(e) ==> query_mat.ncols != index.dim && e
                == (AnnSearchErrors::DimensionMismatch {
                expected: index.dim,
                actual: query_mat.ncols,
            }),
            res matches Ok(pair) ==> query_mat.ncols == index.dim && ({
                let dist = index.query_distance(query_mat.row_values(i as int));
                let s = index.found_by(dist, k, ef_search);
                pair.0@ == ids(s) && pair.1@ == distances_of(s, dist)
            }),
        { index.query_row(&query_mat.row(i), k, ef_search) };
    let r = query_parallel(query_mat.nrows, return_dist, row_fn);
    let ghost out = r;
    proof {
        match out {
            Err(e) => {
                assert(error_of(row_fn, query_mat.nrows, e));
            },
            Ok(found) => {
                let results = choose|results: Seq<(Vec<usize>, Vec<T>)>|
                    results.len() == query_mat.nrows && #[trigger] results_of(row_fn, results)
                        && found.0@ == firsts(results) && (found.1.is_some() == return_dist) && (
                    found.1 matches Some(d) ==> d@ == seconds(results));
                assert forall|i: int| 0 <= i < query_mat.nrows implies {
                    let dist = index.query_distance(query_mat.row_values(i));
                    let s = index.found_by(dist, k, ef_search);
                    query_mat.ncols == index.dim && (#[trigger] found.0@[i])@ == ids(s) && (
                    found.1 matches Some(d) ==> d@[i]@ == distances_of(s, dist))
                } by {
                    let at = i as usize;
                    assert(call_ensures(
                        row_fn,
                        (at,),
                        Ok::<(Vec<usize>, Vec<T>), AnnSearchErrors>(results[at as int]),
                    ));
                }
                if query_mat.nrows > 0 {
                    assert(found.0@[0]@ == found.0@[0]@);
                }
            },
        }
    }
    r
}

/// Query an HNSW index with its own vectors.
pub fn query_hnsw_self<T: AnnSearchFloat>(
    index: &HnswIndex<T>,
    k: usize,
    ef_search: usize,
    return_dist: bool,
) -> (r: KnnOptionResult<T>)
    requires
        index.wf(),
    ensures
        r matches Ok(found) && found.0@.len() == index.n && (found.1.is_some() == return_dist) && (
        found.1 matches Some(d) ==> d@.len() == index.n) && forall|i: int|
            0 <= i < index.n ==> {
                let dist = index.self_distance(i);
                let s = index.found_by(dist, k, ef_search);
                (#[trigger] found.0@[i])@ == ids(s) && (found.1 matches Some(d) ==> d@[i]@
                    == distances_of(s, dist))
            },
{
    index.generate_knn(k, ef_search, return_dist)
}

/// Build an IVF index. A text that names no metric stands for squared Euclidean distance.
pub fn build_ivf_index<T, I, K>(
    mat: &MatView<'_, T>,
    nlist: Option<usize>,
    k_means_params: Option<K>,
    dist_metric: &str,
    seed: usize,
    verbose: bool,
) -> (r: Result<I, AnnSearchErrors>) where
    T: Copy + Send + Sync,
    I: IndexBuild<T, Settings = ClusterSettings<K>>,

    requires
        mat.wf(),
    ensures
        call_ensures(
            I::build,
            (
                mat,
                metric_or_default(dist_metric@),
                (ClusterSettings { nlist, k_means_params, seed, verbose }),
            ),
            r,
        ),
{
    I::build(
        mat,
        resolve_metric(dist_metric),
        ClusterSettings { nlist, k_means_params, seed, verbose },
    )
}

/// Query an IVF index with every row of a matrix.
pub fn query_ivf_index<T, I>(
    query_mat: &MatView<'_, T>,
    index: &I,
    k: usize,
    nprobe: Option<usize>,
    return_dist: bool,
) -> (r: KnnOptionResult<T>) where T: Copy + Send + Sync, I: RowSearch<T, Params = Option<usize>>
    requires
        query_mat.wf(),
    ensures
        rows_answered(index, query_mat, k, nprobe, return_dist, r),
{
    query_rows(query_mat, index, k, nprobe, return_dist)
}

/// Query an IVF index with its own vectors.
pub fn query_ivf_self<T, I>(
    index: &I,
    k: usize,
    nprobe: Option<usize>,
    return_dist: bool,
    verbose: bool,
) -> (r: KnnOptionResult<T>) where I: SelfSearch<T, SelfParams = Option<usize>>
    ensures
        call_ensures(I::generate_knn, (index, k, nprobe, return_dist, verbose), r),
{
    index.generate_knn(k, nprobe, return_dist, verbose)
}

/// Build a k-d tree index. A text that names no metric stands for squared Euclidean distance.
pub fn build_kd_tree_index<T, I>(
    mat: &MatView<'_, T>,
    dist_metric: &str,
    n_trees: usize,
    seed: usize,
) -> (r: I) where
    T: Copy + Send + Sync,
    I: IndexNew<T, Settings = ForestSettings>,

    requires
        mat.wf(),
    ensures
        call_ensures(
            I::new,
            (mat, metric_or_default(dist_metric@), (ForestSettings { n_trees, seed })),
            r,
        ),
{
    I::new(mat, resolve_metric(dist_metric), (ForestSettings { n_trees, seed }))
}

/// Query a k-d tree index with every row of a matrix.
pub fn query_kd_tree_index<T, I>(
    query_mat: &MatView<'_, T>,
    index: &I,
    k: usize,
    search_budget: Option<usize>,
    return_dist: bool,
) -> (r: KnnOptionResult<T>) where T: Copy + Send + Sync, I: RowSearch<T, Params = Option<usize>>
    requires
        query_mat.wf(),
    ensures
        rows_answered(index, query_mat, k, search_budget, return_dist, r),
{
    query_rows(query_mat, index, k, search_budget, return_dist)
}

/// Query a k-d tree index with its own vectors.
pub fn query_kd_tree_self<T, I>(
    index: &I,
    k: usize,
    search_budget: Option<usize>,
    return_dist: bool,
    verbose: bool,
) -> (r: KnnOptionResult<T>) where I: SelfSearch<T, SelfParams = Option<usize>>
    ensures
        call_ensures(I::generate_knn, (index, k, search_budget, return_dist, verbose), r),
{
    index.generate_knn(k, search_budget, return_dist, verbose)
}

/// What a hash index is built with.
pub struct HashSettings {
    /// The number of hash tables.
    pub num_tables: usize,
    /// The number of bits of a hash.
    pub bits_per_hash: usize,
    /// The seed of random choices.
    pub seed: usize,
}

/// What a query of a hash index is run with.
#[derive(Clone, Copy)]
pub struct HashParams {
    /// The largest number of candidates.
    pub max_candidates: Option<usize>,
    /// The number of neighbouring buckets.
    pub n_probe: usize,
}

/// An index by locality sensitive hashing. Queries that meet no bucket are flagged.
pub trait HashSearch<T: Copy>: Sync {
    /// The number of bits of a hash.
    fn num_bits(&self) -> usize;

    /// Find the nearest vectors to a row, and tell whether the row met no bucket.
    fn query_row(
        &self,
        row: &RowView<'_, T>,
        k: usize,
        params: HashParams,
    ) -> Result<(Vec<usize>, Vec<T>, bool), AnnSearchErrors>
        requires
            row.wf(),
    ;

    /// Find the nearest vectors to every vector of the index.
    fn generate_knn(
        &self,
        k: usize,
        params: HashParams,
        return_dist: bool,
        verbose: bool,
    ) -> (Vec<Vec<usize>>, Option<Vec<Vec<T>>>);
}

/// Build an LSH index. A text that names no metric stands for squared Euclidean distance.
pub fn build_lsh_index<T, I>(
    mat: &MatView<'_, T>,
    dist_metric: &str,
    num_tables: usize,
    bits_per_hash: usize,
    seed: usize,
) -> (r: Result<I, AnnSearchErrors>) where
    T: Copy + Send + Sync,
    I: IndexBuild<T, Settings = HashSettings>,

    requires
        mat.wf(),
    ensures
        call_ensures(
            I::build,
            (
                mat,
                metric_or_default(dist_metric@),
                (HashSettings { num_tables, bits_per_hash, seed }),
            ),
            r,
        ),
{
    I::build(
        mat,
        resolve_metric(dist_metric),
        (HashSettings { num_tables, bits_per_hash, seed }),
    )
}

/// `res` is an answer of the hash index to row `i` of the matrix.
pub open spec fn hash_answer<T: Copy, I: HashSearch<T>>(
    index: &I,
    mat: &MatView<'_, T>,
    i: int,
    k: usize,
    params: HashParams,
    res: Result<(Vec<usize>, Vec<T>, bool), AnnSearchErrors>,
) -> bool {
    exists|row: RowView<'_, T>|
        row.wf() && row.ncols == mat.ncols && row.values() == mat.row_values(i)
            && #[trigger] call_ensures(I::query_row, (index, &row, k, params), res)
}

/// Query an LSH index with every row of a matrix. The third part of the result tells whether more
/// than one row in a hundred met no bucket.
pub fn query_lsh_index<T, I>(
    query_mat: &MatView<'_, T>,
    index: &I,
    k: usize,
    n_probe: usize,
    max_candidates: Option<usize>,
    return_dist: bool,
) -> (r: Result<(Vec<Vec<usize>>, Option<Vec<Vec<T>>>, bool), AnnSearchErrors>) where
    T: Copy + Send + Sync,
    I: HashSearch<T>,

    requires
        query_mat.wf(),
    ensures
        r matches Ok(found) ==> exists|results: Seq<(Vec<usize>, Vec<T>, bool)>|
            #![trigger untangled(results)]
            results.len() == query_mat.nrows && found.0@ == firsts(firsts(untangled(results))) && (
            found.1.is_some() == return_dist) && (found.1 matches Some(d) ==> d@ == seconds(
                firsts(untangled(results)),
            )) && found.2 == many_flagged(flagged(untangled(results)), query_mat.nrows as nat)
                && forall|i: int|
                0 <= i < query_mat.nrows ==> hash_answer(
                    index,
                    query_mat,
                    i,
                    k,
                    (HashParams { max_candidates, n_probe }),
                    Ok(#[trigger] results[i]),
                ),
        r matches Err(e) ==> exists|i: int|
            0 <= i < query_mat.nrows && #[trigger] hash_answer(
                index,
                query_mat,
                i,
                k,
                (HashParams { max_candidates, n_probe }),
                Err(e),
            ),
{
    let params = HashParams { max_candidates, n_probe };
    let row_fn = |i: usize| -> (res: Result<(Vec<usize>, Vec<T>, bool), AnnSearchErrors>)
        requires
            query_mat.wf(),
            i < query_mat.nrows,
        ensures
            hash_answer(index, query_mat, i as int, k, params, res),
        {
            let row = query_mat.row(i);
            let res = index.query_row(&row, k, params);
            proof {
                assert(call_ensures(I::query_row, (index, &row, k, params), res));
            }
            res
        };
    let r = query_parallel_with_flags(query_mat.nrows, return_dist, row_fn);
    let ghost out = r;
    proof {
        match out {
            Ok(found) => {
                let results = choose|results: Seq<(Vec<usize>, Vec<T>, bool)>|
                    results.len() == query_mat.nrows && #[trigger] results_of(row_fn, results)
                        && found.0@ == firsts(firsts(untangled(results))) && (found.1.is_some()
                        == return_dist) && (found.1 matches Some(d) ==> d@ == seconds(
                        firsts(untangled(results)),
                    )) && found.2 == many_flagged(
                        flagged(untangled(results)),
                        query_mat.nrows as nat,
                    );
                assert forall|i: int| 0 <= i < query_mat.nrows implies hash_answer(
                    index,
                    query_mat,
                    i,
                    k,
                    params,
                    Ok(#[trigger] results[i]),
                ) by {
                    let at = i as usize;
                    assert(call_ensures(
                        row_fn,
                        (at,),
                        Ok::<(Vec<usize>, Vec<T>, bool), AnnSearchErrors>(results[at as int]),
                    ));
                }
            },
            Err(e) => {
                let i = choose|i: usize|
                    i < query_mat.nrows && #[trigger] call_ensures(
                        row_fn,
                        (i,),
                        Err::<(Vec<usize>, Vec<T>, bool), AnnSearchErrors>(e),
                    );
                assert(hash_answer(index, query_mat, i as int, k, params, Err(e)));
            },
        }
    }
    r
}

/// Query an LSH index with its own vectors. Where the number of neighbouring buckets is not given,
/// it is half the number of bits of a hash.
pub fn query_lsh_self<T, I>(
    index: &I,
    k: usize,
    n_probe: Option<usize>,
    max_candidates: Option<usize>,
    return_dist: bool,
    verbose: bool,
) -> (r: KnnOptionResult<T>) where T: Copy, I: HashSearch<T>
    ensures
        exists|bits: usize| #[trigger]
            call_ensures(I::num_bits, (index,), bits) && (r matches Ok(found) && call_ensures(
                I::generate_knn,
                (
                    index,
                    k,
                    (HashParams {
                        max_candidates,
                        n_probe: match n_probe {
                            Some(p) => p,
                            None => bits / 2,
                        },
                    }),
                    return_dist,
                    verbose,
                ),
                found,
            )),
{
    let bits: usize = index.num_bits();
    let probes: usize = match n_probe {
        Some(p) => p,
        None => bits / 2,
    };
    let params = HashParams { max_candidates, n_probe: probes };
    Ok(index.generate_knn(k, params, return_dist, verbose))
}

/// What an NNDescent index is built with.
pub struct DescentSettings<T> {
    /// The number of neighbours in the graph.
    pub k: Option<usize>,
    /// The largest number of candidates of a node in a round.
    pub max_candidates: Option<usize>,
    /// The largest number of rounds.
    pub max_iter: Option<usize>,
    /// The number of trees that the first neighbours are taken from.
    pub n_tree: Option<usize>,
    /// The share of changes below which the rounds end.
    pub delta: T,
    /// The probability with which a redundant edge is dropped.
    pub diversify_prob: T,
    /// The seed of random choices.
    pub seed: usize,
    /// Report progress.
    pub verbose: bool,
}

/// Build a NNDescent index. A text that names no metric stands for squared Euclidean distance.
pub fn build_nndescent_index<T, I>(
    mat: &MatView<'_, T>,
    dist_metric: &str,
    delta: T,
    diversify_prob: T,
    k: Option<usize>,
    max_iter: Option<usize>,
    max_candidates: Option<usize>,
    n_tree: Option<usize>,
    seed: usize,
    verbose: bool,
) -> (r: Result<I, AnnSearchErrors>) where
    T: Copy + Send + Sync,
    I: IndexBuild<T, Settings = DescentSettings<T>>,

    requires
        mat.wf(),
    ensures
        call_ensures(
            I::build,
            (mat, metric_or_default(dist_metric@), (DescentSettings {
                k,
                max_candidates,
                max_iter,
                n_tree,
                delta,
                diversify_prob,
                seed,
                verbose,
            })),
            r,
        ),
{
    I::build(mat, resolve_metric(dist_metric), (DescentSettings {
                k,
                max_candidates,
                max_iter,
                n_tree,
                delta,
                diversify_prob,
                seed,
                verbose,
            }))
}

/// Query a NNDescent index with every row of a matrix.
pub fn query_nndescent_index<T, I>(
    query_mat: &MatView<'_, T>,
    index: &I,
    k: usize,
    ef_search: Option<usize>,
    return_dist: bool,
) -> (r: KnnOptionResult<T>) where T: Copy + Send + Sync, I: RowSearch<T, Params = Option<usize>>
    requires
        query_mat.wf(),
    ensures
        rows_answered(index, query_mat, k, ef_search, return_dist, r),
{
    query_rows(query_mat, index, k, ef_search, return_dist)
}

/// Query a NNDescent index with its own vectors.
pub fn query_nndescent_self<T, I>(
    index: &I,
    k: usize,
    ef_search: Option<usize>,
    return_dist: bool,
    verbose: bool,
) -> (r: KnnOptionResult<T>) where I: SelfSearch<T, SelfParams = Option<usize>>
    ensures
        call_ensures(I::generate_knn, (index, k, ef_search, return_dist, verbose), r),
{
    index.generate_knn(k, ef_search, return_dist, verbose)
}

/// What a Vamana index is built with.
pub struct VamanaSettings<A> {
    /// The number of neighbours in the graph.
    pub r: usize,
    /// The number of candidates that a search keeps.
    pub l_build: usize,
    /// How much nearer a neighbour has to be to displace another, in the first pass.
    pub alpha_pass1: A,
    /// How much nearer a neighbour has to be to displace another, in the second pass.
    pub alpha_pass2: A,
    /// The seed of random choices.
    pub seed: usize,
}

/// Build a Vamana index. A text that names no metric stands for squared Euclidean distance.
pub fn build_vamana_index<T, I, A>(
    mat: &MatView<'_, T>,
    degree: usize,
    l_build: usize,
    alpha_pass1: A,
    alpha_pass2: A,
    dist_metric: &str,
    seed: usize,
) -> (r: I) where
    T: Copy + Send + Sync,
    I: IndexNew<T, Settings = VamanaSettings<A>>,

    requires
        mat.wf(),
    ensures
        call_ensures(
            I::new,
            (
                mat,
                metric_or_default(dist_metric@),
                (VamanaSettings { r: degree, l_build, alpha_pass1, alpha_pass2, seed }),
            ),
            r,
        ),
{
    I::new(
        mat,
        resolve_metric(dist_metric),
        VamanaSettings { r: degree, l_build, alpha_pass1, alpha_pass2, seed },
    )
}

/// Query a Vamana index with every row of a matrix.
pub fn query_vamana_index<T, I>(
    query_mat: &MatView<'_, T>,
    index: &I,
    k: usize,
    ef_search: Option<usize>,
    return_dist: bool,
) -> (r: KnnOptionResult<T>) where T: Copy + Send + Sync, I: RowSearch<T, Params = Option<usize>>
    requires
        query_mat.wf(),
    ensures
        rows_answered(index, query_mat, k, ef_search, return_dist, r),
{
    query_rows(query_mat, index, k, ef_search, return_dist)
}

/// Query a Vamana index with its own vectors.
pub fn query_vamana_self<T, I>(
    index: &I,
    k: usize,
    ef_search: Option<usize>,
    return_dist: bool,
    verbose: bool,
) -> (r: KnnOptionResult<T>) where I: SelfSearch<T, SelfParams = Option<usize>>
    ensures
        call_ensures(I::generate_knn, (index, k, ef_search, return_dist, verbose), r),
{
    index.generate_knn(k, ef_search, return_dist, verbose)
}

} // verus!
