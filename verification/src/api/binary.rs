//! Entry points for indices that keep vectors as bits.
use super::backend::{query_rows, rows_answered, IndexBuild, RowSearch, SelfSearch};
use super::cpu::ClusterSettings;
use crate::errors::AnnSearchErrors;
use crate::parallel::{KnnOptionResult, KnnResult};
use crate::utils::dist::{metric_or_default, resolve_metric, Dist};
use crate::utils::float::Real;
use crate::utils::matrix::{MatView, RowView};
use vstd::prelude::*;

verus! {

/// An index that can keep the vectors themselves in a file, to rerank results by exact distances.
pub trait StoreBuild<T: Copy>: IndexBuild<T> {
    /// Make the index and keep the vectors at the path.
    fn build_with_vector_store(
        mat: &MatView<'_, T>,
        metric: Dist,
        settings: Self::Settings,
        path: &str,
    ) -> Result<Self, AnnSearchErrors>
        requires
            mat.wf(),
    ;
}

/// What comes of building an index, with or without the vectors themselves.
pub open spec fn store_built<T: Copy, I: StoreBuild<T>>(
    mat: &MatView<'_, T>,
    metric: Dist,
    settings: I::Settings,
    save_store: bool,
    save_path: Option<&str>,
    r: Result<I, AnnSearchErrors>,
) -> bool {
    if save_store {
        call_ensures(
            I::build_with_vector_store,
            (mat, metric, settings, save_path->Some_0),
            r,
        )
    } else {
        call_ensures(I::build, (mat, metric, settings), r)
    }
}

/// Build an index, with the vectors themselves where this is asked for.
fn build_maybe_stored<T: Copy, I: StoreBuild<T>>(
    mat: &MatView<'_, T>,
    metric: Dist,
    settings: I::Settings,
    save_store: bool,
    save_path: Option<&str>,
) -> (r: Result<I, AnnSearchErrors>)
    requires
        mat.wf(),
        save_store ==> save_path.is_some(),
    ensures
        store_built::<T, I>(mat, metric, settings, save_store, save_path, r),
{
    if save_store {
        match save_path {
            Some(path) => I::build_with_vector_store(mat, metric, settings, path),
            None => {
                proof {
                    assert(false);
                }
                I::build(mat, metric, settings)
            },
        }
    } else {
        I::build(mat, metric, settings)
    }
}

/// How many times as many results are looked at: what was asked for, as long as results are
/// reranked.
pub open spec fn factor_used(rerank: bool, rerank_factor: Option<usize>) -> Option<usize> {
    if rerank {
        rerank_factor
    } else {
        None
    }
}

/// How many times as many results are looked at.
fn factor_to_use(rerank: bool, rerank_factor: Option<usize>) -> (r: Option<usize>)
    ensures
        r == factor_used(rerank, rerank_factor),
{
    if rerank {
        rerank_factor
    } else {
        None
    }
}

/// What a query is run with, and how many times as many results are reranked.
pub struct RerankParams<P> {
    pub params: P,
    pub rerank_factor: Option<usize>,
}

impl<P: Copy> Clone for RerankParams<P> {
    fn clone(&self) -> (r: Self)
        ensures
            r == *self,
    {
        *self
    }
}

impl<P: Copy> Copy for RerankParams<P> {

}

/// An index that can rerank results by exact distances.
pub trait RerankSearch<T: Copy>: RowSearch<T> {
    /// Find the nearest vectors to a row, by exact distances among `rerank_factor` times as many.
    fn query_row_reranking(
        &self,
        row: &RowView<'_, T>,
        k: usize,
        params: Self::Params,
        rerank_factor: Option<usize>,
    ) -> KnnResult<T>
        requires
            row.wf(),
    ;
}

/// The reranking search of an index, as a search of its own.
pub struct Reranked<'a, I> {
    pub index: &'a I,
}

impl<'a, T: Copy, I: RerankSearch<T>> RowSearch<T> for Reranked<'a, I> {
    type Params = RerankParams<I::Params>;

    fn query_row(&self, row: &RowView<'_, T>, k: usize, params: Self::Params) -> (r: KnnResult<T>)
        ensures
            call_ensures(
                I::query_row_reranking,
                (self.index, row, k, params.params, params.rerank_factor),
                r,
            ),
    {
        self.index.query_row_reranking(row, k, params.params, params.rerank_factor)
    }
}

/// An index whose vectors are bits. Distances of bits are counts; queries may also be compared
/// without making bits of them.
pub trait BinarySearch<T: Copy>: Sync {
    /// What a query is run with, besides the number of neighbours.
    type Params: Copy + Send + Sync;

    /// Can queries be compared without making bits of them?
    fn use_asymmetric(&self) -> bool;

    /// Find the nearest vectors to a row by counts of different bits.
    fn query_row(&self, row: &RowView<'_, T>, k: usize, params: Self::Params) -> KnnResult<u32>
        requires
            row.wf(),
    ;

    /// Find the nearest vectors to a row without making bits of it.
    fn query_row_asymmetric(
        &self,
        row: &RowView<'_, T>,
        k: usize,
        params: Self::Params,
        rerank_factor: Option<usize>,
    ) -> KnnResult<T>
        requires
            row.wf(),
    ;

    /// Find the nearest vectors to a row, by exact distances among `rerank_factor` times as many.
    fn query_row_reranking(
        &self,
        row: &RowView<'_, T>,
        k: usize,
        params: Self::Params,
        rerank_factor: Option<usize>,
    ) -> KnnResult<T>
        requires
            row.wf(),
    ;
}

/// Which of the searches of a binary index is meant.
#[derive(Clone, Copy, Debug, PartialEq, Eq, Structural)]
pub enum BinaryMode {
    /// By counts of different bits.
    Bits,
    /// Without making bits of the query.
    Asymmetric,
    /// By exact distances.
    Rerank,
}

/// The search that is run where no exact distances are asked for: without making bits of the query
/// where the index can do so.
pub open spec fn mode_of(asymmetric: bool) -> BinaryMode {
    if asymmetric {
        BinaryMode::Asymmetric
    } else {
        BinaryMode::Bits
    }
}

/// The numbers nearest to counts.
pub open spec fn counts_as_numbers<T: Real>(counts: Seq<u32>) -> Seq<T> {
    Seq::new(counts.len(), |i: int| T::of_u32_spec(counts[i]))
}

/// One of the searches of a binary index, as a search of its own.
pub struct BinaryRows<'a, I> {
    pub index: &'a I,
    pub mode: BinaryMode,
}

/// Make numbers of counts.
pub fn convert_counts<T: Real>(counts: &Vec<u32>) -> (r: Vec<T>)
    ensures
        r@ == counts_as_numbers::<T>(counts@),
{
    let mut out: Vec<T> = Vec::new();
    let mut i: usize = 0;
    while i < counts.len()
        invariant
            i <= counts@.len(),
            out@ == counts_as_numbers::<T>(counts@).take(i as int),
        decreases counts.len() - i,
    {
        out.push(T::of_u32(counts[i]));
        proof {
            assert(out@ =~= counts_as_numbers::<T>(counts@).take(i + 1));
        }
        i += 1;
    }
    assert(out@ =~= counts_as_numbers::<T>(counts@));
    out
}

/// `r` is the answer of a binary index to a row in the given mode; counts become numbers.
pub open spec fn binary_answer<T: Real, I: BinarySearch<T>>(
    index: &I,
    mode: BinaryMode,
    row: &RowView<'_, T>,
    k: usize,
    params: I::Params,
    rerank_factor: Option<usize>,
    r: KnnResult<T>,
) -> bool {
    match mode {
        BinaryMode::Rerank => call_ensures(
            I::query_row_reranking,
            (index, row, k, params, rerank_factor),
            r,
        ),
        BinaryMode::Asymmetric => call_ensures(
            I::query_row_asymmetric,
            (index, row, k, params, rerank_factor),
            r,
        ),
        BinaryMode::Bits => exists|res: KnnResult<u32>| #[trigger]
            call_ensures(I::query_row, (index, row, k, params), res) && with_numbers(res, r),
    }
}

/// `r` is `res` with numbers in place of counts.
pub open spec fn with_numbers<T: Real>(res: KnnResult<u32>, r: KnnResult<T>) -> bool {
    match res {
        Ok(found) => r matches Ok(out) && out.0 == found.0 && out.1@ == counts_as_numbers::<T>(
            found.1@,
        ),
        Err(e) => r == Err::<(Vec<usize>, Vec<T>), AnnSearchErrors>(e),
    }
}

impl<'a, T: Real, I: BinarySearch<T>> RowSearch<T> for BinaryRows<'a, I> {
    type Params = RerankParams<I::Params>;

    fn query_row(&self, row: &RowView<'_, T>, k: usize, params: Self::Params) -> (r: KnnResult<T>)
        ensures
            binary_answer(self.index, self.mode, row, k, params.params, params.rerank_factor, r),
    {
        match self.mode {
            BinaryMode::Rerank => self.index.query_row_reranking(
                row,
                k,
                params.params,
                params.rerank_factor,
            ),
            BinaryMode::Asymmetric => self.index.query_row_asymmetric(
                row,
                k,
                params.params,
                params.rerank_factor,
            ),
            BinaryMode::Bits => {
                let found = self.index.query_row(row, k, params.params);
                let ghost res = found;
                proof {
                    assert(call_ensures(
                        I::query_row,
                        (self.index, row, k, params.params),
                        res,
                    ));
                }
                match found {
                    Ok((indices, counts)) => {
                        let distances = convert_counts::<T>(&counts);
                        Ok((indices, distances))
                    },
                    Err(e) => Err(e),
                }
            },
        }
    }
}

/// What comes of querying a binary index with every row of a matrix: which search is run, and its
/// answers. The factor matters only where results are reranked.
pub open spec fn binary_rows_answered<T: Real, I: BinarySearch<T>>(
    index: &I,
    mat: &MatView<'_, T>,
    k: usize,
    params: I::Params,
    rerank: bool,
    rerank_factor: Option<usize>,
    return_dist: bool,
    r: KnnOptionResult<T>,
) -> bool {
    if rerank {
        rows_answered(
            &(BinaryRows { index, mode: BinaryMode::Rerank }),
            mat,
            k,
            (RerankParams { params, rerank_factor }),
            return_dist,
            r,
        )
    } else {
        exists|asymmetric: bool| #[trigger]
            call_ensures(I::use_asymmetric, (index,), asymmetric) && rows_answered(
                &(BinaryRows { index, mode: mode_of(asymmetric) }),
                mat,
                k,
                (RerankParams { params, rerank_factor: None }),
                return_dist,
                r,
            )
    }
}

/// Without reranking the factor makes no difference: the same answers come with any two factors.
pub proof fn law_factor_needs_rerank<T: Real, I: BinarySearch<T>>(
    index: &I,
    mat: &MatView<'_, T>,
    k: usize,
    params: I::Params,
    one: Option<usize>,
    other: Option<usize>,
    return_dist: bool,
    r: KnnOptionResult<T>,
)
    ensures
        binary_rows_answered(index, mat, k, params, false, one, return_dist, r)
            == binary_rows_answered(index, mat, k, params, false, other, return_dist, r),
{
}

/// Query a binary index with every row of a matrix.
fn query_binary_rows<T: Real, I: BinarySearch<T>>(
    query_mat: &MatView<'_, T>,
    index: &I,
    k: usize,
    params: I::Params,
    rerank: bool,
    rerank_factor: Option<usize>,
    return_dist: bool,
) -> (r: KnnOptionResult<T>)
    requires
        query_mat.wf(),
    ensures
        binary_rows_answered(index, query_mat, k, params, rerank, rerank_factor, return_dist, r),
{
    if rerank {
        let rows = BinaryRows { index, mode: BinaryMode::Rerank };
        let with = RerankParams { params, rerank_factor };
        return query_rows(query_mat, &rows, k, with, return_dist);
    }
    let asymmetric = index.use_asymmetric();
    let mode = if asymmetric {
        BinaryMode::Asymmetric
    } else {
        BinaryMode::Bits
    };
    let rows = BinaryRows { index, mode };
    let with = RerankParams { params, rerank_factor: None };
    let r = query_rows(query_mat, &rows, k, with, return_dist);
    proof {
        assert(call_ensures(I::use_asymmetric, (index,), asymmetric));
        assert(mode_of(asymmetric) == mode);
    }
    r
}

/// What an exhaustive binary index is built with.
pub struct BinarySettings<'a> {
    /// How vectors are made bits of.
    pub binary_init: &'a str,
    /// The number of bits.
    pub n_bits: usize,
    /// The seed of random choices.
    pub seed: usize,
}

/// An exhaustive binary index. The metric matters only where the vectors themselves are kept.
pub trait BinaryBuild<T: Copy>: Sized {
    /// Make the index.
    fn new(
        mat: &MatView<'_, T>,
        settings: BinarySettings<'_>,
    ) -> Result<Self, AnnSearchErrors>
        requires
            mat.wf(),
    ;

    /// Make the index and keep the vectors at the path.
    fn new_with_vector_store(
        mat: &MatView<'_, T>,
        metric: Dist,
        settings: BinarySettings<'_>,
        path: &str,
    ) -> Result<Self, AnnSearchErrors>
        requires
            mat.wf(),
    ;
}

/// Build an exhaustive binary index; where the vectors themselves are to be kept, a path has to be
/// given. A text that names no metric stands for squared Euclidean distance.
pub fn build_exhaustive_index_binary<T: Copy, I: BinaryBuild<T>>(
    mat: &MatView<'_, T>,
    n_bits: usize,
    seed: usize,
    binary_init: &str,
    dist_metric: &str,
    save_store: bool,
    save_path: Option<&str>,
) -> (r: Result<I, AnnSearchErrors>)
    requires
        mat.wf(),
        save_store ==> save_path.is_some(),
    ensures
        save_store ==> call_ensures(
            I::new_with_vector_store,
            (
                mat,
                metric_or_default(dist_metric@),
                (BinarySettings { binary_init, n_bits, seed }),
                save_path->Some_0,
            ),
            r,
        ),
        !save_store ==> call_ensures(
            I::new,
            (mat, (BinarySettings { binary_init, n_bits, seed })),
            r,
        ),
{
    let metric = resolve_metric(dist_metric);
    let settings = BinarySettings { binary_init, n_bits, seed };
    if save_store {
        match save_path {
            Some(path) => I::new_with_vector_store(mat, metric, settings, path),
            None => {
                proof {
                    assert(false);
                }
                I::new(mat, settings)
            },
        }
    } else {
        I::new(mat, settings)
    }
}

/// Query an exhaustive binary index with every row of a matrix.
pub fn query_exhaustive_index_binary<T: Real, I: BinarySearch<T, Params = ()>>(
    query_mat: &MatView<'_, T>,
    index: &I,
    k: usize,
    rerank: bool,
    rerank_factor: Option<usize>,
    return_dist: bool,
) -> (r: KnnOptionResult<T>)
    requires
        query_mat.wf(),
    ensures
        binary_rows_answered(index, query_mat, k, (), rerank, rerank_factor, return_dist, r),
{
    query_binary_rows(query_mat, index, k, (), rerank, rerank_factor, return_dist)
}

/// Query an exhaustive binary index with its own vectors.
pub fn query_exhaustive_index_binary_self<T, I>(
    index: &I,
    k: usize,
    rerank_factor: Option<usize>,
    return_dist: bool,
    verbose: bool,
) -> (r: KnnOptionResult<T>) where I: SelfSearch<T, SelfParams = Option<usize>>
    ensures
        call_ensures(I::generate_knn, (index, k, rerank_factor, return_dist, verbose), r),
{
    index.generate_knn(k, rerank_factor, return_dist, verbose)
}

/// What a binary index over clusters is built with.
pub struct ClusterBinarySettings<'a, K> {
    /// How vectors are made bits of.
    pub binarisation_init: &'a str,
    /// The number of bits.
    pub n_bits: usize,
    /// The number of clusters; the square root of the number of vectors where it is not given.
    pub nlist: Option<usize>,
    /// How the clusters are trained.
    pub k_means_params: Option<K>,
    /// The seed of random choices.
    pub seed: usize,
    /// Report progress.
    pub verbose: bool,
}

/// Build an IVF binary index; where the vectors themselves are to be kept, a path has to be given.
/// A text that names no metric stands for squared Euclidean distance.
pub fn build_ivf_index_binary<'a, T, I, K>(
    mat: &MatView<'_, T>,
    binarisation_init: &'a str,
    n_bits: usize,
    nlist: Option<usize>,
    k_means_params: Option<K>,
    dist_metric: &str,
    seed: usize,
    save_store: bool,
    save_path: Option<&str>,
    verbose: bool,
) -> (r: Result<I, AnnSearchErrors>) where
    T: Copy,
    I: StoreBuild<T, Settings = ClusterBinarySettings<'a, K>>,

    requires
        mat.wf(),
        save_store ==> save_path.is_some(),
    ensures
        store_built::<T, I>(
            mat,
            metric_or_default(dist_metric@),
            (ClusterBinarySettings {
                binarisation_init,
                n_bits,
                nlist,
                k_means_params,
                seed,
                verbose,
            }),
            save_store,
            save_path,
            r,
        ),
{
    let settings = ClusterBinarySettings {
        binarisation_init,
        n_bits,
        nlist,
        k_means_params,
        seed,
        verbose,
    };
    build_maybe_stored(mat, resolve_metric(dist_metric), settings, save_store, save_path)
}

/// Query an IVF binary index with every row of a matrix.
pub fn query_ivf_index_binary<T: Real, I: BinarySearch<T, Params = Option<usize>>>(
    query_mat: &MatView<'_, T>,
    index: &I,
    k: usize,
    nprobe: Option<usize>,
    rerank: bool,
    rerank_factor: Option<usize>,
    return_dist: bool,
) -> (r: KnnOptionResult<T>)
    requires
        query_mat.wf(),
    ensures
        binary_rows_answered(index, query_mat, k, nprobe, rerank, rerank_factor, return_dist, r),
{
    query_binary_rows(query_mat, index, k, nprobe, rerank, rerank_factor, return_dist)
}

/// Query an IVF binary index with its own vectors.
pub fn query_ivf_index_binary_self<T, I>(
    index: &I,
    k: usize,
    nprobe: Option<usize>,
    rerank_factor: Option<usize>,
    return_dist: bool,
    verbose: bool,
) -> (r: KnnOptionResult<T>) where I: SelfSearch<T, SelfParams = (Option<usize>, Option<usize>)>
    ensures
        call_ensures(
            I::generate_knn,
            (index, k, (nprobe, rerank_factor), return_dist, verbose),
            r,
        ),
{
    index.generate_knn(k, (nprobe, rerank_factor), return_dist, verbose)
}

/// What an exhaustive RaBitQ index is built with.
pub struct RaBitQSettings {
    /// The number of clusters.
    pub n_clust_rabitq: Option<usize>,
    /// The seed of random choices.
    pub seed: usize,
}

/// Build an exhaustive RaBitQ index; where the vectors themselves are to be kept, a path has to be
/// given. A text that names no metric stands for squared Euclidean distance.
pub fn build_exhaustive_index_rabitq<T, I>(
    mat: &MatView<'_, T>,
    n_clust_rabitq: Option<usize>,
    dist_metric: &str,
    seed: usize,
    save_store: bool,
    save_path: Option<&str>,
) -> (r: Result<I, AnnSearchErrors>) where T: Copy, I: StoreBuild<T, Settings = RaBitQSettings>
    requires
        mat.wf(),
        save_store ==> save_path.is_some(),
    ensures
        store_built::<T, I>(
            mat,
            metric_or_default(dist_metric@),
            (RaBitQSettings { n_clust_rabitq, seed }),
            save_store,
            save_path,
            r,
        ),
{
    build_maybe_stored(
        mat,
        resolve_metric(dist_metric),
        RaBitQSettings { n_clust_rabitq, seed },
        save_store,
        save_path,
    )
}

/// Query an exhaustive RaBitQ index with every row of a matrix, by exact distances where this is
/// asked for.
pub fn query_exhaustive_index_rabitq<T, I>(
    query_mat: &MatView<'_, T>,
    index: &I,
    k: usize,
    n_probe: Option<usize>,
    rerank: bool,
    rerank_factor: Option<usize>,
    return_dist: bool,
) -> (r: KnnOptionResult<T>) where
    T: Copy + Send + Sync,
    I: RerankSearch<T, Params = Option<usize>>,

    requires
        query_mat.wf(),
    ensures
        rerank ==> rows_answered(
            &(Reranked { index }),
            query_mat,
            k,
            (RerankParams { params: n_probe, rerank_factor }),
            return_dist,
            r,
        ),
        !rerank ==> rows_answered(index, query_mat, k, n_probe, return_dist, r),
{
    if rerank {
        let params = RerankParams { params: n_probe, rerank_factor };
        query_rows(query_mat, &Reranked { index }, k, params, return_dist)
    } else {
        query_rows(query_mat, index, k, n_probe, return_dist)
    }
}

/// Query an exhaustive RaBitQ index with its own vectors.
pub fn query_exhaustive_index_rabitq_self<T, I>(
    index: &I,
    k: usize,
    n_probe: Option<usize>,
    rerank_factor: Option<usize>,
    return_dist: bool,
    verbose: bool,
) -> (r: KnnOptionResult<T>) where I: SelfSearch<T, SelfParams = (Option<usize>, Option<usize>)>
    ensures
        call_ensures(
            I::generate_knn,
            (index, k, (n_probe, rerank_factor), return_dist, verbose),
            r,
        ),
{
    index.generate_knn(k, (n_probe, rerank_factor), return_dist, verbose)
}

/// Build an IVF RaBitQ index; where the vectors themselves are to be kept, a path has to be given.
/// A text that names no metric stands for squared Euclidean distance.
pub fn build_ivf_index_rabitq<T, I, K>(
    mat: &MatView<'_, T>,
    nlist: Option<usize>,
    k_means_params: Option<K>,
    dist_metric: &str,
    seed: usize,
    save_store: bool,
    save_path: Option<&str>,
    verbose: bool,
) -> (r: Result<I, AnnSearchErrors>) where T: Copy, I: StoreBuild<T, Settings = ClusterSettings<K>>
    requires
        mat.wf(),
        save_store ==> save_path.is_some(),
    ensures
        store_built::<T, I>(
            mat,
            metric_or_default(dist_metric@),
            (ClusterSettings { nlist, k_means_params, seed, verbose }),
            save_store,
            save_path,
            r,
        ),
{
    build_maybe_stored(
        mat,
        resolve_metric(dist_metric),
        ClusterSettings { nlist, k_means_params, seed, verbose },
        save_store,
        save_path,
    )
}

/// Query an IVF RaBitQ index with every row of a matrix, by exact distances where this is asked
/// for.
pub fn query_ivf_index_rabitq<T, I>(
    query_mat: &MatView<'_, T>,
    index: &I,
    k: usize,
    nprobe: Option<usize>,
    rerank: bool,
    rerank_factor: Option<usize>,
    return_dist: bool,
) -> (r: KnnOptionResult<T>) where
    T: Copy + Send + Sync,
    I: RerankSearch<T, Params = Option<usize>>,

    requires
        query_mat.wf(),
    ensures
        rerank ==> rows_answered(
            &(Reranked { index }),
            query_mat,
            k,
            (RerankParams { params: nprobe, rerank_factor }),
            return_dist,
            r,
        ),
        !rerank ==> rows_answered(index, query_mat, k, nprobe, return_dist, r),
{
    if rerank {
        let params = RerankParams { params: nprobe, rerank_factor };
        query_rows(query_mat, &Reranked { index }, k, params, return_dist)
    } else {
        query_rows(query_mat, index, k, nprobe, return_dist)
    }
}

/// Query an IVF RaBitQ index with its own vectors.
pub fn query_ivf_index_rabitq_self<T, I>(
    index: &I,
    k: usize,
    nprobe: Option<usize>,
    rerank_factor: Option<usize>,
    return_dist: bool,
    verbose: bool,
) -> (r: KnnOptionResult<T>) where I: SelfSearch<T, SelfParams = (Option<usize>, Option<usize>)>
    ensures
        call_ensures(
            I::generate_knn,
            (index, k, (nprobe, rerank_factor), return_dist, verbose),
            r,
        ),
{
    index.generate_knn(k, (nprobe, rerank_factor), return_dist, verbose)
}

/// What an exhaustive TurboQuant index is built with.
pub struct TurboSettings {
    /// The number of bits per dimension.
    pub bits: usize,
    /// The seed of random choices.
    pub seed: usize,
}

/// Build an exhaustive TurboQuant index; where the vectors themselves are to be kept, a path has to
/// be given. A text that names no metric stands for squared Euclidean distance.
pub fn build_exhaustive_index_turboquant<T, I>(
    mat: &MatView<'_, T>,
    dist_metric: &str,
    bits: usize,
    seed: usize,
    save_store: bool,
    save_path: Option<&str>,
) -> (r: Result<I, AnnSearchErrors>) where T: Copy, I: StoreBuild<T, Settings = TurboSettings>
    requires
        mat.wf(),
        save_store ==> save_path.is_some(),
    ensures
        store_built::<T, I>(
            mat,
            metric_or_default(dist_metric@),
            (TurboSettings { bits, seed }),
            save_store,
            save_path,
            r,
        ),
{
    build_maybe_stored(
        mat,
        resolve_metric(dist_metric),
        TurboSettings { bits, seed },
        save_store,
        save_path,
    )
}

/// What a query of a TurboQuant index is run with.
pub struct TurboParams {
    /// The number of clusters to look into; unused by an exhaustive index.
    pub nprobe: Option<usize>,
    /// Rerank by exact distances.
    pub rerank: bool,
    /// How many times as many results are reranked.
    pub rerank_factor: Option<usize>,
}

/// An index that is queried with a matrix at once and keeps distances only where they are asked
/// for.
pub trait TurboSearch<T: Copy> {
    /// Find the nearest vectors to every row of a matrix.
    fn query_batch(
        &self,
        query_mat: &MatView<'_, T>,
        k: usize,
        params: TurboParams,
        return_dist: bool,
        verbose: bool,
    ) -> KnnOptionResult<T>
        requires
            query_mat.wf(),
    ;
}

/// Query an exhaustive TurboQuant index with every row of a matrix. The factor matters only
/// where results are reranked.
pub fn query_exhaustive_index_turboquant<T: Copy, I: TurboSearch<T>>(
    query_mat: &MatView<'_, T>,
    index: &I,
    k: usize,
    rerank: bool,
    rerank_factor: Option<usize>,
    return_dist: bool,
    verbose: bool,
) -> (r: KnnOptionResult<T>)
    requires
        query_mat.wf(),
    ensures
        call_ensures(
            I::query_batch,
            (
                index,
                query_mat,
                k,
                (TurboParams {
                    nprobe: None,
                    rerank,
                    rerank_factor: factor_used(rerank, rerank_factor),
                }),
                return_dist,
                verbose,
            ),
            r,
        ),
{
    let params = TurboParams {
        nprobe: None,
        rerank,
        rerank_factor: factor_to_use(rerank, rerank_factor),
    };
    index.query_batch(query_mat, k, params, return_dist, verbose)
}

/// Query an exhaustive TurboQuant index with its own vectors.
pub fn query_exhaustive_index_turboquant_self<T, I>(
    index: &I,
    k: usize,
    rerank_factor: Option<usize>,
    return_dist: bool,
    verbose: bool,
) -> (r: KnnOptionResult<T>) where I: SelfSearch<T, SelfParams = Option<usize>>
    ensures
        call_ensures(I::generate_knn, (index, k, rerank_factor, return_dist, verbose), r),
{
    index.generate_knn(k, rerank_factor, return_dist, verbose)
}

/// What a TurboQuant index over clusters is built with.
pub struct ClusterTurboSettings<K> {
    /// The number of clusters and how they are trained.
    pub clusters: ClusterSettings<K>,
    /// The number of bits per dimension.
    pub bits: usize,
}

/// Build an IVF TurboQuant index; where the vectors themselves are to be kept, a path has to be
/// given. A text that names no metric stands for squared Euclidean distance.
pub fn build_ivf_index_turboquant<T, I, K>(
    mat: &MatView<'_, T>,
    nlist: Option<usize>,
    k_means_params: Option<K>,
    dist_metric: &str,
    bits: usize,
    seed: usize,
    save_store: bool,
    save_path: Option<&str>,
    verbose: bool,
) -> (r: Result<I, AnnSearchErrors>) where T: Copy, I: StoreBuild<T, Settings = ClusterTurboSettings<K>>
    requires
        mat.wf(),
        save_store ==> save_path.is_some(),
    ensures
        store_built::<T, I>(
            mat,
            metric_or_default(dist_metric@),
            (ClusterTurboSettings {
                clusters: ClusterSettings { nlist, k_means_params, seed, verbose },
                bits,
            }),
            save_store,
            save_path,
            r,
        ),
{
    build_maybe_stored(
        mat,
        resolve_metric(dist_metric),
        ClusterTurboSettings {
            clusters: ClusterSettings { nlist, k_means_params, seed, verbose },
            bits,
        },
        save_store,
        save_path,
    )
}

/// Query an IVF TurboQuant index with every row of a matrix. The factor matters only
/// where results are reranked.
pub fn query_ivf_index_turboquant<T: Copy, I: TurboSearch<T>>(
    query_mat: &MatView<'_, T>,
    index: &I,
    k: usize,
    nprobe: Option<usize>,
    rerank: bool,
    rerank_factor: Option<usize>,
    return_dist: bool,
    verbose: bool,
) -> (r: KnnOptionResult<T>)
    requires
        query_mat.wf(),
    ensures
        call_ensures(
            I::query_batch,
            (
                index,
                query_mat,
                k,
                (TurboParams {
                    nprobe,
                    rerank,
                    rerank_factor: factor_used(rerank, rerank_factor),
                }),
                return_dist,
                verbose,
            ),
            r,
        ),
{
    let params = TurboParams {
        nprobe,
        rerank,
        rerank_factor: factor_to_use(rerank, rerank_factor),
    };
    index.query_batch(query_mat, k, params, return_dist, verbose)
}

/// Query an IVF TurboQuant index with its own vectors.
pub fn query_ivf_index_turboquant_self<T, I>(
    index: &I,
    k: usize,
    nprobe: Option<usize>,
    rerank_factor: Option<usize>,
    return_dist: bool,
    verbose: bool,
) -> (r: KnnOptionResult<T>) where I: SelfSearch<T, SelfParams = (Option<usize>, Option<usize>)>
    ensures
        call_ensures(
            I::generate_knn,
            (index, k, (nprobe, rerank_factor), return_dist, verbose),
            r,
        ),
{
    index.generate_knn(k, (nprobe, rerank_factor), return_dist, verbose)
}

} // verus!
