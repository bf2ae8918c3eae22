use ann_search::api::backend::{
    keep_distances, IndexBuild, IndexNew, RowSearch, SelfSearch, TotalSelfSearch,
};
use ann_search::api::binary::{
    build_exhaustive_index_binary, build_exhaustive_index_rabitq, build_exhaustive_index_turboquant,
    build_ivf_index_binary, build_ivf_index_rabitq, build_ivf_index_turboquant, convert_counts,
    query_exhaustive_index_binary, query_exhaustive_index_binary_self,
    query_exhaustive_index_rabitq, query_exhaustive_index_rabitq_self,
    query_exhaustive_index_turboquant, query_exhaustive_index_turboquant_self,
    query_ivf_index_binary, query_ivf_index_binary_self, query_ivf_index_rabitq,
    query_ivf_index_rabitq_self, query_ivf_index_turboquant, query_ivf_index_turboquant_self,
    BinaryBuild, BinarySearch, BinarySettings, ClusterBinarySettings, ClusterTurboSettings,
    RaBitQSettings, RerankSearch, StoreBuild, TurboParams, TurboSearch, TurboSettings,
};
use ann_search::api::cpu::{
    build_annoy_index, build_balltree_index, build_exhaustive_index, build_hnsw_index,
    build_hnsw_sq8_index, build_ivf_index, build_kd_tree_index, build_kmknn_index, build_lsh_index,
    build_nndescent_index, build_vamana_index, query_annoy_index, query_annoy_self,
    query_balltree_index, query_balltree_self, query_exhaustive_index, query_exhaustive_self,
    query_hnsw_index, query_hnsw_self, query_ivf_index, query_ivf_self, query_kd_tree_index,
    query_kd_tree_self, query_kmknn_index, query_kmknn_self, query_lsh_index, query_lsh_self,
    query_nndescent_index, query_nndescent_self, query_vamana_index, query_vamana_self,
    ClusterSettings, DescentSettings, ForestSettings, HashParams, HashSearch, HashSettings,
    VamanaSettings,
};
use ann_search::api::gpu::{
    build_exhaustive_index_gpu, build_ivf_index_gpu, build_nndescent_index_gpu,
    extract_nndescent_knn_gpu, query_exhaustive_index_gpu, query_exhaustive_index_gpu_self,
    query_ivf_index_gpu, query_ivf_index_gpu_self, query_nndescent_index_gpu,
    query_nndescent_index_gpu_self, BatchSearch, DeviceClusterParams, DeviceClusterSettings,
    DeviceDescent, DeviceDescentSettings, KnnBatchResult,
};
use ann_search::api::quantised::{
    build_exhaustive_bf16_index, build_exhaustive_opq_index, build_exhaustive_pq_index,
    build_exhaustive_sq8_index, build_ivf_bf16_index, build_ivf_opq_index, build_ivf_pq_index,
    build_ivf_sq8_index, query_exhaustive_bf16_index, query_exhaustive_bf16_self,
    query_exhaustive_opq_index, query_exhaustive_opq_index_self, query_exhaustive_pq_index,
    query_exhaustive_pq_index_self, query_exhaustive_sq8_index, query_exhaustive_sq8_self,
    query_ivf_bf16_index, query_ivf_bf16_self, query_ivf_opq_index, query_ivf_opq_index_self,
    query_ivf_pq_index, query_ivf_pq_index_self, query_ivf_sq8_index, query_ivf_sq8_self,
    ClusterProductSettings, ClusterRotatedSettings, ProductSettings,
};
use ann_search::errors::AnnSearchErrors;
use ann_search::parallel::{
    progress_due, query_parallel, query_parallel_with_flags, split_flagged, split_results,
    KnnOptionResult, KnnResult,
};
use ann_search::utils::dist::{parse_ann_dist, resolve_metric, Dist};
use ann_search::utils::float::{AnnSearchFloat, Real};
use ann_search::utils::matrix::{MatView, RowView};

/// Single precision numbers.
#[derive(Clone, Copy, Debug, PartialEq)]
struct F32(f32);

impl Real for F32 {
    fn order_key(self) -> u64 {
        if self.0.is_nan() {
            return u64::MAX;
        }
        let value = if self.0 == 0.0 { 0.0_f32 } else { self.0 };
        let bits = value.to_bits();
        if bits >> 31 == 1 {
            u64::from(!bits)
        } else {
            u64::from(bits | 0x8000_0000)
        }
    }
    fn is_number(self) -> bool {
        !self.0.is_nan()
    }
    fn zero() -> Self {
        F32(0.0)
    }
    fn one() -> Self {
        F32(1.0)
    }
    fn plus(self, other: Self) -> Self {
        F32(self.0 + other.0)
    }
    fn times(self, other: Self) -> Self {
        F32(self.0 * other.0)
    }
    fn over(self, other: Self) -> Self {
        F32(self.0 / other.0)
    }
    fn larger(self, other: Self) -> Self {
        F32(self.0.max(other.0))
    }
    fn sqrt(self) -> Self {
        F32(self.0.sqrt())
    }
    fn abs(self) -> Self {
        F32(self.0.abs())
    }
    fn ln(self) -> Self {
        F32(self.0.ln())
    }
    fn neg(self) -> Self {
        F32(-self.0)
    }
    fn of_int(v: i32) -> Self {
        F32(v as f32)
    }
    fn of_u32(v: u32) -> Self {
        F32(v as f32)
    }
    fn of_size(v: usize) -> Self {
        F32(v as f32)
    }
    fn of_unit(v: u64) -> Self {
        F32((v as f64 / 9_007_199_254_740_992.0) as f32)
    }
    fn rounded(self) -> i32 {
        self.0.round() as i32
    }
    fn truncated(self) -> usize {
        self.0 as usize
    }
    fn floor_u8(self) -> Option<u8> {
        let floor = self.0.floor();
        if (0.0..256.0).contains(&floor) {
            Some(floor as u8)
        } else {
            None
        }
    }
}

impl AnnSearchFloat for F32 {
    type Narrow = F32;

    fn narrow(self) -> F32 {
        self
    }
    fn widen(v: F32) -> Self {
        v
    }
    fn euclidean_simd(a: &[Self], b: &[Self]) -> Self {
        F32(a.iter().zip(b).map(|(x, y)| (x.0 - y.0) * (x.0 - y.0)).sum())
    }
    fn cosine_simd(a: &[Self], b: &[Self], norm_a: Self, norm_b: Self) -> Self {
        let dot: f32 = a.iter().zip(b).map(|(x, y)| x.0 * y.0).sum();
        F32(1.0 - dot / (norm_a.0 * norm_b.0))
    }
    fn manhattan_simd(a: &[Self], b: &[Self]) -> Self {
        F32(a.iter().zip(b).map(|(x, y)| (x.0 - y.0).abs()).sum())
    }
    fn unset_distance() -> Self {
        F32(f32::MAX)
    }
    fn calculate_l2_norm(a: &[Self]) -> Self {
        F32(a.iter().map(|x| x.0 * x.0).sum::<f32>().sqrt())
    }
}

const WRONG: AnnSearchErrors = AnnSearchErrors::DimensionMismatch {
    expected: 2,
    actual: 3,
};

fn view<T>(data: &[T], nrows: usize, ncols: usize) -> MatView<'_, T> {
    MatView {
        data,
        nrows,
        ncols,
        row_stride: ncols,
        col_stride: 1,
    }
}

/// Remembers what it was built with.
struct Built<S> {
    rows: usize,
    metric: Option<Dist>,
    settings: S,
    path: Option<String>,
}

impl<S> IndexNew<u32> for Built<S> {
    type Settings = S;
    fn new(mat: &MatView<'_, u32>, metric: Dist, settings: S) -> Self {
        Built {
            rows: mat.nrows,
            metric: Some(metric),
            settings,
            path: None,
        }
    }
}

impl<S> IndexBuild<u32> for Built<S> {
    type Settings = S;
    fn build(mat: &MatView<'_, u32>, metric: Dist, settings: S) -> Result<Self, AnnSearchErrors> {
        if metric == Dist::Manhattan {
            return Err(AnnSearchErrors::DistanceNotSupported(metric));
        }
        Ok(Built {
            rows: mat.nrows,
            metric: Some(metric),
            settings,
            path: None,
        })
    }
}

impl<S> StoreBuild<u32> for Built<S> {
    fn build_with_vector_store(
        mat: &MatView<'_, u32>,
        metric: Dist,
        settings: S,
        path: &str,
    ) -> Result<Self, AnnSearchErrors> {
        Ok(Built {
            rows: mat.nrows,
            metric: Some(metric),
            settings,
            path: Some(String::from(path)),
        })
    }
}

/// Remembers its number of bits, and the way it was built.
struct Bits {
    n_bits: usize,
    init: String,
    metric: Option<Dist>,
    path: Option<String>,
}

impl BinaryBuild<u32> for Bits {
    fn new(_: &MatView<'_, u32>, settings: BinarySettings<'_>) -> Result<Self, AnnSearchErrors> {
        Ok(Bits {
            n_bits: settings.n_bits + settings.seed,
            init: String::from(settings.binary_init),
            metric: None,
            path: None,
        })
    }
    fn new_with_vector_store(
        _: &MatView<'_, u32>,
        metric: Dist,
        settings: BinarySettings<'_>,
        path: &str,
    ) -> Result<Self, AnnSearchErrors> {
        Ok(Bits {
            n_bits: settings.n_bits,
            init: String::from(settings.binary_init),
            metric: Some(metric),
            path: Some(String::from(path)),
        })
    }
}

/// Answers a row with its first number, its parameters and its second number as distance.
struct Echo;

fn echo(row: &RowView<'_, u32>, k: usize, extra: usize) -> KnnResult<u32> {
    let values = row.to_vec();
    if values.len() != 2 {
        return Err(WRONG);
    }
    Ok((vec![values[0] as usize, k, extra], vec![values[1]]))
}

impl RowSearch<u32> for Echo {
    type Params = ();
    fn query_row(&self, row: &RowView<'_, u32>, k: usize, _: ()) -> KnnResult<u32> {
        echo(row, k, 0)
    }
}

impl SelfSearch<u32> for Echo {
    type SelfParams = ();
    fn generate_knn(
        &self,
        k: usize,
        _: (),
        return_dist: bool,
        verbose: bool,
    ) -> KnnOptionResult<u32> {
        if verbose {
            return Err(WRONG);
        }
        Ok(keep_distances(vec![vec![k]], vec![vec![7]], return_dist))
    }
}

/// As `Echo`, with a parameter.
struct EchoWith {
    asymmetric: bool,
}

impl RowSearch<u32> for EchoWith {
    type Params = Option<usize>;
    fn query_row(
        &self,
        row: &RowView<'_, u32>,
        k: usize,
        params: Option<usize>,
    ) -> KnnResult<u32> {
        echo(row, k, params.unwrap_or(99))
    }
}

impl SelfSearch<u32> for EchoWith {
    type SelfParams = Option<usize>;
    fn generate_knn(
        &self,
        k: usize,
        params: Option<usize>,
        return_dist: bool,
        _: bool,
    ) -> KnnOptionResult<u32> {
        Ok(keep_distances(
            vec![vec![k, params.unwrap_or(99)]],
            vec![vec![7]],
            return_dist,
        ))
    }
}

impl TotalSelfSearch<u32> for EchoWith {
    type SelfParams = Option<usize>;
    fn generate_knn(
        &self,
        k: usize,
        params: Option<usize>,
        return_dist: bool,
        _: bool,
    ) -> (Vec<Vec<usize>>, Option<Vec<Vec<u32>>>) {
        keep_distances(
            vec![vec![k, params.unwrap_or(98)]],
            vec![vec![8]],
            return_dist,
        )
    }
}

impl TotalSelfSearch<u32> for Echo {
    type SelfParams = ();
    fn generate_knn(
        &self,
        k: usize,
        _: (),
        return_dist: bool,
        _: bool,
    ) -> (Vec<Vec<usize>>, Option<Vec<Vec<u32>>>) {
        keep_distances(vec![vec![k, 1]], vec![vec![8]], return_dist)
    }
}

impl RerankSearch<u32> for EchoWith {
    fn query_row_reranking(
        &self,
        row: &RowView<'_, u32>,
        k: usize,
        params: Option<usize>,
        rerank_factor: Option<usize>,
    ) -> KnnResult<u32> {
        echo(row, k, params.unwrap_or(99) * rerank_factor.unwrap_or(2))
    }
}

/// A pair of parameters.
struct EchoPair;

impl SelfSearch<u32> for EchoPair {
    type SelfParams = (Option<usize>, Option<usize>);
    fn generate_knn(
        &self,
        k: usize,
        params: (Option<usize>, Option<usize>),
        return_dist: bool,
        _: bool,
    ) -> KnnOptionResult<u32> {
        Ok(keep_distances(
            vec![vec![k, params.0.unwrap_or(99), params.1.unwrap_or(98)]],
            vec![vec![7]],
            return_dist,
        ))
    }
}

impl TurboSearch<u32> for EchoPair {
    fn query_batch(
        &self,
        query_mat: &MatView<'_, u32>,
        k: usize,
        params: TurboParams,
        return_dist: bool,
        _: bool,
    ) -> KnnOptionResult<u32> {
        let row = vec![
            query_mat.nrows,
            k,
            params.nprobe.unwrap_or(97),
            usize::from(params.rerank),
            params.rerank_factor.unwrap_or(98),
        ];
        Ok(keep_distances(vec![row], vec![vec![7]], return_dist))
    }
}

fn rows() -> Vec<u32> {
    vec![10, 11, 20, 21, 30, 31]
}

#[test]
fn names_of_metrics() {
    assert_eq!(parse_ann_dist("euclidean"), Some(Dist::SquaredEuclidean));
    assert_eq!(parse_ann_dist("cosine"), Some(Dist::Cosine));
    assert_eq!(parse_ann_dist("manhattan"), Some(Dist::Manhattan));
    assert_eq!(parse_ann_dist("manhatten"), Some(Dist::Manhattan));
    assert_eq!(parse_ann_dist("cosin"), None);
    assert_eq!(parse_ann_dist(""), None);
    assert_eq!(resolve_metric("weird"), Dist::SquaredEuclidean);
    assert_eq!(resolve_metric("cosine"), Dist::Cosine);
    assert_eq!(Dist::default(), Dist::SquaredEuclidean);
}

#[test]
fn parallel_queries_keep_their_order() {
    let f = |i: usize| -> KnnResult<u32> { Ok((vec![i, i * i], vec![i as u32 + 1])) };
    let (indices, distances) = query_parallel(500, true, f).unwrap();
    assert_eq!(indices.len(), 500);
    for i in 0..500 {
        assert_eq!(indices[i], vec![i, i * i]);
    }
    assert_eq!(distances.unwrap()[499], vec![500]);
    assert_eq!(query_parallel(3, false, f).unwrap().1, None);
    assert_eq!(query_parallel(0, true, f), Ok((vec![], Some(vec![]))));
}

#[test]
fn a_failing_query_fails_all() {
    let f = |i: usize| -> KnnResult<u32> {
        if i == 77 {
            Err(WRONG)
        } else {
            Ok((vec![i], vec![]))
        }
    };
    assert_eq!(query_parallel(100, true, f), Err(WRONG));
    assert!(query_parallel(77, true, f).is_ok());
}

#[test]
fn flags_are_counted() {
    let flagged = |limit: usize| {
        move |i: usize| -> Result<(Vec<usize>, Vec<u32>, bool), AnnSearchErrors> {
            Ok((vec![i], vec![i as u32], i < limit))
        }
    };
    // One in a hundred is not more than one in a hundred.
    let (indices, distances, many) = query_parallel_with_flags(200, true, flagged(2)).unwrap();
    assert_eq!(indices[150], vec![150]);
    assert_eq!(distances.unwrap()[150], vec![150]);
    assert!(!many);
    assert!(query_parallel_with_flags(200, false, flagged(3)).unwrap().2);
    assert!(!query_parallel_with_flags(0, false, flagged(3)).unwrap().2);
}

#[test]
fn results_are_parted() {
    let results = vec![(vec![1], vec![10u32]), (vec![2], vec![20])];
    assert_eq!(
        split_results(results.clone(), true),
        (vec![vec![1], vec![2]], Some(vec![vec![10], vec![20]]))
    );
    assert_eq!(split_results(results, false), (vec![vec![1], vec![2]], None));
    assert_eq!(
        split_flagged(vec![(vec![1], vec![10u32], true)], true),
        (vec![vec![1]], Some(vec![vec![10]]), true)
    );
}

#[test]
fn reports_are_due_every_hundred_thousand() {
    assert!(progress_due(100_000));
    assert!(progress_due(300_000));
    assert!(!progress_due(100_001));
}

#[test]
fn indices_get_their_metric_and_settings() {
    let data = rows();
    let mat = view(&data, 3, 2);
    let a: Built<()> = build_exhaustive_index(&mat, "manhattan");
    assert_eq!((a.rows, a.metric), (3, Some(Dist::Manhattan)));
    let a: Built<ClusterSettings<u8>> =
        build_kmknn_index(&mat, "cosine", Some(5), Some(7u8), 11, true).unwrap();
    assert_eq!(a.metric, Some(Dist::Cosine));
    assert_eq!(a.settings.nlist, Some(5));
    assert_eq!(a.settings.k_means_params, Some(7));
    assert_eq!((a.settings.seed, a.settings.verbose), (11, true));
    let a: Result<Built<ClusterSettings<u8>>, _> =
        build_ivf_index(&mat, None, None, "manhatten", 11, false);
    assert_eq!(
        a.err(),
        Some(AnnSearchErrors::DistanceNotSupported(Dist::Manhattan))
    );
    let a: Built<ForestSettings> = build_annoy_index(&mat, "odd", 9, 3).unwrap();
    assert_eq!(a.metric, Some(Dist::SquaredEuclidean));
    assert_eq!((a.settings.n_trees, a.settings.seed), (9, 3));
    let a: Built<usize> = build_balltree_index(&mat, "cosine", 3).unwrap();
    assert_eq!(a.settings, 3);
    let a: Built<ForestSettings> = build_kd_tree_index(&mat, "cosine", 8, 4);
    assert_eq!((a.settings.n_trees, a.settings.seed), (8, 4));
    let a: Built<HashSettings> = build_lsh_index(&mat, "cosine", 1, 2, 3).unwrap();
    assert_eq!(
        (
            a.settings.num_tables,
            a.settings.bits_per_hash,
            a.settings.seed
        ),
        (1, 2, 3)
    );
    let a: Built<DescentSettings<u32>> = build_nndescent_index(
        &mat,
        "cosine",
        1,
        2,
        Some(3),
        Some(4),
        Some(5),
        Some(6),
        7,
        false,
    )
    .unwrap();
    assert_eq!((a.settings.delta, a.settings.diversify_prob), (1, 2));
    assert_eq!((a.settings.k, a.settings.max_iter), (Some(3), Some(4)));
    assert_eq!((a.settings.max_candidates, a.settings.n_tree), (Some(5), Some(6)));
    let a: Built<VamanaSettings<u8>> = build_vamana_index(&mat, 1, 2, 3, 4, "cosine", 5);
    assert_eq!((a.settings.r, a.settings.l_build, a.settings.seed), (1, 2, 5));
    assert_eq!((a.settings.alpha_pass1, a.settings.alpha_pass2), (3, 4));
}

#[test]
fn quantised_indices_get_their_metric_and_settings() {
    let data = rows();
    let mat = view(&data, 3, 2);
    let a: Built<()> = build_exhaustive_bf16_index(&mat, "cosine").unwrap();
    assert_eq!(a.metric, Some(Dist::Cosine));
    let a: Built<()> = build_exhaustive_sq8_index(&mat, "cosine").unwrap();
    assert_eq!(a.metric, Some(Dist::Cosine));
    let a: Built<ProductSettings> =
        build_exhaustive_pq_index(&mat, 1, Some(2), Some(3), "cosine", 4, true).unwrap();
    assert_eq!((a.settings.m, a.settings.max_iters), (1, Some(2)));
    assert_eq!((a.settings.n_pq_centroids, a.settings.seed), (Some(3), 4));
    let a: Built<ProductSettings> =
        build_exhaustive_opq_index(&mat, 1, Some(2), Some(3), "cosine", 4, true).unwrap();
    assert_eq!((a.settings.m, a.settings.verbose), (1, true));
    let a: Built<ClusterSettings<u8>> =
        build_ivf_bf16_index(&mat, Some(1), Some(2), "cosine", 3, false).unwrap();
    assert_eq!((a.settings.nlist, a.settings.seed), (Some(1), 3));
    let a: Built<ClusterSettings<u8>> =
        build_ivf_sq8_index(&mat, Some(1), Some(2), "cosine", 3, false).unwrap();
    assert_eq!((a.settings.nlist, a.settings.seed), (Some(1), 3));
    let a: Built<ClusterProductSettings<u8>> =
        build_ivf_pq_index(&mat, Some(1), 2, Some(3), Some(4), "cosine", 5, false).unwrap();
    assert_eq!((a.settings.m, a.settings.n_pq_centroids), (2, Some(4)));
    let a: Built<ClusterRotatedSettings<u8>> = build_ivf_opq_index(
        &mat,
        Some(1),
        2,
        Some(3),
        Some(4),
        Some(5),
        "cosine",
        6,
        false,
    )
    .unwrap();
    assert_eq!(
        (a.settings.n_opq_centroids, a.settings.n_opq_iter),
        (Some(4), Some(5))
    );
}

#[test]
fn rows_are_answered_in_order() {
    let data = rows();
    let mat = view(&data, 3, 2);
    let expected = Ok((
        vec![vec![10, 4, 0], vec![20, 4, 0], vec![30, 4, 0]],
        Some(vec![vec![11], vec![21], vec![31]]),
    ));
    assert_eq!(query_exhaustive_index(&mat, &Echo, 4, true), expected);
    assert_eq!(query_kmknn_index(&mat, &Echo, 4, true), expected);
    assert_eq!(query_exhaustive_bf16_index(&mat, &Echo, 4, true), expected);
    assert_eq!(query_exhaustive_sq8_index(&mat, &Echo, 4, true), expected);
    assert_eq!(query_exhaustive_pq_index(&mat, &Echo, 4, true), expected);
    assert_eq!(query_exhaustive_opq_index(&mat, &Echo, 4, true), expected);
    let with = EchoWith { asymmetric: false };
    let expected = Ok((vec![vec![10, 4, 6], vec![20, 4, 6], vec![30, 4, 6]], None));
    assert_eq!(query_annoy_index(&mat, &with, 4, Some(6), false), expected);
    assert_eq!(query_balltree_index(&mat, &with, 4, Some(6), false), expected);
    assert_eq!(query_ivf_index(&mat, &with, 4, Some(6), false), expected);
    assert_eq!(query_kd_tree_index(&mat, &with, 4, Some(6), false), expected);
    assert_eq!(query_nndescent_index(&mat, &with, 4, Some(6), false), expected);
    assert_eq!(query_vamana_index(&mat, &with, 4, Some(6), false), expected);
    assert_eq!(query_ivf_bf16_index(&mat, &with, 4, Some(6), false), expected);
    assert_eq!(query_ivf_sq8_index(&mat, &with, 4, Some(6), false), expected);
    assert_eq!(query_ivf_pq_index(&mat, &with, 4, Some(6), false), expected);
    assert_eq!(query_ivf_opq_index(&mat, &with, 4, Some(6), false), expected);
    // Columns may stand apart, as in a matrix that is laid out column by column.
    let columns = MatView {
        data: &[10, 20, 30, 11, 21, 31],
        nrows: 3,
        ncols: 2,
        row_stride: 1,
        col_stride: 3,
    };
    assert_eq!(
        query_exhaustive_index(&columns, &Echo, 4, true),
        query_exhaustive_index(&mat, &Echo, 4, true)
    );
    assert_eq!(
        query_exhaustive_index(&view(&data, 2, 3), &Echo, 4, true),
        Err(WRONG)
    );
}

#[test]
fn self_queries_are_handed_on() {
    let expected = Ok((vec![vec![4]], Some(vec![vec![7]])));
    assert_eq!(query_exhaustive_self(&Echo, 4, true, false), expected);
    assert_eq!(query_kmknn_self(&Echo, 4, true, false), expected);
    assert_eq!(query_exhaustive_pq_index_self(&Echo, 4, true, false), expected);
    assert_eq!(query_exhaustive_opq_index_self(&Echo, 4, true, false), expected);
    assert_eq!(query_exhaustive_index_gpu_self(&Echo, 4, true, false), expected);
    assert_eq!(query_kmknn_self(&Echo, 4, true, true), Err(WRONG));
    let expected = Ok((vec![vec![4, 1]], None));
    assert_eq!(query_exhaustive_bf16_self(&Echo, 4, false, false), expected);
    assert_eq!(query_exhaustive_sq8_self(&Echo, 4, false, false), expected);
    let with = EchoWith { asymmetric: false };
    let expected = Ok((vec![vec![4, 6]], Some(vec![vec![7]])));
    assert_eq!(query_annoy_self(&with, 4, Some(6), true, false), expected);
    assert_eq!(query_balltree_self(&with, 4, Some(6), true, false), expected);
    assert_eq!(query_ivf_self(&with, 4, Some(6), true, false), expected);
    assert_eq!(query_kd_tree_self(&with, 4, Some(6), true, false), expected);
    assert_eq!(query_nndescent_self(&with, 4, Some(6), true, false), expected);
    assert_eq!(query_vamana_self(&with, 4, Some(6), true, false), expected);
    assert_eq!(query_ivf_pq_index_self(&with, 4, Some(6), true, false), expected);
    assert_eq!(query_ivf_opq_index_self(&with, 4, Some(6), true, false), expected);
    assert_eq!(
        query_exhaustive_index_binary_self(&with, 4, Some(6), true, false),
        expected
    );
    assert_eq!(
        query_exhaustive_index_turboquant_self(&with, 4, Some(6), true, false),
        expected
    );
    let expected = Ok((vec![vec![4, 6]], Some(vec![vec![8]])));
    assert_eq!(query_ivf_bf16_self(&with, 4, Some(6), true, false), expected);
    assert_eq!(query_ivf_sq8_self(&with, 4, Some(6), true, false), expected);
    let expected = Ok((vec![vec![4, 6, 5]], None));
    let (a, b) = (Some(6), Some(5));
    assert_eq!(query_ivf_index_binary_self(&EchoPair, 4, a, b, false, false), expected);
    assert_eq!(query_exhaustive_index_rabitq_self(&EchoPair, 4, a, b, false, false), expected);
    assert_eq!(query_ivf_index_rabitq_self(&EchoPair, 4, a, b, false, false), expected);
    assert_eq!(query_ivf_index_turboquant_self(&EchoPair, 4, a, b, false, false), expected);
}

/// A hash index with eight bits.
struct Hash;

impl HashSearch<u32> for Hash {
    fn num_bits(&self) -> usize {
        8
    }
    fn query_row(
        &self,
        row: &RowView<'_, u32>,
        k: usize,
        params: HashParams,
    ) -> Result<(Vec<usize>, Vec<u32>, bool), AnnSearchErrors> {
        let (indices, distances) = echo(row, k, params.n_probe)?;
        let missed = params.max_candidates.is_none() && indices[0] == 10;
        Ok((indices, distances, missed))
    }
    fn generate_knn(
        &self,
        k: usize,
        params: HashParams,
        return_dist: bool,
        _: bool,
    ) -> (Vec<Vec<usize>>, Option<Vec<Vec<u32>>>) {
        keep_distances(vec![vec![k, params.n_probe]], vec![vec![7]], return_dist)
    }
}

#[test]
fn hash_queries_tell_about_missed_buckets() {
    let data = rows();
    let mat = view(&data, 3, 2);
    let (indices, _, many) = query_lsh_index(&mat, &Hash, 4, 2, None, true).unwrap();
    assert_eq!(indices[2], vec![30, 4, 2]);
    assert!(many);
    assert!(!query_lsh_index(&mat, &Hash, 4, 2, Some(9), true).unwrap().2);
    assert_eq!(
        query_lsh_index(&view(&data, 2, 3), &Hash, 4, 2, None, true),
        Err(WRONG)
    );
    assert_eq!(
        query_lsh_self(&Hash, 5, None, None, true, false),
        Ok((vec![vec![5, 4]], Some(vec![vec![7]])))
    );
    assert_eq!(
        query_lsh_self(&Hash, 5, Some(1), None, false, false),
        Ok((vec![vec![5, 1]], None))
    );
}

/// An index on a device.
struct Device;

impl BatchSearch<u32> for Device {
    type BatchParams = ();
    fn query_batch(
        &self,
        query_mat: &MatView<'_, u32>,
        k: usize,
        _: (),
        verbose: bool,
    ) -> KnnBatchResult<u32> {
        if verbose {
            return Err(WRONG);
        }
        Ok((vec![vec![query_mat.nrows, k]], vec![vec![7]]))
    }
}

/// An index over clusters on a device.
struct DeviceClusters;

impl BatchSearch<u32> for DeviceClusters {
    type BatchParams = DeviceClusterParams;
    fn query_batch(
        &self,
        _: &MatView<'_, u32>,
        k: usize,
        params: DeviceClusterParams,
        _: bool,
    ) -> KnnBatchResult<u32> {
        Ok((
            vec![vec![k, params.nprobe.unwrap_or(99), params.nquery.unwrap_or(98)]],
            vec![vec![7]],
        ))
    }
}

impl SelfSearch<u32> for DeviceClusters {
    type SelfParams = DeviceClusterParams;
    fn generate_knn(
        &self,
        k: usize,
        params: DeviceClusterParams,
        return_dist: bool,
        _: bool,
    ) -> KnnOptionResult<u32> {
        let row = vec![k, params.nprobe.unwrap_or(99), params.nquery.unwrap_or(98)];
        Ok(keep_distances(vec![row], vec![vec![7]], return_dist))
    }
}

/// A graph on a device.
struct DeviceGraph;

impl RowSearch<u32> for DeviceGraph {
    type Params = Option<usize>;
    fn query_row(
        &self,
        row: &RowView<'_, u32>,
        k: usize,
        params: Option<usize>,
    ) -> KnnResult<u32> {
        echo(row, k, params.unwrap_or(99))
    }
}

impl DeviceDescent<u32> for DeviceGraph {
    type SearchParams = u8;
    fn query_batch_gpu(
        &self,
        queries_flat: &[u32],
        n_queries: usize,
        query_params: Option<u8>,
        k: usize,
        seed: usize,
    ) -> KnnBatchResult<u32> {
        let sum: u32 = queries_flat.iter().sum();
        let params = usize::from(query_params.unwrap_or(9));
        Ok((vec![vec![n_queries, params, k, seed]], vec![vec![sum]]))
    }
    fn self_query_gpu(
        &self,
        k: usize,
        query_params: Option<u8>,
        seed: usize,
    ) -> KnnBatchResult<u32> {
        if query_params.is_none() {
            return Err(WRONG);
        }
        Ok((vec![vec![k, seed]], vec![vec![7]]))
    }
    fn extract_knn(&self, return_dist: bool) -> (Vec<Vec<usize>>, Option<Vec<Vec<u32>>>) {
        keep_distances(vec![vec![1]], vec![vec![2]], return_dist)
    }
}

#[test]
fn device_queries() {
    let data = rows();
    let mat = view(&data, 3, 2);
    let a: Built<u8> = build_exhaustive_index_gpu(&mat, "cosine", 5u8).unwrap();
    assert_eq!((a.metric, a.settings), (Some(Dist::Cosine), 5));
    assert_eq!(
        query_exhaustive_index_gpu(&mat, &Device, 4, true, false),
        Ok((vec![vec![3, 4]], Some(vec![vec![7]])))
    );
    assert_eq!(
        query_exhaustive_index_gpu(&mat, &Device, 4, false, false),
        Ok((vec![vec![3, 4]], None))
    );
    assert_eq!(
        query_exhaustive_index_gpu(&mat, &Device, 4, false, true),
        Err(WRONG)
    );
    let a: Built<DeviceClusterSettings<u8, char>> =
        build_ivf_index_gpu(&mat, Some(1), Some(2), "cosine", 3, true, 'x').unwrap();
    assert_eq!(a.settings.clusters.nlist, Some(1));
    assert_eq!(a.settings.device, 'x');
    assert_eq!(
        query_ivf_index_gpu(&mat, &DeviceClusters, 4, Some(5), None, true, false),
        Ok((vec![vec![4, 5, 98]], Some(vec![vec![7]])))
    );
    assert_eq!(
        query_ivf_index_gpu_self(&DeviceClusters, 4, None, Some(6), false, false),
        Ok((vec![vec![4, 99, 6]], None))
    );
    let a: Built<DeviceDescentSettings<u8, char>> = build_nndescent_index_gpu(
        &mat,
        "cosine",
        Some(1),
        Some(2),
        Some(3),
        Some(4),
        Some(5),
        Some(6),
        Some(7),
        8,
        false,
        true,
        'y',
    )
    .unwrap();
    assert_eq!((a.settings.k, a.settings.build_k), (Some(1), Some(2)));
    assert_eq!((a.settings.delta, a.settings.rho), (Some(5), Some(6)));
    assert_eq!((a.settings.retain_gpu, a.settings.device), (true, 'y'));
}

#[test]
fn many_rows_go_to_the_device() {
    let data: Vec<u32> = (0..64).collect();
    let mat = view(&data, 32, 2);
    assert_eq!(
        query_nndescent_index_gpu(&mat, &DeviceGraph, 4, None, Some(3), true),
        Ok((vec![vec![32, 3, 4, 42]], Some(vec![vec![2016]])))
    );
    // Fewer rows, or a search width, are for the CPU.
    let (indices, _) = query_nndescent_index_gpu(&mat, &DeviceGraph, 4, Some(8), None, true).unwrap();
    assert_eq!(indices[31], vec![62, 4, 8]);
    let few = view(&data, 31, 2);
    let (indices, distances) =
        query_nndescent_index_gpu(&few, &DeviceGraph, 4, None, None, false).unwrap();
    assert_eq!(indices[30], vec![60, 4, 99]);
    assert_eq!(distances, None);
    assert_eq!(
        extract_nndescent_knn_gpu(&DeviceGraph, true),
        (vec![vec![1]], Some(vec![vec![2]]))
    );
    assert_eq!(
        query_nndescent_index_gpu_self(&DeviceGraph, 4, Some(1), true),
        Ok((vec![vec![4, 42]], Some(vec![vec![7]])))
    );
    assert_eq!(
        query_nndescent_index_gpu_self(&DeviceGraph, 4, None, true),
        Err(WRONG)
    );
}

/// A binary index over numbers.
struct BinaryEcho {
    asymmetric: bool,
}

fn echo_f32(row: &RowView<'_, F32>, extra: usize) -> KnnResult<F32> {
    let values = row.to_vec();
    Ok((vec![values[0].0 as usize, extra], vec![values[1]]))
}

impl BinarySearch<F32> for BinaryEcho {
    type Params = Option<usize>;
    fn use_asymmetric(&self) -> bool {
        self.asymmetric
    }
    fn query_row(
        &self,
        row: &RowView<'_, F32>,
        k: usize,
        params: Option<usize>,
    ) -> KnnResult<u32> {
        if k == 0 {
            return Err(WRONG);
        }
        Ok((
            vec![row.to_vec()[0].0 as usize, params.unwrap_or(99)],
            vec![k as u32],
        ))
    }
    fn query_row_asymmetric(
        &self,
        row: &RowView<'_, F32>,
        _: usize,
        params: Option<usize>,
        rerank_factor: Option<usize>,
    ) -> KnnResult<F32> {
        echo_f32(row, 100 + params.unwrap_or(99) * rerank_factor.unwrap_or(1))
    }
    fn query_row_reranking(
        &self,
        row: &RowView<'_, F32>,
        _: usize,
        params: Option<usize>,
        rerank_factor: Option<usize>,
    ) -> KnnResult<F32> {
        echo_f32(row, 1000 + params.unwrap_or(99) * rerank_factor.unwrap_or(1))
    }
}

/// A binary index without parameters.
struct PlainBinary;

impl BinarySearch<F32> for PlainBinary {
    type Params = ();
    fn use_asymmetric(&self) -> bool {
        false
    }
    fn query_row(&self, row: &RowView<'_, F32>, k: usize, _: ()) -> KnnResult<u32> {
        Ok((vec![row.to_vec()[0].0 as usize], vec![k as u32]))
    }
    fn query_row_asymmetric(
        &self,
        _: &RowView<'_, F32>,
        _: usize,
        _: (),
        _: Option<usize>,
    ) -> KnnResult<F32> {
        Err(WRONG)
    }
    fn query_row_reranking(
        &self,
        row: &RowView<'_, F32>,
        _: usize,
        _: (),
        rerank_factor: Option<usize>,
    ) -> KnnResult<F32> {
        echo_f32(row, rerank_factor.unwrap_or(1))
    }
}

#[test]
fn binary_queries_choose_their_search() {
    let data: Vec<F32> = [10.0, 11.0, 20.0, 21.0].iter().map(|v| F32(*v)).collect();
    let mat = view(&data, 2, 2);
    let plain = BinaryEcho { asymmetric: false };
    let asymmetric = BinaryEcho { asymmetric: true };
    // By exact distances, whatever the index can do.
    assert_eq!(
        query_ivf_index_binary(&mat, &plain, 4, Some(3), true, Some(2), true),
        Ok((
            vec![vec![10, 1006], vec![20, 1006]],
            Some(vec![vec![F32(11.0)], vec![F32(21.0)]])
        ))
    );
    assert_eq!(
        query_ivf_index_binary(&mat, &asymmetric, 4, Some(3), true, Some(2), true),
        query_ivf_index_binary(&mat, &plain, 4, Some(3), true, Some(2), true)
    );
    // Without bits of the query where the index can do so.
    assert_eq!(
        query_ivf_index_binary(&mat, &asymmetric, 4, Some(3), false, Some(2), false),
        Ok((vec![vec![10, 103], vec![20, 103]], None))
    );
    assert_eq!(
        query_ivf_index_binary(&mat, &asymmetric, 4, Some(3), false, Some(7), false),
        query_ivf_index_binary(&mat, &asymmetric, 4, Some(3), false, None, false)
    );
    // By counts otherwise.
    assert_eq!(
        query_ivf_index_binary(&mat, &plain, 4, Some(3), false, Some(2), true),
        Ok((
            vec![vec![10, 3], vec![20, 3]],
            Some(vec![vec![F32(4.0)], vec![F32(4.0)]])
        ))
    );
    assert_eq!(
        query_ivf_index_binary(&mat, &plain, 0, Some(3), false, Some(2), true),
        Err(WRONG)
    );
    assert_eq!(
        query_exhaustive_index_binary(&mat, &PlainBinary, 4, false, None, true),
        Ok((
            vec![vec![10], vec![20]],
            Some(vec![vec![F32(4.0)], vec![F32(4.0)]])
        ))
    );
    assert_eq!(
        query_exhaustive_index_binary(&mat, &PlainBinary, 4, true, Some(5), false),
        Ok((vec![vec![10, 5], vec![20, 5]], None))
    );
    assert_eq!(
        convert_counts::<F32>(&vec![0, 3]),
        vec![F32(0.0), F32(3.0)]
    );
}

#[test]
fn reranking_queries() {
    let data = rows();
    let mat = view(&data, 3, 2);
    let with = EchoWith { asymmetric: true };
    assert!(with.asymmetric);
    let plain = Ok((vec![vec![10, 4, 6], vec![20, 4, 6], vec![30, 4, 6]], None));
    let reranked = Ok((vec![vec![10, 4, 18], vec![20, 4, 18], vec![30, 4, 18]], None));
    let (a, b) = (Some(6), Some(3));
    assert_eq!(query_ivf_index_rabitq(&mat, &with, 4, a, false, b, false), plain);
    assert_eq!(query_ivf_index_rabitq(&mat, &with, 4, a, true, b, false), reranked);
    assert_eq!(query_exhaustive_index_rabitq(&mat, &with, 4, a, false, b, false), plain);
    assert_eq!(query_exhaustive_index_rabitq(&mat, &with, 4, a, true, b, false), reranked);
    assert_eq!(
        query_exhaustive_index_turboquant(&mat, &EchoPair, 4, true, b, true, false),
        Ok((vec![vec![3, 4, 97, 1, 3]], Some(vec![vec![7]])))
    );
    assert_eq!(
        query_ivf_index_turboquant(&mat, &EchoPair, 4, a, false, None, false, false),
        Ok((vec![vec![3, 4, 6, 0, 98]], None))
    );
    assert_eq!(
        query_ivf_index_turboquant(&mat, &EchoPair, 4, a, false, b, false, false),
        query_ivf_index_turboquant(&mat, &EchoPair, 4, a, false, None, false, false)
    );
    assert_eq!(
        query_exhaustive_index_turboquant(&mat, &EchoPair, 4, false, b, true, false),
        query_exhaustive_index_turboquant(&mat, &EchoPair, 4, false, None, true, false)
    );
}

#[test]
fn vectors_are_stored_where_this_is_asked_for() {
    let data = rows();
    let mat = view(&data, 3, 2);
    let a: Bits =
        build_exhaustive_index_binary(&mat, 64, 3, "itq", "cosine", true, Some("here")).unwrap();
    assert_eq!((a.n_bits, a.metric), (64, Some(Dist::Cosine)));
    assert_eq!((a.init.as_str(), a.path.as_deref()), ("itq", Some("here")));
    let a: Bits = build_exhaustive_index_binary(&mat, 64, 3, "itq", "cosine", false, None).unwrap();
    assert_eq!((a.n_bits, a.metric, a.path), (67, None, None));
    let a: Built<ClusterBinarySettings<'_, u8>> = build_ivf_index_binary(
        &mat,
        "random",
        32,
        Some(1),
        Some(2),
        "cosine",
        3,
        true,
        Some("there"),
        false,
    )
    .unwrap();
    assert_eq!(a.settings.binarisation_init, "random");
    assert_eq!((a.settings.n_bits, a.settings.nlist), (32, Some(1)));
    assert_eq!(a.path.as_deref(), Some("there"));
    let a: Built<RaBitQSettings> =
        build_exhaustive_index_rabitq(&mat, Some(4), "cosine", 5, false, Some("unused")).unwrap();
    assert_eq!((a.settings.n_clust_rabitq, a.settings.seed), (Some(4), 5));
    assert_eq!(a.path, None);
    let a: Built<ClusterSettings<u8>> =
        build_ivf_index_rabitq(&mat, Some(1), Some(2), "cosine", 3, true, Some("p"), false)
            .unwrap();
    assert_eq!((a.settings.nlist, a.path.as_deref()), (Some(1), Some("p")));
    let a: Built<TurboSettings> =
        build_exhaustive_index_turboquant(&mat, "cosine", 4, 5, false, None).unwrap();
    assert_eq!((a.settings.bits, a.settings.seed), (4, 5));
    let a: Built<ClusterTurboSettings<u8>> =
        build_ivf_index_turboquant(&mat, Some(1), Some(2), "cosine", 4, 5, true, Some("q"), true)
            .unwrap();
    assert_eq!((a.settings.bits, a.settings.clusters.seed), (4, 5));
    assert_eq!(a.path.as_deref(), Some("q"));
}

#[test]
fn hnsw_entry_points() {
    let data: Vec<F32> = (0..40).map(|i| F32(((i * 7) % 40) as f32)).collect();
    let mat = view(&data, 20, 2);
    let index = build_hnsw_index(&mat, 8, 50, "weird", 1);
    assert_eq!(index.metric(), Dist::SquaredEuclidean);
    let (indices, distances) = query_hnsw_index(&mat, &index, 3, 30, true).unwrap();
    let (own, own_distances) = query_hnsw_self(&index, 3, 30, true).unwrap();
    assert_eq!(indices, own);
    assert_eq!(distances, own_distances);
    for i in 0..20 {
        assert_eq!(indices[i][0], i);
    }
    assert_eq!(
        query_hnsw_index(&view(&data, 10, 4), &index, 3, 30, true),
        Err(AnnSearchErrors::DimensionMismatch {
            expected: 2,
            actual: 4
        })
    );
    assert_eq!(
        query_hnsw_index(&view(&data, 0, 4), &index, 3, 30, false),
        Ok((vec![], None))
    );
    let small = build_hnsw_sq8_index(&mat, 8, 50, 1);
    assert!(small.vectors_flat.is_empty());
    assert!(small.sq8_stats().is_some());
    assert_eq!(query_hnsw_self(&small, 1, 30, false).unwrap().0[5], vec![5]);
}
