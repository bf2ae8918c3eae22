use ann_search::errors::AnnSearchErrors;
use ann_search::gpu::ivf_gpu::{plan_build, row_norms, BuildPlan, IvfIndexGpu, QueryPlan};
use ann_search::gpu::launch::{plan_centroid_launch, plan_launch, LaunchPlan};
use ann_search::gpu::partition::reorganise_by_cluster;
use ann_search::gpu::probe::select_probed_clusters;
use ann_search::gpu::query_run::{batch_report_due, n_batches, QueryRun};
use ann_search::gpu::tasks::{build_tasks, TaskList};
use ann_search::utils::dist::Dist;
use ann_search::utils::float::{AnnSearchFloat, Real};
use ann_search::utils::math::{div_ceil, isqrt, next_multiple_of};
use ann_search::utils::matrix::{matrix_to_flat, pad_vectors, MatView};

/// Single precision numbers.
#[derive(Clone, Copy, Debug, PartialEq)]
struct F32(f32);

impl Real for F32 {
    fn order_key(self) -> u64 {
        if self.0.is_nan() {
            return u64::MAX;
        }
        let value = if self.0 == 0.0 { 0.0_f32 } else { self.0 };
        let bits = value.to_bits();
        if bits >> 31 == 1 {
            u64::from(!bits)
        } else {
            u64::from(bits | 0x8000_0000)
        }
    }
    fn is_number(self) -> bool {
        !self.0.is_nan()
    }
    fn zero() -> Self {
        F32(0.0)
    }
    fn one() -> Self {
        F32(1.0)
    }
    fn plus(self, other: Self) -> Self {
        F32(self.0 + other.0)
    }
    fn times(self, other: Self) -> Self {
        F32(self.0 * other.0)
    }
    fn over(self, other: Self) -> Self {
        F32(self.0 / other.0)
    }
    fn larger(self, other: Self) -> Self {
        F32(self.0.max(other.0))
    }
    fn sqrt(self) -> Self {
        F32(self.0.sqrt())
    }
    fn abs(self) -> Self {
        F32(self.0.abs())
    }
    fn ln(self) -> Self {
        F32(self.0.ln())
    }
    fn neg(self) -> Self {
        F32(-self.0)
    }
    fn of_int(v: i32) -> Self {
        F32(v as f32)
    }
    fn of_u32(v: u32) -> Self {
        F32(v as f32)
    }
    fn of_size(v: usize) -> Self {
        F32(v as f32)
    }
    fn of_unit(v: u64) -> Self {
        F32((v as f64 / 9_007_199_254_740_992.0) as f32)
    }
    fn rounded(self) -> i32 {
        self.0.round() as i32
    }
    fn truncated(self) -> usize {
        self.0 as usize
    }
    fn floor_u8(self) -> Option<u8> {
        let floor = self.0.floor();
        if (0.0..256.0).contains(&floor) {
            Some(floor as u8)
        } else {
            None
        }
    }
}

impl AnnSearchFloat for F32 {
    type Narrow = F32;

    fn narrow(self) -> F32 {
        self
    }
    fn widen(v: F32) -> Self {
        v
    }
    fn euclidean_simd(a: &[Self], b: &[Self]) -> Self {
        F32(a.iter().zip(b).map(|(x, y)| (x.0 - y.0) * (x.0 - y.0)).sum())
    }
    fn cosine_simd(a: &[Self], b: &[Self], norm_a: Self, norm_b: Self) -> Self {
        let dot: f32 = a.iter().zip(b).map(|(x, y)| x.0 * y.0).sum();
        F32(1.0 - dot / (norm_a.0 * norm_b.0))
    }
    fn manhattan_simd(a: &[Self], b: &[Self]) -> Self {
        F32(a.iter().zip(b).map(|(x, y)| (x.0 - y.0).abs()).sum())
    }
    fn unset_distance() -> Self {
        F32(f32::MAX)
    }
    fn calculate_l2_norm(a: &[Self]) -> Self {
        F32(a.iter().map(|x| x.0 * x.0).sum::<f32>().sqrt())
    }
}

fn numbers(values: &[f32]) -> Vec<F32> {
    values.iter().map(|v| F32(*v)).collect()
}

fn mat_from_fn(nrows: usize, ncols: usize, f: impl Fn(usize, usize) -> f32) -> Vec<F32> {
    let mut data = Vec::new();
    for i in 0..nrows {
        for j in 0..ncols {
            data.push(F32(f(i, j)));
        }
    }
    data
}

fn view(data: &[F32], nrows: usize, ncols: usize) -> MatView<'_, F32> {
    MatView {
        data,
        nrows,
        ncols,
        row_stride: ncols,
        col_stride: 1,
    }
}

fn distance(metric: Dist, a: &[F32], b: &[F32]) -> F32 {
    match metric {
        Dist::Cosine => F32::cosine_simd(
            a,
            b,
            F32::calculate_l2_norm(a),
            F32::calculate_l2_norm(b),
        ),
        _ => F32::euclidean_simd(a, b),
    }
}

/// A few rounds of k-means from evenly spread vectors.
fn train(flat: &[F32], n: usize, dim: usize, nlist: usize, metric: Dist) -> (Vec<F32>, Vec<usize>) {
    let mut centroids: Vec<F32> = Vec::new();
    for c in 0..nlist {
        let at = c * n / nlist;
        centroids.extend_from_slice(&flat[at * dim..(at + 1) * dim]);
    }
    let mut assignments = vec![0; n];
    for _ in 0..10 {
        for i in 0..n {
            let row = &flat[i * dim..(i + 1) * dim];
            assignments[i] = (0..nlist)
                .min_by_key(|&c| {
                    distance(metric, row, &centroids[c * dim..(c + 1) * dim]).order_key()
                })
                .unwrap();
        }
        for c in 0..nlist {
            let members: Vec<usize> = (0..n).filter(|&i| assignments[i] == c).collect();
            if members.is_empty() {
                continue;
            }
            for d in 0..dim {
                let sum: f32 = members.iter().map(|&i| flat[i * dim + d].0).sum();
                centroids[c * dim + d] = F32(sum / members.len() as f32);
            }
        }
    }
    (centroids, assignments)
}

fn build(
    mat: &[F32],
    n: usize,
    dim: usize,
    metric: Dist,
    nlist: Option<usize>,
) -> Result<IvfIndexGpu<F32>, AnnSearchErrors> {
    let (flat, n, dim) = matrix_to_flat(&view(mat, n, dim));
    let plan = plan_build(n, dim, metric, nlist, 4)?;
    let (centroids, assignments) = train(&flat, n, dim, plan.nlist, metric);
    Ok(IvfIndexGpu::from_assignments(
        &flat,
        n,
        dim,
        &plan,
        &centroids,
        &assignments,
        metric,
    ))
}

/// Distances of queries to all centroids.
fn centroid_distances(index: &IvfIndexGpu<F32>, queries: &[F32], count: usize) -> Vec<F32> {
    let w = index.dim_padded;
    let mut out = Vec::new();
    for q in 0..count {
        for c in 0..index.nlist {
            out.push(distance(
                index.metric,
                &queries[q * w..(q + 1) * w],
                &index.centroids[c * w..(c + 1) * w],
            ));
        }
    }
    out
}

/// The nearest vectors of every query among its candidates.
fn top_k(
    index: &IvfIndexGpu<F32>,
    queries: &[F32],
    count: usize,
    work: &TaskList,
    k: usize,
) -> (Vec<F32>, Vec<u32>) {
    let w = index.dim_padded;
    let width = work.max_candidates as usize;
    let mut dists = vec![F32::unset_distance(); count * width];
    let mut slots = vec![u32::MAX; count * width];
    for t in 0..work.task_q_idx.len() {
        let q = work.task_q_idx[t] as usize;
        for j in 0..work.task_db_count[t] as usize {
            let db = work.task_db_start[t] as usize + j;
            let at = q * width + work.task_write_offset[t] as usize + j;
            assert_eq!(slots[at], u32::MAX);
            dists[at] = distance(
                index.metric,
                &queries[q * w..(q + 1) * w],
                &index.vectors_cpu[db * w..(db + 1) * w],
            );
            slots[at] = db as u32;
        }
    }
    let mut out_d = Vec::new();
    let mut out_s = Vec::new();
    for q in 0..count {
        let mut order: Vec<usize> = (q * width..(q + 1) * width).collect();
        order.sort_by_key(|&i| dists[i].order_key());
        for i in 0..k {
            if i < order.len() {
                out_d.push(dists[order[i]]);
                out_s.push(slots[order[i]]);
            } else {
                out_d.push(F32::unset_distance());
                out_s.push(u32::MAX);
            }
        }
    }
    (out_d, out_s)
}

fn run(
    index: &IvfIndexGpu<F32>,
    queries: &[F32],
    n_queries: usize,
    plan: QueryPlan,
) -> (Vec<Vec<usize>>, Vec<Vec<F32>>) {
    let w = index.dim_padded;
    let mut state = QueryRun::new(plan, n_queries);
    while let Some((start, end)) = state.next_batch() {
        let batch = &queries[start * w..end * w];
        let dists = centroid_distances(index, batch, end - start);
        if let Some(work) = state.on_centroid_distances(index, &dists) {
            let (d, s) = top_k(index, batch, end - start, &work, plan.k);
            state.on_top_k(index, &d, &s);
        }
    }
    state.finish()
}

fn query_batch(
    index: &IvfIndexGpu<F32>,
    queries: &[F32],
    shape: (usize, usize),
    k: usize,
    nprobe: Option<usize>,
    nquery: Option<usize>,
) -> Result<(Vec<Vec<usize>>, Vec<Vec<F32>>), AnnSearchErrors> {
    let padded = index.prepare_queries(&view(queries, shape.0, shape.1))?;
    let plan = index.plan_query(k, nprobe, nquery);
    Ok(run(index, &padded, shape.0, plan))
}

fn generate_knn(
    index: &IvfIndexGpu<F32>,
    k: usize,
    nprobe: Option<usize>,
    nquery: Option<usize>,
    return_dist: bool,
) -> (Vec<Vec<usize>>, Option<Vec<Vec<F32>>>) {
    let plan = index.plan_self_query(k, nprobe, nquery);
    let (indices, distances) = run(index, &index.vectors_cpu, index.n, plan);
    index.finish_self_query(indices, distances, return_dist)
}

#[test]
fn test_ivf_index_build() {
    // 100 samples, 4 dimensions
    let data = mat_from_fn(100, 4, |i, j| ((i + j) as f32) / 10.0);

    let index = build(&data, 100, 4, Dist::SquaredEuclidean, Some(10)).unwrap();

    assert_eq!(index.dim, 4);
    assert_eq!(index.n, 100);
    assert_eq!(index.nlist, 10);
    assert_eq!(index.cluster_offsets.len(), 11);
}

#[test]
fn test_ivf_index_query() {
    let data = mat_from_fn(50, 4, |i, j| if i % 10 == j { 1.0_f32 } else { 0.1_f32 });

    let index = build(&data, 50, 4, Dist::SquaredEuclidean, Some(5)).unwrap();

    let query = mat_from_fn(3, 4, |i, j| if i == j { 1.0_f32 } else { 0.0_f32 });

    let (indices, distances) = query_batch(&index, &query, (3, 4), 5, Some(3), None).unwrap();

    assert_eq!(indices.len(), 3);
    assert_eq!(distances.len(), 3);
    assert_eq!(indices[0].len(), 5);
}

#[test]
fn test_ivf_index_cosine() {
    let data = mat_from_fn(40, 4, |i, _j| (i as f32 + 1.0) / 10.0);

    let index = build(&data, 40, 4, Dist::Cosine, Some(5)).unwrap();

    let query = mat_from_fn(2, 4, |_, _| 1.0_f32);
    let (indices, distances) = query_batch(&index, &query, (2, 4), 3, Some(2), None).unwrap();

    assert_eq!(indices.len(), 2);
    assert_eq!(indices[0].len(), 3);
    assert!(distances[0][0].0 >= 0.0);
}

#[test]
fn test_ivf_gpu_expands_nprobe_when_probed_cells_underfill_k() {
    // 50 vectors across 20 cells -> avg ~2 per cell. nprobe=1 alone cannot
    // reach k=10; the per-query selection must expand.
    let data = mat_from_fn(50, 4, |i, j| ((i + j) as f32) / 10.0);
    let index = build(&data, 50, 4, Dist::SquaredEuclidean, Some(20)).unwrap();

    let query = mat_from_fn(1, 4, |_, _| 0.0_f32);
    let (indices, distances) = query_batch(&index, &query, (1, 4), 10, Some(1), None).unwrap();

    assert_eq!(indices.len(), 1);
    assert_eq!(indices[0].len(), 10);
    assert_eq!(distances[0].len(), 10);
}

#[test]
fn test_reorganise_by_cluster() {
    let vectors: Vec<F32> = numbers(&[
        1.0, 0.0, 0.0, 0.0, 0.0, 1.0, 0.0, 0.0, 0.0, 0.0, 1.0, 0.0, 0.0, 0.0, 0.0, 1.0,
    ]);
    let assignments = vec![0, 1, 0, 1];

    let (reorg, indices, offsets, _) =
        reorganise_by_cluster(&vectors, 4, 4, &assignments, 2, &Dist::SquaredEuclidean);

    assert_eq!(reorg.len(), 16);
    assert_eq!(indices.len(), 4);
    assert_eq!(offsets.len(), 3);
    assert_eq!(offsets[0], 0);
    assert_eq!(offsets[2], 4);
}

#[test]
fn test_ivf_generate_knn() {
    let data = mat_from_fn(30, 4, |i, j| ((i * 3 + j) as f32) / 20.0);

    let index = build(&data, 30, 4, Dist::SquaredEuclidean, Some(5)).unwrap();

    let (indices, distances) = generate_knn(&index, 4, Some(3), None, true);

    assert_eq!(indices.len(), 30);
    assert!(distances.is_some());
    assert_eq!(distances.unwrap().len(), 30);
}

#[test]
fn test_ivf_generate_knn_clustered() {
    let n = 2000usize;
    let dim = 32usize;
    let n_clusters = 30usize;
    let k = 31usize;

    // Deterministic per-sample cluster + jitter.
    let data = mat_from_fn(n, dim, |i, j| {
        let cluster = (i % n_clusters) as f32;
        let jitter_bits = ((i.wrapping_mul(2654435761) ^ j.wrapping_mul(40503)) & 0xffff) as f32;
        let jitter = (jitter_bits / 65536.0 - 0.5) * 0.3;
        cluster + jitter
    });

    let index = build(&data, n, dim, Dist::SquaredEuclidean, Some(40)).unwrap();

    let (indices, distances) = generate_knn(&index, k, Some(6), None, true);

    assert_eq!(indices.len(), n);
    let distances = distances.unwrap();
    assert_eq!(distances.len(), n);

    for (q, row) in indices.iter().enumerate() {
        assert!(!row.is_empty(), "query {q} returned zero neighbours");
        for &idx in row {
            assert!(
                idx < n,
                "query {q}: OOB neighbour index {idx} (n = {n})"
            );
        }
    }

    // With 30 planted clusters and k=31, most neighbours for a given query should share its
    // cluster.
    let mut same_cluster = 0usize;
    let mut total = 0usize;
    for (q, row) in indices.iter().enumerate() {
        let q_cluster = q % n_clusters;
        for &idx in row {
            if idx % n_clusters == q_cluster {
                same_cluster += 1;
            }
            total += 1;
        }
    }
    let frac = same_cluster as f32 / total as f32;
    assert!(
        frac > 0.5,
        "same-cluster fraction {frac} too low ({same_cluster}/{total})"
    );
}

#[test]
fn vectors_are_grouped_in_their_order() {
    let vectors = numbers(&[3.0, 4.0, 1.0, 0.0, 6.0, 8.0, 0.0, 2.0]);
    let (reorg, indices, offsets, norms) =
        reorganise_by_cluster(&vectors, 2, 4, &[2, 0, 2, 0], 3, &Dist::Cosine);
    assert_eq!(indices, vec![1, 3, 0, 2]);
    assert_eq!(offsets, vec![0, 2, 2, 4]);
    assert_eq!(reorg, numbers(&[1.0, 0.0, 0.0, 2.0, 3.0, 4.0, 6.0, 8.0]));
    assert_eq!(norms, numbers(&[1.0, 2.0, 5.0, 10.0]));
}

#[test]
fn manhattan_is_refused() {
    assert_eq!(
        plan_build(100, 4, Dist::Manhattan, None, 4),
        Err(AnnSearchErrors::DistanceNotSupported(Dist::Manhattan))
    );
}

#[test]
fn plans_of_an_index() {
    assert_eq!(
        plan_build(120, 6, Dist::Cosine, None, 4),
        Ok(BuildPlan {
            nlist: 10,
            dim_padded: 8,
            n_train: 120
        })
    );
    assert_eq!(
        plan_build(1_000_000, 8, Dist::SquaredEuclidean, Some(3), 4),
        Ok(BuildPlan {
            nlist: 3,
            dim_padded: 8,
            n_train: 768
        })
    );
    assert_eq!(
        plan_build(1_000_000, 1, Dist::SquaredEuclidean, Some(5000), 4),
        Ok(BuildPlan {
            nlist: 5000,
            dim_padded: 4,
            n_train: 250_000
        })
    );
    assert_eq!(
        plan_build(0, 4, Dist::SquaredEuclidean, Some(0), 4),
        Ok(BuildPlan {
            nlist: 1,
            dim_padded: 4,
            n_train: 1
        })
    );
}

#[test]
fn plans_of_a_query() {
    let data = mat_from_fn(50, 4, |i, j| ((i + j) as f32) / 10.0);
    let index = build(&data, 50, 4, Dist::SquaredEuclidean, Some(20)).unwrap();
    assert_eq!(
        index.plan_query(100, None, None),
        QueryPlan {
            k: 50,
            nprobe: 4,
            batch: 100_000
        }
    );
    assert_eq!(
        index.plan_query(3, Some(99), Some(7)),
        QueryPlan {
            k: 3,
            nprobe: 20,
            batch: 7
        }
    );
    assert_eq!(index.default_nprobe(), 4);
    assert_eq!(index.plan_self_query(3, None, None).batch, 20_000);
    assert_eq!(index.plan_self_query(3, None, Some(9)).batch, 9);
}

#[test]
fn batch_sizes_fit_the_buffer() {
    let data = numbers(&[0.0, 1.0, 2.0, 3.0]);
    let mut index = build(&data, 4, 1, Dist::SquaredEuclidean, Some(2)).unwrap();
    assert_eq!(index.calculate_safe_batch_size(0), 20_000);
    assert_eq!(index.calculate_safe_batch_size(2), 20_000);
    index.n = 1_000_000;
    index.nlist = 1000;
    // 1500 megabytes by 20 clusters of 1000 vectors, half as many again, eight bytes each.
    assert_eq!(index.calculate_safe_batch_size(20), 6553);
    assert_eq!(index.calculate_safe_batch_size(100_000), 100);
    // Single precision: an exact quotient would be 14 000.
    index.n = 16;
    index.nlist = 7;
    assert_eq!(index.calculate_safe_batch_size(4096), 13_999);
}

#[test]
fn clusters_are_probed_until_there_are_enough_vectors() {
    // Clusters of 2, 0, 5 and 1 vectors.
    let offsets = [0, 2, 2, 7, 8];
    let dists = numbers(&[3.0, 1.0, 2.0, 4.0]);
    assert_eq!(select_probed_clusters(&dists, &offsets, 1, 1), vec![1, 2]);
    assert_eq!(select_probed_clusters(&dists, &offsets, 1, 6), vec![1, 2, 0]);
    assert_eq!(select_probed_clusters(&dists, &offsets, 3, 1), vec![1, 2, 0]);
    assert_eq!(
        select_probed_clusters(&dists, &offsets, 1, 100),
        vec![1, 2, 0, 3]
    );
    assert_eq!(select_probed_clusters(&dists, &offsets, 0, 0), Vec::<usize>::new());
}

#[test]
fn work_is_cut_into_pieces() {
    let offsets = [0, 2, 2, 7, 8];
    let work = build_tasks(&vec![vec![1, 2, 0], vec![3], vec![]], &offsets, 4);
    assert_eq!(work.task_q_idx, vec![0, 0, 1]);
    assert_eq!(work.task_db_start, vec![2, 0, 7]);
    assert_eq!(work.task_write_offset, vec![0, 5, 0]);
    assert_eq!(work.task_db_count, vec![5, 2, 1]);
    assert_eq!(work.candidates_per_query, vec![7, 1, 0]);
    assert_eq!(work.max_db_count, 5);
    assert_eq!(work.max_candidates, 7);
    assert!(!work.is_empty());
    assert!(build_tasks(&vec![vec![1]], &offsets, 4).is_empty());
}

#[test]
fn queries_are_compared_with_enough_vectors() {
    let data = mat_from_fn(40, 2, |i, j| ((i * i * 7 + j * 3) % 53) as f32);
    let index = build(&data, 40, 2, Dist::SquaredEuclidean, Some(8)).unwrap();
    let queries = mat_from_fn(5, index.dim_padded, |i, j| ((i * 17 + j) % 50) as f32);
    let dists = centroid_distances(&index, &queries, 5);
    for k in [1, 9, 40] {
        let work = index.plan_batch(&dists, 5, 1, k);
        assert_eq!(work.candidates_per_query.len(), 5);
        assert!(work.candidates_per_query.iter().all(|&c| c as usize >= k && c <= 40));
    }
    let beyond = index.plan_batch(&dists, 5, 1, 100);
    assert_eq!(beyond.candidates_per_query, vec![40; 5]);
    let everywhere = index.plan_batch(&dists, 5, 8, 1);
    assert_eq!(everywhere.candidates_per_query, vec![40; 5]);
}

#[test]
fn groups_of_threads_cover_the_work() {
    assert_eq!(div_ceil(0, 4), 0);
    assert_eq!(div_ceil(8, 4), 2);
    assert_eq!(div_ceil(9, 4), 3);
    assert_eq!(plan_centroid_launch(33, 8, 32, 8), (2, 1));
    let offsets = [0, 2, 2, 7, 8];
    let work = build_tasks(&vec![vec![1, 2, 0], vec![3], vec![]], &offsets, 4);
    assert_eq!(
        plan_launch(3, &work, 2, 2),
        LaunchPlan {
            query_rows: 2,
            candidate_columns: 4,
            task_columns: 3,
            task_rows: 2,
        }
    );
    let nothing = build_tasks(&vec![vec![1]], &offsets, 4);
    assert_eq!(
        plan_launch(1, &nothing, 32, 8),
        LaunchPlan {
            query_rows: 1,
            candidate_columns: 1,
            task_columns: 1,
            task_rows: 0,
        }
    );
}

#[test]
fn unset_slots_are_left_out() {
    let data = numbers(&[0.0, 10.0, 1.0, 11.0]);
    let flat = data.clone();
    let plan = BuildPlan {
        nlist: 2,
        dim_padded: 1,
        n_train: 4,
    };
    let index = IvfIndexGpu::from_assignments(
        &flat,
        4,
        1,
        &plan,
        &numbers(&[0.5, 10.5]),
        &[0, 1, 0, 1],
        Dist::SquaredEuclidean,
    );
    assert_eq!(index.original_indices, vec![0, 2, 1, 3]);
    let unset = f32::MAX;
    let (indices, distances) = index.collect_results(
        &numbers(&[0.1, unset, 0.3, 0.4]),
        &[2, 7_000_000, 0, 3],
        2,
        2,
    );
    assert_eq!(indices, vec![vec![1], vec![0, 3]]);
    assert_eq!(distances, vec![numbers(&[0.1]), numbers(&[0.3, 0.4])]);
}

#[test]
fn batches_do_not_change_the_results() {
    let data = mat_from_fn(90, 3, |i, j| ((i * 31 + j * 7) % 47) as f32);
    let index = build(&data, 90, 3, Dist::SquaredEuclidean, Some(9)).unwrap();
    assert_eq!(index.dim_padded, 4);
    let queries = mat_from_fn(23, 3, |i, j| ((i * 13 + j * 5) % 47) as f32);
    let whole = query_batch(&index, &queries, (23, 3), 6, Some(2), None).unwrap();
    for size in [1, 4, 22, 23, 24] {
        let parts = query_batch(&index, &queries, (23, 3), 6, Some(2), Some(size)).unwrap();
        assert_eq!(parts, whole);
    }
    let none = query_batch(&index, &[], (0, 3), 6, None, None).unwrap();
    assert_eq!(none, (vec![], vec![]));
    assert_eq!(
        query_batch(&index, &queries, (17, 4), 6, None, None),
        Err(AnnSearchErrors::DimensionMismatch {
            expected: 3,
            actual: 4
        })
    );
}

#[test]
fn a_self_query_answers_the_rows_of_the_data() {
    let data = mat_from_fn(70, 3, |i, j| {
        let a = i * 37 % 71;
        (a * a * (j + 3)) as f32 * 0.37 + j as f32
    });
    let index = build(&data, 70, 3, Dist::SquaredEuclidean, Some(7)).unwrap();
    assert_ne!(index.original_indices, (0..70).collect::<Vec<usize>>());
    let (indices, distances) = query_batch(&index, &data, (70, 3), 4, Some(2), Some(9)).unwrap();
    assert_eq!(
        generate_knn(&index, 4, Some(2), Some(13), true),
        (indices.clone(), Some(distances))
    );
    assert_eq!(generate_knn(&index, 4, Some(2), None, false), (indices, None));
}

#[test]
fn batches_without_work_have_no_results() {
    let data = mat_from_fn(12, 2, |i, j| (i * 5 + j) as f32);
    let index = build(&data, 12, 2, Dist::SquaredEuclidean, Some(3)).unwrap();
    for size in [1, 5, 12, 20] {
        let found = query_batch(&index, &data, (12, 2), 0, Some(1), Some(size)).unwrap();
        assert_eq!(found, (vec![vec![]; 12], vec![vec![]; 12]));
    }
}

#[test]
fn all_probes_find_the_exact_neighbours() {
    let data = mat_from_fn(60, 2, |i, j| ((i * 29 + j * 3) % 61) as f32);
    let index = build(&data, 60, 2, Dist::SquaredEuclidean, Some(6)).unwrap();
    let (indices, distances) = generate_knn(&index, 5, Some(6), Some(7), true);
    let distances = distances.unwrap();
    for i in 0..60 {
        let row = &data[i * 2..i * 2 + 2];
        let mut exact: Vec<u64> = (0..60)
            .map(|j| F32::euclidean_simd(row, &data[j * 2..j * 2 + 2]).order_key())
            .collect();
        exact.sort_unstable();
        let found: Vec<u64> = distances[i].iter().map(|d| d.order_key()).collect();
        assert_eq!(found, exact[..5].to_vec());
        assert!(indices[i].contains(&i));
    }
    assert!(generate_knn(&index, 5, Some(6), None, false).1.is_none());
}

#[test]
fn nothing_is_found_in_an_empty_index() {
    let plan = plan_build(0, 2, Dist::SquaredEuclidean, Some(3), 4).unwrap();
    let index = IvfIndexGpu::<F32>::from_assignments(
        &[],
        0,
        2,
        &plan,
        &numbers(&[0.0; 6]),
        &[],
        Dist::SquaredEuclidean,
    );
    let queries = numbers(&[0.0, 1.0, 2.0, 3.0]);
    assert_eq!(
        query_batch(&index, &queries, (2, 2), 5, None, None),
        Ok((vec![vec![], vec![]], vec![vec![], vec![]]))
    );
}

#[test]
fn norms_for_the_cosine_metric_and_ones_otherwise() {
    let flat = numbers(&[3.0, 4.0, 0.0, 2.0]);
    assert_eq!(row_norms(&flat, 2, 2, Dist::Cosine), numbers(&[5.0, 2.0]));
    assert_eq!(
        row_norms(&flat, 2, 2, Dist::SquaredEuclidean),
        numbers(&[1.0, 1.0])
    );
    let index = build(&flat, 2, 2, Dist::Cosine, Some(1)).unwrap();
    assert_eq!(index.norms, numbers(&[5.0, 2.0]));
    assert_eq!(
        index.query_norms(&numbers(&[6.0, 8.0, 0.0, 0.0]), 1),
        numbers(&[10.0])
    );
    let (ram, vram) = index.memory_usage_bytes();
    assert!(ram >= 2 * 8 + 2 * 8);
    assert_eq!(vram, (2 * 4 + 2 + 4 + 1) * 4);
}

#[test]
fn rows_are_padded_with_zeros() {
    assert_eq!(
        pad_vectors(&numbers(&[1.0, 2.0, 3.0, 4.0]), 2, 2, 3),
        numbers(&[1.0, 2.0, 0.0, 3.0, 4.0, 0.0])
    );
}

#[test]
fn integer_roots_and_multiples() {
    assert_eq!(isqrt(0), 0);
    assert_eq!(isqrt(15), 3);
    assert_eq!(isqrt(16), 4);
    assert_eq!(isqrt(usize::MAX), (1 << 32) - 1);
    assert_eq!(next_multiple_of(0, 4), 0);
    assert_eq!(next_multiple_of(5, 4), 8);
    assert_eq!(next_multiple_of(8, 4), 8);
}

#[test]
fn batches_and_reports() {
    assert_eq!(n_batches(0, 5), 0);
    assert_eq!(n_batches(10, 5), 2);
    assert_eq!(n_batches(11, 5), 3);
    assert_eq!(n_batches(usize::MAX, 1), usize::MAX);
    assert!(batch_report_due(0, 300));
    assert!(batch_report_due(99, 300));
    assert!(batch_report_due(299, 300));
    assert!(!batch_report_due(98, 300));
}
