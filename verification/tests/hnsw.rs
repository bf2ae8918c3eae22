use ann_search::cpu::construction::{plan_update, ConstructionGraph, Update};
use ann_search::cpu::diversity::{compute_pruned, select_neighbours_heuristic};
use ann_search::cpu::hnsw::HnswIndex;
use ann_search::cpu::levels::{assign_levels, find_entry, nodes_in_layer};
use ann_search::cpu::sq8::{
    count_endpoints, encode_all, encode_query, fit_scales, sq8_weighted_l2, square_scales,
};
use ann_search::cpu::store::{FloatQuery, HnswVectorStorage, VectorStore};
use ann_search::errors::AnnSearchErrors;
use ann_search::utils::dist::Dist;
use ann_search::utils::float::{AnnSearchFloat, Real};
use ann_search::utils::matrix::{MatView, RowView};

/// Single precision numbers.
#[derive(Clone, Copy, Debug, PartialEq)]
struct F32(f32);

impl Real for F32 {
    fn order_key(self) -> u64 {
        if self.0.is_nan() {
            return u64::MAX;
        }
        let value = if self.0 == 0.0 { 0.0_f32 } else { self.0 };
        let bits = value.to_bits();
        if bits >> 31 == 1 {
            u64::from(!bits)
        } else {
            u64::from(bits | 0x8000_0000)
        }
    }
    fn is_number(self) -> bool {
        !self.0.is_nan()
    }
    fn zero() -> Self {
        F32(0.0)
    }
    fn one() -> Self {
        F32(1.0)
    }
    fn plus(self, other: Self) -> Self {
        F32(self.0 + other.0)
    }
    fn times(self, other: Self) -> Self {
        F32(self.0 * other.0)
    }
    fn over(self, other: Self) -> Self {
        F32(self.0 / other.0)
    }
    fn larger(self, other: Self) -> Self {
        F32(self.0.max(other.0))
    }
    fn sqrt(self) -> Self {
        F32(self.0.sqrt())
    }
    fn abs(self) -> Self {
        F32(self.0.abs())
    }
    fn ln(self) -> Self {
        F32(self.0.ln())
    }
    fn neg(self) -> Self {
        F32(-self.0)
    }
    fn of_int(v: i32) -> Self {
        F32(v as f32)
    }
    fn of_u32(v: u32) -> Self {
        F32(v as f32)
    }
    fn of_size(v: usize) -> Self {
        F32(v as f32)
    }
    fn of_unit(v: u64) -> Self {
        F32((v as f64 / 9_007_199_254_740_992.0) as f32)
    }
    fn rounded(self) -> i32 {
        self.0.round() as i32
    }
    fn truncated(self) -> usize {
        self.0 as usize
    }
    fn floor_u8(self) -> Option<u8> {
        let floor = self.0.floor();
        if (0.0..256.0).contains(&floor) {
            Some(floor as u8)
        } else {
            None
        }
    }
}

impl AnnSearchFloat for F32 {
    type Narrow = F32;

    fn narrow(self) -> F32 {
        self
    }
    fn widen(v: F32) -> Self {
        v
    }
    fn euclidean_simd(a: &[Self], b: &[Self]) -> Self {
        F32(a.iter().zip(b).map(|(x, y)| (x.0 - y.0) * (x.0 - y.0)).sum())
    }
    fn cosine_simd(a: &[Self], b: &[Self], norm_a: Self, norm_b: Self) -> Self {
        let dot: f32 = a.iter().zip(b).map(|(x, y)| x.0 * y.0).sum();
        F32(1.0 - dot / (norm_a.0 * norm_b.0))
    }
    fn manhattan_simd(a: &[Self], b: &[Self]) -> Self {
        F32(a.iter().zip(b).map(|(x, y)| (x.0 - y.0).abs()).sum())
    }
    fn unset_distance() -> Self {
        F32(f32::MAX)
    }
    fn calculate_l2_norm(a: &[Self]) -> Self {
        F32(a.iter().map(|x| x.0 * x.0).sum::<f32>().sqrt())
    }
}

fn numbers(values: &[f32]) -> Vec<F32> {
    values.iter().map(|v| F32(*v)).collect()
}

fn mat_from_fn(nrows: usize, ncols: usize, f: impl Fn(usize, usize) -> f32) -> Vec<F32> {
    let mut data = Vec::new();
    for i in 0..nrows {
        for j in 0..ncols {
            data.push(F32(f(i, j)));
        }
    }
    data
}

fn view(data: &[F32], nrows: usize, ncols: usize) -> MatView<'_, F32> {
    MatView {
        data,
        nrows,
        ncols,
        row_stride: ncols,
        col_stride: 1,
    }
}

fn create_simple_matrix() -> Vec<F32> {
    let data = [
        1.0, 0.0, 0.0, // Point 0
        0.0, 1.0, 0.0, // Point 1
        0.0, 0.0, 1.0, // Point 2
        1.0, 1.0, 0.0, // Point 3
        1.0, 0.0, 1.0, // Point 4
    ];
    mat_from_fn(5, 3, |i, j| data[i * 3 + j])
}

fn near(a: F32, b: f32, epsilon: f32) -> bool {
    (a.0 - b).abs() <= epsilon
}

#[test]
fn test_hnsw_build_euclidean() {
    let mat = create_simple_matrix();
    let _ = HnswIndex::<F32>::build(&view(&mat, 5, 3), 16, 100, &Dist::SquaredEuclidean, 42);
}

#[test]
fn test_hnsw_build_cosine() {
    let mat = create_simple_matrix();
    let _ = HnswIndex::<F32>::build(&view(&mat, 5, 3), 16, 100, &Dist::Cosine, 42);
}

#[test]
fn test_hnsw_query_finds_self() {
    let mat = create_simple_matrix();
    let index = HnswIndex::<F32>::build(&view(&mat, 5, 3), 16, 100, &Dist::SquaredEuclidean, 42);

    let query = numbers(&[1.0, 0.0, 0.0]);
    let (indices, distances) = index.query(&query, 1, 50).unwrap();

    assert_eq!(indices.len(), 1);
    assert_eq!(indices[0], 0);
    assert!(near(distances[0], 0.0, 1e-5));
}

#[test]
fn test_hnsw_query_euclidean() {
    let mat = create_simple_matrix();
    let index = HnswIndex::<F32>::build(&view(&mat, 5, 3), 16, 100, &Dist::SquaredEuclidean, 42);

    let query = numbers(&[1.0, 0.0, 0.0]);
    let (indices, distances) = index.query(&query, 3, 50).unwrap();

    assert_eq!(indices[0], 0);
    assert!(near(distances[0], 0.0, 1e-5));

    for i in 1..distances.len() {
        assert!(distances[i].0 >= distances[i - 1].0);
    }
}

#[test]
fn test_hnsw_query_cosine() {
    let mat = create_simple_matrix();
    let index = HnswIndex::<F32>::build(&view(&mat, 5, 3), 16, 100, &Dist::Cosine, 42);

    let query = numbers(&[1.0, 0.0, 0.0]);
    let (indices, distances) = index.query(&query, 3, 50).unwrap();

    assert_eq!(indices[0], 0);
    assert!(near(distances[0], 0.0, 1e-5));
}

#[test]
fn test_hnsw_parallel_build() {
    let n = 2000;
    let dim = 10;
    let data: Vec<f32> = (0..n * dim).map(|i| i as f32).collect();
    let mat = mat_from_fn(n, dim, |i, j| data[i * dim + j]);

    let index = HnswIndex::<F32>::build(&view(&mat, n, dim), 16, 200, &Dist::SquaredEuclidean, 42);

    let query: Vec<F32> = (0..dim).map(|_| F32(0.0)).collect();
    let (indices, _) = index.query(&query, 5, 50).unwrap();

    assert_eq!(indices.len(), 5);
}

#[test]
fn test_hnsw_thread_safety() {
    let mat = create_simple_matrix();
    let index = HnswIndex::<F32>::build(&view(&mat, 5, 3), 16, 100, &Dist::SquaredEuclidean, 42);

    rayon::scope(|scope| {
        for _ in 0..4 {
            scope.spawn(|_| {
                let query = numbers(&[0.5, 0.5, 0.0]);
                let (indices, _) = index.query(&query, 3, 50).unwrap();
                assert_eq!(indices.len(), 3);
            });
        }
    });
}

#[test]
fn test_hnsw_reproducibility() {
    let mat = create_simple_matrix();

    let index1 = HnswIndex::<F32>::build(&view(&mat, 5, 3), 16, 100, &Dist::SquaredEuclidean, 42);
    let index2 = HnswIndex::<F32>::build(&view(&mat, 5, 3), 16, 100, &Dist::SquaredEuclidean, 42);

    let query = numbers(&[0.5, 0.5, 0.0]);
    let (indices1, _) = index1.query(&query, 3, 50).unwrap();
    let (indices2, _) = index2.query(&query, 3, 50).unwrap();

    assert_eq!(indices1, indices2);
}

#[test]
fn test_hnsw_recall() {
    let n = 20;
    let dim = 3;
    let mut data = Vec::with_capacity(n * dim);

    data.extend_from_slice(&[0.0, 0.0, 0.0]);

    for i in 1..n {
        let dist = i as f32 * 0.1;
        data.extend_from_slice(&[dist, 0.0, 0.0]);
    }

    let mat = mat_from_fn(n, dim, |i, j| data[i * dim + j]);
    let index = HnswIndex::<F32>::build(&view(&mat, n, dim), 16, 200, &Dist::SquaredEuclidean, 42);

    let query = numbers(&[0.0, 0.0, 0.0]);
    let (indices, _) = index.query(&query, 5, 100).unwrap();

    assert_eq!(indices[0], 0);

    let expected_neighbours: Vec<usize> = (0..5).collect();
    let found_correct = indices
        .iter()
        .filter(|&&idx| expected_neighbours.contains(&idx))
        .count();

    assert!(found_correct >= 4);
}

#[test]
fn test_hnsw_multi_layer_storage() {
    // Verify that multi-layer storage is working correctly
    let n = 500;
    let dim = 10;

    let data: Vec<f32> = (0..n * dim).map(|i| (i as f32) * 0.01).collect();
    let mat = mat_from_fn(n, dim, |i, j| data[i * dim + j]);

    let index = HnswIndex::<F32>::build(&view(&mat, n, dim), 8, 100, &Dist::SquaredEuclidean, 42);

    // Count nodes at each layer
    let mut layer_counts = vec![0usize; (index.max_layer + 1) as usize];
    for &level in &index.layer_assignments {
        for l in 0..=level {
            layer_counts[l as usize] += 1;
        }
    }

    // Layer 0 should have all nodes
    assert_eq!(layer_counts[0], n);

    // Higher layers should have fewer nodes (exponential decay)
    for l in 1..layer_counts.len() {
        assert!(
            layer_counts[l] < layer_counts[l - 1],
            "Layer {} should have fewer nodes than layer {}",
            l,
            l - 1
        );
    }

    // Verify queries work
    let query: Vec<F32> = (0..dim).map(|_| F32(0.5)).collect();
    let (indices, _) = index.query(&query, 10, 50).unwrap();
    assert_eq!(indices.len(), 10);
}

#[test]
fn test_hnsw_varying_m_values() {
    let n = 500;
    let dim = 10;

    let data: Vec<f32> = (0..n * dim).map(|i| (i as f32) * 0.01).collect();
    let mat = mat_from_fn(n, dim, |i, j| data[i * dim + j]);

    for m in [8, 12, 16, 20] {
        let index =
            HnswIndex::<F32>::build(&view(&mat, n, dim), m, 200, &Dist::SquaredEuclidean, 42);

        let query: Vec<F32> = (0..dim).map(|_| F32(0.5)).collect();
        let (indices, _) = index.query(&query, 10, 50).unwrap();

        assert_eq!(indices.len(), 10, "Failed with m = {}", m);
    }
}

#[test]
fn sq8_weighted_kernel_matches_scalar_reference() {
    let a: Vec<i8> = (0..37)
        .map(|i| ((i * 17) % 251) as i16 - 125)
        .map(|x| x as i8)
        .collect();
    let b: Vec<i8> = (0..37)
        .map(|i| ((i * 29) % 247) as i16 - 123)
        .map(|x| x as i8)
        .collect();
    let weights: Vec<f32> = (0..37).map(|i| 0.0001 + i as f32 * 0.003).collect();

    let expected: f32 = a
        .iter()
        .zip(&b)
        .zip(&weights)
        .map(|((&x, &y), &weight)| {
            let diff = x as f32 - y as f32;
            diff * diff * weight
        })
        .sum();
    let actual = sq8_weighted_l2(&a, &b, &numbers(&weights));
    let largest = actual.0.abs().max(expected.abs());
    assert!(near(actual, expected, 1e-3) || near(actual, expected, largest * 2e-6));
}

#[test]
fn sq8_hnsw_build_query_and_self_graph_share_traversal() {
    let n = 64;
    let dim = 19;
    let mat = mat_from_fn(n, dim, |row, col| {
        row as f32 * (col as f32 + 1.0) + col as f32 * 0.1
    });
    let index = HnswIndex::<F32>::build_sq8(&view(&mat, n, dim), 12, 100, 42);

    assert!(index.vectors_flat.is_empty());
    let stats = index.sq8_stats().unwrap();
    assert_eq!(stats.clipped_values, 0);
    assert!(stats.endpoint_codes > 0);

    let query: Vec<F32> = mat[17 * dim..18 * dim].to_vec();
    let (indices, distances) = index.query(&query, 5, 100).unwrap();
    assert_eq!(indices[0], 17);
    assert!(near(distances[0], 0.0, 1e-6));

    let (self_indices, self_distances) = index.generate_knn(5, 100, true).unwrap();
    let self_distances = self_distances.unwrap();
    assert_eq!(self_indices.len(), n);
    assert_eq!(self_indices[17][0], 17);
    assert!(near(self_distances[17][0], 0.0, 1e-6));
}

fn on_a_line(points: &[F32]) -> VectorStore<'_, F32> {
    VectorStore {
        vectors_flat: points,
        norms: &[],
        storage: &HnswVectorStorage::Float,
        dim: 1,
        n: points.len(),
        metric: Dist::Manhattan,
    }
}

fn key(distance: f32) -> u64 {
    F32(distance).order_key()
}

#[test]
fn diverse_neighbours_are_nearer_to_the_node_than_to_each_other() {
    // The node stands at 100; 103 and 105 are both to its right, 90 to its left.
    let points = numbers(&[100.0, 103.0, 105.0, 90.0]);
    let line = on_a_line(&points);
    let cands = [(key(5.0), 2), (key(3.0), 1), (key(10.0), 3), (key(0.0), 0)];
    let chosen = select_neighbours_heuristic(&line, 0, &cands, 8);
    assert_eq!(chosen, vec![(key(3.0), 1), (key(10.0), 3)]);
    let nearest = select_neighbours_heuristic(&line, 0, &cands, 1);
    assert_eq!(nearest, vec![(key(3.0), 1)]);
}

#[test]
fn pruning_keeps_at_most_as_many_as_there_were() {
    let points = numbers(&[100.0, 103.0, 105.0, 90.0, 99.0]);
    let line = on_a_line(&points);
    // 99 comes to a full list: it is the nearest, 90 lies behind it, 103 stays.
    assert_eq!(compute_pruned(&line, &[1, 3], 4, 0), vec![4, 1]);
    assert_eq!(compute_pruned(&line, &[1], 4, 0), vec![4]);
    assert_eq!(compute_pruned(&line, &[], 4, 0), Vec::<usize>::new());
}

#[test]
fn neighbours_are_offered_appended_and_pruned() {
    let points = numbers(&[100.0, 103.0, 105.0, 90.0, 99.0, 101.0]);
    let line = on_a_line(&points);
    let mut graph = ConstructionGraph::new(6, &[0; 6], 1);
    assert_eq!(graph.max_neighbours(0), 2);
    assert_eq!(graph.max_neighbours(1), 1);
    graph.add_neighbour_with_pruning(0, 0, 2, &line);
    graph.add_neighbour_with_pruning(0, 0, 2, &line);
    assert_eq!(graph.get_neighbours_slice(0, 0), &[2, u32::MAX]);
    graph.add_neighbour_with_pruning(0, 0, 3, &line);
    assert_eq!(graph.get_neighbours_slice(0, 0), &[2, 3]);
    graph.add_neighbour_with_pruning(0, 0, 1, &line);
    assert_eq!(graph.get_neighbours_slice(0, 0), &[1, 3]);
    // A layer that the node does not stand in stays empty.
    graph.add_neighbour_with_pruning(0, 1, 4, &line);
    assert_eq!(graph.get_neighbours_slice(0, 1).len(), 0);
    // The node itself is never its neighbour.
    graph.set_neighbours(5, 0, &[(key(0.0), 5), (key(1.0), 0), (key(2.0), 1)]);
    assert_eq!(graph.get_neighbours_slice(5, 0), &[0, u32::MAX]);
}

#[test]
fn any_ids_are_written() {
    let mut graph = ConstructionGraph::new(1, &[1], 2);
    assert_eq!(graph.get_neighbours_slice(0, 0), &[u32::MAX; 4]);
    assert_eq!(graph.get_neighbours_slice(0, 1), &[u32::MAX; 2]);
    assert_eq!(graph.get_neighbours_slice(0, 2).len(), 0);
    // The list is cut to the room first, and then the node itself is left out.
    graph.set_neighbours(0, 1, &[(key(0.0), 0), (key(0.2), 3), (key(0.3), 4)]);
    assert_eq!(graph.get_neighbours_slice(0, 1), &[3, u32::MAX]);
    assert_eq!(graph.get_neighbours_slice(0, 0), &[u32::MAX; 4]);
    graph.set_neighbours(0, 0, &[(key(0.2), 9), (key(0.3), 9)]);
    assert_eq!(graph.get_neighbours_slice(0, 0), &[9, 9, u32::MAX, u32::MAX]);
    assert_eq!(graph.snapshot(0, 0), vec![9, 9, u32::MAX, u32::MAX]);
    graph.set_neighbours(0, 2, &[(key(0.2), 9)]);
    assert_eq!(graph.get_neighbours_slice(0, 1), &[3, u32::MAX]);
    let (flat, offsets, levels) = graph.into_flat();
    assert_eq!(flat, vec![9, 9, u32::MAX, u32::MAX, 3, u32::MAX]);
    assert_eq!((offsets, levels), (vec![0], vec![1]));
}

#[test]
fn a_stale_plan_is_made_anew() {
    let points = numbers(&[100.0, 103.0, 105.0, 90.0, 99.0, 101.0]);
    let line = on_a_line(&points);
    let mut graph = ConstructionGraph::new(6, &[0; 6], 1);
    graph.add_neighbour_with_pruning(0, 0, 2, &line);
    graph.add_neighbour_with_pruning(0, 0, 3, &line);
    let seen = graph.snapshot(0, 0);
    let plan = plan_update(&seen, 0, 1, 2, &line);
    assert!(matches!(plan, Update::Replace(_)));
    // Another writer was faster: 99 and 101 are there now.
    graph.set_neighbours(0, 0, &[(key(1.0), 4), (key(1.0), 5)]);
    graph.commit_update(0, 0, 1, &seen, plan, &line);
    assert_eq!(graph.get_neighbours_slice(0, 0), &[4, 5]);
    // What was seen is still there: the plan is carried out.
    graph.set_neighbours(0, 0, &[(key(5.0), 2), (key(10.0), 3)]);
    let plan = plan_update(&seen, 0, 1, 2, &line);
    graph.commit_update(0, 0, 1, &seen, plan, &line);
    assert_eq!(graph.get_neighbours_slice(0, 0), &[1, 3]);
    // There was room when the list was seen, and there is none now.
    let seen = [2, u32::MAX];
    let plan = plan_update(&seen, 0, 5, 2, &line);
    assert!(matches!(plan, Update::Append));
    graph.commit_update(0, 0, 5, &seen, plan, &line);
    assert_eq!(graph.get_neighbours_slice(0, 0), &[5, 3]);
    // The neighbour was there when the list was seen.
    let plan = plan_update(&seen, 0, 2, 2, &line);
    assert!(matches!(plan, Update::Nothing));
}

#[test]
fn levels_come_from_the_upper_bits_of_the_words() {
    // One half, one eighth and the smallest positive number below one, for a base of two.
    let half = 1u64 << 63;
    let eighth = 1u64 << 61;
    assert_eq!(assign_levels::<F32>(&[half + (1 << 40)], 2), vec![0]);
    assert_eq!(assign_levels::<F32>(&[eighth - (1 << 45)], 2), vec![3]);
    // Levels end at fifteen, also where the number is zero.
    assert_eq!(assign_levels::<F32>(&[1 << 11, 0], 2), vec![15, 15]);
    // The lower eleven bits do not matter.
    assert_eq!(
        assign_levels::<F32>(&[half + 2047, half], 3),
        assign_levels::<F32>(&[half, half + 1], 3)
    );
}

#[test]
fn entry_is_the_first_of_the_highest() {
    assert_eq!(find_entry(&[0, 2, 1, 2]), (2, 1));
    assert_eq!(find_entry(&[0, 0]), (0, 0));
    assert_eq!(find_entry(&[]), (0, 0));
}

#[test]
fn layers_shrink_upwards() {
    let levels = [0, 2, 1, 2, 0];
    assert_eq!(nodes_in_layer(&levels, 0), 5);
    assert_eq!(nodes_in_layer(&levels, 1), 3);
    assert_eq!(nodes_in_layer(&levels, 2), 2);
    assert_eq!(nodes_in_layer(&levels, 3), 0);
    assert_eq!(nodes_in_layer(&[], 0), 0);
}

#[test]
fn no_vector_is_left_alone() {
    for n in [2, 3, 50] {
        let mat = mat_from_fn(n, 2, |i, j| ((i * 23 + j * 5) % 31) as f32);
        let index = HnswIndex::<F32>::build(&view(&mat, n, 2), 2, 1, &Dist::SquaredEuclidean, 11);
        for v in 0..n {
            assert_ne!(index.get_neighbours_at_layer(v, 0)[0], u32::MAX);
        }
    }
    let mat = numbers(&[1.0, 2.0]);
    let single = HnswIndex::<F32>::build(&view(&mat, 1, 2), 2, 1, &Dist::SquaredEuclidean, 11);
    assert_eq!(single.get_neighbours_at_layer(0, 0), &[u32::MAX; 4]);
}

#[test]
fn neighbours_of_results_do_not_improve_them() {
    let n = 120;
    let mat = mat_from_fn(n, 2, |i, j| ((i * 41 + j * 13) % 67) as f32);
    let index = HnswIndex::<F32>::build(&view(&mat, n, 2), 4, 20, &Dist::SquaredEuclidean, 5);
    let query = numbers(&[33.3, 12.1]);
    let (indices, distances) = index.query(&query, 6, 9).unwrap();
    let furthest = distances[5].order_key();
    for &v in &indices {
        for &u in index.get_neighbours_at_layer(v, 0) {
            if u == u32::MAX {
                break;
            }
            let u = u as usize;
            let distance = F32::euclidean_simd(&mat[u * 2..u * 2 + 2], &query);
            assert!(indices.contains(&u) || distance.order_key() >= furthest);
        }
    }
}

#[test]
fn a_vector_taken_as_a_query_finds_what_its_numbers_find() {
    let n = 40;
    let mat = mat_from_fn(n, 3, |i, j| ((i * 19 + j * 7) % 23) as f32);
    let index = HnswIndex::<F32>::build(&view(&mat, n, 3), 4, 20, &Dist::SquaredEuclidean, 5);
    let (indices, distances) = index.generate_knn(4, 10, true).unwrap();
    let distances = distances.unwrap();
    for i in 0..n {
        let found = index.query(&mat[i * 3..i * 3 + 3], 4, 10).unwrap();
        assert_eq!(found, (indices[i].clone(), distances[i].clone()));
    }
}

#[test]
fn graph_of_given_levels() {
    // Four points on a line. Nodes are inserted from the highest to the lowest.
    let mat = numbers(&[0.0, 1.0, 2.0, 10.0]);
    let index = HnswIndex::<F32>::from_levels(
        &view(&mat, 4, 1),
        2,
        10,
        Dist::SquaredEuclidean,
        vec![0, 1, 0, 1],
        false,
    );
    assert_eq!(index.entry_point, 1);
    assert_eq!(index.max_layer, 1);
    assert_eq!(index.neighbour_offsets, vec![0, 4, 10, 14]);
    assert_eq!(index.neighbours_flat.len(), 20);
    // In the upper layer only the two high nodes know each other.
    assert_eq!(index.get_neighbours_at_layer(1, 1), &[3, u32::MAX]);
    assert_eq!(index.get_neighbours_at_layer(3, 1), &[1, u32::MAX]);
    assert_eq!(index.get_neighbours_at_layer(0, 1).len(), 0);
    // In the base layer node 3 came first, then nodes 0 and 2.
    assert_eq!(
        index.get_neighbours_at_layer(1, 0),
        &[3, 0, 2, u32::MAX]
    );
    assert_eq!(
        index.get_neighbours_at_layer(0, 0),
        &[1, u32::MAX, u32::MAX, u32::MAX]
    );
    assert_eq!(
        index.get_neighbours_at_layer(2, 0),
        &[1, 3, u32::MAX, u32::MAX]
    );
    let (indices, distances) = index.query(&numbers(&[2.2]), 4, 4).unwrap();
    assert_eq!(indices, vec![2, 1, 0, 3]);
    assert!(near(distances[0], 0.04, 1e-4));
    assert!(near(distances[3], 60.84, 1e-3));
}

#[test]
fn a_node_whose_distance_is_no_number_is_not_left() {
    let mat = numbers(&[f32::NAN, 5.0, 6.0, 8.0]);
    let index = HnswIndex::<F32>::from_levels(
        &view(&mat, 4, 1),
        2,
        10,
        Dist::SquaredEuclidean,
        vec![1, 1, 1, 0],
        false,
    );
    assert_eq!(index.get_neighbours_at_layer(0, 1)[0], 1);
    let store = index.store();
    let query = numbers(&[6.0]);
    let keys = FloatQuery {
        store: &store,
        query: &query,
        query_norm: F32(1.0),
    };
    assert_eq!(index.greedy_search_layer_query(0, 1, &keys), 0);
    assert_eq!(index.get_neighbours_at_layer(1, 1), &[0, 2]);
    assert_eq!(index.greedy_search_layer_query(1, 1, &keys), 2);
    let (indices, distances) = index.query(&query, 2, 10).unwrap();
    assert_eq!(indices, vec![2, 1]);
    assert_eq!(distances, numbers(&[0.0, 1.0]));
}

#[test]
fn base_layer_is_found_exhaustively_with_a_wide_search() {
    let n = 60;
    let mat = mat_from_fn(n, 2, |i, j| ((i * 37 + j * 11) % 53) as f32);
    let index = HnswIndex::<F32>::build(&view(&mat, n, 2), 8, 80, &Dist::SquaredEuclidean, 7);
    let query = numbers(&[20.5, 30.5]);
    let (indices, _) = index.query(&query, n, n + 1).unwrap();
    let mut exact: Vec<usize> = (0..n).collect();
    exact.sort_by_key(|&i| (F32::euclidean_simd(&mat[i * 2..i * 2 + 2], &query).order_key(), i));
    assert_eq!(indices, exact);
}

#[test]
fn fewer_neighbours_are_the_first_of_more() {
    let n = 80;
    let mat = mat_from_fn(n, 3, |i, j| ((i * 29 + j * 17) % 41) as f32);
    let index = HnswIndex::<F32>::build(&view(&mat, n, 3), 6, 40, &Dist::Manhattan, 3);
    let query = numbers(&[10.0, 20.0, 30.0]);
    let (many, many_dist) = index.query(&query, 12, 30).unwrap();
    let (few, few_dist) = index.query(&query, 5, 30).unwrap();
    assert_eq!(few, many[..5].to_vec());
    assert_eq!(few_dist, many_dist[..5].to_vec());
    let mut seen = many.clone();
    seen.sort_unstable();
    seen.dedup();
    assert_eq!(seen.len(), many.len());
}

#[test]
fn manhattan_distances_are_sums_of_absolute_differences() {
    let mat = numbers(&[0.0, 0.0, 3.0, 4.0, 1.0, 1.0]);
    let index = HnswIndex::<F32>::build(&view(&mat, 3, 2), 4, 10, &Dist::Manhattan, 1);
    let (indices, distances) = index.query(&numbers(&[0.0, 0.0]), 3, 10).unwrap();
    assert_eq!(indices, vec![0, 2, 1]);
    assert_eq!(distances, numbers(&[0.0, 2.0, 7.0]));
}

#[test]
fn queries_of_other_dimensions_are_refused() {
    let mat = create_simple_matrix();
    let index = HnswIndex::<F32>::build(&view(&mat, 5, 3), 16, 100, &Dist::SquaredEuclidean, 42);
    assert_eq!(
        index.query(&numbers(&[1.0, 2.0]), 1, 50),
        Err(AnnSearchErrors::DimensionMismatch {
            expected: 3,
            actual: 2
        })
    );
    assert_eq!(index.check_dim(3), Ok(()));
}

#[test]
fn rows_are_read_with_any_stride() {
    let mat = create_simple_matrix();
    let index = HnswIndex::<F32>::build(&view(&mat, 5, 3), 16, 100, &Dist::SquaredEuclidean, 42);
    let side_by_side = numbers(&[0.0, 1.0, 0.0]);
    let apart = numbers(&[0.0, 9.0, 1.0, 9.0, 0.0]);
    let a = index
        .query_row(
            &RowView {
                data: &side_by_side,
                ncols: 3,
                col_stride: 1,
            },
            2,
            50,
        )
        .unwrap();
    let b = index
        .query_row(
            &RowView {
                data: &apart,
                ncols: 3,
                col_stride: 2,
            },
            2,
            50,
        )
        .unwrap();
    assert_eq!(a, b);
    assert_eq!(a.0[0], 1);
}

#[test]
fn seeds_decide_the_layers() {
    let n = 300;
    let mat = mat_from_fn(n, 2, |i, j| (i * 2 + j) as f32);
    let a = HnswIndex::<F32>::build(&view(&mat, n, 2), 4, 20, &Dist::SquaredEuclidean, 1);
    let b = HnswIndex::<F32>::build(&view(&mat, n, 2), 4, 20, &Dist::SquaredEuclidean, 1);
    let c = HnswIndex::<F32>::build(&view(&mat, n, 2), 4, 20, &Dist::SquaredEuclidean, 2);
    assert_eq!(a.layer_assignments, b.layer_assignments);
    assert_eq!(a.neighbours_flat, b.neighbours_flat);
    assert_ne!(a.layer_assignments, c.layer_assignments);
    assert!(a.layer_assignments.iter().any(|&l| l > 0));
    assert!(a.layer_assignments.iter().all(|&l| l <= 15));
}

#[test]
fn an_empty_index_is_built() {
    let index = HnswIndex::<F32>::build(&view(&[], 0, 3), 16, 100, &Dist::SquaredEuclidean, 42);
    assert_eq!(index.n(), 0);
    assert_eq!(index.generate_knn(5, 10, true), Ok((vec![], Some(vec![]))));
    let refused = Err(AnnSearchErrors::DimensionMismatch {
        expected: 3,
        actual: 2,
    });
    assert_eq!(index.query(&numbers(&[1.0, 2.0]), 1, 50), refused);
    assert_eq!(index.query_for_validation(&numbers(&[1.0, 2.0]), 1), refused);
}

#[test]
fn small_indices_are_exact() {
    for n in 1..=9 {
        let mat = mat_from_fn(n, 2, |i, j| ((i * i * 13 + j * 7) % 31) as f32);
        let index = HnswIndex::<F32>::build(&view(&mat, n, 2), 4, 1, &Dist::SquaredEuclidean, 3);
        let query = numbers(&[7.5, 3.5]);
        let mut exact: Vec<u64> = (0..n)
            .map(|i| F32::euclidean_simd(&mat[i * 2..i * 2 + 2], &query).order_key())
            .collect();
        exact.sort_unstable();
        for k in 1..=n {
            let (_, distances) = index.query(&query, k, n).unwrap();
            let found: Vec<u64> = distances.iter().map(|d| d.order_key()).collect();
            assert_eq!(found, exact[..k].to_vec());
        }
        assert_eq!(index.query(&query, n, 0).unwrap().0.len(), n);
        for u in 0..n {
            for &v in index.get_neighbours_at_layer(u, 0) {
                let back = v == u32::MAX
                    || index.get_neighbours_at_layer(v as usize, 0).contains(&(u as u32));
                assert!(back);
            }
        }
    }
}

#[test]
fn layers_depend_on_the_seed_and_not_on_the_data() {
    let n = 90;
    let one = mat_from_fn(n, 2, |i, j| ((i * 23 + j * 5) % 31) as f32);
    let other = mat_from_fn(n, 3, |i, j| ((i * 7 + j * 11) % 43) as f32);
    let a = HnswIndex::<F32>::build(&view(&one, n, 2), 3, 10, &Dist::SquaredEuclidean, 8);
    let b = HnswIndex::<F32>::build(&view(&other, n, 3), 3, 25, &Dist::Cosine, 8);
    let c = HnswIndex::<F32>::build_sq8(&view(&other, n, 3), 3, 4, 8);
    assert!(a.max_layer > 0);
    for index in [&b, &c] {
        assert_eq!(a.layer_assignments, index.layer_assignments);
        assert_eq!(a.max_layer, index.max_layer);
        assert_eq!(a.entry_point, index.entry_point);
    }
    assert_eq!(b.norms.len(), n);
    assert_eq!(a.norms.len(), 0);
    assert_eq!(b.original_ids(), (0..n).collect::<Vec<usize>>());
}

#[test]
fn accessors_of_an_index() {
    let mat = create_simple_matrix();
    let index = HnswIndex::<F32>::build(&view(&mat, 5, 3), 16, 100, &Dist::Cosine, 42);
    assert_eq!(index.n(), 5);
    assert_eq!(index.dim(), 3);
    assert_eq!(index.metric(), Dist::Cosine);
    assert_eq!(index.original_ids(), &[0, 1, 2, 3, 4]);
    assert_eq!(index.vectors_flat(), &mat[..]);
    assert!(near(index.norms()[3], 2.0_f32.sqrt(), 1e-6));
    assert!(!index.extend_candidates());
    assert_eq!(index.sq8_stats(), None);
    assert_eq!(index.euclidean_distance(0, 3), F32(1.0));
    assert!(index.memory_usage_bytes() >= 5 * 3 * 4 + index.neighbours_flat.len() * 4);
    let query = numbers(&[1.0, 0.0, 0.0]);
    assert_eq!(
        index.query_for_validation(&query, 2),
        index.query(&query, 2, 200)
    );
}

#[test]
fn scales_and_codes() {
    let flat = numbers(&[127.0, 0.0, -254.0, 0.0]);
    let scales = fit_scales(&flat, 2, 2);
    assert_eq!(scales, numbers(&[2.0, 1.0]));
    let codes = encode_all(&flat, 2, 2, &scales);
    assert_eq!(codes, vec![64, 0, -127, 0]);
    assert_eq!(count_endpoints(&codes), 1);
    let weights = square_scales(&scales);
    assert_eq!(weights, numbers(&[4.0, 1.0]));
    assert_eq!(
        encode_query(&numbers(&[1000.0, -3.2]), &weights),
        vec![127, -3]
    );
    assert_eq!(sq8_weighted_l2(&[3, 1], &[1, 5], &weights), F32(32.0));
    assert_eq!(sq8_weighted_l2(&[1, 5], &[3, 1], &weights), F32(32.0));
}
