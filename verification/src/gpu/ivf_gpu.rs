//! Inverted file index whose vectors live on a compute device.
//!
//! The device computes distances. What it is asked for, and what its answers mean, is decided here.
use super::partition::{
    lemma_below_all, lemma_below_monotone, lemma_counts, law_partition, offsets_of,
    ordered_by_place, place, reorganise_by_cluster,
};
use super::probe::{law_probe_enough, offsets_ok, probed, ranks, select_probed_clusters};
use super::tasks::{build_tasks, list_fits, TaskList};
use crate::errors::AnnSearchErrors;
use crate::utils::dist::Dist;
use crate::utils::float::{plain_norm, AnnSearchFloat, Real};
use crate::utils::math::{is_root, isqrt, least, most, next_multiple, next_multiple_of};
use crate::utils::memory::{buffer_bytes, buffer_of, plus_bytes, times_bytes};
use crate::utils::matrix::{
    flat_row, lemma_row_bounds, matrix_to_flat, pad_vectors, padded_row, MatView,
};
use vstd::layout::size_of;
use vstd::prelude::*;
use vstd::slice::slice_subrange;

verus! {

/// How many queries are processed at once where nothing else is asked for.
pub const IVF_GPU_QUERY_BATCH_SIZE: usize = 100_000;

/// The size that the buffer of distances should not exceed, in megabytes.
pub const TARGET_BUFFER_MB: usize = 1500;

/// The size of a distance and an index.
pub const BYTES_PER_CANDIDATE: usize = 8;

/// How an index is to be built.
#[derive(Clone, Copy, Debug, PartialEq, Eq, Structural)]
pub struct BuildPlan {
    /// The number of clusters.
    pub nlist: usize,
    /// The number of dimensions after padding.
    pub dim_padded: usize,
    /// The number of vectors that the clusters are trained on.
    pub n_train: usize,
}

/// The number asked for, or the square root of `n`; at least one.
pub open spec fn or_root(asked: Option<usize>, n: usize, r: usize) -> bool {
    match asked {
        Some(a) => r == most(a as int, 1),
        None => exists|root: int| #[trigger] is_root(n as int, root) && r == most(root, 1),
    }
}

/// The number of vectors that `nlist` clusters are trained on.
pub open spec fn train_size(nlist: usize, n: usize) -> int {
    most(least(least(256 * nlist, 250_000), n as int), 1)
}

/// Decide how an index is built; the Manhattan metric is refused.
pub fn plan_build(
    n: usize,
    dim: usize,
    metric: Dist,
    nlist: Option<usize>,
    line: usize,
) -> (r: Result<BuildPlan, AnnSearchErrors>)
    requires
        line > 0,
        next_multiple(dim as int, line as int) <= usize::MAX,
    ensures
        r matches Err(e) ==> metric == Dist::Manhattan && e
            == AnnSearchErrors::DistanceNotSupported(Dist::Manhattan),
        r matches Ok(plan) ==> metric != Dist::Manhattan && or_root(nlist, n, plan.nlist)
            && plan.dim_padded == next_multiple(dim as int, line as int) && plan.n_train
            == train_size(plan.nlist, n),
{
    if metric == Dist::Manhattan {
        return Err(AnnSearchErrors::DistanceNotSupported(metric));
    }
    let asked: usize = match nlist {
        Some(a) => a,
        None => isqrt(n),
    };
    let count: usize = if asked >= 1 {
        asked
    } else {
        1
    };
    let dim_padded: usize = next_multiple_of(dim, line);
    let most_train: usize = if count > 976 {
        250_000
    } else {
        256 * count
    };
    let mut n_train: usize = most_train;
    if n < n_train {
        n_train = n;
    }
    if n_train < 1 {
        n_train = 1;
    }
    Ok(BuildPlan { nlist: count, dim_padded, n_train })
}

/// The norms of the rows of a flat matrix for the cosine metric, and ones for any other.
pub open spec fn norms_or_ones<T: AnnSearchFloat>(
    flat: Seq<T>,
    n: nat,
    dim: int,
    metric: Dist,
) -> Seq<T> {
    Seq::new(
        n,
        |i: int|
            if metric == Dist::Cosine {
                T::l2_norm_spec(flat_row(flat, dim, i))
            } else {
                T::one_spec()
            },
    )
}

/// Compute the norms that the assignment of vectors to clusters goes by.
pub fn row_norms<T: AnnSearchFloat>(flat: &[T], n: usize, dim: usize, metric: Dist) -> (r: Vec<T>)
    requires
        flat@.len() == n * dim,
    ensures
        r@ == norms_or_ones(flat@, n as nat, dim as int, metric),
{
    let mut norms: Vec<T> = Vec::new();
    let len: usize = flat.len();
    let mut i: usize = 0;
    while i < n
        invariant
            i <= n,
            len == flat@.len(),
            len == n * dim,
            norms@ == norms_or_ones(flat@, n as nat, dim as int, metric).take(i as int),
        decreases n - i,
    {
        proof {
            lemma_row_bounds(i as int, n as int, dim as int);
        }
        if metric == Dist::Cosine {
            let start: usize = i * dim;
            let row = slice_subrange(flat, start, start + dim);
            assert(row@ == flat_row(flat@, dim as int, i as int));
            norms.push(T::calculate_l2_norm(row));
        } else {
            norms.push(T::one());
        }
        proof {
            assert(norms@ =~= norms_or_ones(flat@, n as nat, dim as int, metric).take(i + 1));
        }
        i += 1;
    }
    assert(norms@ =~= norms_or_ones(flat@, n as nat, dim as int, metric));
    norms
}

/// An inverted file index.
pub struct IvfIndexGpu<T: AnnSearchFloat> {
    /// The vectors, grouped by cluster and padded.
    pub vectors_cpu: Vec<T>,
    /// The norms of the vectors, grouped by cluster, for the cosine metric; otherwise empty.
    pub norms: Vec<T>,
    /// The index in the data of every vector.
    pub original_indices: Vec<usize>,
    /// Where the clusters begin; one entry more than there are clusters.
    pub cluster_offsets: Vec<usize>,
    /// The centroids of the clusters, padded.
    pub centroids: Vec<T>,
    /// The norms of the centroids, for the cosine metric; otherwise empty.
    pub centroid_norms: Vec<T>,
    /// The number of dimensions.
    pub dim: usize,
    /// The number of dimensions after padding.
    pub dim_padded: usize,
    /// The number of vectors.
    pub n: usize,
    /// The number of clusters.
    pub nlist: usize,
    /// The metric.
    pub metric: Dist,
}

/// Every number below `n` stands in `s` once.
pub open spec fn is_arrangement(s: Seq<usize>, n: nat) -> bool {
    &&& s.len() == n
    &&& s.no_duplicates()
    &&& forall|i: int| 0 <= i < n ==> (#[trigger] s[i]) < n
}

/// What a query is run with.
#[derive(Clone, Copy, Debug, PartialEq, Eq, Structural)]
pub struct QueryPlan {
    /// How many neighbours every query gets.
    pub k: usize,
    /// How many clusters every query looks into.
    pub nprobe: usize,
    /// How many queries are processed at once.
    pub batch: usize,
}

/// How many queries fit into the buffer of distances when each of them gets `nprobe` times the
/// average number of vectors of a cluster, and half as many again. Eight bytes hold a distance and
/// an index. There are at least a hundred and at most twenty thousand.
pub open spec fn safe_batch<N: Real>(n: usize, nlist: usize, nprobe: usize) -> int {
    let average = N::of_size_spec(n).over_spec(N::of_size_spec(nlist));
    let margin = N::of_int_spec(3).over_spec(N::of_int_spec(2));
    let candidates = N::of_size_spec(nprobe).times_spec(average).times_spec(margin);
    let bytes = candidates.times_spec(N::of_size_spec(8));
    let fit = N::of_size_spec(1_572_864_000).over_spec(bytes).truncated_spec();
    most(least(fit as int, 20_000), 100)
}

/// The results of one query: a slot counts where its distance is below that of an unset slot.
pub open spec fn kept_row<T: AnnSearchFloat>(
    original: Seq<usize>,
    dists: Seq<T>,
    slots: Seq<u32>,
) -> Seq<(usize, T)>
    decreases dists.len(),
{
    if dists.len() == 0 {
        Seq::empty()
    } else {
        let front = kept_row(original, dists.drop_last(), slots);
        let at = dists.len() - 1;
        if dists[at].rank() < T::unset_spec().rank() {
            front.push((original[slots[at] as int], dists[at]))
        } else {
            front
        }
    }
}

/// The first parts of the results of one query.
pub open spec fn row_indices<T: AnnSearchFloat>(
    original: Seq<usize>,
    dists: Seq<T>,
    slots: Seq<u32>,
) -> Seq<usize> {
    kept_row(original, dists, slots).map_values(|e: (usize, T)| e.0)
}

/// The second parts of the results of one query.
pub open spec fn row_dists<T: AnnSearchFloat>(
    original: Seq<usize>,
    dists: Seq<T>,
    slots: Seq<u32>,
) -> Seq<T> {
    kept_row(original, dists, slots).map_values(|e: (usize, T)| e.1)
}

/// Slots that count hold vectors that exist.
pub open spec fn slots_ok<T: AnnSearchFloat>(dists: Seq<T>, slots: Seq<u32>, n: nat) -> bool {
    &&& dists.len() == slots.len()
    &&& forall|i: int|
        0 <= i < dists.len() && (#[trigger] dists[i]).rank() < T::unset_spec().rank()
            ==> slots[i] < n
}

impl<T: AnnSearchFloat> IvfIndexGpu<T> {
    /// The vectors and clusters of the index are in order.
    pub open spec fn wf(&self) -> bool {
        &&& self.nlist >= 1
        &&& self.nlist < usize::MAX
        &&& self.n <= u32::MAX
        &&& self.dim <= self.dim_padded
        &&& self.metric != Dist::Manhattan
        &&& self.vectors_cpu@.len() == self.n * self.dim_padded
        &&& self.centroids@.len() == self.nlist * self.dim_padded
        &&& is_arrangement(self.original_indices@, self.n as nat)
        &&& offsets_ok(self.cluster_offsets@, self.nlist as nat, self.n as nat)
        &&& self.norms@.len() == if self.metric == Dist::Cosine {
            self.n as nat
        } else {
            0
        }
        &&& self.centroid_norms@.len() == if self.metric == Dist::Cosine {
            self.nlist as nat
        } else {
            0
        }
    }

    /// How an index comes out of the data, the centroids and the cluster of every vector.
    pub open spec fn grouped_from(
        &self,
        flat: Seq<T>,
        centroids: Seq<T>,
        assignments: Seq<usize>,
    ) -> bool {
        &&& ordered_by_place(assignments, self.original_indices@)
        &&& self.cluster_offsets@ == offsets_of(assignments, self.nlist as nat)
        &&& forall|pos: int|
            0 <= pos < self.n ==> #[trigger] flat_row(
                self.vectors_cpu@,
                self.dim_padded as int,
                pos,
            ) == padded_row(
                flat_row(flat, self.dim as int, self.original_indices@[pos] as int),
                self.dim_padded as int,
            )
        &&& forall|c: int|
            0 <= c < self.nlist ==> #[trigger] flat_row(
                self.centroids@,
                self.dim_padded as int,
                c,
            ) == padded_row(flat_row(centroids, self.dim as int, c), self.dim_padded as int)
        &&& self.metric == Dist::Cosine ==> {
            &&& forall|pos: int|
                0 <= pos < self.n ==> #[trigger] self.norms@[pos] == plain_norm(
                    flat_row(flat, self.dim as int, self.original_indices@[pos] as int),
                )
            &&& self.centroid_norms@ == norms_or_ones(
                centroids,
                self.nlist as nat,
                self.dim as int,
                self.metric,
            )
        }
    }

    /// Make an index of vectors whose clusters are known.
    pub fn from_assignments(
        vectors_flat: &[T],
        n: usize,
        dim: usize,
        plan: &BuildPlan,
        centroids: &[T],
        assignments: &[usize],
        metric: Dist,
    ) -> (r: Self)
        requires
            vectors_flat@.len() == n * dim,
            centroids@.len() == plan.nlist * dim,
            assignments@.len() == n,
            forall|i: int| 0 <= i < n ==> (#[trigger] assignments@[i]) < plan.nlist,
            1 <= plan.nlist < usize::MAX,
            dim <= plan.dim_padded,
            n * plan.dim_padded <= usize::MAX,
            plan.nlist * plan.dim_padded <= usize::MAX,
            n <= u32::MAX,
            metric != Dist::Manhattan,
        ensures
            r.wf(),
            r.n == n,
            r.dim == dim,
            r.dim_padded == plan.dim_padded,
            r.nlist == plan.nlist,
            r.metric == metric,
            r.grouped_from(vectors_flat@, centroids@, assignments@),
    {
        let ghost a = assignments@;
        let nlist: usize = plan.nlist;
        let (by_cluster, original_indices, cluster_offsets, norms) = reorganise_by_cluster(
            vectors_flat,
            dim,
            n,
            assignments,
            nlist,
            &metric,
        );
        let vectors_cpu = pad_vectors(by_cluster.as_slice(), n, dim, plan.dim_padded);
        let centroids_padded = pad_vectors(centroids, nlist, dim, plan.dim_padded);
        let mut centroid_norms: Vec<T> = Vec::new();
        if metric == Dist::Cosine {
            centroid_norms = row_norms(centroids, nlist, dim, metric);
        }
        proof {
            lemma_below_all(a, nlist as int);
            lemma_counts(a, 0);
            assert forall|c: int, d: int| 0 <= c <= d <= nlist implies cluster_offsets@[c]
                <= cluster_offsets@[d] by {
                lemma_below_monotone(a, c, d);
                lemma_counts(a, d - 1);
                lemma_counts(a, c - 1);
            }
            assert(offsets_ok(cluster_offsets@, nlist as nat, n as nat));
            assert(original_indices@.no_duplicates()) by {
                if n > 0 {
                    law_partition(a, original_indices@, nlist as nat, 0, 0);
                }
            }
            assert forall|i: int| 0 <= i < n implies (#[trigger] original_indices@[i]) < n by {
                assert(place(a, original_indices@[i] as int) == i);
            }
        }
        let index = IvfIndexGpu {
            vectors_cpu,
            norms,
            original_indices,
            cluster_offsets,
            centroids: centroids_padded,
            centroid_norms,
            dim,
            dim_padded: plan.dim_padded,
            n,
            nlist,
            metric,
        };
        proof {
            assert forall|pos: int| 0 <= pos < n implies #[trigger] flat_row(
                index.vectors_cpu@,
                index.dim_padded as int,
                pos,
            ) == padded_row(
                flat_row(vectors_flat@, dim as int, index.original_indices@[pos] as int),
                index.dim_padded as int,
            ) by {
                assert(flat_row(by_cluster@, dim as int, pos) == flat_row(
                    vectors_flat@,
                    dim as int,
                    index.original_indices@[pos] as int,
                ));
            }
        }
        index
    }

    /// Check that queries have the dimensions of the index.
    pub fn check_dim(&self, actual: usize) -> (r: Result<(), AnnSearchErrors>)
        ensures
            r == if actual == self.dim {
                Ok::<(), AnnSearchErrors>(())
            } else {
                Err(AnnSearchErrors::DimensionMismatch { expected: self.dim, actual })
            },
    {
        if actual == self.dim {
            Ok(())
        } else {
            Err(AnnSearchErrors::DimensionMismatch { expected: self.dim, actual })
        }
    }

    /// The queries of a matrix, padded, one behind the other. Queries with other dimensions than
    /// the index are refused.
    pub fn prepare_queries(&self, query_mat: &MatView<T>) -> (r: Result<Vec<T>, AnnSearchErrors>)
        requires
            self.wf(),
            query_mat.wf(),
            query_mat.nrows * query_mat.ncols <= usize::MAX,
            query_mat.nrows * self.dim_padded <= usize::MAX,
        ensures
            r matches Err(e) ==> query_mat.ncols != self.dim && e
                == (AnnSearchErrors::DimensionMismatch {
                expected: self.dim,
                actual: query_mat.ncols,
            }),
            r matches Ok(q) ==> query_mat.ncols == self.dim && q@.len() == query_mat.nrows
                * self.dim_padded && forall|i: int|
                0 <= i < query_mat.nrows ==> #[trigger] flat_row(q@, self.dim_padded as int, i)
                    == padded_row(query_mat.row_values(i), self.dim_padded as int),
    {
        match self.check_dim(query_mat.ncols) {
            Err(e) => {
                return Err(e);
            },
            Ok(_) => {},
        }
        let (flat, n_queries, dim) = matrix_to_flat(query_mat);
        Ok(pad_vectors(flat.as_slice(), n_queries, dim, self.dim_padded))
    }

    /// The norms of queries for the cosine metric; none for any other.
    pub fn query_norms(&self, queries: &[T], n_queries: usize) -> (r: Vec<T>)
        requires
            queries@.len() == n_queries * self.dim_padded,
        ensures
            self.metric == Dist::Cosine ==> r@ == norms_or_ones(
                queries@,
                n_queries as nat,
                self.dim_padded as int,
                self.metric,
            ),
            self.metric != Dist::Cosine ==> r@.len() == 0,
    {
        if self.metric == Dist::Cosine {
            row_norms(queries, n_queries, self.dim_padded, self.metric)
        } else {
            Vec::new()
        }
    }

    /// How many clusters a query looks into where nothing else is asked for: the square root of
    /// their number.
    pub fn default_nprobe(&self) -> (r: usize)
        ensures
            or_root(None, self.nlist, r),
    {
        let root: usize = isqrt(self.nlist);
        proof {
            assert(is_root(self.nlist as int, root as int));
        }
        if root >= 1 {
            root
        } else {
            1
        }
    }

    /// How many queries can be processed at once.
    pub fn calculate_safe_batch_size(&self, nprobe: usize) -> (r: usize)
        ensures
            r == safe_batch::<T::Narrow>(self.n, self.nlist, nprobe),
    {
        let average = T::Narrow::of_size(self.n).over(T::Narrow::of_size(self.nlist));
        let margin = T::Narrow::of_int(3).over(T::Narrow::of_int(2));
        let candidates = T::Narrow::of_size(nprobe).times(average).times(margin);
        let bytes = candidates.times(T::Narrow::of_size(BYTES_PER_CANDIDATE));
        let buffer = T::Narrow::of_size(TARGET_BUFFER_MB * 1024 * 1024);
        let fit: usize = buffer.over(bytes).truncated();
        if fit > 20_000 {
            20_000
        } else if fit < 100 {
            100
        } else {
            fit
        }
    }

    /// Decide what queries are run with.
    pub fn plan_query(
        &self,
        k: usize,
        nprobe: Option<usize>,
        nquery: Option<usize>,
    ) -> (r: QueryPlan)
        requires
            self.wf(),
        ensures
            r.k == least(k as int, self.n as int),
            nprobe matches Some(p) ==> r.nprobe == least(p as int, self.nlist as int),
            nprobe.is_none() ==> exists|p: usize| #[trigger]
                or_root(None, self.nlist, p) && r.nprobe == least(p as int, self.nlist as int),
            r.batch == match nquery {
                Some(q) => q,
                None => IVF_GPU_QUERY_BATCH_SIZE,
            },
            nquery is None ==> r.batch == 100_000,
    {
        let batch: usize = match nquery {
            Some(q) => q,
            None => IVF_GPU_QUERY_BATCH_SIZE,
        };
        let asked: usize = match nprobe {
            Some(p) => p,
            None => self.default_nprobe(),
        };
        QueryPlan {
            k: if k <= self.n {
                k
            } else {
                self.n
            },
            nprobe: if asked <= self.nlist {
                asked
            } else {
                self.nlist
            },
            batch,
        }
    }

    /// Decide what queries for all vectors of the index are run with. Where nothing else is asked
    /// for, as many of them are processed at once as fit.
    pub fn plan_self_query(
        &self,
        k: usize,
        nprobe: Option<usize>,
        nquery: Option<usize>,
    ) -> (r: QueryPlan)
        requires
            self.wf(),
        ensures
            r.k == least(k as int, self.n as int),
            ({
                let probes = |p: usize|
                    r.nprobe == least(p as int, self.nlist as int) && r.batch == match nquery {
                        Some(q) => q as int,
                        None => safe_batch::<T::Narrow>(self.n, self.nlist, p),
                    };
                match nprobe {
                    Some(p) => probes(p),
                    None => exists|p: usize| #[trigger]
                        or_root(None, self.nlist, p) && probes(p),
                }
            }),
    {
        let asked: usize = match nprobe {
            Some(p) => p,
            None => self.default_nprobe(),
        };
        let batch: usize = match nquery {
            Some(q) => q,
            None => self.calculate_safe_batch_size(asked),
        };
        QueryPlan {
            k: if k <= self.n {
                k
            } else {
                self.n
            },
            nprobe: if asked <= self.nlist {
                asked
            } else {
                self.nlist
            },
            batch,
        }
    }

    /// The clusters that the queries of a batch look into.
    pub open spec fn probes(
        &self,
        centroid_dists: Seq<T>,
        q: int,
        nprobe: usize,
        k: usize,
    ) -> Seq<usize> {
        probed(
            self.cluster_offsets@,
            ranks(flat_row(centroid_dists, self.nlist as int, q)),
            nprobe as nat,
            k as nat,
        )
    }

    /// Choose the clusters that the queries of a batch look into, given their distances to all
    /// centroids.
    pub fn probe_batch(
        &self,
        centroid_dists: &[T],
        n_queries: usize,
        nprobe: usize,
        k: usize,
    ) -> (r: Vec<Vec<usize>>)
        requires
            self.wf(),
            centroid_dists@.len() == n_queries * self.nlist,
        ensures
            r@.len() == n_queries,
            forall|q: int|
                0 <= q < n_queries ==> (#[trigger] r@[q])@ == self.probes(
                    centroid_dists@,
                    q,
                    nprobe,
                    k,
                ),
    {
        let mut lists: Vec<Vec<usize>> = Vec::new();
        let len: usize = centroid_dists.len();
        let mut q: usize = 0;
        while q < n_queries
            invariant
                q <= n_queries,
                self.wf(),
                len == centroid_dists@.len(),
                len == n_queries * self.nlist,
                lists@.len() == q,
                forall|i: int|
                    0 <= i < q ==> (#[trigger] lists@[i])@ == self.probes(
                        centroid_dists@,
                        i,
                        nprobe,
                        k,
                    ),
            decreases n_queries - q,
        {
            proof {
                lemma_row_bounds(q as int, n_queries as int, self.nlist as int);
            }
            let start: usize = q * self.nlist;
            let row = slice_subrange(centroid_dists, start, start + self.nlist);
            assert(row@ == flat_row(centroid_dists@, self.nlist as int, q as int));
            assert(offsets_ok(self.cluster_offsets@, row@.len(), self.n as nat));
            lists.push(select_probed_clusters(row, self.cluster_offsets.as_slice(), nprobe, k));
            q += 1;
        }
        lists
    }

    /// The work of a batch is the work of queries that look into the clusters chosen for them.
    pub open spec fn batch_work(
        &self,
        work: TaskList,
        centroid_dists: Seq<T>,
        n_queries: int,
        nprobe: usize,
        k: usize,
    ) -> bool {
        exists|lists: Seq<Vec<usize>>|
            lists.len() == n_queries && #[trigger] work.plans(self.cluster_offsets@, lists)
                && forall|q: int|
                0 <= q < n_queries ==> (#[trigger] lists[q])@ == self.probes(
                    centroid_dists,
                    q,
                    nprobe,
                    k,
                )
    }

    /// Cut the work of a batch into pieces, given the distances of its queries to all centroids.
    pub fn plan_batch(
        &self,
        centroid_dists: &[T],
        n_queries: usize,
        nprobe: usize,
        k: usize,
    ) -> (r: TaskList)
        requires
            self.wf(),
            centroid_dists@.len() == n_queries * self.nlist,
            n_queries <= u32::MAX,
        ensures
            self.batch_work(r, centroid_dists@, n_queries as int, nprobe, k),
    {
        let lists = self.probe_batch(centroid_dists, n_queries, nprobe, k);
        proof {
            assert forall|q: int| 0 <= q < n_queries implies list_fits(
                self.cluster_offsets@,
                self.nlist as nat,
                self.n as nat,
                (#[trigger] lists@[q])@,
            ) by {
                lemma_row_bounds(q, n_queries as int, self.nlist as int);
                let keys = ranks(flat_row(centroid_dists@, self.nlist as int, q));
                law_probe_enough(
                    self.cluster_offsets@,
                    keys,
                    self.n as nat,
                    nprobe as nat,
                    k as nat,
                );
            }
        }
        build_tasks(&lists, self.cluster_offsets.as_slice(), self.nlist)
    }

    /// Read the results of one query.
    fn collect_row(&self, dists: &[T], slots: &[u32]) -> (r: (Vec<usize>, Vec<T>))
        requires
            self.wf(),
            slots_ok(dists@, slots@, self.n as nat),
        ensures
            r.0@ == row_indices(self.original_indices@, dists@, slots@),
            r.1@ == row_dists(self.original_indices@, dists@, slots@),
    {
        let ghost o = self.original_indices@;
        let unset: u64 = T::unset_distance().order_key();
        let mut indices: Vec<usize> = Vec::new();
        let mut distances: Vec<T> = Vec::new();
        let mut i: usize = 0;
        proof {
            assert(indices@ =~= row_indices(o, dists@.take(0), slots@));
            assert(distances@ =~= row_dists(o, dists@.take(0), slots@));
        }
        while i < dists.len()
            invariant
                i <= dists@.len(),
                self.wf(),
                o == self.original_indices@,
                unset == T::unset_spec().rank(),
                slots_ok(dists@, slots@, self.n as nat),
                indices@ == row_indices(o, dists@.take(i as int), slots@),
                distances@ == row_dists(o, dists@.take(i as int), slots@),
            decreases dists.len() - i,
        {
            let d: T = dists[i];
            proof {
                let t = dists@.take(i + 1);
                assert(t.drop_last() =~= dists@.take(i as int));
                assert(t[i as int] == d);
            }
            if d.order_key() < unset {
                assert(dists@[i as int].rank() < T::unset_spec().rank());
                indices.push(self.original_indices[slots[i] as usize]);
                distances.push(d);
                proof {
                    assert(indices@ =~= row_indices(o, dists@.take(i + 1), slots@));
                    assert(distances@ =~= row_dists(o, dists@.take(i + 1), slots@));
                }
            }
            i += 1;
        }
        assert(dists@.take(i as int) =~= dists@);
        (indices, distances)
    }

    /// Read the results of a batch: `k` slots for every query.
    pub fn collect_results(
        &self,
        dists: &[T],
        slots: &[u32],
        n_queries: usize,
        k: usize,
    ) -> (r: (Vec<Vec<usize>>, Vec<Vec<T>>))
        requires
            self.wf(),
            dists@.len() == n_queries * k,
            slots_ok(dists@, slots@, self.n as nat),
        ensures
            r.0@.len() == n_queries,
            r.1@.len() == n_queries,
            forall|q: int|
                0 <= q < n_queries ==> (#[trigger] r.0@[q])@ == row_indices(
                    self.original_indices@,
                    flat_row(dists@, k as int, q),
                    flat_row(slots@, k as int, q),
                ),
            forall|q: int|
                0 <= q < n_queries ==> (#[trigger] r.1@[q])@ == row_dists(
                    self.original_indices@,
                    flat_row(dists@, k as int, q),
                    flat_row(slots@, k as int, q),
                ),
    {
        let mut indices: Vec<Vec<usize>> = Vec::new();
        let mut distances: Vec<Vec<T>> = Vec::new();
        let len: usize = dists.len();
        let mut q: usize = 0;
        while q < n_queries
            invariant
                q <= n_queries,
                self.wf(),
                len == dists@.len(),
                len == n_queries * k,
                slots_ok(dists@, slots@, self.n as nat),
                indices@.len() == q,
                distances@.len() == q,
                forall|i: int|
                    0 <= i < q ==> (#[trigger] indices@[i])@ == row_indices(
                        self.original_indices@,
                        flat_row(dists@, k as int, i),
                        flat_row(slots@, k as int, i),
                    ),
                forall|i: int|
                    0 <= i < q ==> (#[trigger] distances@[i])@ == row_dists(
                        self.original_indices@,
                        flat_row(dists@, k as int, i),
                        flat_row(slots@, k as int, i),
                    ),
            decreases n_queries - q,
        {
            proof {
                lemma_row_bounds(q as int, n_queries as int, k as int);
            }
            let start: usize = q * k;
            let row_d = slice_subrange(dists, start, start + k);
            let row_s = slice_subrange(slots, start, start + k);
            proof {
                assert(row_d@ == flat_row(dists@, k as int, q as int));
                assert(row_s@ == flat_row(slots@, k as int, q as int));
                assert forall|i: int|
                    0 <= i < row_d@.len() && (#[trigger] row_d@[i]).rank() < T::unset_spec().rank()
                    implies row_s@[i] < self.n by {
                    assert(dists@[start + i].rank() < T::unset_spec().rank());
                }
            }
            let (row_indices, row_dists) = self.collect_row(row_d, row_s);
            indices.push(row_indices);
            distances.push(row_dists);
            q += 1;
        }
        (indices, distances)
    }

    /// Put rows that stand in the order of the clusters back into the order of the data.
    pub fn restore_order<A>(&self, rows: Vec<Vec<A>>) -> (r: Vec<Vec<A>>)
        requires
            self.wf(),
            rows@.len() == self.n,
        ensures
            r@.len() == self.n,
            forall|pos: int|
                0 <= pos < self.n ==> r@[self.original_indices@[pos] as int]
                    == #[trigger] rows@[pos],
    {
        let ghost all = rows@;
        let ghost o = self.original_indices@;
        let mut out: Vec<Vec<A>> = Vec::new();
        let mut i: usize = 0;
        while i < self.n
            invariant
                i <= self.n,
                out@.len() == i,
            decreases self.n - i,
        {
            out.push(Vec::new());
            i += 1;
        }
        let mut pos: usize = 0;
        for row in it: rows
            invariant
                it.seq() == all,
                pos == it.index(),
                all.len() == self.n,
                out@.len() == self.n,
                self.wf(),
                o == self.original_indices@,
                forall|p: int| 0 <= p < pos ==> out@[o[p] as int] == #[trigger] all[p],
        {
            let ghost at = it.index();
            assert(row == all[at]);
            assert(o[at] < self.n);
            let target: usize = self.original_indices[pos];
            let ghost before = out@;
            out.set(target, row);
            proof {
                assert forall|p: int| 0 <= p < pos + 1 implies out@[o[p] as int]
                    == #[trigger] all[p] by {
                    if p < pos {
                        assert(o[p] != o[at]);
                        assert(before[o[p] as int] == all[p]);
                    }
                }
            }
            pos += 1;
        }
        out
    }

    /// The neighbours of all vectors of the index, in the order of the data, and their distances
    /// where they were asked for.
    pub fn finish_self_query(
        &self,
        indices: Vec<Vec<usize>>,
        distances: Vec<Vec<T>>,
        return_dist: bool,
    ) -> (r: (Vec<Vec<usize>>, Option<Vec<Vec<T>>>))
        requires
            self.wf(),
            indices@.len() == self.n,
            distances@.len() == self.n,
        ensures
            r.0@.len() == self.n,
            forall|pos: int|
                0 <= pos < self.n ==> r.0@[self.original_indices@[pos] as int]
                    == #[trigger] indices@[pos],
            r.1.is_some() == return_dist,
            r.1 matches Some(d) ==> d@.len() == self.n && forall|pos: int|
                0 <= pos < self.n ==> d@[self.original_indices@[pos] as int]
                    == #[trigger] distances@[pos],
    {
        let ordered = self.restore_order(indices);
        if return_dist {
            (ordered, Some(self.restore_order(distances)))
        } else {
            (ordered, None)
        }
    }

    /// The memory of the index: on the host, and of the vectors, centroids and norms on the device.
    pub fn memory_usage_bytes(&self) -> (r: (usize, usize))
        ensures
            exists|indices: usize, offsets: usize|
                #![trigger buffer_of::<usize>(self.original_indices@.len(), indices), buffer_of::<
                    usize,
                >(self.cluster_offsets@.len(), offsets)]
                buffer_of::<usize>(self.original_indices@.len(), indices) && buffer_of::<usize>(
                    self.cluster_offsets@.len(),
                    offsets,
                ) && r.0 == least(size_of::<Self>() + indices + offsets, usize::MAX as int),
            r.1 == least(
                ((self.vectors_cpu@.len() + self.norms@.len() + self.centroids@.len()
                    + self.centroid_norms@.len()) * size_of::<T>()) as int,
                usize::MAX as int,
            ),
    {
        let indices: usize = buffer_bytes(&self.original_indices);
        let offsets: usize = buffer_bytes(&self.cluster_offsets);
        let header: usize = core::mem::size_of::<Self>();
        let ram: usize = plus_bytes(plus_bytes(header, indices), offsets);
        let each: usize = core::mem::size_of::<T>();
        let a: usize = self.vectors_cpu.len();
        let b: usize = self.norms.len();
        let c: usize = self.centroids.len();
        let d: usize = self.centroid_norms.len();
        let first: usize = plus_bytes(times_bytes(a, each), times_bytes(b, each));
        let second: usize = plus_bytes(times_bytes(c, each), times_bytes(d, each));
        let vram: usize = plus_bytes(first, second);
        proof {
            let (a, b, c, d, e) = (a as int, b as int, c as int, d as int, each as int);
            assert((a + b + c + d) * e == a * e + b * e + c * e + d * e) by (nonlinear_arith);
            assert(a * e >= 0 && b * e >= 0 && c * e >= 0 && d * e >= 0) by (nonlinear_arith)
                requires
                    a >= 0,
                    b >= 0,
                    c >= 0,
                    d >= 0,
                    e >= 0,
            ;
        }
        (ram, vram)
    }
}

} // verus!
