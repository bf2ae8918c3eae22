//! What holds of a clustered index and of the work that its queries make.
use super::ivf_gpu::{
    kept_row, norms_or_ones, or_root, row_dists, row_indices, safe_batch, train_size, IvfIndexGpu,
};
use super::launch::LaunchPlan;
use super::partition::{law_partition, lemma_counts, n_below, n_equal};
use super::probe::{law_nearest_probed, probed, ranks, reach};
use super::query_run::QueryRun;
use super::tasks::{candidates, tasks_of, tasks_of_query, Task, TaskList};
use crate::utils::dist::Dist;
use crate::utils::float::{plain_norm, AnnSearchFloat, Real};
use crate::utils::math::{groups, is_root, law_groups, most};
use crate::utils::matrix::{flat_row, lemma_row_bounds, padded_row};
use vstd::prelude::*;

verus! {

/// A query looks into the clusters whose centroids are nearest to it: no cluster that is left out
/// is nearer than one that is chosen, the chosen clusters stand in ascending order of their
/// distances, and there are at least as many as were asked for or there are.
pub proof fn law_index_probes<T: AnnSearchFloat>(
    index: &IvfIndexGpu<T>,
    centroid_dists: Seq<T>,
    n_queries: int,
    q: int,
    nprobe: usize,
    k: usize,
)
    requires
        index.wf(),
        centroid_dists.len() == n_queries * index.nlist,
        0 <= q < n_queries,
    ensures
        ({
            let list = index.probes(centroid_dists, q, nprobe, k);
            let start = q * index.nlist;
            &&& list.no_duplicates()
            &&& nprobe <= index.nlist ==> list.len() >= nprobe
            &&& nprobe >= index.nlist ==> list.len() == index.nlist
            &&& forall|i: int| 0 <= i < list.len() ==> (#[trigger] list[i]) < index.nlist
            &&& forall|i: int, j: int|
                0 <= i < j < list.len() ==> centroid_dists[start + #[trigger] list[i]].rank()
                    <= centroid_dists[start + #[trigger] list[j]].rank()
            &&& forall|i: int, b: usize|
                #![trigger list[i], list.contains(b)]
                0 <= i < list.len() && b < index.nlist && !list.contains(b)
                    ==> centroid_dists[start + list[i]].rank() <= centroid_dists[start + b].rank()
        }),
{
    let nlist = index.nlist as int;
    let row = flat_row(centroid_dists, nlist, q);
    let list = index.probes(centroid_dists, q, nprobe, k);
    let start = q * nlist;
    lemma_row_bounds(q, n_queries, nlist);
    law_nearest_probed(row, index.cluster_offsets@, index.n as nat, nprobe as nat, k as nat);
    assert forall|i: int, j: int| 0 <= i < j < list.len() implies centroid_dists[start
        + #[trigger] list[i]].rank() <= centroid_dists[start + #[trigger] list[j]].rank() by {
        let (a, b) = (list[i], list[j]);
        assert(row[a as int] == centroid_dists[start + a]);
        assert(row[b as int] == centroid_dists[start + b]);
    }
    assert forall|i: int, b: usize|
        #![trigger list[i], list.contains(b)]
        0 <= i < list.len() && b < index.nlist && !list.contains(b) implies centroid_dists[start
        + list[i]].rank() <= centroid_dists[start + b].rank() by {
        let a = list[i];
        assert(row[a as int] == centroid_dists[start + a]);
        assert(row[b as int] == centroid_dists[start + b]);
    }
}

/// Further vectors and where they go: a vector counts for the cluster that it is assigned to, and
/// as one below every cluster behind that.
pub proof fn law_cluster_counts(assignments: Seq<usize>, cluster: usize, c: int)
    ensures
        n_below(Seq::<usize>::empty(), c) == 0,
        n_equal(Seq::<usize>::empty(), c) == 0,
        n_below(assignments.push(cluster), c) == n_below(assignments, c) + if cluster < c {
            1int
        } else {
            0int
        },
        n_equal(assignments.push(cluster), c) == n_equal(assignments, c) + if cluster == c {
            1int
        } else {
            0int
        },
{
    assert(assignments.push(cluster).drop_last() =~= assignments);
}

/// The vectors of a cluster stand where its range says, and nowhere else. At every place stand the
/// numbers of one vector of the data, filled up with zeros, and under the cosine metric its norm.
pub proof fn law_index_places<T: AnnSearchFloat>(
    index: &IvfIndexGpu<T>,
    flat: Seq<T>,
    centroids: Seq<T>,
    assignments: Seq<usize>,
    pos: int,
    c: int,
    j: int,
)
    requires
        index.wf(),
        index.grouped_from(flat, centroids, assignments),
        flat.len() == index.n * index.dim,
        centroids.len() == index.nlist * index.dim,
        forall|i: int| 0 <= i < assignments.len() ==> (#[trigger] assignments[i]) < index.nlist,
        0 <= pos < index.n,
        0 <= c < index.nlist,
        0 <= j < index.dim_padded,
    ensures
        index.cluster_offsets@[c] <= pos < index.cluster_offsets@[c + 1]
            <==> assignments[index.original_indices@[pos] as int] == c,
        index.vectors_cpu@[pos * index.dim_padded + j] == if j < index.dim {
            flat[index.original_indices@[pos] * index.dim + j]
        } else {
            T::zero_spec()
        },
        index.centroids@[c * index.dim_padded + j] == if j < index.dim {
            centroids[c * index.dim + j]
        } else {
            T::zero_spec()
        },
        index.metric == Dist::Cosine ==> index.norms@[pos] == plain_norm(
            flat.subrange(
                index.original_indices@[pos] * index.dim,
                index.original_indices@[pos] * index.dim + index.dim as int,
            ),
        ) && index.centroid_norms@[c] == T::l2_norm_spec(
            centroids.subrange(c * index.dim, c * index.dim + index.dim as int),
        ),
{
    let (dim, padded) = (index.dim as int, index.dim_padded as int);
    let from = index.original_indices@[pos] as int;
    law_partition(assignments, index.original_indices@, index.nlist as nat, pos, c);
    assert(index.cluster_offsets@[c] == n_below(assignments, c) as usize);
    assert(index.cluster_offsets@[c + 1] == n_below(assignments, c + 1) as usize);
    lemma_counts(assignments, c);
    lemma_counts(assignments, c + 1);
    lemma_row_bounds(pos, index.n as int, padded);
    lemma_row_bounds(from, index.n as int, dim);
    lemma_row_bounds(c, index.nlist as int, padded);
    lemma_row_bounds(c, index.nlist as int, dim);
    let row = flat_row(index.vectors_cpu@, padded, pos);
    assert(row[j] == index.vectors_cpu@[pos * padded + j]);
    assert(row == padded_row(flat_row(flat, dim, from), padded));
    let centroid = flat_row(index.centroids@, padded, c);
    assert(centroid[j] == index.centroids@[c * padded + j]);
    assert(centroid == padded_row(flat_row(centroids, dim, c), padded));
    if j < dim {
        assert(flat_row(flat, dim, from)[j] == flat[from * dim + j]);
        assert(flat_row(centroids, dim, c)[j] == centroids[c * dim + j]);
    }
}

/// Under the cosine metric a vector counts with its norm, under another metric with one.
pub proof fn law_norms<T: AnnSearchFloat>(flat: Seq<T>, n: nat, dim: int, metric: Dist, i: int)
    requires
        0 <= i < n,
    ensures
        norms_or_ones(flat, n, dim, metric).len() == n,
        metric == Dist::Cosine ==> norms_or_ones(flat, n, dim, metric)[i] == T::l2_norm_spec(
            flat.subrange(i * dim, i * dim + dim),
        ),
        metric != Dist::Cosine ==> norms_or_ones(flat, n, dim, metric)[i] == T::one_spec(),
{
}

/// A further result of a row is kept if and only if its distance is below that of an unset place,
/// then with the id of the vector at its slot and with its distance.
pub proof fn law_kept_by_place<T: AnnSearchFloat>(
    original: Seq<usize>,
    dists: Seq<T>,
    slots: Seq<u32>,
    dist: T,
    slot: u32,
)
    requires
        dists.len() == slots.len(),
    ensures
        ({
            let (more, places) = (dists.push(dist), slots.push(slot));
            let set = dist.rank() < T::unset_spec().rank();
            &&& row_indices(original, Seq::<T>::empty(), slots).len() == 0
            &&& row_dists(original, Seq::<T>::empty(), slots).len() == 0
            &&& row_indices(original, more, places) == if set {
                row_indices(original, dists, slots).push(original[slot as int])
            } else {
                row_indices(original, dists, slots)
            }
            &&& row_dists(original, more, places) == if set {
                row_dists(original, dists, slots).push(dist)
            } else {
                row_dists(original, dists, slots)
            }
        }),
{
    let (more, places) = (dists.push(dist), slots.push(slot));
    assert(more.drop_last() =~= dists);
    lemma_kept_longer(original, dists, slots, places);
    assert(row_indices(original, more, places) =~= if dist.rank() < T::unset_spec().rank() {
        row_indices(original, dists, slots).push(original[slot as int])
    } else {
        row_indices(original, dists, slots)
    });
    assert(row_dists(original, more, places) =~= if dist.rank() < T::unset_spec().rank() {
        row_dists(original, dists, slots).push(dist)
    } else {
        row_dists(original, dists, slots)
    });
}

/// Slots behind the last distance do not count.
proof fn lemma_kept_longer<T: AnnSearchFloat>(
    original: Seq<usize>,
    dists: Seq<T>,
    slots: Seq<u32>,
    more: Seq<u32>,
)
    requires
        dists.len() <= slots.len(),
        dists.len() <= more.len(),
        forall|i: int| 0 <= i < dists.len() ==> slots[i] == #[trigger] more[i],
    ensures
        kept_row(original, dists, slots) == kept_row(original, dists, more),
    decreases dists.len(),
{
    if dists.len() > 0 {
        assert(slots[dists.len() - 1] == more[dists.len() - 1]);
        lemma_kept_longer(original, dists.drop_last(), slots, more);
    }
}

/// A cluster that holds vectors makes one task of a query: it reads the range of the cluster, and
/// writes behind what the clusters before it hold. An empty cluster makes none.
pub proof fn law_task_of_cluster(q: u32, offsets: Seq<usize>, list: Seq<usize>, c: usize)
    requires
        offsets[c as int] <= offsets[c + 1],
    ensures
        tasks_of_query(q, offsets, Seq::<usize>::empty()).len() == 0,
        offsets[c as int] == offsets[c + 1] ==> tasks_of_query(q, offsets, list.push(c))
            == tasks_of_query(q, offsets, list),
        offsets[c as int] < offsets[c + 1] ==> tasks_of_query(q, offsets, list.push(c))
            == tasks_of_query(q, offsets, list).push(
            (Task {
                query: q,
                db_start: offsets[c as int] as u32,
                write_offset: reach(offsets, list) as u32,
                db_count: (offsets[c + 1] - offsets[c as int]) as u32,
            }),
        ),
{
    assert(list.push(c).drop_last() =~= list);
}

/// The tasks of many queries are those of the first, then those of the second, and so on, and every
/// query has as many candidates as its clusters hold vectors.
pub proof fn law_tasks_of_queries(offsets: Seq<usize>, lists: Seq<Vec<usize>>, n: int)
    requires
        0 <= n < lists.len() <= u32::MAX,
    ensures
        tasks_of(offsets, lists, 0).len() == 0,
        tasks_of(offsets, lists, n + 1) == tasks_of(offsets, lists, n) + tasks_of_query(
            n as u32,
            offsets,
            lists[n]@,
        ),
        candidates(offsets, lists).len() == lists.len(),
        candidates(offsets, lists)[n] == reach(offsets, lists[n]@) as u32,
{
}

/// The arrays of a task list hold the tasks place by place, and its two maxima are reached and not
/// exceeded.
pub proof fn law_task_arrays(
    work: TaskList,
    offsets: Seq<usize>,
    lists: Seq<Vec<usize>>,
    i: int,
)
    requires
        work.plans(offsets, lists),
        0 <= i < work.task_q_idx@.len(),
    ensures
        ({
            let tasks = tasks_of(offsets, lists, lists.len() as int);
            &&& work.task_q_idx@.len() == tasks.len()
            &&& work.task_db_start@.len() == tasks.len()
            &&& work.task_write_offset@.len() == tasks.len()
            &&& work.task_db_count@.len() == tasks.len()
            &&& work.task_q_idx@[i] == tasks[i].query
            &&& work.task_db_start@[i] == tasks[i].db_start
            &&& work.task_write_offset@[i] == tasks[i].write_offset
            &&& work.task_db_count@[i] == tasks[i].db_count
        }),
        work.task_db_count@[i] <= work.max_db_count,
        work.max_db_count == 0 || exists|j: int|
            0 <= j < work.task_db_count@.len() && #[trigger] work.task_db_count@[j]
                == work.max_db_count,
        work.candidates_per_query@.len() == lists.len(),
        forall|q: int|
            0 <= q < lists.len() ==> (#[trigger] work.candidates_per_query@[q])
                <= work.max_candidates,
        work.max_candidates == 0 || exists|q: int|
            0 <= q < lists.len() && #[trigger] work.candidates_per_query@[q]
                == work.max_candidates,
{
}

/// A number of clusters that is asked for is taken, though at least one. Where none is asked for,
/// it is the root of the number of vectors, rounded down, though at least one.
pub proof fn law_cluster_number(asked: Option<usize>, n: usize, r: usize)
    requires
        or_root(asked, n, r),
    ensures
        r >= 1,
        asked matches Some(a) ==> (a >= 1 ==> r == a) && (a == 0 ==> r == 1),
        asked is None && n >= 1 ==> r * r <= n < (r + 1) * (r + 1),
        asked is None && n == 0 ==> r == 1,
{
    if asked is None {
        let root = choose|root: int| #[trigger] is_root(n as int, root)
            && r == most(root, 1);
        if root == 0 {
            assert(n < 1) by (nonlinear_arith)
                requires
                    n < (root + 1) * (root + 1),
                    root == 0,
            ;
        }
        if n == 0 && root >= 1 {
            assert(root * root >= 1) by (nonlinear_arith)
                requires
                    root >= 1,
            ;
        }
    }
}

/// Training takes 256 vectors per cluster, though no more than 250000, no more than there are, and
/// at least one.
pub proof fn law_train_size(nlist: usize, n: usize)
    ensures
        train_size(nlist, n) >= 1,
        n >= 1 ==> train_size(nlist, n) <= n,
        nlist >= 1 ==> train_size(nlist, n) <= 256 * nlist,
        train_size(nlist, n) <= 250_000,
        nlist >= 1 && n >= 1 ==> train_size(nlist, n) == n || train_size(nlist, n) == 256 * nlist
            || train_size(nlist, n) == 250_000,
{
}

/// A batch of a query for all vectors is as large as fits into 1500 megabytes of candidates, taken
/// as half as many again as the clusters of a query hold on average, at eight bytes each. It is
/// at least 100 and at most 20000.
pub proof fn law_safe_batch<N: Real>(n: usize, nlist: usize, nprobe: usize)
    ensures
        100 <= safe_batch::<N>(n, nlist, nprobe) <= 20_000,
        ({
            let per_cluster = N::of_size_spec(n).over_spec(N::of_size_spec(nlist));
            let half_more = N::of_int_spec(3).over_spec(N::of_int_spec(2));
            let per_query = N::of_size_spec(nprobe).times_spec(per_cluster).times_spec(half_more);
            let fit = N::of_size_spec((1500 * 1024 * 1024) as usize).over_spec(
                per_query.times_spec(N::of_size_spec(8)),
            ).truncated_spec();
            &&& 100 <= fit <= 20_000 ==> safe_batch::<N>(n, nlist, nprobe) == fit
            &&& fit < 100 ==> safe_batch::<N>(n, nlist, nprobe) == 100
            &&& fit > 20_000 ==> safe_batch::<N>(n, nlist, nprobe) == 20_000
        }),
{
}

/// A launch has enough groups for all queries, candidates and tasks, and no group without any of
/// them, but for one that is always there.
pub proof fn law_launch(plan: LaunchPlan, n_queries: int, work: &TaskList, width: int, height: int)
    requires
        width > 0,
        height > 0,
        n_queries >= 0,
        plan.covers(n_queries, work, width, height),
    ensures
        (plan.query_rows - 1) * height < n_queries <= plan.query_rows * height,
        (plan.task_rows - 1) * height < work.task_q_idx@.len() <= plan.task_rows * height,
        plan.candidate_columns >= 1,
        plan.task_columns >= 1,
        work.max_candidates <= plan.candidate_columns * width,
        work.max_db_count <= plan.task_columns * width,
        plan.candidate_columns > 1 ==> (plan.candidate_columns - 1) * width < work.max_candidates,
        plan.task_columns > 1 ==> (plan.task_columns - 1) * width < work.max_db_count,
{
    law_groups(n_queries, height);
    law_groups(work.task_q_idx@.len() as int, height);
    law_groups(work.max_candidates as int, width);
    law_groups(work.max_db_count as int, width);
    let a = groups(work.max_candidates as int, width);
    let b = groups(work.max_db_count as int, width);
    assert(a <= 0 ==> a * width <= 0) by (nonlinear_arith)
        requires
            width > 0,
    ;
    assert(b <= 0 ==> b * width <= 0) by (nonlinear_arith)
        requires
            width > 0,
    ;
}

/// A batch begins behind the queries that are done and holds as many as were planned, or the rest.
pub proof fn law_next_batch<T: AnnSearchFloat>(run: QueryRun<T>)
    requires
        run.wf(),
    ensures
        run.done() == run.indices@.len(),
        run.batch_len() <= run.plan.batch,
        run.batch_end() <= run.n_queries,
        run.batch_len() == run.plan.batch || run.batch_end() == run.n_queries,
        run.done() < run.n_queries ==> run.batch_len() >= 1,
        run.done() + run.batch_len() == run.batch_end(),
{
}

/// A batch of results is put behind those that are there, query by query, each row taken from its
/// own `k` places.
pub proof fn law_batch_rows<T: AnnSearchFloat>(
    before: QueryRun<T>,
    after: QueryRun<T>,
    index: &IvfIndexGpu<T>,
    dists: Seq<T>,
    slots: Seq<u32>,
    q: int,
)
    requires
        after.extends(before, index, dists, slots),
        0 <= q < after.indices@.len(),
    ensures
        after.indices@.len() == after.distances@.len(),
        after.indices@.len() == before.batch_end(),
        q < before.indices@.len() ==> after.indices@[q] == before.indices@[q]
            && after.distances@[q] == before.distances@[q],
        q >= before.indices@.len() ==> {
            let k = before.plan.k as int;
            let start = (q - before.indices@.len()) * k;
            &&& after.indices@[q]@ == row_indices(
                index.original_indices@,
                dists.subrange(start, start + k),
                slots.subrange(start, start + k),
            )
            &&& after.distances@[q]@ == row_dists(
                index.original_indices@,
                dists.subrange(start, start + k),
                slots.subrange(start, start + k),
            )
        },
{
}

/// A batch without work adds an empty row for each of its queries behind those that are there.
pub proof fn law_skipped_rows<T: AnnSearchFloat>(before: QueryRun<T>, after: QueryRun<T>, q: int)
    requires
        after.skips(before),
        0 <= q < after.indices@.len(),
    ensures
        after.indices@.len() == after.distances@.len(),
        after.indices@.len() == before.batch_end(),
        q < before.indices@.len() ==> after.indices@[q] == before.indices@[q]
            && after.distances@[q] == before.distances@[q],
        q >= before.indices@.len() ==> after.indices@[q]@.len() == 0 && after.distances@[q]@.len()
            == 0,
{
}

/// The work of a batch reads, for every query, the vectors of the clusters that the query looks
/// into, cluster by cluster.
pub proof fn law_batch_work<T: AnnSearchFloat>(
    index: &IvfIndexGpu<T>,
    work: TaskList,
    centroid_dists: Seq<T>,
    n_queries: int,
    nprobe: usize,
    k: usize,
) -> (lists: Seq<Vec<usize>>)
    requires
        index.batch_work(work, centroid_dists, n_queries, nprobe, k),
    ensures
        lists.len() == n_queries,
        forall|q: int|
            0 <= q < n_queries ==> (#[trigger] lists[q])@ == probed(
                index.cluster_offsets@,
                ranks(
                    centroid_dists.subrange(
                        q * index.nlist,
                        q * index.nlist + index.nlist as int,
                    ),
                ),
                nprobe as nat,
                k as nat,
            ),
        work.plans(index.cluster_offsets@, lists),
{
    choose|lists: Seq<Vec<usize>>|
        lists.len() == n_queries && #[trigger] work.plans(index.cluster_offsets@, lists) && forall|
            q: int,
        |
            0 <= q < n_queries ==> (#[trigger] lists[q])@ == index.probes(
                centroid_dists,
                q,
                nprobe,
                k,
            )
}

} // verus!
