//! What holds of the results that are read from the slots of a query.
use super::ivf_gpu::{is_arrangement, kept_row, row_dists, row_indices, slots_ok, IvfIndexGpu};
use super::partition::place;
use super::probe::{
    cluster_order, law_probe_enough, lemma_cluster_order, lemma_reach_all, ranks, reach,
};
use super::tasks::{candidates, TaskList};
use crate::utils::dist::Dist;
use crate::utils::float::AnnSearchFloat;
use crate::utils::math::{groups, law_groups, least, lemma_distinct_full, next_multiple};
use crate::utils::matrix::{flat_row, lemma_row_bounds, padded_row};
use vstd::prelude::*;

verus! {

/// The positions of the slots that count, in ascending order.
pub open spec fn set_positions<T: AnnSearchFloat>(dists: Seq<T>) -> Seq<int>
    decreases dists.len(),
{
    if dists.len() == 0 {
        Seq::empty()
    } else {
        let front = set_positions(dists.drop_last());
        let at = dists.len() - 1;
        if dists[at].rank() < T::unset_spec().rank() {
            front.push(at)
        } else {
            front
        }
    }
}

/// The positions of the slots that count are in ascending order, and every slot that counts is
/// among them.
proof fn lemma_set_positions<T: AnnSearchFloat>(dists: Seq<T>)
    ensures
        set_positions(dists).len() <= dists.len(),
        forall|i: int|
            0 <= i < set_positions(dists).len() ==> 0 <= #[trigger] set_positions(dists)[i]
                < dists.len() && dists[set_positions(dists)[i]].rank() < T::unset_spec().rank(),
        forall|i: int, j: int|
            0 <= i < j < set_positions(dists).len() ==> set_positions(dists)[i]
                < set_positions(dists)[j],
        (forall|p: int|
            0 <= p < dists.len() ==> (#[trigger] dists[p]).rank() < T::unset_spec().rank()) ==> (
        set_positions(dists).len() == dists.len() && forall|i: int|
            0 <= i < dists.len() ==> #[trigger] set_positions(dists)[i] == i),
    decreases dists.len(),
{
    if dists.len() > 0 {
        let front = dists.drop_last();
        lemma_set_positions(front);
        assert forall|i: int| 0 <= i < set_positions(front).len() implies dists[
        #[trigger] set_positions(front)[i]].rank() < T::unset_spec().rank() by {
            assert(front[set_positions(front)[i]] == dists[set_positions(front)[i]]);
        }
        if forall|p: int|
            0 <= p < dists.len() ==> (#[trigger] dists[p]).rank() < T::unset_spec().rank() {
            assert forall|p: int| 0 <= p < front.len() implies (#[trigger] front[p]).rank()
                < T::unset_spec().rank() by {
                assert(front[p] == dists[p]);
            }
        }
    }
}

/// The results of a query are the slots that count, in their order.
pub proof fn law_kept_in_order<T: AnnSearchFloat>(
    original: Seq<usize>,
    dists: Seq<T>,
    slots: Seq<u32>,
)
    ensures
        kept_row(original, dists, slots) == set_positions(dists).map_values(
            |p: int| (original[slots[p] as int], dists[p]),
        ),
    decreases dists.len(),
{
    let all = set_positions(dists).map_values(|p: int| (original[slots[p] as int], dists[p]));
    if dists.len() > 0 {
        let front = dists.drop_last();
        law_kept_in_order(original, front, slots);
        lemma_set_positions(front);
        let part = set_positions(front).map_values(
            |p: int| (original[slots[p] as int], front[p]),
        );
        assert forall|i: int| 0 <= i < part.len() implies part[i] == #[trigger] all[i] by {
            assert(front[set_positions(front)[i]] == dists[set_positions(front)[i]]);
        }
    }
    assert(kept_row(original, dists, slots) =~= all);
}

/// The results of a query are vectors of the index, at most as many as there are slots, and as many
/// where every slot counts. Where no two slots that count hold the same vector, no vector comes
/// twice. Where the slots are ordered by distance, so are the results.
pub proof fn law_kept_results<T: AnnSearchFloat>(
    original: Seq<usize>,
    dists: Seq<T>,
    slots: Seq<u32>,
    n: nat,
)
    requires
        is_arrangement(original, n),
        slots_ok(dists, slots, n),
    ensures
        ({
            let kept = kept_row(original, dists, slots);
            let counts = |p: int|
                0 <= p < dists.len() && dists[p].rank() < T::unset_spec().rank();
            &&& kept.len() <= dists.len()
            &&& forall|i: int|
                0 <= i < kept.len() ==> (#[trigger] kept[i]).0 < n && kept[i].1.rank()
                    < T::unset_spec().rank()
            &&& (forall|p: int| 0 <= p < dists.len() ==> #[trigger] counts(p)) ==> kept.len()
                == dists.len()
            &&& (forall|p: int, q: int|
                #[trigger] counts(p) && #[trigger] counts(q) && p != q ==> slots[p] != slots[q])
                ==> forall|i: int, j: int| 0 <= i < j < kept.len() ==> kept[i].0 != kept[j].0
            &&& (forall|p: int, q: int|
                0 <= p <= q < dists.len() ==> dists[p].rank() <= dists[q].rank()) ==> forall|
                i: int,
                j: int,
            |
                0 <= i <= j < kept.len() ==> kept[i].1.rank() <= kept[j].1.rank()
        }),
{
    let kept = kept_row(original, dists, slots);
    let at = set_positions(dists);
    let counts = |p: int| 0 <= p < dists.len() && dists[p].rank() < T::unset_spec().rank();
    lemma_set_positions(dists);
    law_kept_in_order(original, dists, slots);
    assert forall|i: int| 0 <= i < kept.len() implies #[trigger] kept[i] == (
        original[slots[at[i]] as int],
        dists[at[i]],
    ) && counts(at[i]) && slots[at[i]] < n by {}
    if forall|p: int| 0 <= p < dists.len() ==> #[trigger] counts(p) {
        assert forall|p: int| 0 <= p < dists.len() implies (#[trigger] dists[p]).rank()
            < T::unset_spec().rank() by {
            assert(counts(p));
        }
    }
    if forall|p: int, q: int|
        #[trigger] counts(p) && #[trigger] counts(q) && p != q ==> slots[p] != slots[q] {
        assert forall|i: int, j: int| 0 <= i < j < kept.len() implies kept[i].0 != kept[j].0 by {
            assert(counts(at[i]) && counts(at[j]) && at[i] != at[j]);
            assert(slots[at[i]] != slots[at[j]]);
        }
    }
    if forall|p: int, q: int|
        0 <= p <= q < dists.len() ==> dists[p].rank() <= dists[q].rank() {
        assert forall|i: int, j: int| 0 <= i <= j < kept.len() implies kept[i].1.rank()
            <= kept[j].1.rank() by {
            assert(kept[i].1 == dists[at[i]] && kept[j].1 == dists[at[j]]);
            assert(i == j || at[i] < at[j]);
        }
    }
}

/// Every query of a batch is compared with at least as many vectors as neighbours are asked for, as
/// long as the index holds that many.
pub proof fn law_enough_candidates<T: AnnSearchFloat>(
    index: &IvfIndexGpu<T>,
    work: TaskList,
    centroid_dists: Seq<T>,
    n_queries: int,
    nprobe: usize,
    k: usize,
    q: int,
)
    requires
        index.wf(),
        centroid_dists.len() == n_queries * index.nlist,
        index.batch_work(work, centroid_dists, n_queries, nprobe, k),
        0 <= q < n_queries,
    ensures
        work.candidates_per_query@.len() == n_queries,
        work.candidates_per_query@[q] >= least(k as int, index.n as int),
        work.candidates_per_query@[q] <= index.n,
{
    let offsets = index.cluster_offsets@;
    let lists = choose|lists: Seq<Vec<usize>>|
        lists.len() == n_queries && #[trigger] work.plans(offsets, lists) && forall|q: int|
            0 <= q < n_queries ==> (#[trigger] lists[q])@ == index.probes(
                centroid_dists,
                q,
                nprobe,
                k,
            );
    lemma_row_bounds(q, n_queries, index.nlist as int);
    let keys = ranks(flat_row(centroid_dists, index.nlist as int, q));
    law_probe_enough(offsets, keys, index.n as nat, nprobe as nat, k as nat);
    assert(lists[q]@ == index.probes(centroid_dists, q, nprobe, k));
    assert(candidates(offsets, lists)[q] == reach(offsets, lists[q]@) as u32);
}

/// A query that looks into all clusters is compared with every vector.
pub proof fn law_all_candidates<T: AnnSearchFloat>(
    index: &IvfIndexGpu<T>,
    work: TaskList,
    centroid_dists: Seq<T>,
    n_queries: int,
    nprobe: usize,
    k: usize,
    q: int,
)
    requires
        index.wf(),
        nprobe >= index.nlist,
        centroid_dists.len() == n_queries * index.nlist,
        index.batch_work(work, centroid_dists, n_queries, nprobe, k),
        0 <= q < n_queries,
    ensures
        work.candidates_per_query@[q] == index.n,
{
    let offsets = index.cluster_offsets@;
    let lists = choose|lists: Seq<Vec<usize>>|
        lists.len() == n_queries && #[trigger] work.plans(offsets, lists) && forall|q: int|
            0 <= q < n_queries ==> (#[trigger] lists[q])@ == index.probes(
                centroid_dists,
                q,
                nprobe,
                k,
            );
    lemma_row_bounds(q, n_queries, index.nlist as int);
    let keys = ranks(flat_row(centroid_dists, index.nlist as int, q));
    law_probe_enough(offsets, keys, index.n as nat, nprobe as nat, k as nat);
    lemma_reach_all(offsets, keys, index.n as nat);
    lemma_cluster_order(keys);
    assert(lists[q]@ == index.probes(centroid_dists, q, nprobe, k));
    assert(lists[q]@ =~= cluster_order(keys));
    assert(candidates(offsets, lists)[q] == reach(offsets, lists[q]@) as u32);
}

/// Every query gets the number of neighbours asked for, as long as the index holds that many and
/// the device fills a slot for every vector that a query is compared with.
pub proof fn law_k_neighbours<T: AnnSearchFloat>(
    index: &IvfIndexGpu<T>,
    work: TaskList,
    centroid_dists: Seq<T>,
    n_queries: int,
    nprobe: usize,
    k: usize,
    dists: Seq<T>,
    slots: Seq<u32>,
    q: int,
)
    requires
        index.wf(),
        k <= index.n,
        centroid_dists.len() == n_queries * index.nlist,
        index.batch_work(work, centroid_dists, n_queries, nprobe, k),
        0 <= q < n_queries,
        dists.len() == n_queries * k,
        slots.len() == dists.len(),
        forall|i: int|
            0 <= i < k && i < work.candidates_per_query@[q] ==> (#[trigger] flat_row(
                dists,
                k as int,
                q,
            )[i]).rank() < T::unset_spec().rank(),
    ensures
        row_indices(
            index.original_indices@,
            flat_row(dists, k as int, q),
            flat_row(slots, k as int, q),
        ).len() == k,
        row_dists(
            index.original_indices@,
            flat_row(dists, k as int, q),
            flat_row(slots, k as int, q),
        ).len() == k,
{
    let row = flat_row(dists, k as int, q);
    law_enough_candidates(index, work, centroid_dists, n_queries, nprobe, k, q);
    lemma_row_bounds(q, n_queries, k as int);
    law_kept_in_order(index.original_indices@, row, flat_row(slots, k as int, q));
    lemma_set_positions(row);
}

/// The vectors of an index are those of the data, each once: the indices are an arrangement of the
/// rows, the clusters follow each other without gaps and hold all vectors, and every position holds
/// the row that its index names, padded to the least multiple of the line that is not below the
/// number of dimensions. There are norms for the cosine metric only.
pub proof fn law_index_of_data<T: AnnSearchFloat>(
    index: &IvfIndexGpu<T>,
    flat: Seq<T>,
    centroids: Seq<T>,
    assignments: Seq<usize>,
    line: int,
)
    requires
        index.wf(),
        index.grouped_from(flat, centroids, assignments),
        line > 0,
        index.dim_padded == next_multiple(index.dim as int, line),
        flat.len() == index.n * index.dim,
    ensures
        is_arrangement(index.original_indices@, index.n as nat),
        forall|i: usize| i < index.n ==> #[trigger] index.original_indices@.contains(i),
        index.cluster_offsets@.len() == index.nlist + 1,
        index.cluster_offsets@[0] == 0,
        index.cluster_offsets@[index.nlist as int] == index.n,
        forall|c: int, d: int|
            0 <= c <= d <= index.nlist ==> index.cluster_offsets@[c] <= index.cluster_offsets@[d],
        forall|pos: int|
            0 <= pos < index.n ==> (#[trigger] flat_row(
                index.vectors_cpu@,
                index.dim_padded as int,
                pos,
            )).take(index.dim as int) == flat_row(
                flat,
                index.dim as int,
                index.original_indices@[pos] as int,
            ),
        index.dim <= index.dim_padded < index.dim + line,
        index.dim_padded as int % line == 0,
        index.norms@.len() == if index.metric == Dist::Cosine {
            index.n as nat
        } else {
            0
        },
        index.centroid_norms@.len() == if index.metric == Dist::Cosine {
            index.nlist as nat
        } else {
            0
        },
{
    let o = index.original_indices@;
    assert forall|i: usize| i < index.n implies #[trigger] o.contains(i) by {
        lemma_distinct_full(o, index.n as nat, i);
    }
    assert forall|pos: int| 0 <= pos < index.n implies (#[trigger] flat_row(
        index.vectors_cpu@,
        index.dim_padded as int,
        pos,
    )).take(index.dim as int) == flat_row(flat, index.dim as int, o[pos] as int) by {
        let row = flat_row(flat, index.dim as int, o[pos] as int);
        lemma_row_bounds(o[pos] as int, index.n as int, index.dim as int);
        assert(padded_row(row, index.dim_padded as int).take(index.dim as int) =~= row);
    }
    law_groups(index.dim as int, line);
    let c = groups(index.dim as int, line);
    assert((c - 1) * line == c * line - line) by (nonlinear_arith);
    assert((c * line) % line == 0) by (nonlinear_arith)
        requires
            line > 0,
    ;
}

/// Where the answer to a query depends on its numbers alone, a query for all vectors of an index
/// gives for row `i` of the data what a query with row `i` of the data gives: the order of the
/// clusters does not show.
pub proof fn law_self_query_rows<T: AnnSearchFloat, B>(
    index: &IvfIndexGpu<T>,
    flat: Seq<T>,
    centroids: Seq<T>,
    assignments: Seq<usize>,
    answer: spec_fn(Seq<T>) -> Seq<B>,
    by_cluster: Seq<Vec<B>>,
    restored: Seq<Vec<B>>,
    queries: Seq<T>,
    batch: Seq<Vec<B>>,
)
    requires
        index.wf(),
        index.grouped_from(flat, centroids, assignments),
        by_cluster.len() == index.n,
        restored.len() == index.n,
        batch.len() == index.n,
        forall|pos: int|
            0 <= pos < index.n ==> (#[trigger] by_cluster[pos])@ == answer(
                flat_row(index.vectors_cpu@, index.dim_padded as int, pos),
            ),
        forall|pos: int|
            0 <= pos < index.n ==> restored[index.original_indices@[pos] as int]
                == #[trigger] by_cluster[pos],
        forall|i: int|
            0 <= i < index.n ==> #[trigger] flat_row(queries, index.dim_padded as int, i)
                == padded_row(flat_row(flat, index.dim as int, i), index.dim_padded as int),
        forall|i: int|
            0 <= i < index.n ==> (#[trigger] batch[i])@ == answer(
                flat_row(queries, index.dim_padded as int, i),
            ),
    ensures
        forall|i: int| 0 <= i < index.n ==> (#[trigger] restored[i])@ == batch[i]@,
{
    let o = index.original_indices@;
    assert forall|i: int| 0 <= i < index.n implies (#[trigger] restored[i])@ == batch[i]@ by {
        let pos = place(assignments, i);
        assert(o[pos] == i);
        assert(restored[o[pos] as int] == by_cluster[pos]);
        assert(flat_row(index.vectors_cpu@, index.dim_padded as int, pos) == flat_row(
            queries,
            index.dim_padded as int,
            i,
        ));
        assert(batch[i]@ == answer(flat_row(queries, index.dim_padded as int, i)));
    }
}

} // verus!
