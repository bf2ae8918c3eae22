//! What holds of a whole query, however it is cut into batches.
use super::ivf_gpu::{kept_row, row_dists, row_indices, slots_ok, IvfIndexGpu};
use super::probe::{law_probe_enough, ranks, reach};
use super::query_run::{law_batching, QueryRun};
use super::tasks::{tasks_of, tasks_of_query, TaskList};
use crate::utils::float::AnnSearchFloat;
use crate::utils::matrix::{flat_row, lemma_row_bounds};
use vstd::prelude::*;

verus! {

/// A query without pieces of work is compared with no vector.
proof fn lemma_no_task_of_query(q: u32, offsets: Seq<usize>, list: Seq<usize>)
    requires
        tasks_of_query(q, offsets, list).len() == 0,
    ensures
        reach(offsets, list) <= 0,
    decreases list.len(),
{
    if list.len() > 0 {
        lemma_no_task_of_query(q, offsets, list.drop_last());
    }
}

/// Where there are no pieces of work, no query has any.
proof fn lemma_no_task(offsets: Seq<usize>, lists: Seq<Vec<usize>>, n: int, q: int)
    requires
        tasks_of(offsets, lists, n).len() == 0,
        0 <= q < n,
    ensures
        reach(offsets, lists[q]@) <= 0,
    decreases n,
{
    if q == n - 1 {
        lemma_no_task_of_query((n - 1) as u32, offsets, lists[n - 1]@);
    } else {
        lemma_no_task(offsets, lists, n - 1, q);
    }
}

/// There is no work for the batch at hand.
pub open spec fn idle<T: AnnSearchFloat>(before: QueryRun<T>, index: &IvfIndexGpu<T>) -> bool {
    exists|work: TaskList, centroid_dists: Seq<T>|
        centroid_dists.len() == before.batch_len() * index.nlist && #[trigger] index.batch_work(
            work,
            centroid_dists,
            before.batch_len(),
            before.plan.nprobe,
            before.plan.k,
        ) && work.task_q_idx@.len() == 0
}

/// Only where no neighbours are asked for, or the index is empty, is there no work for a batch.
pub proof fn law_idle<T: AnnSearchFloat>(before: QueryRun<T>, index: &IvfIndexGpu<T>)
    requires
        index.wf(),
        before.wf(),
        before.done() < before.n_queries,
        idle(before, index),
    ensures
        before.plan.k == 0 || index.n == 0,
{
    let count = before.batch_len();
    let (nprobe, k) = (before.plan.nprobe, before.plan.k);
    let (work, dists) = choose|work: TaskList, dists: Seq<T>|
        dists.len() == count * index.nlist && #[trigger] index.batch_work(
            work,
            dists,
            count,
            nprobe,
            k,
        ) && work.task_q_idx@.len() == 0;
    let offsets = index.cluster_offsets@;
    let lists = choose|lists: Seq<Vec<usize>>|
        lists.len() == count && #[trigger] work.plans(offsets, lists) && forall|q: int|
            0 <= q < count ==> (#[trigger] lists[q])@ == index.probes(dists, q, nprobe, k);
    lemma_no_task(offsets, lists, count, 0);
    lemma_row_bounds(0, count, index.nlist as int);
    let keys = ranks(flat_row(dists, index.nlist as int, 0));
    law_probe_enough(offsets, keys, index.n as nat, nprobe as nat, k as nat);
    assert(lists[0]@ == index.probes(dists, 0, nprobe, k));
}

/// One batch of a run: the device filled the slots of its queries, or there was no work.
pub open spec fn batch_done<T: AnnSearchFloat>(
    before: QueryRun<T>,
    after: QueryRun<T>,
    index: &IvfIndexGpu<T>,
    dists: Seq<T>,
    slots: Seq<u32>,
) -> bool {
    let (start, end) = (before.done() * before.plan.k, before.batch_end() * before.plan.k);
    ||| after.extends(before, index, dists.subrange(start, end), slots.subrange(start, end))
    ||| after.skips(before) && idle(before, index)
}

/// The states of a run from its beginning: every batch gets its part of the slots for all queries, or
/// has no work.
pub open spec fn is_run<T: AnnSearchFloat>(
    states: Seq<QueryRun<T>>,
    index: &IvfIndexGpu<T>,
    dists: Seq<T>,
    slots: Seq<u32>,
) -> bool {
    &&& states.len() > 0
    &&& states[0].done() == 0
    &&& forall|i: int| 0 <= i < states.len() ==> (#[trigger] states[i]).wf()
    &&& forall|i: int|
        0 < i < states.len() ==> states[i - 1].done() < states[i - 1].n_queries && batch_done(
            states[i - 1],
            #[trigger] states[i],
            index,
            dists,
            slots,
        )
}

/// Where no slot counts there are no results.
proof fn lemma_nothing_kept<T: AnnSearchFloat>(
    original: Seq<usize>,
    dists: Seq<T>,
    slots: Seq<u32>,
)
    requires
        forall|i: int|
            0 <= i < dists.len() ==> (#[trigger] dists[i]).rank() >= T::unset_spec().rank(),
    ensures
        kept_row(original, dists, slots).len() == 0,
    decreases dists.len(),
{
    if dists.len() > 0 {
        let front = dists.drop_last();
        assert forall|i: int| 0 <= i < front.len() implies (#[trigger] front[i]).rank()
            >= T::unset_spec().rank() by {
            assert(front[i] == dists[i]);
        }
        lemma_nothing_kept(original, front, slots);
        assert(dists[dists.len() - 1].rank() >= T::unset_spec().rank());
    }
}

/// A batch without work leaves the results that the slots for all queries hold.
pub proof fn law_idle_batch<T: AnnSearchFloat>(
    before: QueryRun<T>,
    after: QueryRun<T>,
    index: &IvfIndexGpu<T>,
    dists: Seq<T>,
    slots: Seq<u32>,
)
    requires
        index.wf(),
        before.wf(),
        before.done() < before.n_queries,
        dists.len() == before.n_queries * before.plan.k,
        slots_ok(dists, slots, index.n as nat),
        before.agrees(index, dists, slots),
        after.skips(before),
        idle(before, index),
    ensures
        after.agrees(index, dists, slots),
{
    let k = before.plan.k as int;
    let o = index.original_indices@;
    law_idle(before, index);
    assert forall|q: int| before.done() <= q < after.done() implies #[trigger] row_indices(
        o,
        flat_row(dists, k, q),
        flat_row(slots, k, q),
    ).len() == 0 && row_dists(o, flat_row(dists, k, q), flat_row(slots, k, q)).len() == 0 by {
        let row = flat_row(dists, k, q);
        lemma_row_bounds(q, before.n_queries as int, k);
        assert forall|i: int| 0 <= i < row.len() implies (#[trigger] row[i]).rank()
            >= T::unset_spec().rank() by {
            assert(row[i] == dists[q * k + i]);
            if dists[q * k + i].rank() < T::unset_spec().rank() {
                assert(slots[q * k + i] < index.n);
            }
        }
        lemma_nothing_kept(o, row, flat_row(slots, k, q));
    }
    assert forall|q: int| 0 <= q < after.done() implies (#[trigger] after.indices@[q])@
        == row_indices(o, flat_row(dists, k, q), flat_row(slots, k, q)) by {
        if q < before.done() {
            assert(after.indices@[q] == before.indices@[q]);
        } else {
            assert(after.indices@[q]@ =~= row_indices(
                o,
                flat_row(dists, k, q),
                flat_row(slots, k, q),
            ));
        }
    }
    assert forall|q: int| 0 <= q < after.done() implies (#[trigger] after.distances@[q])@
        == row_dists(o, flat_row(dists, k, q), flat_row(slots, k, q)) by {
        if q < before.done() {
            assert(after.distances@[q] == before.distances@[q]);
        } else {
            assert(row_indices(o, flat_row(dists, k, q), flat_row(slots, k, q)).len() == 0);
            assert(after.distances@[q]@ =~= row_dists(
                o,
                flat_row(dists, k, q),
                flat_row(slots, k, q),
            ));
        }
    }
}

/// At every point of a run the results are those that the slots for all queries hold.
pub proof fn law_run_agrees<T: AnnSearchFloat>(
    states: Seq<QueryRun<T>>,
    index: &IvfIndexGpu<T>,
    dists: Seq<T>,
    slots: Seq<u32>,
    i: int,
)
    requires
        index.wf(),
        is_run(states, index, dists, slots),
        dists.len() == states[0].n_queries * states[0].plan.k,
        slots_ok(dists, slots, index.n as nat),
        0 <= i < states.len(),
    ensures
        states[i].plan == states[0].plan,
        states[i].n_queries == states[0].n_queries,
        states[i].agrees(index, dists, slots),
    decreases i,
{
    if i > 0 {
        law_run_agrees(states, index, dists, slots, i - 1);
        let (before, after) = (states[i - 1], states[i]);
        assert(batch_done(before, after, index, dists, slots));
        if after.skips(before) && idle(before, index) {
            law_idle_batch(before, after, index, dists, slots);
        } else {
            law_batching(before, after, index, dists, slots);
        }
    }
}

/// How the queries are cut into batches does not show in the results: two runs over the same slots,
/// with any batch sizes, end with the same rows.
pub proof fn law_batch_sizes<T: AnnSearchFloat>(
    one: Seq<QueryRun<T>>,
    other: Seq<QueryRun<T>>,
    index: &IvfIndexGpu<T>,
    dists: Seq<T>,
    slots: Seq<u32>,
)
    requires
        index.wf(),
        is_run(one, index, dists, slots),
        is_run(other, index, dists, slots),
        one[0].n_queries == other[0].n_queries,
        one[0].plan.k == other[0].plan.k,
        dists.len() == one[0].n_queries * one[0].plan.k,
        slots_ok(dists, slots, index.n as nat),
        one.last().done() == one[0].n_queries,
        other.last().done() == other[0].n_queries,
    ensures
        ({
            let (a, b) = (one.last(), other.last());
            &&& a.indices@.len() == one[0].n_queries
            &&& a.distances@.len() == one[0].n_queries
            &&& b.indices@.len() == a.indices@.len()
            &&& b.distances@.len() == a.distances@.len()
            &&& forall|q: int|
                0 <= q < one[0].n_queries ==> (#[trigger] a.indices@[q])@ == b.indices@[q]@
            &&& forall|q: int|
                0 <= q < one[0].n_queries ==> (#[trigger] a.distances@[q])@ == b.distances@[q]@
        }),
{
    law_run_agrees(one, index, dists, slots, one.len() - 1);
    law_run_agrees(other, index, dists, slots, other.len() - 1);
    let (a, b) = (one.last(), other.last());
    assert(a.wf() && b.wf());
    assert forall|q: int| 0 <= q < one[0].n_queries implies (#[trigger] a.indices@[q])@
        == b.indices@[q]@ by {
        assert(b.indices@[q]@.len() >= 0);
    }
    assert forall|q: int| 0 <= q < one[0].n_queries implies (#[trigger] a.distances@[q])@
        == b.distances@[q]@ by {
        assert(b.distances@[q]@.len() >= 0);
    }
}

} // verus!
