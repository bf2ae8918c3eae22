//! The course of a query in batches.
//!
//! A run asks for the distances of a batch of queries to all centroids, then for the nearest
//! vectors of every query, then goes on with the next batch. Asking the device is up to the caller.
use super::ivf_gpu::{row_dists, row_indices, slots_ok, IvfIndexGpu, QueryPlan};
use super::tasks::TaskList;
use crate::utils::float::AnnSearchFloat;
use crate::utils::math::{div_ceil, groups, law_groups, least};
use crate::utils::matrix::{flat_row, lemma_row_bounds};
use vstd::prelude::*;

verus! {

/// How many batches there are.
pub fn n_batches(n_queries: usize, batch: usize) -> (r: usize)
    requires
        batch > 0,
    ensures
        r == groups(n_queries as int, batch as int),
{
    div_ceil(n_queries, batch)
}

/// Is a report due for this batch: the first, the last and every hundredth?
pub fn batch_report_due(batch_idx: usize, n_batches: usize) -> (r: bool)
    requires
        batch_idx < n_batches,
    ensures
        r == (batch_idx == 0 || (batch_idx + 1) % 100 == 0 || batch_idx + 1 == n_batches),
{
    batch_idx == 0 || (batch_idx + 1) % 100 == 0 || batch_idx + 1 == n_batches
}

/// The state of a query in batches.
pub struct QueryRun<T> {
    /// What the query is run with.
    pub plan: QueryPlan,
    /// How many queries there are.
    pub n_queries: usize,
    /// The neighbours of the queries that are done.
    pub indices: Vec<Vec<usize>>,
    /// The distances of the queries that are done.
    pub distances: Vec<Vec<T>>,
}

impl<T: AnnSearchFloat> QueryRun<T> {
    /// There are results for the queries that are done.
    pub open spec fn wf(&self) -> bool {
        &&& self.plan.batch > 0
        &&& self.indices@.len() == self.distances@.len()
        &&& self.indices@.len() <= self.n_queries
    }

    /// How many queries are done.
    pub open spec fn done(&self) -> int {
        self.indices@.len() as int
    }

    /// Where the batch at hand ends.
    pub open spec fn batch_end(&self) -> int {
        least(self.done() + self.plan.batch, self.n_queries as int)
    }

    /// How many queries the batch at hand has.
    pub open spec fn batch_len(&self) -> int {
        self.batch_end() - self.done()
    }

    /// A run of which nothing is done.
    pub fn new(plan: QueryPlan, n_queries: usize) -> (r: Self)
        requires
            plan.batch > 0,
        ensures
            r.wf(),
            r.plan == plan,
            r.n_queries == n_queries,
            r.done() == 0,
    {
        QueryRun { plan, n_queries, indices: Vec::new(), distances: Vec::new() }
    }

    /// The queries to process next; none when all are done.
    pub fn next_batch(&self) -> (r: Option<(usize, usize)>)
        requires
            self.wf(),
        ensures
            r.is_none() <==> self.done() == self.n_queries,
            r matches Some(range) ==> range.0 == self.done() && range.1 == self.batch_end()
                && range.0 < range.1,
    {
        let done: usize = self.indices.len();
        if done == self.n_queries {
            return None;
        }
        let left: usize = self.n_queries - done;
        let size: usize = if self.plan.batch <= left {
            self.plan.batch
        } else {
            left
        };
        Some((done, done + size))
    }

    /// The queries of a batch are done and have no neighbours; those before it are as they were.
    pub open spec fn skips(&self, before: Self) -> bool {
        &&& self.plan == before.plan
        &&& self.n_queries == before.n_queries
        &&& self.done() == before.batch_end()
        &&& self.distances@.len() == self.done()
        &&& forall|q: int|
            0 <= q < before.done() ==> #[trigger] self.indices@[q] == before.indices@[q]
        &&& forall|q: int|
            0 <= q < before.done() ==> #[trigger] self.distances@[q] == before.distances@[q]
        &&& forall|q: int|
            before.done() <= q < self.done() ==> (#[trigger] self.indices@[q])@.len() == 0
        &&& forall|q: int|
            before.done() <= q < self.done() ==> (#[trigger] self.distances@[q])@.len() == 0
    }

    /// The distances of the batch to all centroids have come: the work of the batch, or nothing
    /// where the chosen clusters hold no vectors. In that case the queries of the batch are done
    /// and have no neighbours.
    pub fn on_centroid_distances(
        &mut self,
        index: &IvfIndexGpu<T>,
        centroid_dists: &[T],
    ) -> (r: Option<TaskList>)
        requires
            old(self).wf(),
            index.wf(),
            old(self).done() < old(self).n_queries,
            old(self).batch_len() <= u32::MAX,
            centroid_dists@.len() == old(self).batch_len() * index.nlist,
        ensures
            final(self).wf(),
            final(self).plan == old(self).plan,
            final(self).n_queries == old(self).n_queries,
            exists|work: TaskList| #[trigger]
                index.batch_work(
                    work,
                    centroid_dists@,
                    old(self).batch_len(),
                    old(self).plan.nprobe,
                    old(self).plan.k,
                ) && match r {
                    Some(w) => w == work && work.task_q_idx@.len() > 0 && *final(self) == *old(
                        self,
                    ),
                    None => work.task_q_idx@.len() == 0 && final(self).skips(*old(self)),
                },
    {
        let ghost before = *self;
        let done: usize = self.indices.len();
        let left: usize = self.n_queries - done;
        let size: usize = if self.plan.batch <= left {
            self.plan.batch
        } else {
            left
        };
        let work = index.plan_batch(centroid_dists, size, self.plan.nprobe, self.plan.k);
        if !work.is_empty() {
            return Some(work);
        }
        let mut i: usize = 0;
        while i < size
            invariant
                i <= size,
                size == before.batch_len(),
                self.plan == before.plan,
                self.n_queries == before.n_queries,
                self.indices@.len() == before.done() + i,
                self.distances@.len() == before.done() + i,
                before.wf(),
                forall|q: int|
                    0 <= q < before.done() ==> #[trigger] self.indices@[q] == before.indices@[q],
                forall|q: int|
                    0 <= q < before.done() ==> #[trigger] self.distances@[q]
                        == before.distances@[q],
                forall|q: int|
                    before.done() <= q < before.done() + i ==> (
                    #[trigger] self.indices@[q])@.len() == 0,
                forall|q: int|
                    before.done() <= q < before.done() + i ==> (
                    #[trigger] self.distances@[q])@.len() == 0,
            decreases size - i,
        {
            self.indices.push(Vec::new());
            self.distances.push(Vec::new());
            i += 1;
        }
        None
    }

    /// The results of a batch stand behind those of the batches before it.
    pub open spec fn extends(
        &self,
        before: Self,
        index: &IvfIndexGpu<T>,
        dists: Seq<T>,
        slots: Seq<u32>,
    ) -> bool {
        let k = before.plan.k as int;
        let o = index.original_indices@;
        &&& self.plan == before.plan
        &&& self.n_queries == before.n_queries
        &&& self.done() == before.batch_end()
        &&& self.distances@.len() == self.done()
        &&& forall|q: int| 0 <= q < before.done() ==> #[trigger] self.indices@[q] == before.indices@[q]
        &&& forall|q: int|
            0 <= q < before.done() ==> #[trigger] self.distances@[q] == before.distances@[q]
        &&& forall|q: int|
            before.done() <= q < self.done() ==> (#[trigger] self.indices@[q])@ == row_indices(
                o,
                flat_row(dists, k, q - before.done()),
                flat_row(slots, k, q - before.done()),
            )
        &&& forall|q: int|
            before.done() <= q < self.done() ==> (#[trigger] self.distances@[q])@ == row_dists(
                o,
                flat_row(dists, k, q - before.done()),
                flat_row(slots, k, q - before.done()),
            )
    }

    /// The nearest vectors of the queries of the batch have come, `k` slots for every query: the
    /// batch is done.
    pub fn on_top_k(&mut self, index: &IvfIndexGpu<T>, dists: &[T], slots: &[u32])
        requires
            old(self).wf(),
            index.wf(),
            old(self).done() < old(self).n_queries,
            dists@.len() == old(self).batch_len() * old(self).plan.k,
            slots_ok(dists@, slots@, index.n as nat),
        ensures
            final(self).wf(),
            final(self).extends(*old(self), index, dists@, slots@),
    {
        let ghost before = *self;
        let done: usize = self.indices.len();
        let left: usize = self.n_queries - done;
        let size: usize = if self.plan.batch <= left {
            self.plan.batch
        } else {
            left
        };
        let (mut indices, mut distances) = index.collect_results(dists, slots, size, self.plan.k);
        self.indices.append(&mut indices);
        self.distances.append(&mut distances);
    }

    /// The results of all queries.
    pub fn finish(self) -> (r: (Vec<Vec<usize>>, Vec<Vec<T>>))
        requires
            self.wf(),
            self.done() == self.n_queries,
        ensures
            r.0@ == self.indices@,
            r.1@ == self.distances@,
            r.0@.len() == self.n_queries,
            r.1@.len() == self.n_queries,
    {
        (self.indices, self.distances)
    }

    /// The results so far are those that slots for all queries hold.
    pub open spec fn agrees(&self, index: &IvfIndexGpu<T>, dists: Seq<T>, slots: Seq<u32>) -> bool {
        let k = self.plan.k as int;
        let o = index.original_indices@;
        &&& forall|q: int|
            0 <= q < self.done() ==> (#[trigger] self.indices@[q])@ == row_indices(
                o,
                flat_row(dists, k, q),
                flat_row(slots, k, q),
            )
        &&& forall|q: int|
            0 <= q < self.done() ==> (#[trigger] self.distances@[q])@ == row_dists(
                o,
                flat_row(dists, k, q),
                flat_row(slots, k, q),
            )
    }
}

/// The results do not depend on how the queries are cut into batches: as long as every batch gets
/// its part of the slots for all queries, the results are those that these slots hold.
pub proof fn law_batching<T: AnnSearchFloat>(
    before: QueryRun<T>,
    after: QueryRun<T>,
    index: &IvfIndexGpu<T>,
    dists: Seq<T>,
    slots: Seq<u32>,
)
    requires
        before.wf(),
        before.done() < before.n_queries,
        dists.len() == before.n_queries * before.plan.k,
        slots.len() == dists.len(),
        before.agrees(index, dists, slots),
        after.extends(
            before,
            index,
            dists.subrange(before.done() * before.plan.k, before.batch_end() * before.plan.k),
            slots.subrange(before.done() * before.plan.k, before.batch_end() * before.plan.k),
        ),
    ensures
        after.agrees(index, dists, slots),
{
    let k = before.plan.k as int;
    let s = before.done();
    let e = before.batch_end();
    let n = before.n_queries as int;
    let part_d = dists.subrange(s * k, e * k);
    let part_s = slots.subrange(s * k, e * k);
    assert(0 <= s * k <= e * k <= n * k) by (nonlinear_arith)
        requires
            0 <= s <= e <= n,
            k >= 0,
    ;
    assert forall|q: int| s <= q < e implies flat_row(part_d, k, q - s) == #[trigger] flat_row(
        dists,
        k,
        q,
    ) && flat_row(part_s, k, q - s) == flat_row(slots, k, q) by {
        lemma_row_bounds(q, n, k);
        lemma_row_bounds(q - s, e - s, k);
        assert((q - s) * k == q * k - s * k && (e - s) * k == e * k - s * k) by (nonlinear_arith);
        assert(flat_row(part_d, k, q - s) =~= flat_row(dists, k, q));
        assert(flat_row(part_s, k, q - s) =~= flat_row(slots, k, q));
    }
    assert forall|q: int| 0 <= q < after.done() implies (#[trigger] after.indices@[q])@
        == row_indices(
        index.original_indices@,
        flat_row(dists, k, q),
        flat_row(slots, k, q),
    ) by {
        if q < s {
            assert(after.indices@[q] == before.indices@[q]);
        } else {
            assert(flat_row(part_d, k, q - s) == flat_row(dists, k, q));
        }
    }
    assert forall|q: int| 0 <= q < after.done() implies (#[trigger] after.distances@[q])@
        == row_dists(
        index.original_indices@,
        flat_row(dists, k, q),
        flat_row(slots, k, q),
    ) by {
        if q < s {
            assert(after.distances@[q] == before.distances@[q]);
        } else {
            assert(flat_row(part_d, k, q - s) == flat_row(dists, k, q));
        }
    }
}

/// The batches of a run are those that their number says: after `i` batches, `i` times the batch
/// size queries are done, or all of them.
pub proof fn law_batches_cover(n_queries: int, batch: int, i: int)
    requires
        n_queries >= 0,
        batch > 0,
        0 <= i,
    ensures
        i < groups(n_queries, batch) <==> i * batch < n_queries,
        i < groups(n_queries, batch) ==> least(i * batch + batch, n_queries) == least(
            (i + 1) * batch,
            n_queries,
        ),
{
    let c = groups(n_queries, batch);
    law_groups(n_queries, batch);
    assert((i + 1) * batch == i * batch + batch) by (nonlinear_arith);
    if i < c {
        assert(i * batch <= (c - 1) * batch) by (nonlinear_arith)
            requires
                i <= c - 1,
                batch > 0,
        ;
    } else {
        assert(i * batch >= c * batch) by (nonlinear_arith)
            requires
                i >= c,
                batch > 0,
        ;
    }
}

} // verus!
