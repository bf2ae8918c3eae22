//! The work of a batch of queries, cut into pieces for a compute device.
//!
//! One piece compares one query with all vectors of one cluster and writes the distances side by
//! side into the row of the query.
use super::probe::{count_at, lemma_reach_monotone, offsets_ok, reach};
use vstd::prelude::*;

verus! {

/// One piece of work.
pub struct Task {
    /// The query.
    pub query: u32,
    /// The first vector of the cluster.
    pub db_start: u32,
    /// Where the distances go in the row of the query.
    pub write_offset: u32,
    /// How many vectors the cluster holds.
    pub db_count: u32,
}

/// The work of a batch, one array for every field of the pieces.
pub struct TaskList {
    pub task_q_idx: Vec<u32>,
    pub task_db_start: Vec<u32>,
    pub task_write_offset: Vec<u32>,
    pub task_db_count: Vec<u32>,
    /// How many distances every query gets.
    pub candidates_per_query: Vec<u32>,
    /// The largest number of vectors in a piece.
    pub max_db_count: u32,
    /// The largest number of distances of a query.
    pub max_candidates: u32,
}

/// The pieces of one query: one for every cluster that holds vectors.
pub open spec fn tasks_of_query(q: u32, offsets: Seq<usize>, list: Seq<usize>) -> Seq<Task>
    decreases list.len(),
{
    if list.len() == 0 {
        Seq::empty()
    } else {
        let front = tasks_of_query(q, offsets, list.drop_last());
        let c = list.last();
        if count_at(offsets, c) > 0 {
            front.push(
                Task {
                    query: q,
                    db_start: offsets[c as int] as u32,
                    write_offset: reach(offsets, list.drop_last()) as u32,
                    db_count: count_at(offsets, c) as u32,
                },
            )
        } else {
            front
        }
    }
}

/// The pieces of the first `n` queries, query by query.
pub open spec fn tasks_of(offsets: Seq<usize>, lists: Seq<Vec<usize>>, n: int) -> Seq<Task>
    decreases n,
{
    if n <= 0 {
        Seq::empty()
    } else {
        tasks_of(offsets, lists, n - 1) + tasks_of_query((n - 1) as u32, offsets, lists[n - 1]@)
    }
}

/// `m` is the largest of the numbers, or zero where there are none.
pub open spec fn is_largest(s: Seq<u32>, m: u32) -> bool {
    &&& forall|i: int| 0 <= i < s.len() ==> (#[trigger] s[i]) <= m
    &&& m == 0 || s.contains(m)
}

impl TaskList {
    /// The list holds these pieces.
    pub open spec fn holds(&self, tasks: Seq<Task>) -> bool {
        &&& self.task_q_idx@ == tasks.map_values(|t: Task| t.query)
        &&& self.task_db_start@ == tasks.map_values(|t: Task| t.db_start)
        &&& self.task_write_offset@ == tasks.map_values(|t: Task| t.write_offset)
        &&& self.task_db_count@ == tasks.map_values(|t: Task| t.db_count)
    }

    /// The list is the work of queries that look into the given clusters.
    pub open spec fn plans(&self, offsets: Seq<usize>, lists: Seq<Vec<usize>>) -> bool {
        &&& self.holds(tasks_of(offsets, lists, lists.len() as int))
        &&& self.candidates_per_query@ == candidates(offsets, lists)
        &&& is_largest(self.task_db_count@, self.max_db_count)
        &&& is_largest(self.candidates_per_query@, self.max_candidates)
    }

    /// Is there anything to do?
    pub fn is_empty(&self) -> (r: bool)
        ensures
            r == (self.task_q_idx@.len() == 0),
    {
        self.task_q_idx.len() == 0
    }
}

/// How many distances every query gets.
pub open spec fn candidates(offsets: Seq<usize>, lists: Seq<Vec<usize>>) -> Seq<u32> {
    Seq::new(lists.len(), |q: int| reach(offsets, lists[q]@) as u32)
}

/// A list of clusters that exist and hold no more vectors than there are.
pub open spec fn list_fits(offsets: Seq<usize>, nlist: nat, n: nat, list: Seq<usize>) -> bool {
    &&& forall|i: int| 0 <= i < list.len() ==> (#[trigger] list[i]) < nlist
    &&& reach(offsets, list) <= n
}

/// The pieces of a query write side by side: the first at the beginning of the row, every other
/// where the one before it ends, and the last up to the number of distances of the query.
pub proof fn law_tasks_tile(
    q: u32,
    offsets: Seq<usize>,
    nlist: nat,
    n: nat,
    list: Seq<usize>,
)
    requires
        offsets_ok(offsets, nlist, n),
        n <= u32::MAX,
        list_fits(offsets, nlist, n, list),
    ensures
        ({
            let t = tasks_of_query(q, offsets, list);
            &&& forall|i: int|
                0 <= i < t.len() ==> (#[trigger] t[i]).query == q && t[i].db_count > 0
                    && t[i].db_start + t[i].db_count <= n
            &&& t.len() > 0 ==> t[0].write_offset == 0
            &&& forall|i: int|
                #![trigger t[i]]
                0 < i < t.len() ==> t[i].write_offset == t[i - 1].write_offset + t[i - 1].db_count
            &&& t.len() > 0 ==> t.last().write_offset + t.last().db_count == reach(offsets, list)
            &&& t.len() == 0 ==> reach(offsets, list) == 0
        }),
    decreases list.len(),
{
    if list.len() > 0 {
        let front = list.drop_last();
        let c = list.last();
        let t = tasks_of_query(q, offsets, list);
        let u = tasks_of_query(q, offsets, front);
        assert(list[list.len() - 1] < nlist);
        lemma_reach_monotone(offsets, nlist, n, list, list.len() - 1, list.len() as int);
        assert(list.take(list.len() - 1) =~= front);
        assert(list.take(list.len() as int) =~= list);
        assert forall|i: int| 0 <= i < front.len() implies (#[trigger] front[i]) < nlist by {
            assert(front[i] == list[i]);
        }
        law_tasks_tile(q, offsets, nlist, n, front);
        assert(offsets[c as int] <= offsets[c + 1]);
        assert(offsets[c + 1] <= offsets[nlist as int]);
        assert forall|i: int| #![trigger t[i]] 0 < i < t.len() implies t[i].write_offset == t[i
            - 1].write_offset + t[i - 1].db_count by {
            if i < u.len() {
                assert(t[i] == u[i]);
                assert(t[i - 1] == u[i - 1]);
            }
        }
        assert forall|i: int| 0 <= i < t.len() implies (#[trigger] t[i]).query == q
            && t[i].db_count > 0 && t[i].db_start + t[i].db_count <= n by {
            if i < u.len() {
                assert(t[i] == u[i]);
            }
        }
    }
}

/// Pieces stand in the order of their queries.
pub proof fn law_tasks_by_query(offsets: Seq<usize>, lists: Seq<Vec<usize>>, n: int)
    requires
        0 <= n <= lists.len(),
        lists.len() <= u32::MAX,
    ensures
        ({
            let t = tasks_of(offsets, lists, n);
            &&& forall|i: int| 0 <= i < t.len() ==> (#[trigger] t[i]).query < n
            &&& forall|i: int, j: int| 0 <= i < j < t.len() ==> t[i].query <= t[j].query
        }),
    decreases n,
{
    if n > 0 {
        law_tasks_by_query(offsets, lists, n - 1);
        let u = tasks_of(offsets, lists, n - 1);
        let v = tasks_of_query((n - 1) as u32, offsets, lists[n - 1]@);
        let t = tasks_of(offsets, lists, n);
        lemma_query_of_tasks((n - 1) as u32, offsets, lists[n - 1]@);
        assert forall|i: int| 0 <= i < t.len() implies (#[trigger] t[i]).query < n by {
            if i < u.len() {
                assert(t[i] == u[i]);
            } else {
                assert(t[i] == v[i - u.len()]);
            }
        }
        assert forall|i: int, j: int| 0 <= i < j < t.len() implies t[i].query <= t[j].query by {
            if j < u.len() {
                assert(t[i] == u[i] && t[j] == u[j]);
            } else {
                assert(t[j] == v[j - u.len()]);
                if i < u.len() {
                    assert(t[i] == u[i]);
                } else {
                    assert(t[i] == v[i - u.len()]);
                }
            }
        }
    }
}

/// The pieces of a query belong to the query.
proof fn lemma_query_of_tasks(q: u32, offsets: Seq<usize>, list: Seq<usize>)
    ensures
        forall|i: int|
            0 <= i < tasks_of_query(q, offsets, list).len() ==> (#[trigger] tasks_of_query(
                q,
                offsets,
                list,
            )[i]).query == q,
    decreases list.len(),
{
    if list.len() > 0 {
        lemma_query_of_tasks(q, offsets, list.drop_last());
        let u = tasks_of_query(q, offsets, list.drop_last());
        let t = tasks_of_query(q, offsets, list);
        assert forall|i: int| 0 <= i < t.len() implies (#[trigger] t[i]).query == q by {
            if i < u.len() {
                assert(t[i] == u[i]);
            }
        }
    }
}

/// A number at the end of others: which is the largest now.
proof fn lemma_largest_push(s: Seq<u32>, m: u32, x: u32)
    requires
        is_largest(s, m),
    ensures
        is_largest(
            s.push(x),
            if x > m {
                x
            } else {
                m
            },
        ),
{
    let t = s.push(x);
    assert(t[s.len() as int] == x);
    if s.contains(m) {
        let k = choose|k: int| 0 <= k < s.len() && s[k] == m;
        assert(t[k] == m);
    }
    assert forall|i: int| 0 <= i < t.len() implies (#[trigger] t[i]) <= if x > m {
        x
    } else {
        m
    } by {
        if i < s.len() {
            assert(s[i] <= m);
        }
    }
}

/// Cut the work of a batch into pieces.
pub fn build_tasks(lists: &Vec<Vec<usize>>, offsets: &[usize], nlist: usize) -> (r: TaskList)
    requires
        exists|n: nat|
            n <= u32::MAX && offsets_ok(offsets@, nlist as nat, n) && forall|q: int|
                0 <= q < lists@.len() ==> list_fits(
                    offsets@,
                    nlist as nat,
                    n,
                    (#[trigger] lists@[q])@,
                ),
        lists@.len() <= u32::MAX,
    ensures
        r.plans(offsets@, lists@),
{
    let ghost n = choose|n: nat|
        n <= u32::MAX && offsets_ok(offsets@, nlist as nat, n) && forall|q: int|
            0 <= q < lists@.len() ==> list_fits(
                offsets@,
                nlist as nat,
                n,
                (#[trigger] lists@[q])@,
            );
    let ghost o = offsets@;
    let ghost w = nlist as nat;
    let mut r = TaskList {
        task_q_idx: Vec::new(),
        task_db_start: Vec::new(),
        task_write_offset: Vec::new(),
        task_db_count: Vec::new(),
        candidates_per_query: Vec::new(),
        max_db_count: 0,
        max_candidates: 0,
    };
    let ghost mut tasks: Seq<Task> = Seq::empty();
    assert(r.holds(tasks)) by {
        assert(r.task_q_idx@ =~= tasks.map_values(|t: Task| t.query));
        assert(r.task_db_start@ =~= tasks.map_values(|t: Task| t.db_start));
        assert(r.task_write_offset@ =~= tasks.map_values(|t: Task| t.write_offset));
        assert(r.task_db_count@ =~= tasks.map_values(|t: Task| t.db_count));
    }
    let mut q: usize = 0;
    while q < lists.len()
        invariant
            q <= lists@.len() <= u32::MAX,
            o == offsets@,
            w == nlist,
            n <= u32::MAX,
            offsets_ok(o, w, n),
            forall|i: int| 0 <= i < lists@.len() ==> list_fits(o, w, n, (#[trigger] lists@[i])@),
            r.holds(tasks),
            tasks == tasks_of(o, lists@, q as int),
            r.candidates_per_query@ == candidates(o, lists@).take(q as int),
            is_largest(r.task_db_count@, r.max_db_count),
            is_largest(r.candidates_per_query@, r.max_candidates),
        decreases lists.len() - q,
    {
        let list: &Vec<usize> = &lists[q];
        let ghost l = list@;
        let ghost before = tasks;
        let mut written: u32 = 0;
        let mut i: usize = 0;
        proof {
            assert(list_fits(o, w, n, lists@[q as int]@));
            assert(l.take(0) =~= Seq::<usize>::empty());
            assert(l.take(l.len() as int) =~= l);
            assert(before + tasks_of_query(q as u32, o, l.take(0)) =~= before);
        }
        while i < list.len()
            invariant
                i <= l.len(),
                l == list@,
                o == offsets@,
                w == nlist,
                n <= u32::MAX,
                q < u32::MAX,
                offsets_ok(o, w, n),
                list_fits(o, w, n, l),
                l.take(l.len() as int) == l,
                r.holds(tasks),
                tasks == before + tasks_of_query(q as u32, o, l.take(i as int)),
                written == reach(o, l.take(i as int)),
                is_largest(r.task_db_count@, r.max_db_count),
                r.candidates_per_query@ == candidates(o, lists@).take(q as int),
                is_largest(r.candidates_per_query@, r.max_candidates),
            decreases list.len() - i,
        {
            let c: usize = list[i];
            proof {
                assert(l[i as int] < w);
                assert(o[c as int] <= o[c + 1]);
                assert(o[c + 1] <= o[w as int]);
                lemma_reach_monotone(o, w, n, l, i + 1, l.len() as int);
                assert(l.take(i + 1).drop_last() =~= l.take(i as int));
                assert(l.take(i + 1).last() == c);
            }
            let start: usize = offsets[c];
            let count: usize = offsets[c + 1] - start;
            if count > 0 {
                let ghost piece = Task {
                    query: q as u32,
                    db_start: start as u32,
                    write_offset: written,
                    db_count: count as u32,
                };
                let ghost counts = r.task_db_count@;
                let ghost m = r.max_db_count;
                r.task_q_idx.push(q as u32);
                r.task_db_start.push(start as u32);
                r.task_write_offset.push(written);
                r.task_db_count.push(count as u32);
                if count as u32 > r.max_db_count {
                    r.max_db_count = count as u32;
                }
                written = written + count as u32;
                proof {
                    lemma_largest_push(counts, m, count as u32);
                    let more = tasks.push(piece);
                    assert(r.task_q_idx@ =~= more.map_values(|t: Task| t.query));
                    assert(r.task_db_start@ =~= more.map_values(|t: Task| t.db_start));
                    assert(r.task_write_offset@ =~= more.map_values(|t: Task| t.write_offset));
                    assert(r.task_db_count@ =~= more.map_values(|t: Task| t.db_count));
                    assert(more =~= before + tasks_of_query(q as u32, o, l.take(i + 1)));
                    tasks = more;
                }
            }
            i += 1;
        }
        let ghost per_query = r.candidates_per_query@;
        let ghost m = r.max_candidates;
        r.candidates_per_query.push(written);
        if written > r.max_candidates {
            r.max_candidates = written;
        }
        proof {
            lemma_largest_push(per_query, m, written);
            assert(r.candidates_per_query@ =~= candidates(o, lists@).take(q + 1));
        }
        q += 1;
    }
    assert(r.candidates_per_query@ =~= candidates(o, lists@));
    r
}

} // verus!
