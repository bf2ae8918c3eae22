//! Choice of the clusters that a query looks into.
//!
//! A query looks into the `nprobe` nearest clusters, and into further ones, nearest first, until
//! they hold as many vectors as neighbours are asked for.
use crate::cpu::diversity::ids;
use crate::utils::float::Real;
use crate::utils::ordered::{
    entry_le, lemma_insert_sorted, lemma_sort_distinct, lemma_sort_entries, sort, sort_entries,
    Entry,
};
use vstd::prelude::*;

verus! {

/// How many vectors a cluster holds.
pub open spec fn count_at(offsets: Seq<usize>, c: usize) -> int {
    offsets[c + 1] - offsets[c as int]
}

/// How many vectors a list of clusters holds.
pub open spec fn reach(offsets: Seq<usize>, list: Seq<usize>) -> int
    decreases list.len(),
{
    if list.len() == 0 {
        0
    } else {
        reach(offsets, list.drop_last()) + count_at(offsets, list.last())
    }
}

/// The ranges of `nlist` clusters stand one behind the other and hold `n` vectors.
pub open spec fn offsets_ok(offsets: Seq<usize>, nlist: nat, n: nat) -> bool {
    &&& offsets.len() == nlist + 1
    &&& offsets[0] == 0
    &&& offsets[nlist as int] == n
    &&& forall|c: int, d: int| 0 <= c <= d <= nlist ==> offsets[c] <= offsets[d]
}

/// Clusters with the keys of their distances.
pub open spec fn cluster_entries(keys: Seq<u64>) -> Seq<Entry> {
    Seq::new(keys.len(), |c: int| (keys[c], c as usize))
}

/// The clusters, nearest first.
pub open spec fn cluster_order(keys: Seq<u64>) -> Seq<usize> {
    ids(sort_entries(cluster_entries(keys)))
}

/// The first `j` clusters, or as many more as are needed for `k` vectors.
pub open spec fn enough(offsets: Seq<usize>, order: Seq<usize>, k: nat, j: int) -> int
    decreases order.len() - j,
{
    if j >= order.len() || reach(offsets, order.take(j)) >= k {
        j
    } else {
        enough(offsets, order, k, j + 1)
    }
}

/// The clusters that a query looks into.
pub open spec fn probed(offsets: Seq<usize>, keys: Seq<u64>, nprobe: nat, k: nat) -> Seq<usize> {
    let order = cluster_order(keys);
    let first: int = if nprobe <= order.len() {
        nprobe as int
    } else {
        order.len() as int
    };
    order.take(enough(offsets, order, k, first))
}

/// The order of the clusters holds every cluster once.
pub proof fn lemma_cluster_order(keys: Seq<u64>)
    requires
        keys.len() <= usize::MAX,
    ensures
        cluster_order(keys).len() == keys.len(),
        cluster_order(keys).no_duplicates(),
        forall|i: int| 0 <= i < keys.len() ==> (#[trigger] cluster_order(keys)[i]) < keys.len(),
{
    let e = cluster_entries(keys);
    lemma_sort_entries(e);
    lemma_sort_distinct(e);
    let s = sort_entries(e);
    let order = cluster_order(keys);
    assert forall|i: int| 0 <= i < keys.len() implies (#[trigger] order[i]) < keys.len() by {
        assert(s.contains(s[i]));
        let c = choose|c: int| 0 <= c < e.len() && e[c] == s[i];
        assert(order[i] == c);
    }
    assert forall|i: int, j: int| 0 <= i < order.len() && 0 <= j < order.len() && i != j implies
        order[i] != order[j] by {
        assert(order[i] == s[i].1 && order[j] == s[j].1);
        if i < j {
            assert(s[i].1 != s[j].1);
        } else {
            assert(s[j].1 != s[i].1);
        }
    }
}

/// A cluster put anywhere into a list adds its vectors.
proof fn lemma_reach_insert(offsets: Seq<usize>, s: Seq<Entry>, p: int, x: Entry)
    requires
        0 <= p <= s.len(),
    ensures
        reach(offsets, ids(s.insert(p, x))) == reach(offsets, ids(s)) + count_at(offsets, x.1),
    decreases s.len(),
{
    let r = s.insert(p, x);
    if p == s.len() {
        assert(ids(r).drop_last() =~= ids(s));
        assert(ids(r).last() == x.1);
    } else {
        let t = s.drop_last();
        lemma_reach_insert(offsets, t, p, x);
        assert(ids(r).drop_last() =~= ids(t.insert(p, x)));
        assert(ids(r).last() == s.last().1);
        assert(ids(s).drop_last() =~= ids(t));
        assert(ids(s).last() == s.last().1);
    }
}

/// Sorting does not change how many vectors the clusters hold.
proof fn lemma_reach_sort(offsets: Seq<usize>, e: Seq<Entry>)
    ensures
        reach(offsets, ids(sort_entries(e))) == reach(offsets, ids(e)),
    decreases e.len(),
{
    if e.len() > 0 {
        let t = e.drop_last();
        lemma_reach_sort(offsets, t);
        lemma_sort_entries(t);
        let p = lemma_insert_sorted(sort_entries(t), e.last());
        lemma_reach_insert(offsets, sort_entries(t), p, e.last());
        assert(ids(e).drop_last() =~= ids(t));
        assert(ids(e).last() == e.last().1);
    }
}

/// The first clusters by number hold the vectors up to where the next begins.
proof fn lemma_reach_first(offsets: Seq<usize>, keys: Seq<u64>, j: int)
    requires
        0 <= j <= keys.len() <= usize::MAX,
        offsets.len() == keys.len() + 1,
    ensures
        reach(offsets, ids(cluster_entries(keys).take(j))) == offsets[j] - offsets[0],
    decreases j,
{
    if j > 0 {
        lemma_reach_first(offsets, keys, j - 1);
        let l = ids(cluster_entries(keys).take(j));
        assert(l.drop_last() =~= ids(cluster_entries(keys).take(j - 1)));
        assert(l.last() == (j - 1) as usize);
    }
}

/// All clusters together hold all vectors.
pub proof fn lemma_reach_all(offsets: Seq<usize>, keys: Seq<u64>, n: nat)
    requires
        keys.len() <= usize::MAX,
        offsets_ok(offsets, keys.len(), n),
    ensures
        reach(offsets, cluster_order(keys)) == n,
{
    let e = cluster_entries(keys);
    lemma_reach_sort(offsets, e);
    lemma_reach_first(offsets, keys, keys.len() as int);
    assert(e.take(keys.len() as int) =~= e);
}

/// More clusters hold at least as many vectors.
pub proof fn lemma_reach_monotone(
    offsets: Seq<usize>,
    nlist: nat,
    n: nat,
    list: Seq<usize>,
    i: int,
    j: int,
)
    requires
        offsets_ok(offsets, nlist, n),
        forall|k: int| 0 <= k < list.len() ==> (#[trigger] list[k]) < nlist,
        0 <= i <= j <= list.len(),
    ensures
        0 <= reach(offsets, list.take(i)) <= reach(offsets, list.take(j)),
    decreases j,
{
    if i < j {
        lemma_reach_monotone(offsets, nlist, n, list, i, j - 1);
        assert(list.take(j).drop_last() =~= list.take(j - 1));
        assert(list.take(j).last() == list[j - 1]);
        assert(offsets[list[j - 1] as int] <= offsets[list[j - 1] + 1]);
    } else if i > 0 {
        lemma_reach_monotone(offsets, nlist, n, list, i - 1, i - 1);
        assert(list.take(i).drop_last() =~= list.take(i - 1));
        assert(list.take(i).last() == list[i - 1]);
        assert(offsets[list[i - 1] as int] <= offsets[list[i - 1] + 1]);
    }
}

/// How many clusters are enough.
pub proof fn lemma_enough(offsets: Seq<usize>, order: Seq<usize>, k: nat, j: int)
    requires
        0 <= j <= order.len(),
    ensures
        j <= enough(offsets, order, k, j) <= order.len(),
        enough(offsets, order, k, j) == order.len() || reach(
            offsets,
            order.take(enough(offsets, order, k, j)),
        ) >= k,
        forall|i: int|
            j <= i < enough(offsets, order, k, j) ==> reach(offsets, #[trigger] order.take(i)) < k,
    decreases order.len() - j,
{
    if j < order.len() && reach(offsets, order.take(j)) < k {
        lemma_enough(offsets, order, k, j + 1);
    }
}

/// The clusters that a query looks into hold `k` vectors, or all vectors where there are fewer.
/// They are different clusters, among them the `nprobe` nearest, and a further one is taken only
/// where those before it hold too few.
pub proof fn law_probe_enough(
    offsets: Seq<usize>,
    keys: Seq<u64>,
    n: nat,
    nprobe: nat,
    k: nat,
)
    requires
        keys.len() <= usize::MAX,
        offsets_ok(offsets, keys.len(), n),
    ensures
        ({
            let list = probed(offsets, keys, nprobe, k);
            let order = cluster_order(keys);
            &&& reach(offsets, list) >= if k <= n {
                k
            } else {
                n
            }
            &&& reach(offsets, list) <= n
            &&& list.no_duplicates()
            &&& list.len() <= keys.len()
            &&& list == order.take(list.len() as int)
            &&& nprobe <= keys.len() ==> list.len() >= nprobe
            &&& nprobe >= keys.len() ==> list.len() == keys.len()
            &&& list.len() > nprobe ==> reach(offsets, order.take(list.len() - 1)) < k
            &&& forall|i: int| 0 <= i < list.len() ==> (#[trigger] list[i]) < keys.len()
        }),
{
    let order = cluster_order(keys);
    lemma_cluster_order(keys);
    let first: int = if nprobe <= order.len() {
        nprobe as int
    } else {
        order.len() as int
    };
    lemma_enough(offsets, order, k, first);
    lemma_reach_all(offsets, keys, n);
    let list = probed(offsets, keys, nprobe, k);
    assert(order.take(order.len() as int) =~= order);
    lemma_reach_monotone(
        offsets,
        keys.len(),
        n,
        order,
        list.len() as int,
        order.len() as int,
    );
    assert(list =~= order.take(list.len() as int));
}

/// The keys of distances.
pub open spec fn ranks<T: Real>(dists: Seq<T>) -> Seq<u64> {
    Seq::new(dists.len(), |i: int| dists[i].rank())
}

/// The clusters stand in ascending order of their keys, those with equal keys by number, and every
/// cluster is among them.
proof fn lemma_order_ascends(keys: Seq<u64>)
    requires
        keys.len() <= usize::MAX,
    ensures
        forall|i: int, j: int|
            0 <= i < j < keys.len() ==> {
                let (a, b) = (
                    #[trigger] cluster_order(keys)[i],
                    #[trigger] cluster_order(keys)[j],
                );
                keys[a as int] < keys[b as int] || (keys[a as int] == keys[b as int] && a < b)
            },
        forall|b: usize| b < keys.len() ==> #[trigger] cluster_order(keys).contains(b),
{
    let e = cluster_entries(keys);
    let s = sort_entries(e);
    let order = cluster_order(keys);
    lemma_sort_entries(e);
    lemma_sort_distinct(e);
    lemma_cluster_order(keys);
    assert forall|i: int| 0 <= i < keys.len() implies (#[trigger] s[i]).0 == keys[order[i] as int]
        && s[i].1 == order[i] by {
        assert(s.contains(s[i]));
        let c = choose|c: int| 0 <= c < e.len() && e[c] == s[i];
        assert(order[i] == c);
    }
    assert forall|i: int, j: int| 0 <= i < j < keys.len() implies {
        let (a, b) = (#[trigger] order[i], #[trigger] order[j]);
        keys[a as int] < keys[b as int] || (keys[a as int] == keys[b as int] && a < b)
    } by {
        assert(s[i].0 == keys[order[i] as int] && s[j].0 == keys[order[j] as int]);
        assert(entry_le(s[i], s[j]));
        assert(order[i] != order[j]);
    }
    assert forall|b: usize| b < keys.len() implies #[trigger] order.contains(b) by {
        assert(e[b as int] == (keys[b as int], b));
        assert(e.contains(e[b as int]));
        assert(s.contains(e[b as int]));
        let i = choose|i: int| 0 <= i < s.len() && s[i] == e[b as int];
        assert(order[i] == b);
    }
}

/// No cluster that is left out is nearer than one that a query looks into, and the clusters that it
/// looks into stand in ascending order of their distances. Of clusters with equal distances the one
/// with the lower number comes first.
pub proof fn law_nearest_probed<T: Real>(
    dists: Seq<T>,
    offsets: Seq<usize>,
    n: nat,
    nprobe: nat,
    k: nat,
)
    requires
        dists.len() <= usize::MAX,
        offsets_ok(offsets, dists.len(), n),
    ensures
        ({
            let list = probed(offsets, ranks(dists), nprobe, k);
            &&& list.no_duplicates()
            &&& nprobe <= dists.len() ==> list.len() >= nprobe
            &&& nprobe >= dists.len() ==> list.len() == dists.len()
            &&& forall|i: int| 0 <= i < list.len() ==> (#[trigger] list[i]) < dists.len()
            &&& forall|i: int, j: int|
                0 <= i < j < list.len() ==> {
                    let (a, b) = (#[trigger] list[i], #[trigger] list[j]);
                    dists[a as int].rank() < dists[b as int].rank() || (dists[a as int].rank()
                        == dists[b as int].rank() && a < b)
                }
            &&& forall|i: int, b: usize|
                0 <= i < list.len() && b < dists.len() && !list.contains(b) ==> {
                    let a = #[trigger] list[i];
                    dists[a as int].rank() < (#[trigger] dists[b as int]).rank() || (
                    dists[a as int].rank() == dists[b as int].rank() && a < b)
                }
        }),
{
    let keys = ranks(dists);
    let list = probed(offsets, keys, nprobe, k);
    let order = cluster_order(keys);
    law_probe_enough(offsets, keys, n, nprobe, k);
    lemma_order_ascends(keys);
    lemma_cluster_order(keys);
    assert forall|i: int| 0 <= i < list.len() implies list[i] == order[i] by {}
    assert forall|i: int, j: int| 0 <= i < j < list.len() implies {
        let (a, b) = (#[trigger] list[i], #[trigger] list[j]);
        dists[a as int].rank() < dists[b as int].rank() || (dists[a as int].rank()
            == dists[b as int].rank() && a < b)
    } by {
        assert(list[i] == order[i] && list[j] == order[j]);
        assert(list[i] < keys.len() && list[j] < keys.len());
    }
    assert forall|i: int, b: usize|
        0 <= i < list.len() && b < dists.len() && !list.contains(b) implies {
        let a = #[trigger] list[i];
        dists[a as int].rank() < (#[trigger] dists[b as int]).rank() || (dists[a as int].rank()
            == dists[b as int].rank() && a < b)
    } by {
        assert(order.contains(b));
        let j = choose|j: int| 0 <= j < order.len() && order[j] == b;
        if j < list.len() {
            assert(list[j] == b);
        }
        assert(list[i] == order[i]);
        assert(list[i] < keys.len());
    }
}

/// A list of clusters holds the vectors of each of them, those between where the cluster begins and
/// where the next begins, and an empty list holds none.
pub proof fn law_reach(offsets: Seq<usize>, list: Seq<usize>, c: usize)
    ensures
        reach(offsets, Seq::<usize>::empty()) == 0,
        reach(offsets, list.push(c)) == reach(offsets, list) + offsets[c + 1] - offsets[c as int],
{
    assert(list.push(c).drop_last() =~= list);
}

/// Choose the clusters that a query looks into, given its distances to all clusters.
pub fn select_probed_clusters<T: Real>(
    dists: &[T],
    offsets: &[usize],
    nprobe: usize,
    k: usize,
) -> (r: Vec<usize>)
    requires
        exists|n: nat| offsets_ok(offsets@, dists@.len(), n),
    ensures
        r@ == probed(offsets@, ranks(dists@), nprobe as nat, k as nat),
        r@.no_duplicates(),
        forall|i: int| 0 <= i < r@.len() ==> (#[trigger] r@[i]) < dists@.len(),
        forall|i: int, j: int|
            0 <= i < j < r@.len() ==> dists@[r@[i] as int].rank() <= dists@[r@[j] as int].rank(),
        forall|i: int, b: usize|
            0 <= i < r@.len() && b < dists@.len() && !r@.contains(b)
                ==> #[trigger] dists@[r@[i] as int].rank() <= #[trigger] dists@[b as int].rank(),
{
    let ghost n = choose|n: nat| offsets_ok(offsets@, dists@.len(), n);
    let ghost keys = ranks(dists@);
    let ghost order = cluster_order(keys);
    let mut entries: Vec<Entry> = Vec::new();
    let mut c: usize = 0;
    while c < dists.len()
        invariant
            c <= dists@.len(),
            keys == ranks(dists@),
            entries@ == cluster_entries(keys).take(c as int),
        decreases dists.len() - c,
    {
        entries.push((dists[c].order_key(), c));
        proof {
            assert(entries@ =~= cluster_entries(keys).take(c + 1));
        }
        c += 1;
    }
    assert(entries@ =~= cluster_entries(keys));
    let sorted = sort(entries.as_slice());
    let ghost first: int = if nprobe <= order.len() {
        nprobe as int
    } else {
        order.len() as int
    };
    proof {
        lemma_cluster_order(keys);
        lemma_reach_all(offsets@, keys, n);
        assert(order.take(0) =~= Seq::<usize>::empty());
        assert(order.take(order.len() as int) =~= order);
    }
    let mut list: Vec<usize> = Vec::new();
    let mut held: usize = 0;
    let total: usize = offsets[dists.len()];
    while list.len() < sorted.len() && (list.len() < nprobe || held < k)
        invariant
            n == total,
            offsets_ok(offsets@, keys.len(), n),
            order.len() == keys.len(),
            order == ids(sorted@),
            forall|i: int| 0 <= i < order.len() ==> (#[trigger] order[i]) < keys.len(),
            reach(offsets@, order) == n,
            order.take(order.len() as int) == order,
            list@.len() <= order.len(),
            list@ == order.take(list@.len() as int),
            held == reach(offsets@, list@),
            first == if nprobe <= order.len() {
                nprobe as int
            } else {
                order.len() as int
            },
            list@.len() >= first ==> enough(offsets@, order, k as nat, first) == enough(
                offsets@,
                order,
                k as nat,
                list@.len() as int,
            ),
        decreases sorted.len() - list.len(),
    {
        let ghost at = list@.len() as int;
        let next: usize = sorted[list.len()].1;
        proof {
            assert(order[at] == next);
            assert(order[at] < keys.len());
            assert(offsets@[next as int] <= offsets@[next + 1]);
            lemma_reach_monotone(offsets@, keys.len(), n, order, at + 1, order.len() as int);
            assert(order.take(at + 1).drop_last() =~= order.take(at));
            assert(order.take(at + 1).last() == next);
        }
        held = held + (offsets[next + 1] - offsets[next]);
        list.push(next);
        assert(list@ =~= order.take(at + 1));
    }
    proof {
        assert(list@ =~= probed(offsets@, keys, nprobe as nat, k as nat));
        law_nearest_probed(dists@, offsets@, n, nprobe as nat, k as nat);
    }
    list
}

} // verus!
