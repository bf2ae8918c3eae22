//! Hill climbing in one layer of a graph.
use super::beam::closed_in;
use super::slots::{degree, ids_of, lemma_degree_bounds, LayerView, NodeKeys, EMPTY};
use vstd::prelude::*;

verus! {

/// The first of the nearest nodes among `cur` and the nodes of `list`, where `cur` comes first.
pub open spec fn nearest(key: spec_fn(usize) -> u64, list: Seq<usize>, cur: usize) -> usize
    decreases list.len(),
{
    if list.len() == 0 {
        cur
    } else {
        let best = nearest(key, list.drop_last(), cur);
        if key(list.last()) < key(best) {
            list.last()
        } else {
            best
        }
    }
}

/// Go to the nearest neighbour as long as that leads to a nearer node.
pub open spec fn climb(
    adj: spec_fn(usize) -> Seq<usize>,
    key: spec_fn(usize) -> u64,
    cur: usize,
) -> usize
    decreases key(cur),
{
    let next = nearest(key, adj(cur), cur);
    if key(next) < key(cur) {
        climb(adj, key, next)
    } else {
        cur
    }
}

/// Climb towards a query. Where the distance of the node at hand is no number, no neighbour is
/// nearer.
pub open spec fn climb_query(
    adj: spec_fn(usize) -> Seq<usize>,
    key: spec_fn(usize) -> u64,
    numbered: spec_fn(usize) -> bool,
    cur: usize,
) -> usize {
    if numbered(cur) {
        climb(adj, key, cur)
    } else {
        cur
    }
}

/// What is nearest is one of the nodes, and no node is nearer.
pub proof fn lemma_nearest(key: spec_fn(usize) -> u64, list: Seq<usize>, cur: usize)
    ensures
        nearest(key, list, cur) == cur || list.contains(nearest(key, list, cur)),
        key(nearest(key, list, cur)) <= key(cur),
        forall|i: int| 0 <= i < list.len() ==> key(nearest(key, list, cur)) <= key(#[trigger] list[i]),
        key(nearest(key, list, cur)) == key(cur) ==> nearest(key, list, cur) == cur,
    decreases list.len(),
{
    if list.len() > 0 {
        let front = list.drop_last();
        lemma_nearest(key, front, cur);
        let best = nearest(key, front, cur);
        if front.contains(best) {
            let k = choose|k: int| 0 <= k < front.len() && front[k] == best;
            assert(list[k] == best);
        }
        assert(list[list.len() - 1] == list.last());
        assert forall|i: int| 0 <= i < list.len() implies key(nearest(key, list, cur)) <= key(
            #[trigger] list[i],
        ) by {
            if i < front.len() {
                assert(front[i] == list[i]);
            }
        }
    }
}

/// Hill climbing ends at a node that has no nearer neighbour and is no further than the node where
/// it began.
pub proof fn law_climb_local_minimum(
    adj: spec_fn(usize) -> Seq<usize>,
    key: spec_fn(usize) -> u64,
    cur: usize,
)
    ensures
        key(climb(adj, key, cur)) <= key(cur),
        forall|j: int|
            0 <= j < adj(climb(adj, key, cur)).len() ==> key(climb(adj, key, cur)) <= key(
                #[trigger] adj(climb(adj, key, cur))[j],
            ),
    decreases key(cur),
{
    lemma_nearest(key, adj(cur), cur);
    let next = nearest(key, adj(cur), cur);
    if key(next) < key(cur) {
        law_climb_local_minimum(adj, key, next);
    }
}

/// Hill climbing does not leave a set of nodes that no edge leaves.
pub proof fn lemma_climb_within(
    adj: spec_fn(usize) -> Seq<usize>,
    key: spec_fn(usize) -> u64,
    cur: usize,
    within: spec_fn(usize) -> bool,
)
    requires
        within(cur),
        forall|v: usize, j: int|
            within(v) && 0 <= j < adj(v).len() ==> within(#[trigger] adj(v)[j]),
    ensures
        within(climb(adj, key, cur)),
    decreases key(cur),
{
    lemma_nearest(key, adj(cur), cur);
    let next = nearest(key, adj(cur), cur);
    if key(next) < key(cur) {
        let list = adj(cur);
        let j = choose|j: int| 0 <= j < list.len() && list[j] == next;
        assert(within(adj(cur)[j]));
        lemma_climb_within(adj, key, next, within);
    }
}

/// Go from node to nearer node until no neighbour is nearer.
pub fn greedy_search_layer<L: LayerView, K: NodeKeys>(view: &L, keys: &K, start: usize) -> (r: usize)
    requires
        view.wf(),
        keys.wf(),
        view.size() == keys.size(),
        start < view.size(),
    ensures
        r == climb(|v: usize| view.adj(v), |v: usize| keys.key(v), start),
        r < view.size(),
{
    let ghost adj = |v: usize| view.adj(v);
    let ghost key = |v: usize| keys.key(v);
    proof {
        view.lemma_closed();
        assert(closed_in(adj, view.size()));
    }
    let mut current: usize = start;
    let mut current_key: u64 = keys.key_of(start);
    loop
        invariant
            view.wf(),
            keys.wf(),
            view.size() == keys.size(),
            current < view.size(),
            adj == (|v: usize| view.adj(v)),
            key == (|v: usize| keys.key(v)),
            closed_in(adj, view.size()),
            current_key == key(current),
            climb(adj, key, start) == climb(adj, key, current),
        ensures
            current < view.size(),
            current == climb(adj, key, start),
        decreases current_key,
    {
        let slots = view.slots(current);
        let ghost ids = adj(current);
        let ghost from = current;
        proof {
            lemma_degree_bounds(slots@);
            assert(ids == ids_of(slots@));
            assert forall|i: int| 0 <= i < ids.len() implies (#[trigger] ids[i]) < view.size() by {
                assert(adj(current)[i] < view.size());
            }
        }
        let mut changed = false;
        let mut j: usize = 0;
        assert(ids.take(0) =~= Seq::<usize>::empty());
        while j < slots.len() && slots[j] != EMPTY
            invariant
                keys.wf(),
                view.size() == keys.size(),
                key == (|v: usize| keys.key(v)),
                current < view.size(),
                ids == ids_of(slots@),
                j <= degree(slots@) <= slots@.len(),
                degree(slots@) < slots@.len() ==> slots@[degree(slots@) as int] == EMPTY,
                forall|i: int| 0 <= i < ids.len() ==> (#[trigger] ids[i]) < view.size(),
                current_key == key(current),
                current == nearest(key, ids.take(j as int), from),
                changed == (key(current) < key(from)),
                !changed ==> current == from,
                key(current) <= key(from),
            decreases slots@.len() - j,
        {
            let v: usize = slots[j] as usize;
            assert(j < degree(slots@));
            assert(v == ids[j as int]);
            proof {
                assert(ids.take(j + 1).drop_last() =~= ids.take(j as int));
                assert(ids.take(j + 1).last() == v);
            }
            let k: u64 = keys.key_of(v);
            if k < current_key {
                current = v;
                current_key = k;
                changed = true;
            }
            j += 1;
        }
        proof {
            if j < degree(slots@) {
                lemma_degree_bounds(slots@);
                assert(slots@[j as int] != EMPTY);
            }
            assert(ids.take(j as int) =~= ids);
        }
        if !changed {
            break ;
        }
    }
    current
}

} // verus!
