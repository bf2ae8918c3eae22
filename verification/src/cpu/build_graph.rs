//! Construction of a layered graph: which node is inserted when.
use super::construction::ConstructionGraph;
use super::diversity::PairKeys;
use super::insertion::{entry_ok, growth, insert_all, insert_node, law_insert_all, Growth};
use super::layers::{bare, graph_ok, lemma_bare, same_shape, Lists};
use crate::utils::search_state::SearchState;
use vstd::prelude::*;

verus! {

/// The nodes below `n` whose highest layer is `level`, without `ep`, in ascending order.
pub open spec fn at_level(levels: Seq<u8>, level: int, ep: usize, n: int) -> Seq<usize>
    decreases n,
{
    if n <= 0 {
        Seq::empty()
    } else if levels[n - 1] == level && n - 1 != ep {
        at_level(levels, level, ep, n - 1).push((n - 1) as usize)
    } else {
        at_level(levels, level, ep, n - 1)
    }
}

/// All nodes whose highest layer is at most `level`, without `ep`: the highest first, and in
/// ascending order where they are equally high.
pub open spec fn insertion_order(levels: Seq<u8>, level: int, ep: usize) -> Seq<usize>
    decreases level + 1,
{
    if level < 0 {
        Seq::empty()
    } else {
        at_level(levels, level, ep, levels.len() as int) + insertion_order(levels, level - 1, ep)
    }
}

/// What stands at a level.
proof fn lemma_at_level(levels: Seq<u8>, level: int, ep: usize, n: int)
    requires
        0 <= n <= levels.len(),
        n <= usize::MAX,
    ensures
        forall|i: int|
            0 <= i < at_level(levels, level, ep, n).len() ==> (#[trigger] at_level(
                levels,
                level,
                ep,
                n,
            )[i]) < n && at_level(levels, level, ep, n)[i] != ep && levels[at_level(
                levels,
                level,
                ep,
                n,
            )[i] as int] == level,
        forall|i: int, j: int|
            0 <= i < j < at_level(levels, level, ep, n).len() ==> at_level(
                levels,
                level,
                ep,
                n,
            )[i] < at_level(levels, level, ep, n)[j],
        forall|v: usize|
            v < n && v != ep && levels[v as int] == level ==> #[trigger] at_level(
                levels,
                level,
                ep,
                n,
            ).contains(v),
    decreases n,
{
    if n > 0 {
        lemma_at_level(levels, level, ep, n - 1);
        let front = at_level(levels, level, ep, n - 1);
        let all = at_level(levels, level, ep, n);
        assert forall|v: usize|
            v < n && v != ep && levels[v as int] == level implies #[trigger] all.contains(v) by {
            if v < n - 1 {
                assert(front.contains(v));
                let k = choose|k: int| 0 <= k < front.len() && front[k] == v;
                assert(all[k] == v);
            } else {
                assert(all[front.len() as int] == v);
            }
        }
    }
}

/// The order in which nodes are inserted holds every node but the entry node once, from the highest
/// to the lowest, and nodes of the same height by ascending id.
pub proof fn law_insertion_order(levels: Seq<u8>, level: int, ep: usize)
    requires
        levels.len() <= usize::MAX,
    ensures
        ({
            let order = insertion_order(levels, level, ep);
            &&& forall|i: int|
                0 <= i < order.len() ==> (#[trigger] order[i]) < levels.len() && order[i] != ep
                    && levels[order[i] as int] <= level
            &&& forall|i: int, j: int|
                0 <= i < j < order.len() ==> levels[order[i] as int] > levels[order[j] as int] || (
                levels[order[i] as int] == levels[order[j] as int] && order[i] < order[j])
            &&& forall|v: usize|
                v < levels.len() && v != ep && levels[v as int] <= level
                    ==> #[trigger] order.contains(v)
        }),
    decreases level + 1,
{
    if level >= 0 {
        let n = levels.len() as int;
        lemma_at_level(levels, level, ep, n);
        law_insertion_order(levels, level - 1, ep);
        let a = at_level(levels, level, ep, n);
        let b = insertion_order(levels, level - 1, ep);
        let order = insertion_order(levels, level, ep);
        assert forall|i: int| 0 <= i < order.len() implies (#[trigger] order[i]) < levels.len()
            && order[i] != ep && levels[order[i] as int] <= level by {
            if i < a.len() {
                assert(order[i] == a[i]);
            } else {
                assert(order[i] == b[i - a.len()]);
            }
        }
        assert forall|i: int, j: int| 0 <= i < j < order.len() implies levels[order[i] as int]
            > levels[order[j] as int] || (levels[order[i] as int] == levels[order[j] as int]
            && order[i] < order[j]) by {
            if j < a.len() {
                assert(order[i] == a[i] && order[j] == a[j]);
            } else if i >= a.len() {
                assert(order[i] == b[i - a.len()] && order[j] == b[j - a.len()]);
            } else {
                assert(order[i] == a[i] && order[j] == b[j - a.len()]);
            }
        }
        assert forall|v: usize|
            v < levels.len() && v != ep && levels[v as int]
                <= level implies #[trigger] order.contains(v) by {
            if levels[v as int] == level {
                assert(a.contains(v));
                let k = choose|k: int| 0 <= k < a.len() && a[k] == v;
                assert(order[k] == v);
            } else {
                assert(b.contains(v));
                let k = choose|k: int| 0 <= k < b.len() && b[k] == v;
                assert(order[a.len() + k] == v);
            }
        }
    }
}

/// The graph that is built for nodes with the given highest layers.
pub open spec fn built(b: Growth, levels: Seq<u8>) -> Lists {
    insert_all(b, bare(levels), insertion_order(levels, b.top, b.ep))
}

/// The entry node is the first of the highest nodes.
pub open spec fn entry_of(levels: Seq<u8>, max_layer: u8, ep: usize) -> bool {
    &&& ep < levels.len()
    &&& levels[ep as int] == max_layer
    &&& forall|v: int| 0 <= v < levels.len() ==> (#[trigger] levels[v]) <= max_layer
    &&& forall|v: int| 0 <= v < ep ==> (#[trigger] levels[v]) < max_layer
}

/// A built graph is in order, and every node stands in the layers up to its highest.
pub proof fn law_built(b: Growth, levels: Seq<u8>, max_layer: u8)
    requires
        levels.len() <= usize::MAX,
        b.top == max_layer,
        entry_of(levels, max_layer, b.ep),
    ensures
        graph_ok(built(b, levels), b.m),
        same_shape(bare(levels), built(b, levels)),
        entry_ok(b, built(b, levels)),
{
    lemma_bare(levels, b.m);
    law_insertion_order(levels, b.top, b.ep);
    lemma_bare_entry(b, levels, max_layer);
    law_insert_all(b, bare(levels), insertion_order(levels, b.top, b.ep));
}

/// Before the first insertion the entry node stands in every layer.
proof fn lemma_bare_entry(b: Growth, levels: Seq<u8>, max_layer: u8)
    requires
        b.top == max_layer,
        entry_of(levels, max_layer, b.ep),
    ensures
        entry_ok(b, bare(levels)),
{
    let g = bare(levels);
    assert forall|v: int| 0 <= v < g.len() implies (#[trigger] g[v]).len() <= b.top + 1 by {
        assert(levels[v] <= max_layer);
    }
}

/// The order in which nodes are inserted.
fn compute_order(levels: &[u8], max_layer: u8, ep: usize) -> (r: Vec<usize>)
    ensures
        r@ == insertion_order(levels@, max_layer as int, ep),
{
    let mut order: Vec<usize> = Vec::new();
    let ghost total = insertion_order(levels@, max_layer as int, ep);
    let mut next: usize = max_layer as usize + 1;
    while next > 0
        invariant
            next <= max_layer + 1,
            total == order@ + insertion_order(levels@, next - 1, ep),
        decreases next,
    {
        let level: u8 = (next - 1) as u8;
        let ghost before = order@;
        let mut i: usize = 0;
        assert(order@ =~= before + at_level(levels@, level as int, ep, 0));
        while i < levels.len()
            invariant
                i <= levels@.len(),
                order@ == before + at_level(levels@, level as int, ep, i as int),
            decreases levels.len() - i,
        {
            if levels[i] == level && i != ep {
                order.push(i);
                proof {
                    assert(order@ =~= before + at_level(levels@, level as int, ep, i + 1));
                }
            }
            i += 1;
        }
        proof {
            assert(order@ + insertion_order(levels@, level - 1, ep) =~= before + insertion_order(
                levels@,
                level as int,
                ep,
            ));
        }
        next = next - 1;
    }
    assert(order@ =~= total);
    order
}

/// Insert every node but the entry node, from the highest to the lowest.
pub fn build_graph<D: PairKeys>(
    graph: &mut ConstructionGraph,
    levels: &[u8],
    pairs: &D,
    ef_construction: usize,
    max_layer: u8,
    entry_point: usize,
)
    requires
        old(graph).wf(),
        old(graph)@ == bare(levels@),
        pairs.wf(),
        pairs.size() == old(graph).size(),
        entry_of(levels@, max_layer, entry_point),
    ensures
        final(graph).wf(),
        final(graph).size() == old(graph).size(),
        final(graph).width() == old(graph).width(),
        final(graph).levels() == old(graph).levels(),
        final(graph)@ == built(
            growth(pairs, old(graph).width(), ef_construction, max_layer, entry_point),
            levels@,
        ),
{
    let ghost b = growth(pairs, graph.width(), ef_construction, max_layer, entry_point);
    let ghost g = graph@;
    let n: usize = graph.len();
    let order = compute_order(levels, max_layer, entry_point);
    let mut state = SearchState::new(n);
    let mut i: usize = 0;
    proof {
        graph.lemma_view();
        assert(levels@.len() <= usize::MAX);
        law_insertion_order(levels@, max_layer as int, entry_point);
        lemma_bare_entry(b, levels@, max_layer);
        lemma_bare(levels@, b.m);
        assert(order@.take(0) =~= Seq::<usize>::empty());
    }
    while i < order.len()
        invariant
            i <= order@.len(),
            graph.wf(),
            graph.size() == old(graph).size(),
            graph.width() == old(graph).width(),
            graph.levels() == old(graph).levels(),
            graph.size() == g.len(),
            pairs.wf(),
            pairs.size() == graph.size(),
            graph_ok(g, b.m),
            entry_ok(b, g),
            b == growth(pairs, graph.width(), ef_construction, max_layer, entry_point),
            forall|k: int| 0 <= k < order@.len() ==> (#[trigger] order@[k]) < g.len(),
            graph@ == insert_all(b, g, order@.take(i as int)),
        decreases order.len() - i,
    {
        proof {
            let front = order@.take(i as int);
            assert forall|k: int| 0 <= k < front.len() implies (#[trigger] front[k]) < g.len() by {
                assert(front[k] == order@[k]);
            }
            law_insert_all(b, g, front);
            assert(order@.take(i + 1).drop_last() =~= front);
            assert(order@.take(i + 1).last() == order@[i as int]);
            assert(order@[i as int] < g.len());
        }
        insert_node(
            order[i],
            graph,
            &mut state,
            pairs,
            ef_construction,
            max_layer,
            entry_point,
        );
        i += 1;
    }
    assert(order@.take(i as int) =~= order@);
}

} // verus!
