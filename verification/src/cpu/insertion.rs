//! Insertion of nodes into a layered graph.
//!
//! A node is inserted from its highest layer downwards. The layers above it are descended greedily.
//! In each of its own layers the nearest nodes are searched, near and diverse ones become its
//! neighbours, and the node is offered to each of them in turn.
use super::beam::{closed_in, search, search_layer};
use super::beam_laws::{law_search_results, lemma_reaches_within, lemma_search_bounded};
use super::construction::{ConstructionGraph, GraphLayer};
use super::diversity::{
    chosen, ids, lemma_chosen, lemma_without, select_neighbours_heuristic, without, PairKeys,
};
use super::greedy::{climb, greedy_search_layer, lemma_climb_within};
use super::layers::{
    cap, committed, edges, graph_ok, law_commit_keeps_order, lemma_with_list, lemma_with_list_ok,
    list_ok, nbrs, offered, same_shape, stands_in, with_list, Lists,
};
use super::slots::{LayerView, NodeKeys};
use crate::utils::ordered::{at_most, distinct_ids, Entry};
use crate::utils::search_state::SearchState;
use vstd::prelude::*;

verus! {

/// What an insertion goes by.
pub struct Growth {
    /// The keys of the distances between nodes.
    pub pair: spec_fn(usize, usize) -> u64,
    /// How many neighbours a node keeps in the layers above the base layer.
    pub m: nat,
    /// How many candidates a search keeps.
    pub ef: nat,
    /// The highest layer.
    pub top: int,
    /// The node where every search begins.
    pub ep: usize,
}

/// The keys of the distances from a node.
pub open spec fn keys_from(b: Growth, node: usize) -> spec_fn(usize) -> u64 {
    |v: usize| (b.pair)(node, v)
}

/// Climb in every layer from `layer` down to `low`.
pub open spec fn descend(
    g: Lists,
    key: spec_fn(usize) -> u64,
    layer: int,
    low: int,
    cur: usize,
) -> usize
    decreases layer - low + 1,
{
    if layer < low {
        cur
    } else {
        descend(g, key, layer - 1, low, climb(edges(g, layer), key, cur))
    }
}

/// The nodes that a search from `cur` finds for `node` at a layer.
pub open spec fn candidates(
    b: Growth,
    g: Lists,
    layer: int,
    node: usize,
    cur: usize,
) -> Seq<Entry> {
    search(edges(g, layer), keys_from(b, node), b.ef, g.len(), cur)
}

/// The neighbours that `node` gets at a layer.
pub open spec fn selection(
    b: Growth,
    g: Lists,
    layer: int,
    node: usize,
    cur: usize,
) -> Seq<Entry> {
    chosen(b.pair, node, candidates(b, g, layer, node, cur), cap(b.m, layer))
}

/// The graph after `node` was offered to the nodes of `list`, one after the other.
pub open spec fn link_back(
    b: Growth,
    g: Lists,
    layer: int,
    node: usize,
    list: Seq<usize>,
) -> Lists
    decreases list.len(),
{
    if list.len() == 0 {
        g
    } else {
        let h = link_back(b, g, layer, node, list.drop_last());
        let v = list.last();
        if v != node && stands_in(h, layer, v) {
            with_list(h, layer, v, offered(b.pair, cap(b.m, layer), v, nbrs(h, layer, v), node))
        } else {
            h
        }
    }
}

/// The graph after `node` was connected at a layer by a search from `cur`.
pub open spec fn connect(b: Growth, g: Lists, layer: int, node: usize, cur: usize) -> Lists {
    let list = ids(selection(b, g, layer, node, cur));
    link_back(b, with_list(g, layer, node, list), layer, node, list)
}

/// Where the search in the next layer down begins: at the nearest neighbour.
pub open spec fn next_start(found: Seq<Entry>, cur: usize) -> usize {
    if found.len() > 0 {
        found[0].1
    } else {
        cur
    }
}

/// The graph after `node` was connected at `layer` and every layer below.
pub open spec fn connect_down(b: Growth, g: Lists, layer: int, node: usize, cur: usize) -> Lists
    decreases layer + 1,
{
    if layer < 0 {
        g
    } else {
        connect_down(
            b,
            connect(b, g, layer, node, cur),
            layer - 1,
            node,
            next_start(selection(b, g, layer, node, cur), cur),
        )
    }
}

/// The graph after `node` was inserted.
pub open spec fn insert(b: Growth, g: Lists, node: usize) -> Lists {
    let level = g[node as int].len() - 1;
    connect_down(b, g, level, node, descend(g, keys_from(b, node), b.top, level + 1, b.ep))
}

/// The graph after the nodes of `order` were inserted.
pub open spec fn insert_all(b: Growth, g: Lists, order: Seq<usize>) -> Lists
    decreases order.len(),
{
    if order.len() == 0 {
        g
    } else {
        insert(b, insert_all(b, g, order.drop_last()), order.last())
    }
}

/// The entry node stands in every layer, and no node stands higher.
pub open spec fn entry_ok(b: Growth, g: Lists) -> bool {
    &&& b.top >= 0
    &&& stands_in(g, b.top, b.ep)
    &&& forall|v: int| 0 <= v < g.len() ==> (#[trigger] g[v]).len() <= b.top + 1
}

/// Edges of a layer do not leave the layer.
pub proof fn lemma_edges_within(g: Lists, m: nat, layer: int)
    requires
        graph_ok(g, m),
    ensures
        closed_in(edges(g, layer), g.len()),
        forall|v: usize, j: int|
            stands_in(g, layer, v) && 0 <= j < edges(g, layer)(v).len() ==> stands_in(
                g,
                layer,
                #[trigger] edges(g, layer)(v)[j],
            ),
{
    assert forall|v: usize, j: int|
        v < g.len() && 0 <= j < edges(g, layer)(v).len() implies stands_in(
        g,
        layer,
        #[trigger] edges(g, layer)(v)[j],
    ) by {
        assert(stands_in(g, layer, v));
        assert(list_ok(g, m, layer, v, nbrs(g, layer, v)));
        assert(stands_in(g, layer, nbrs(g, layer, v)[j]));
    }
}

/// Climbing in a layer does not leave the layer.
pub proof fn lemma_climb_stands(
    g: Lists,
    m: nat,
    layer: int,
    key: spec_fn(usize) -> u64,
    cur: usize,
)
    requires
        graph_ok(g, m),
        stands_in(g, layer, cur),
    ensures
        stands_in(g, layer, climb(edges(g, layer), key, cur)),
{
    lemma_edges_within(g, m, layer);
    let within = |v: usize| stands_in(g, layer, v);
    assert forall|v: usize, j: int|
        within(v) && 0 <= j < edges(g, layer)(v).len() implies within(
        #[trigger] edges(g, layer)(v)[j],
    ) by {
        assert(stands_in(g, layer, v));
        assert(stands_in(g, layer, edges(g, layer)(v)[j]));
    }
    lemma_climb_within(edges(g, layer), key, cur, within);
}

/// A descent ends at a node that stands in the layer below the last one it passed.
pub proof fn lemma_descend_stands(
    g: Lists,
    m: nat,
    key: spec_fn(usize) -> u64,
    layer: int,
    low: int,
    cur: usize,
)
    requires
        graph_ok(g, m),
        1 <= low,
        layer >= low - 1,
        stands_in(g, layer, cur),
    ensures
        stands_in(g, low - 1, descend(g, key, layer, low, cur)),
    decreases layer - low + 1,
{
    if layer >= low {
        lemma_climb_stands(g, m, layer, key, cur);
        lemma_descend_stands(g, m, key, layer - 1, low, climb(edges(g, layer), key, cur));
    }
}

/// What a search finds at a layer are different nodes of the layer, nearest first, with the keys of
/// their distances.
pub proof fn lemma_candidates(b: Growth, g: Lists, layer: int, node: usize, cur: usize)
    requires
        graph_ok(g, b.m),
        stands_in(g, layer, cur),
    ensures
        distinct_ids(candidates(b, g, layer, node, cur)),
        forall|i: int|
            #![trigger candidates(b, g, layer, node, cur)[i]]
            0 <= i < candidates(b, g, layer, node, cur).len() ==> stands_in(
                g,
                layer,
                candidates(b, g, layer, node, cur)[i].1,
            ) && candidates(b, g, layer, node, cur)[i].0 == (b.pair)(
                node,
                candidates(b, g, layer, node, cur)[i].1,
            ),
{
    let adj = edges(g, layer);
    let key = keys_from(b, node);
    let w = candidates(b, g, layer, node, cur);
    lemma_edges_within(g, b.m, layer);
    lemma_search_bounded(adj, key, b.ef, g.len(), cur);
    if b.ef >= 1 {
        law_search_results(adj, key, b.ef, g.len(), cur);
        let within = |v: usize| stands_in(g, layer, v);
        assert forall|v: usize, j: int| within(v) && 0 <= j < adj(v).len() implies within(
            #[trigger] adj(v)[j],
        ) by {
            assert(stands_in(g, layer, v));
            assert(stands_in(g, layer, edges(g, layer)(v)[j]));
        }
        assert forall|i: int|
            #![trigger w[i]]
            0 <= i < w.len() implies stands_in(g, layer, w[i].1) && w[i].0 == (b.pair)(
            node,
            w[i].1,
        ) by {
            lemma_reaches_within(adj, cur, w[i].1, within);
        }
    }
}

/// The neighbours that a node gets at a layer may be its list there.
pub proof fn lemma_selection_ok(b: Growth, g: Lists, layer: int, node: usize, cur: usize)
    requires
        graph_ok(g, b.m),
        stands_in(g, layer, cur),
    ensures
        list_ok(g, b.m, layer, node, ids(selection(b, g, layer, node, cur))),
        distinct_ids(selection(b, g, layer, node, cur)),
        selection(b, g, layer, node, cur).len() <= cap(b.m, layer),
        forall|i: int|
            #![trigger selection(b, g, layer, node, cur)[i]]
            0 <= i < selection(b, g, layer, node, cur).len() ==> stands_in(
                g,
                layer,
                selection(b, g, layer, node, cur)[i].1,
            ) && selection(b, g, layer, node, cur)[i].1 != node,
        stands_in(g, layer, next_start(selection(b, g, layer, node, cur), cur)),
{
    let w = candidates(b, g, layer, node, cur);
    let s = selection(b, g, layer, node, cur);
    lemma_candidates(b, g, layer, node, cur);
    lemma_chosen(b.pair, node, w, cap(b.m, layer));
    assert forall|i: int| #![trigger s[i]] 0 <= i < s.len() implies stands_in(g, layer, s[i].1)
        && s[i].1 != node by {
        assert(s.contains(s[i]));
        let k = choose|k: int| 0 <= k < w.len() && w[k] == s[i];
        assert(stands_in(g, layer, w[k].1));
    }
    let list = ids(s);
    assert forall|i: int, j: int| 0 <= i < list.len() && 0 <= j < list.len() && i != j implies
        list[i] != list[j] by {
        assert(list[i] == s[i].1 && list[j] == s[j].1);
        if i < j {
            assert(s[i].1 != s[j].1);
        } else {
            assert(s[j].1 != s[i].1);
        }
    }
    assert forall|j: int| 0 <= j < list.len() implies stands_in(g, layer, #[trigger] list[j]) by {
        assert(list[j] == s[j].1);
    }
    if list.contains(node) {
        let k = choose|k: int| 0 <= k < list.len() && list[k] == node;
        assert(s[k].1 == node);
    }
}

/// Offering a node to others keeps the graph in order, and leaves the lists of the other nodes and
/// layers alone.
pub proof fn lemma_link_back(b: Growth, g: Lists, layer: int, node: usize, list: Seq<usize>)
    requires
        graph_ok(g, b.m),
        stands_in(g, layer, node),
    ensures
        graph_ok(link_back(b, g, layer, node, list), b.m),
        same_shape(g, link_back(b, g, layer, node, list)),
        forall|l: int, u: usize|
            (l != layer || u == node || !list.contains(u)) ==> #[trigger] nbrs(
                link_back(b, g, layer, node, list),
                l,
                u,
            ) == nbrs(g, l, u),
    decreases list.len(),
{
    if list.len() > 0 {
        let front = list.drop_last();
        lemma_link_back(b, g, layer, node, front);
        let h = link_back(b, g, layer, node, front);
        let v = list.last();
        let r = link_back(b, g, layer, node, list);
        if v != node && stands_in(h, layer, v) {
            let old_list = nbrs(h, layer, v);
            let new_list = offered(b.pair, cap(b.m, layer), v, old_list, node);
            law_commit_keeps_order(b.pair, h, b.m, layer, v, old_list, node);
            assert(new_list == committed(b.pair, cap(b.m, layer), v, old_list, old_list, node));
            lemma_with_list_ok(h, b.m, layer, v, new_list);
            lemma_with_list(h, layer, v, new_list);
        }
        assert forall|l: int, u: usize|
            (l != layer || u == node || !list.contains(u)) implies #[trigger] nbrs(r, l, u) == nbrs(
            g,
            l,
            u,
        ) by {
            if !list.contains(u) {
                if front.contains(u) {
                    let k = choose|k: int| 0 <= k < front.len() && front[k] == u;
                    assert(list[k] == u);
                }
                assert(list[list.len() - 1] == v);
            }
            assert(nbrs(h, l, u) == nbrs(g, l, u));
        }
    }
}

/// To connect a node at a layer keeps the graph in order and every node in its layers. The lists of
/// other layers stay as they are, and the node has the neighbours selected for it.
pub proof fn law_connect(b: Growth, g: Lists, layer: int, node: usize, cur: usize)
    requires
        graph_ok(g, b.m),
        stands_in(g, layer, node),
        stands_in(g, layer, cur),
    ensures
        graph_ok(connect(b, g, layer, node, cur), b.m),
        same_shape(g, connect(b, g, layer, node, cur)),
        nbrs(connect(b, g, layer, node, cur), layer, node) == ids(
            selection(b, g, layer, node, cur),
        ),
        forall|l: int, u: usize|
            l != layer ==> #[trigger] nbrs(connect(b, g, layer, node, cur), l, u) == nbrs(g, l, u),
        forall|u: usize|
            u != node && !ids(selection(b, g, layer, node, cur)).contains(u)
                ==> #[trigger] nbrs(connect(b, g, layer, node, cur), layer, u) == nbrs(g, layer, u),
{
    let list = ids(selection(b, g, layer, node, cur));
    lemma_selection_ok(b, g, layer, node, cur);
    lemma_with_list_ok(g, b.m, layer, node, list);
    lemma_with_list(g, layer, node, list);
    lemma_link_back(b, with_list(g, layer, node, list), layer, node, list);
}

/// To connect a node at a layer and all layers below keeps the graph in order and every node in its
/// layers; the layers above stay as they are.
pub proof fn lemma_connect_down(b: Growth, g: Lists, layer: int, node: usize, cur: usize)
    requires
        graph_ok(g, b.m),
        layer >= 0 ==> stands_in(g, layer, node),
        layer >= 0 ==> stands_in(g, layer, cur),
    ensures
        graph_ok(connect_down(b, g, layer, node, cur), b.m),
        same_shape(g, connect_down(b, g, layer, node, cur)),
        forall|l: int, u: usize|
            l > layer ==> #[trigger] nbrs(connect_down(b, g, layer, node, cur), l, u) == nbrs(
                g,
                l,
                u,
            ),
    decreases layer + 1,
{
    if layer >= 0 {
        law_connect(b, g, layer, node, cur);
        lemma_selection_ok(b, g, layer, node, cur);
        let h = connect(b, g, layer, node, cur);
        let next = next_start(selection(b, g, layer, node, cur), cur);
        lemma_connect_down(b, h, layer - 1, node, next);
        let r = connect_down(b, g, layer, node, cur);
        assert forall|l: int, u: usize| l > layer implies #[trigger] nbrs(r, l, u) == nbrs(
            g,
            l,
            u,
        ) by {
            assert(nbrs(r, l, u) == nbrs(h, l, u));
        }
    }
}

/// An insertion keeps the graph in order and every node in its layers; the layers above the node
/// stay as they are.
pub proof fn law_insert(b: Growth, g: Lists, node: usize)
    requires
        graph_ok(g, b.m),
        entry_ok(b, g),
        node < g.len(),
    ensures
        graph_ok(insert(b, g, node), b.m),
        same_shape(g, insert(b, g, node)),
        entry_ok(b, insert(b, g, node)),
        forall|l: int, u: usize|
            l >= g[node as int].len() ==> #[trigger] nbrs(insert(b, g, node), l, u) == nbrs(
                g,
                l,
                u,
            ),
{
    let level = g[node as int].len() - 1;
    let key = keys_from(b, node);
    assert(g[node as int].len() > 0);
    lemma_descend_stands(g, b.m, key, b.top, level + 1, b.ep);
    let cur = descend(g, key, b.top, level + 1, b.ep);
    lemma_connect_down(b, g, level, node, cur);
    let h = insert(b, g, node);
    assert forall|v: int| 0 <= v < h.len() implies (#[trigger] h[v]).len() <= b.top + 1 by {
        assert(g[v].len() == h[v].len());
    }
    assert(g[b.ep as int].len() == h[b.ep as int].len());
}

/// However many nodes are inserted, in whatever order, the graph stays in order and every node in
/// its layers.
pub proof fn law_insert_all(b: Growth, g: Lists, order: Seq<usize>)
    requires
        graph_ok(g, b.m),
        entry_ok(b, g),
        forall|i: int| 0 <= i < order.len() ==> (#[trigger] order[i]) < g.len(),
    ensures
        graph_ok(insert_all(b, g, order), b.m),
        same_shape(g, insert_all(b, g, order)),
        entry_ok(b, insert_all(b, g, order)),
    decreases order.len(),
{
    if order.len() > 0 {
        let front = order.drop_last();
        assert forall|i: int| 0 <= i < front.len() implies (#[trigger] front[i]) < g.len() by {
            assert(front[i] == order[i]);
        }
        law_insert_all(b, g, front);
        assert(order[order.len() - 1] < g.len());
        law_insert(b, insert_all(b, g, front), order.last());
    }
}

/// The keys of the distances from one node.
pub struct FromNode<'a, D: PairKeys> {
    pub pairs: &'a D,
    pub node: usize,
}

impl<'a, D: PairKeys> NodeKeys for FromNode<'a, D> {
    open spec fn size(&self) -> nat {
        self.pairs.size()
    }

    open spec fn key(&self, node: usize) -> u64 {
        self.pairs.pair(self.node, node)
    }

    open spec fn wf(&self) -> bool {
        self.pairs.wf() && self.node < self.pairs.size()
    }

    fn key_of(&self, node: usize) -> (r: u64) {
        self.pairs.pair_of(self.node, node)
    }
}

/// What an insertion goes by, given the distances.
pub open spec fn growth<D: PairKeys>(
    pairs: &D,
    m: nat,
    ef: usize,
    max_layer: u8,
    entry_point: usize,
) -> Growth {
    Growth {
        pair: |a: usize, b: usize| pairs.pair(a, b),
        m,
        ef: ef as nat,
        top: max_layer as int,
        ep: entry_point,
    }
}

/// Search the nearest nodes of a layer for a node that is being inserted.
pub fn search_layer_construction<D: PairKeys>(
    query_node: usize,
    target_layer: u8,
    entry_node: usize,
    ef: usize,
    graph: &ConstructionGraph,
    state: &mut SearchState,
    pairs: &D,
)
    requires
        graph.wf(),
        pairs.wf(),
        pairs.size() == graph.size(),
        query_node < graph.size(),
        entry_node < graph.size(),
    ensures
        final(state).wf(),
        final(state).working_sorted@ == search(
            edges(graph@, target_layer as int),
            |v: usize| pairs.pair(query_node, v),
            ef as nat,
            graph@.len(),
            entry_node,
        ),
{
    let view = GraphLayer { graph, layer: target_layer };
    let keys = FromNode { pairs, node: query_node };
    proof {
        graph.lemma_view();
        assert((|v: usize| view.adj(v)) =~= edges(graph@, target_layer as int));
        assert((|v: usize| keys.key(v)) =~= (|v: usize| pairs.pair(query_node, v)));
    }
    let n: usize = graph.len();
    search_layer(&view, &keys, entry_node, ef, n, state);
}

/// Connect a node at one layer, beginning the search at `cur`, and return where the search in the
/// next layer down begins.
fn connect_node<D: PairKeys>(
    node: usize,
    layer: u8,
    cur: usize,
    graph: &mut ConstructionGraph,
    state: &mut SearchState,
    pairs: &D,
    ef_construction: usize,
    Ghost(b): Ghost<Growth>,
) -> (r: usize)
    requires
        old(graph).wf(),
        pairs.wf(),
        pairs.size() == old(graph).size(),
        stands_in(old(graph)@, layer as int, node),
        stands_in(old(graph)@, layer as int, cur),
        b.pair == (|x: usize, y: usize| pairs.pair(x, y)),
        b.m == old(graph).width(),
        b.ef == ef_construction,
    ensures
        final(graph).wf(),
        final(graph).size() == old(graph).size(),
        final(graph).width() == old(graph).width(),
        final(graph).levels() == old(graph).levels(),
        final(graph)@ == connect(b, old(graph)@, layer as int, node, cur),
        r == next_start(selection(b, old(graph)@, layer as int, node, cur), cur),
{
    let ghost g = graph@;
    let ghost l = layer as int;
    proof {
        graph.lemma_view();
    }
    search_layer_construction(node, layer, cur, ef_construction, graph, state, pairs);
    let ghost w = candidates(b, g, l, node, cur);
    proof {
        assert((|v: usize| pairs.pair(node, v)) =~= keys_from(b, node));
        lemma_candidates(b, g, l, node, cur);
        assert(state.working_sorted@ == w);
        assert forall|i: int| 0 <= i < w.len() implies (#[trigger] w[i]).1 < pairs.size() by {
            assert(stands_in(g, l, w[i].1));
        }
    }
    let room: usize = graph.max_neighbours(layer);
    let found = select_neighbours_heuristic(pairs, node, state.working_sorted.data(), room);
    let ghost s = selection(b, g, l, node, cur);
    let ghost list = ids(s);
    proof {
        lemma_selection_ok(b, g, l, node, cur);
        assert(found@ == s);
        lemma_without(s, node);
        assert(without(at_most(s, cap(b.m, l)), node) == s);
    }
    graph.set_neighbours(node, layer, found.as_slice());
    let ghost h = with_list(g, l, node, list);
    proof {
        assert(graph@ == h);
        lemma_with_list_ok(g, b.m, l, node, list);
        lemma_with_list(g, l, node, list);
    }
    let mut i: usize = 0;
    assert(list.take(0) =~= Seq::<usize>::empty());
    while i < found.len()
        invariant
            i <= found@.len(),
            found@ == s,
            list == ids(s),
            graph.wf(),
            graph.size() == old(graph).size(),
            graph.width() == old(graph).width(),
            graph.levels() == old(graph).levels(),
            pairs.wf(),
            pairs.size() == graph.size(),
            b.pair == (|x: usize, y: usize| pairs.pair(x, y)),
            b.m == graph.width(),
            graph_ok(h, b.m),
            stands_in(h, l, node),
            l == layer,
            forall|k: int| 0 <= k < s.len() ==> stands_in(h, l, (#[trigger] s[k]).1),
            graph@ == link_back(b, h, l, node, list.take(i as int)),
        decreases found.len() - i,
    {
        let v: usize = found[i].1;
        let ghost before = graph@;
        proof {
            assert(stands_in(h, l, s[i as int].1));
            lemma_link_back(b, h, l, node, list.take(i as int));
            assert(h[v as int].len() == before[v as int].len());
            assert(h[node as int].len() == before[node as int].len());
            assert(stands_in(before, l, v));
            assert(stands_in(before, l, node));
            graph.lemma_view();
            assert(list.take(i + 1).drop_last() =~= list.take(i as int));
            assert(list.take(i + 1).last() == v);
        }
        if v != node && graph.node_level(v) >= layer {
            graph.add_neighbour_with_pruning(v, layer, node, pairs);
        }
        i += 1;
    }
    assert(list.take(i as int) =~= list);
    if found.len() > 0 {
        found[0].1
    } else {
        cur
    }
}

/// Insert a node into the graph in all its layers.
pub fn insert_node<D: PairKeys>(
    node: usize,
    graph: &mut ConstructionGraph,
    state: &mut SearchState,
    pairs: &D,
    ef_construction: usize,
    max_layer: u8,
    entry_point: usize,
)
    requires
        old(graph).wf(),
        pairs.wf(),
        pairs.size() == old(graph).size(),
        node < old(graph).size(),
        entry_ok(
            growth(pairs, old(graph).width(), ef_construction, max_layer, entry_point),
            old(graph)@,
        ),
    ensures
        final(graph).wf(),
        final(graph).size() == old(graph).size(),
        final(graph).width() == old(graph).width(),
        final(graph).levels() == old(graph).levels(),
        final(graph)@ == insert(
            growth(pairs, old(graph).width(), ef_construction, max_layer, entry_point),
            old(graph)@,
            node,
        ),
{
    let ghost b = growth(pairs, graph.width(), ef_construction, max_layer, entry_point);
    let ghost g = graph@;
    let ghost key = keys_from(b, node);
    proof {
        graph.lemma_view();
    }
    let node_level: u8 = graph.node_level(node);
    let mut current: usize = entry_point;
    let mut layer: u8 = max_layer;
    proof {
        assert(g[node as int].len() <= b.top + 1);
    }
    let keys = FromNode { pairs, node };
    assert((|v: usize| keys.key(v)) =~= key);
    while layer > node_level
        invariant
            node_level <= layer,
            graph.wf(),
            graph@ == g,
            g.len() == graph.size(),
            graph_ok(g, b.m),
            keys.wf(),
            keys.size() == graph.size(),
            (|v: usize| keys.key(v)) == key,
            stands_in(g, layer as int, current),
            descend(g, key, layer as int, node_level + 1, current) == descend(
                g,
                key,
                max_layer as int,
                node_level + 1,
                entry_point,
            ),
        decreases layer,
    {
        let view = GraphLayer { graph: &*graph, layer };
        proof {
            assert((|v: usize| view.adj(v)) =~= edges(g, layer as int));
            lemma_climb_stands(g, b.m, layer as int, key, current);
        }
        current = greedy_search_layer(&view, &keys, current);
        layer = layer - 1;
    }
    let ghost start = current;
    let ghost r = insert(b, g, node);
    let mut next: usize = node_level as usize + 1;
    proof {
        assert(r == connect_down(b, g, next - 1, node, start));
    }
    while next > 0
        invariant
            next <= node_level + 1,
            graph.wf(),
            graph.size() == old(graph).size(),
            graph.width() == old(graph).width(),
            graph.levels() == old(graph).levels(),
            pairs.wf(),
            pairs.size() == graph.size(),
            b.pair == (|x: usize, y: usize| pairs.pair(x, y)),
            b.m == graph.width(),
            b.ef == ef_construction,
            node < graph.size(),
            node_level == graph.levels()[node as int],
            next > 0 ==> stands_in(graph@, next - 1, current),
            r == connect_down(b, graph@, next - 1, node, current),
        decreases next,
    {
        let layer: u8 = (next - 1) as u8;
        let ghost before = graph@;
        let ghost cur = current;
        proof {
            graph.lemma_view();
            assert(stands_in(before, layer as int, node));
            law_connect(b, before, layer as int, node, cur);
            lemma_selection_ok(b, before, layer as int, node, cur);
        }
        current = connect_node(
            node,
            layer,
            current,
            graph,
            state,
            pairs,
            ef_construction,
            Ghost(b),
        );
        proof {
            assert(before[current as int].len() == graph@[current as int].len());
        }
        next = next - 1;
    }
}

} // verus!
