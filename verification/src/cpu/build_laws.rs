//! What holds of every graph that is built: no node is left alone.
use super::beam_laws::{law_search_results, lemma_reaches_within, lemma_search_bounded};
use super::build_graph::{built, entry_of, insertion_order, law_insertion_order};
use super::diversity::{chosen, ids, law_diverse, lemma_chosen, lemma_pruned, lemma_without};
use super::greedy::{climb, lemma_climb_within};
use super::insertion::{
    candidates, connect, connect_down, descend, entry_ok, insert, insert_all, keys_from,
    law_connect, law_insert_all, lemma_candidates, lemma_descend_stands, lemma_edges_within,
    lemma_link_back, lemma_selection_ok, link_back, next_start, selection, Growth,
};
use super::layers::{
    bare, cap, edges, graph_ok, lemma_bare, lemma_with_list, lemma_with_list_ok, list_ok, nbrs,
    offered, stands_in, with_list, Lists,
};
use crate::utils::ordered::lemma_sort_sorted;
use vstd::prelude::*;

verus! {

/// No list of the layers up to `layer` holds the node.
pub open spec fn unlinked(g: Lists, layer: int, x: usize) -> bool {
    forall|l: int, u: usize| l <= layer ==> !(#[trigger] nbrs(g, l, u)).contains(x)
}

/// The node has a neighbour in the base layer.
pub open spec fn linked(g: Lists, u: usize) -> bool {
    nbrs(g, 0, u).len() > 0
}

/// A search does not come to a node that no list holds, unless it begins there.
proof fn lemma_search_avoids(
    b: Growth,
    g: Lists,
    layer: int,
    node: usize,
    cur: usize,
    x: usize,
)
    requires
        graph_ok(g, b.m),
        b.ef >= 1,
        stands_in(g, layer, cur),
        cur != x,
        unlinked(g, layer, x),
    ensures
        candidates(b, g, layer, node, cur).len() >= 1,
        forall|i: int|
            #![trigger candidates(b, g, layer, node, cur)[i]]
            0 <= i < candidates(b, g, layer, node, cur).len() ==> candidates(
                b,
                g,
                layer,
                node,
                cur,
            )[i].1 != x,
{
    let adj = edges(g, layer);
    let w = candidates(b, g, layer, node, cur);
    lemma_edges_within(g, b.m, layer);
    law_search_results(adj, keys_from(b, node), b.ef, g.len(), cur);
    let within = |v: usize| v != x;
    assert forall|v: usize, j: int| within(v) && 0 <= j < adj(v).len() implies within(
        #[trigger] adj(v)[j],
    ) by {
        if adj(v)[j] == x {
            assert(nbrs(g, layer, v)[j] == x);
            assert(nbrs(g, layer, v).contains(x));
        }
    }
    assert forall|i: int| #![trigger w[i]] 0 <= i < w.len() implies w[i].1 != x by {
        lemma_reaches_within(adj, cur, w[i].1, within);
    }
}

/// The neighbours chosen for a node do not hold a node that the search does not come to.
pub proof fn lemma_selection_avoids(
    b: Growth,
    g: Lists,
    layer: int,
    node: usize,
    cur: usize,
    x: usize,
)
    requires
        graph_ok(g, b.m),
        b.ef >= 1,
        stands_in(g, layer, cur),
        cur != x,
        unlinked(g, layer, x),
    ensures
        !ids(selection(b, g, layer, node, cur)).contains(x),
        next_start(selection(b, g, layer, node, cur), cur) != x,
{
    let w = candidates(b, g, layer, node, cur);
    let s = selection(b, g, layer, node, cur);
    lemma_search_avoids(b, g, layer, node, cur, x);
    lemma_candidates(b, g, layer, node, cur);
    lemma_chosen(b.pair, node, w, cap(b.m, layer));
    assert forall|i: int| 0 <= i < s.len() implies (#[trigger] s[i]).1 != x by {
        assert(s.contains(s[i]));
        let k = choose|k: int| 0 <= k < w.len() && w[k] == s[i];
        assert(w[k].1 != x);
    }
    if ids(s).contains(x) {
        let k = choose|k: int| 0 <= k < ids(s).len() && ids(s)[k] == x;
        assert(s[k].1 == x);
    }
}

/// A node that no list holds gets at least one neighbour, and the nearest node found is one.
pub proof fn law_fresh_node_linked(b: Growth, g: Lists, layer: int, node: usize, cur: usize)
    requires
        graph_ok(g, b.m),
        b.ef >= 1,
        b.m >= 1,
        stands_in(g, layer, cur),
        cur != node,
        unlinked(g, layer, node),
    ensures
        selection(b, g, layer, node, cur).len() >= 1,
        selection(b, g, layer, node, cur)[0] == candidates(b, g, layer, node, cur)[0],
{
    let w = candidates(b, g, layer, node, cur);
    lemma_search_avoids(b, g, layer, node, cur, node);
    lemma_without(w, node);
    lemma_edges_within(g, b.m, layer);
    lemma_search_bounded(
        edges(g, layer),
        keys_from(b, node),
        b.ef,
        g.len(),
        cur,
    );
    lemma_sort_sorted(w);
    law_diverse(b.pair, w, cap(b.m, layer));
}

/// Offering a node to others puts no other node into any list.
proof fn lemma_link_back_avoids(
    b: Growth,
    g: Lists,
    layer: int,
    node: usize,
    list: Seq<usize>,
    top: int,
    x: usize,
)
    requires
        graph_ok(g, b.m),
        stands_in(g, layer, node),
        x != node,
        unlinked(g, top, x),
    ensures
        unlinked(link_back(b, g, layer, node, list), top, x),
    decreases list.len(),
{
    if list.len() > 0 {
        let front = list.drop_last();
        lemma_link_back_avoids(b, g, layer, node, front, top, x);
        lemma_link_back(b, g, layer, node, front);
        let h = link_back(b, g, layer, node, front);
        let v = list.last();
        if v != node && stands_in(h, layer, v) {
            let before = nbrs(h, layer, v);
            let after = offered(b.pair, cap(b.m, layer), v, before, node);
            assert(list_ok(h, b.m, layer, v, before));
            if !before.contains(node) {
                lemma_pruned(b.pair, v, before, node);
            }
            lemma_with_list(h, layer, v, after);
            let r = link_back(b, g, layer, node, list);
            assert forall|l: int, u: usize| l <= top implies !(#[trigger] nbrs(
                r,
                l,
                u,
            )).contains(x) by {
                assert(!nbrs(h, l, u).contains(x));
                if l == layer && u == v && after.contains(x) {
                    if after == before.push(node) {
                        let k = choose|k: int| 0 <= k < after.len() && after[k] == x;
                        assert(before[k] == x);
                    }
                }
            }
        }
    }
}

/// Offering a node to others leaves no list empty that was not, and the list of a node that it is
/// offered to is not empty.
proof fn lemma_link_back_fills(
    b: Growth,
    g: Lists,
    layer: int,
    node: usize,
    list: Seq<usize>,
    u: usize,
)
    requires
        graph_ok(g, b.m),
        b.m >= 1,
        stands_in(g, layer, node),
        nbrs(g, layer, u).len() > 0 || (list.contains(u) && u != node && stands_in(g, layer, u)),
    ensures
        nbrs(link_back(b, g, layer, node, list), layer, u).len() > 0,
    decreases list.len(),
{
    if list.len() > 0 {
        let front = list.drop_last();
        let v = list.last();
        let h = link_back(b, g, layer, node, front);
        lemma_link_back(b, g, layer, node, front);
        assert(stands_in(h, layer, node)) by {
            assert(g[node as int].len() == h[node as int].len());
        }
        if nbrs(g, layer, u).len() > 0 || front.contains(u) {
            lemma_link_back_fills(b, g, layer, node, front, u);
        }
        if v != node && stands_in(h, layer, v) {
            let before = nbrs(h, layer, v);
            let after = offered(b.pair, cap(b.m, layer), v, before, node);
            assert(list_ok(h, b.m, layer, v, before));
            if !before.contains(node) {
                lemma_pruned(b.pair, v, before, node);
            } else {
                let k = choose|k: int| 0 <= k < before.len() && before[k] == node;
                assert(before.len() > 0);
            }
            assert(after.len() > 0);
            lemma_with_list(h, layer, v, after);
        }
        if !(nbrs(g, layer, u).len() > 0 || front.contains(u)) {
            let k = choose|k: int| 0 <= k < list.len() && list[k] == u;
            if k < front.len() {
                assert(front[k] == u);
            }
            assert(u == v);
            assert(g[u as int].len() == h[u as int].len());
        }
    }
}

/// To connect a node puts no node into a list that the search does not come to.
pub proof fn lemma_connect_avoids(
    b: Growth,
    g: Lists,
    layer: int,
    node: usize,
    cur: usize,
    top: int,
    x: usize,
)
    requires
        graph_ok(g, b.m),
        b.ef >= 1,
        stands_in(g, layer, node),
        stands_in(g, layer, cur),
        x != node,
        x != cur,
        layer <= top,
        unlinked(g, top, x),
    ensures
        unlinked(connect(b, g, layer, node, cur), top, x),
        next_start(selection(b, g, layer, node, cur), cur) != x,
{
    assert(unlinked(g, layer, x));
    lemma_selection_avoids(b, g, layer, node, cur, x);
    lemma_selection_ok(b, g, layer, node, cur);
    let list = ids(selection(b, g, layer, node, cur));
    let h = with_list(g, layer, node, list);
    lemma_with_list_ok(g, b.m, layer, node, list);
    lemma_with_list(g, layer, node, list);
    assert forall|l: int, u: usize| l <= top implies !(#[trigger] nbrs(h, l, u)).contains(x) by {
        assert(!nbrs(g, l, u).contains(x));
    }
    lemma_link_back_avoids(b, h, layer, node, list, top, x);
}

/// To connect a node in the base layer leaves no list empty that was not.
proof fn lemma_connect_keeps_linked(
    b: Growth,
    g: Lists,
    node: usize,
    cur: usize,
    u: usize,
)
    requires
        graph_ok(g, b.m),
        b.m >= 1,
        b.ef >= 1,
        stands_in(g, 0, node),
        stands_in(g, 0, cur),
        cur != node,
        unlinked(g, 0, node),
        u == node || linked(g, u) || ids(selection(b, g, 0, node, cur)).contains(u),
    ensures
        linked(connect(b, g, 0, node, cur), u),
{
    let s = selection(b, g, 0, node, cur);
    let list = ids(s);
    lemma_selection_ok(b, g, 0, node, cur);
    law_fresh_node_linked(b, g, 0, node, cur);
    lemma_with_list_ok(g, b.m, 0, node, list);
    lemma_with_list(g, 0, node, list);
    law_connect(b, g, 0, node, cur);
    let h = with_list(g, 0, node, list);
    if u == node {
        assert(list.len() == s.len());
    } else {
        if list.contains(u) {
            let k = choose|k: int| 0 <= k < list.len() && list[k] == u;
            assert(s[k].1 == u);
            assert(stands_in(g, 0, s[k].1));
        }
        lemma_link_back_fills(b, h, 0, node, list, u);
    }
}

/// A descent does not come to a node that no list holds.
pub proof fn lemma_descend_avoids(
    g: Lists,
    key: spec_fn(usize) -> u64,
    layer: int,
    low: int,
    cur: usize,
    x: usize,
)
    requires
        cur != x,
        unlinked(g, layer, x),
    ensures
        descend(g, key, layer, low, cur) != x,
    decreases layer - low + 1,
{
    if layer >= low {
        let adj = edges(g, layer);
        let within = |v: usize| v != x;
        assert forall|v: usize, j: int| within(v) && 0 <= j < adj(v).len() implies within(
            #[trigger] adj(v)[j],
        ) by {
            if adj(v)[j] == x {
                assert(nbrs(g, layer, v)[j] == x);
                assert(nbrs(g, layer, v).contains(x));
            }
        }
        lemma_climb_within(adj, key, cur, within);
        lemma_descend_avoids(g, key, layer - 1, low, climb(adj, key, cur), x);
    }
}

/// What is known of a graph when some nodes were inserted: these and the entry node have neighbours
/// in the base layer, and no other node is in a list. Before the first insertion no node has
/// neighbours in the base layer.
pub open spec fn grown(b: Growth, g: Lists, done: Seq<usize>) -> bool {
    &&& forall|u: usize| #[trigger] done.contains(u) ==> linked(g, u)
    &&& forall|x: usize|
        x != b.ep && !done.contains(x) ==> #[trigger] unlinked(g, b.top, x)
    &&& done.len() > 0 ==> linked(g, b.ep)
    &&& done.len() == 0 ==> forall|u: usize| !(#[trigger] linked(g, u))
}

/// To connect a node downwards: it gets neighbours, nobody loses all of its own, and no other node
/// comes into a list. Where no list of the base layer holds a node, the search begins at the entry
/// node, and it gets the node as a neighbour.
proof fn lemma_connect_down_grows(
    b: Growth,
    g: Lists,
    layer: int,
    node: usize,
    cur: usize,
    alone: bool,
)
    requires
        graph_ok(g, b.m),
        b.m >= 1,
        b.ef >= 1,
        layer >= 0,
        layer <= b.top,
        stands_in(g, layer, node),
        stands_in(g, layer, cur),
        cur != node,
        unlinked(g, layer, node),
        alone ==> cur == b.ep && (forall|l: int, u: usize|
            l <= layer ==> (#[trigger] nbrs(g, l, u)).len() == 0),
    ensures
        linked(connect_down(b, g, layer, node, cur), node),
        forall|u: usize| linked(g, u) ==> #[trigger] linked(
            connect_down(b, g, layer, node, cur),
            u,
        ),
        forall|x: usize|
            x != node && x != cur && unlinked(g, b.top, x) ==> #[trigger] unlinked(
                connect_down(b, g, layer, node, cur),
                b.top,
                x,
            ),
        alone ==> linked(connect_down(b, g, layer, node, cur), b.ep),
    decreases layer,
{
    let s = selection(b, g, layer, node, cur);
    let h = connect(b, g, layer, node, cur);
    let next = next_start(s, cur);
    let r = connect_down(b, g, layer, node, cur);
    law_connect(b, g, layer, node, cur);
    lemma_selection_ok(b, g, layer, node, cur);
    law_fresh_node_linked(b, g, layer, node, cur);
    assert(next != node) by {
        assert(s[0].1 != node);
    }
    if alone {
        lemma_only_entry(b, g, layer, node, cur);
    }
    assert forall|x: usize|
        x != node && x != cur && unlinked(g, b.top, x) implies #[trigger] unlinked(h, b.top, x)
        && next != x by {
        lemma_connect_avoids(b, g, layer, node, cur, b.top, x);
    }
    if layer == 0 {
        assert(r == h) by {
            assert(connect_down(b, h, -1, node, next) == h);
        }
        lemma_connect_keeps_linked(b, g, node, cur, node);
        assert forall|u: usize| linked(g, u) implies #[trigger] linked(r, u) by {
            lemma_connect_keeps_linked(b, g, node, cur, u);
        }
        if alone {
            assert(ids(s)[0] == b.ep);
            assert(ids(s).contains(b.ep));
            lemma_connect_keeps_linked(b, g, node, cur, b.ep);
        }
    } else {
        assert(g[node as int].len() == h[node as int].len());
        assert(g[next as int].len() == h[next as int].len());
        assert(stands_in(h, layer - 1, node));
        assert(stands_in(h, layer - 1, next));
        assert forall|l: int, u: usize| l <= layer - 1 implies !(#[trigger] nbrs(
            h,
            l,
            u,
        )).contains(node) by {
            assert(nbrs(h, l, u) == nbrs(g, l, u));
        }
        if alone {
            assert forall|l: int, u: usize| l <= layer - 1 implies (#[trigger] nbrs(
                h,
                l,
                u,
            )).len() == 0 by {
                assert(nbrs(h, l, u) == nbrs(g, l, u));
            }
        }
        lemma_connect_down_grows(b, h, layer - 1, node, next, alone);
        assert forall|u: usize| linked(g, u) implies #[trigger] linked(r, u) by {
            assert(nbrs(h, 0, u) == nbrs(g, 0, u));
            assert(linked(h, u));
        }
        assert forall|x: usize|
            x != node && x != cur && unlinked(g, b.top, x) implies #[trigger] unlinked(
            r,
            b.top,
            x,
        ) by {
            assert(unlinked(h, b.top, x));
        }
    }
}

/// Where a layer has no edges, only the node where the search begins is found and chosen.
proof fn lemma_only_entry(b: Growth, g: Lists, layer: int, node: usize, cur: usize)
    requires
        graph_ok(g, b.m),
        b.m >= 1,
        b.ef >= 1,
        stands_in(g, layer, cur),
        cur != node,
        forall|u: usize| (#[trigger] nbrs(g, layer, u)).len() == 0,
    ensures
        selection(b, g, layer, node, cur).len() >= 1,
        selection(b, g, layer, node, cur)[0].1 == cur,
{
    let adj = edges(g, layer);
    let w = candidates(b, g, layer, node, cur);
    lemma_edges_within(g, b.m, layer);
    law_search_results(adj, keys_from(b, node), b.ef, g.len(), cur);
    let within = |v: usize| v == cur;
    assert forall|v: usize, j: int| within(v) && 0 <= j < adj(v).len() implies within(
        #[trigger] adj(v)[j],
    ) by {
        assert(nbrs(g, layer, v).len() == 0);
    }
    lemma_reaches_within(adj, cur, w[0].1, within);
    lemma_without(w, node);
    assert forall|i: int| 0 <= i < w.len() implies (#[trigger] w[i]).1 != node by {
        lemma_reaches_within(adj, cur, w[i].1, within);
    }
    lemma_search_bounded(adj, keys_from(b, node), b.ef, g.len(), cur);
    lemma_sort_sorted(w);
    law_diverse(b.pair, w, cap(b.m, layer));
}

/// An insertion of a new node.
proof fn lemma_insert_grows(b: Growth, g: Lists, done: Seq<usize>, node: usize)
    requires
        graph_ok(g, b.m),
        entry_ok(b, g),
        b.m >= 1,
        b.ef >= 1,
        node < g.len(),
        node != b.ep,
        !done.contains(node),
        grown(b, g, done),
        done.len() == 0 ==> forall|l: int, u: usize| (#[trigger] nbrs(g, l, u)).len() == 0,
    ensures
        grown(b, insert(b, g, node), done.push(node)),
{
    let level = g[node as int].len() - 1;
    let key = keys_from(b, node);
    assert(unlinked(g, b.top, node));
    assert(g[node as int].len() > 0);
    assert(g[node as int].len() <= b.top + 1);
    lemma_descend_stands(g, b.m, key, b.top, level + 1, b.ep);
    lemma_descend_avoids(g, key, b.top, level + 1, b.ep, node);
    let cur = descend(g, key, b.top, level + 1, b.ep);
    if done.len() == 0 {
        lemma_descend_bare(g, key, b.top, level + 1, b.ep);
    }
    assert(unlinked(g, level, node));
    lemma_connect_down_grows(b, g, level, node, cur, done.len() == 0);
    let r = insert(b, g, node);
    let more = done.push(node);
    assert forall|u: usize| #[trigger] more.contains(u) implies linked(r, u) by {
        let k = choose|k: int| 0 <= k < more.len() && more[k] == u;
        if k < done.len() {
            assert(done[k] == u);
            assert(done.contains(u));
            assert(linked(g, u));
        }
    }
    assert(more[done.len() as int] == node);
    assert forall|x: usize| x != b.ep && !more.contains(x) implies #[trigger] unlinked(
        r,
        b.top,
        x,
    ) by {
        if done.contains(x) {
            let k = choose|k: int| 0 <= k < done.len() && done[k] == x;
            assert(more[k] == x);
        }
        assert(unlinked(g, b.top, x));
        lemma_descend_avoids(g, key, b.top, level + 1, b.ep, x);
    }
    if done.len() > 0 {
        assert(linked(g, b.ep));
    }
}

/// Where there are no edges a descent stays where it is.
proof fn lemma_descend_bare(
    g: Lists,
    key: spec_fn(usize) -> u64,
    layer: int,
    low: int,
    cur: usize,
)
    requires
        forall|l: int, u: usize| (#[trigger] nbrs(g, l, u)).len() == 0,
    ensures
        descend(g, key, layer, low, cur) == cur,
    decreases layer - low + 1,
{
    if layer >= low {
        assert(edges(g, layer)(cur) == nbrs(g, layer, cur));
        assert(nbrs(g, layer, cur).len() == 0);
        assert(climb(edges(g, layer), key, cur) == cur);
        lemma_descend_bare(g, key, layer - 1, low, cur);
    }
}

/// Insertion of different new nodes, one after the other.
pub proof fn lemma_insert_all_grows(b: Growth, g: Lists, order: Seq<usize>)
    requires
        graph_ok(g, b.m),
        entry_ok(b, g),
        b.m >= 1,
        b.ef >= 1,
        forall|l: int, u: usize| (#[trigger] nbrs(g, l, u)).len() == 0,
        forall|i: int| 0 <= i < order.len() ==> (#[trigger] order[i]) < g.len() && order[i] != b.ep,
        order.no_duplicates(),
    ensures
        grown(b, insert_all(b, g, order), order),
    decreases order.len(),
{
    if order.len() == 0 {
        assert forall|x: usize| x != b.ep && !order.contains(x) implies #[trigger] unlinked(
            g,
            b.top,
            x,
        ) by {
            assert forall|l: int, u: usize| l <= b.top implies !(#[trigger] nbrs(
                g,
                l,
                u,
            )).contains(x) by {
                assert(nbrs(g, l, u).len() == 0);
            }
        }
        assert forall|u: usize| !(#[trigger] linked(g, u)) by {
            assert(nbrs(g, 0, u).len() == 0);
        }
    } else {
        let front = order.drop_last();
        let node = order.last();
        assert forall|i: int| 0 <= i < front.len() implies (#[trigger] front[i]) < g.len()
            && front[i] != b.ep by {
            assert(front[i] == order[i]);
        }
        lemma_insert_all_grows(b, g, front);
        law_insert_all(b, g, front);
        let h = insert_all(b, g, front);
        assert(order[order.len() - 1] == node);
        assert(!front.contains(node)) by {
            if front.contains(node) {
                let k = choose|k: int| 0 <= k < front.len() && front[k] == node;
                assert(order[k] == node);
            }
        }
        lemma_insert_grows(b, h, front, node);
        assert(front.push(node) =~= order);
    }
}

/// In a built graph of two or more nodes every node has a neighbour in the base layer.
pub proof fn law_no_node_alone(b: Growth, levels: Seq<u8>, max_layer: u8, v: usize)
    requires
        2 <= levels.len() <= usize::MAX,
        b.top == max_layer,
        b.m >= 1,
        b.ef >= 1,
        entry_of(levels, max_layer, b.ep),
        v < levels.len(),
    ensures
        nbrs(built(b, levels), 0, v).len() > 0,
{
    let g = bare(levels);
    let order = insertion_order(levels, b.top, b.ep);
    lemma_bare(levels, b.m);
    law_insertion_order(levels, b.top, b.ep);
    assert(entry_ok(b, g)) by {
        assert forall|u: int| 0 <= u < g.len() implies (#[trigger] g[u]).len() <= b.top + 1 by {
            assert(levels[u] <= max_layer);
        }
    }
    assert(order.no_duplicates()) by {
        assert forall|i: int, j: int|
            0 <= i < order.len() && 0 <= j < order.len() && i != j implies order[i] != order[j] by {
            let (lo, hi) = if i < j {
                (i, j)
            } else {
                (j, i)
            };
            assert(levels[order[lo] as int] > levels[order[hi] as int] || (levels[order[lo] as int]
                == levels[order[hi] as int] && order[lo] < order[hi]));
        }
    }
    lemma_insert_all_grows(b, g, order);
    let other: usize = if b.ep == 0 {
        1
    } else {
        0
    };
    assert(levels[other as int] <= max_layer);
    assert(order.contains(other));
    if v != b.ep {
        assert(levels[v as int] <= max_layer);
        assert(order.contains(v));
    }
    assert(linked(built(b, levels), v));
}

} // verus!
