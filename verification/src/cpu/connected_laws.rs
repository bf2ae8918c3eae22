//! A graph whose base lists have room for all nodes is connected.
use super::beam_laws::{
    lemma_reach_join, lemma_reach_more, lemma_reach_self, lemma_reach_step, reaches,
};
use super::build_graph::{built, entry_of, insertion_order, law_built, law_insertion_order};
use super::build_laws::{
    grown, law_fresh_node_linked, lemma_connect_avoids, lemma_descend_avoids,
    lemma_insert_all_grows, lemma_selection_avoids, unlinked,
};
use super::diversity::ids;
use super::insertion::{
    connect, connect_down, descend, entry_ok, insert, insert_all, keys_from, law_connect,
    law_insert_all, lemma_descend_stands, lemma_link_back, lemma_selection_ok, link_back,
    next_start, selection, Growth,
};
use super::layers::{
    bare, cap, edges, graph_ok, lemma_bare, lemma_with_list, lemma_with_list_ok, list_ok, nbrs,
    offered, stands_in, with_list, Lists,
};
use crate::utils::math::lemma_distinct_bounded;
use vstd::prelude::*;

verus! {

/// In a graph of at most `2 * m + 1` nodes a base list has room for a node that it does not hold.
proof fn lemma_room(g: Lists, m: nat, u: usize, node: usize)
    requires
        graph_ok(g, m),
        g.len() <= 2 * m + 1,
        stands_in(g, 0, u),
        stands_in(g, 0, node),
        u != node,
        !nbrs(g, 0, u).contains(node),
    ensures
        nbrs(g, 0, u).len() < cap(m, 0),
{
    let list = nbrs(g, 0, u);
    assert(list_ok(g, m, 0, u, list));
    let more = list.push(u).push(node);
    assert forall|i: int| 0 <= i < more.len() implies (#[trigger] more[i]) < g.len() by {
        if i < list.len() {
            assert(stands_in(g, 0, list[i]));
        }
    }
    assert forall|i: int, j: int| 0 <= i < j < more.len() implies more[i] != more[j] by {
        if i < list.len() {
            assert(list.contains(list[i]));
        }
    }
    lemma_distinct_bounded(more, g.len());
}

/// A node that is offered to others is put at the end of their base lists.
proof fn lemma_link_back_pushes(b: Growth, g: Lists, node: usize, list: Seq<usize>, u: usize)
    requires
        graph_ok(g, b.m),
        g.len() <= 2 * b.m + 1,
        stands_in(g, 0, node),
        stands_in(g, 0, u),
        u != node,
        list.no_duplicates(),
        list.contains(u),
        !nbrs(g, 0, u).contains(node),
    ensures
        nbrs(link_back(b, g, 0, node, list), 0, u) == nbrs(g, 0, u).push(node),
    decreases list.len(),
{
    let front = list.drop_last();
    let v = list.last();
    let h = link_back(b, g, 0, node, front);
    lemma_link_back(b, g, 0, node, front);
    assert(g[u as int].len() == h[u as int].len());
    assert(g[node as int].len() == h[node as int].len());
    if u == v {
        assert(!front.contains(u)) by {
            if front.contains(u) {
                let k = choose|k: int| 0 <= k < front.len() && front[k] == u;
                assert(list[k] == list[list.len() - 1]);
            }
        }
        lemma_room(h, b.m, u, node);
        lemma_with_list(h, 0, u, offered(b.pair, cap(b.m, 0), u, nbrs(h, 0, u), node));
    } else {
        let k = choose|k: int| 0 <= k < list.len() && list[k] == u;
        assert(front[k] == u);
        assert(front.no_duplicates());
        lemma_link_back_pushes(b, g, node, front, u);
        if v != node && stands_in(h, 0, v) {
            lemma_with_list(h, 0, v, offered(b.pair, cap(b.m, 0), v, nbrs(h, 0, v), node));
        }
    }
}

/// The node is the entry node or was inserted.
pub open spec fn inside(ep: usize, done: Seq<usize>, x: usize) -> bool {
    x == ep || done.contains(x)
}

/// Edges of the base layer lead both ways, and every node that is inside reaches every other.
pub open spec fn tied(g: Lists, ep: usize, done: Seq<usize>) -> bool {
    &&& forall|u: usize, v: usize| #[trigger] nbrs(g, 0, u).contains(v) ==> nbrs(g, 0, v).contains(u)
    &&& forall|x: usize, y: usize|
        inside(ep, done, x) && inside(ep, done, y) ==> #[trigger] reaches(edges(g, 0), x, y)
}

/// To connect a node in the base layer ties it to the others.
proof fn lemma_connect_tied(b: Growth, g: Lists, node: usize, cur: usize, done: Seq<usize>)
    requires
        graph_ok(g, b.m),
        g.len() <= 2 * b.m + 1,
        b.m >= 1,
        b.ef >= 1,
        stands_in(g, 0, node),
        stands_in(g, 0, cur),
        inside(b.ep, done, cur),
        !inside(b.ep, done, node),
        unlinked(g, 0, node),
        forall|x: usize|
            !inside(b.ep, done, x) && x != node ==> #[trigger] unlinked(g, 0, x),
        tied(g, b.ep, done),
    ensures
        tied(connect(b, g, 0, node, cur), b.ep, done.push(node)),
{
    let s = selection(b, g, 0, node, cur);
    let list = ids(s);
    let h = with_list(g, 0, node, list);
    let r = connect(b, g, 0, node, cur);
    lemma_selection_ok(b, g, 0, node, cur);
    law_fresh_node_linked(b, g, 0, node, cur);
    law_connect(b, g, 0, node, cur);
    lemma_with_list_ok(g, b.m, 0, node, list);
    lemma_with_list(g, 0, node, list);
    assert(nbrs(g, 0, node).len() == 0) by {
        if nbrs(g, 0, node).len() > 0 {
            let w = nbrs(g, 0, node)[0];
            assert(nbrs(g, 0, node).contains(w));
            assert(nbrs(g, 0, w).contains(node));
        }
    }
    assert forall|u: usize| list.contains(u) implies #[trigger] nbrs(r, 0, u) == nbrs(
        g,
        0,
        u,
    ).push(node) by {
        let k = choose|k: int| 0 <= k < list.len() && list[k] == u;
        assert(stands_in(g, 0, s[k].1));
        assert(stands_in(h, 0, u));
        assert(nbrs(h, 0, u) == nbrs(g, 0, u));
        lemma_link_back_pushes(b, h, node, list, u);
    }
    assert forall|u: usize, v: usize| nbrs(g, 0, u).contains(v) implies #[trigger] nbrs(
        r,
        0,
        u,
    ).contains(v) by {
        if list.contains(u) {
            let k = choose|k: int| 0 <= k < nbrs(g, 0, u).len() && nbrs(g, 0, u)[k] == v;
            assert(nbrs(r, 0, u)[k] == v);
        }
    }
    assert forall|u: usize, v: usize| #[trigger] nbrs(r, 0, u).contains(v) implies nbrs(
        r,
        0,
        v,
    ).contains(u) by {
        if u == node {
            assert(list.contains(v));
            assert(nbrs(r, 0, v)[nbrs(g, 0, v).len() as int] == node);
        } else if list.contains(u) && v == node {
            assert(nbrs(r, 0, node) == list);
        } else {
            assert(nbrs(g, 0, u).contains(v)) by {
                if list.contains(u) {
                    let k = choose|k: int| 0 <= k < nbrs(r, 0, u).len() && nbrs(r, 0, u)[k] == v;
                    assert(nbrs(g, 0, u)[k] == v);
                }
            }
            assert(nbrs(g, 0, v).contains(u));
        }
    }
    let few = edges(g, 0);
    let many = edges(r, 0);
    assert forall|u: usize, v: usize| #[trigger] few(u).contains(v) implies many(u).contains(v) by {
        assert(nbrs(g, 0, u).contains(v));
        assert(nbrs(r, 0, u).contains(v));
    }
    let near = s[0].1;
    assert(list[0] == near);
    assert(list.contains(near));
    assert(inside(b.ep, done, near)) by {
        if !inside(b.ep, done, near) {
            assert(unlinked(g, 0, near));
            lemma_selection_avoids(b, g, 0, node, cur, near);
        }
    }
    assert(many(node).contains(near));
    assert(nbrs(r, 0, near)[nbrs(g, 0, near).len() as int] == node);
    assert(many(near).contains(node));
    lemma_reach_self(many, node);
    lemma_reach_step(many, node, node, near);
    let more = done.push(node);
    assert forall|x: usize, y: usize|
        inside(b.ep, more, x) && inside(b.ep, more, y) implies #[trigger] reaches(many, x, y) by {
        lemma_inside_push(b.ep, done, node, x);
        lemma_inside_push(b.ep, done, node, y);
        if x != node {
            assert(reaches(few, x, near));
            lemma_reach_more(few, many, x, near);
            if y == node {
                lemma_reach_step(many, x, near, node);
            } else {
                assert(reaches(few, x, y));
                lemma_reach_more(few, many, x, y);
            }
        } else if y != node {
            assert(reaches(few, near, y));
            lemma_reach_more(few, many, near, y);
            lemma_reach_join(many, node, near, y);
        }
    }
}

/// Who is inside after one more insertion.
proof fn lemma_inside_push(ep: usize, done: Seq<usize>, node: usize, x: usize)
    ensures
        inside(ep, done.push(node), x) == (inside(ep, done, x) || x == node),
{
    let more = done.push(node);
    assert(more[done.len() as int] == node);
    if done.contains(x) {
        let k = choose|k: int| 0 <= k < done.len() && done[k] == x;
        assert(more[k] == x);
    }
    if more.contains(x) && x != node {
        let k = choose|k: int| 0 <= k < more.len() && more[k] == x;
        assert(done[k] == x);
    }
}

/// To connect a node at a layer and all layers below ties it to the others.
proof fn lemma_connect_down_tied(
    b: Growth,
    g: Lists,
    layer: int,
    node: usize,
    cur: usize,
    done: Seq<usize>,
)
    requires
        graph_ok(g, b.m),
        g.len() <= 2 * b.m + 1,
        b.m >= 1,
        b.ef >= 1,
        0 <= layer <= b.top,
        stands_in(g, layer, node),
        stands_in(g, layer, cur),
        inside(b.ep, done, cur),
        !inside(b.ep, done, node),
        unlinked(g, layer, node),
        forall|x: usize|
            !inside(b.ep, done, x) && x != node ==> #[trigger] unlinked(g, b.top, x),
        tied(g, b.ep, done),
    ensures
        tied(connect_down(b, g, layer, node, cur), b.ep, done.push(node)),
    decreases layer,
{
    let h = connect(b, g, layer, node, cur);
    let next = next_start(selection(b, g, layer, node, cur), cur);
    if layer == 0 {
        assert forall|x: usize| !inside(b.ep, done, x) && x != node implies #[trigger] unlinked(
            g,
            0,
            x,
        ) by {
            assert(unlinked(g, b.top, x));
        }
        lemma_connect_tied(b, g, node, cur, done);
        assert(connect_down(b, h, -1, node, next) == h);
    } else {
        law_connect(b, g, layer, node, cur);
        lemma_selection_ok(b, g, layer, node, cur);
        law_fresh_node_linked(b, g, layer, node, cur);
        assert(g[node as int].len() == h[node as int].len());
        assert(g[next as int].len() == h[next as int].len());
        assert(edges(h, 0) =~= edges(g, 0));
        assert forall|x: usize| !inside(b.ep, done, x) && x != node implies #[trigger] unlinked(
            h,
            b.top,
            x,
        ) && next != x by {
            assert(unlinked(g, b.top, x));
            lemma_connect_avoids(b, g, layer, node, cur, b.top, x);
        }
        assert(next != node) by {
            assert(selection(b, g, layer, node, cur)[0].1 != node);
        }
        assert(inside(b.ep, done, next)) by {
            if !inside(b.ep, done, next) {
                assert(unlinked(h, b.top, next));
            }
        }
        assert forall|l: int, u: usize| l <= layer - 1 implies !(#[trigger] nbrs(
            h,
            l,
            u,
        )).contains(node) by {
            assert(nbrs(h, l, u) == nbrs(g, l, u));
        }
        assert(tied(h, b.ep, done)) by {
            assert forall|u: usize, v: usize| #[trigger] nbrs(h, 0, u).contains(v) implies nbrs(
                h,
                0,
                v,
            ).contains(u) by {
                assert(nbrs(g, 0, u).contains(v));
            }
        }
        lemma_connect_down_tied(b, h, layer - 1, node, next, done);
    }
}

/// An insertion of a new node ties it to the others.
proof fn lemma_insert_tied(b: Growth, g: Lists, done: Seq<usize>, node: usize)
    requires
        graph_ok(g, b.m),
        entry_ok(b, g),
        g.len() <= 2 * b.m + 1,
        b.m >= 1,
        b.ef >= 1,
        node < g.len(),
        !inside(b.ep, done, node),
        grown(b, g, done),
        tied(g, b.ep, done),
    ensures
        tied(insert(b, g, node), b.ep, done.push(node)),
{
    let level = g[node as int].len() - 1;
    let key = keys_from(b, node);
    assert(g[node as int].len() > 0);
    assert(g[node as int].len() <= b.top + 1);
    assert(unlinked(g, b.top, node));
    lemma_descend_stands(g, b.m, key, b.top, level + 1, b.ep);
    let cur = descend(g, key, b.top, level + 1, b.ep);
    assert(inside(b.ep, done, cur)) by {
        if !inside(b.ep, done, cur) {
            assert(unlinked(g, b.top, cur));
            lemma_descend_avoids(g, key, b.top, level + 1, b.ep, cur);
        }
    }
    assert(unlinked(g, level, node));
    lemma_connect_down_tied(b, g, level, node, cur, done);
}

/// Insertion of different new nodes, one after the other, ties all of them to each other.
proof fn lemma_insert_all_tied(b: Growth, g: Lists, order: Seq<usize>)
    requires
        graph_ok(g, b.m),
        entry_ok(b, g),
        g.len() <= 2 * b.m + 1,
        b.m >= 1,
        b.ef >= 1,
        forall|l: int, u: usize| (#[trigger] nbrs(g, l, u)).len() == 0,
        forall|i: int| 0 <= i < order.len() ==> (#[trigger] order[i]) < g.len() && order[i] != b.ep,
        order.no_duplicates(),
    ensures
        tied(insert_all(b, g, order), b.ep, order),
    decreases order.len(),
{
    if order.len() == 0 {
        lemma_reach_self(edges(g, 0), b.ep);
        assert forall|u: usize, v: usize| #[trigger] nbrs(g, 0, u).contains(v) implies nbrs(
            g,
            0,
            v,
        ).contains(u) by {
            assert(nbrs(g, 0, u).len() == 0);
        }
    } else {
        let front = order.drop_last();
        let node = order.last();
        assert forall|i: int| 0 <= i < front.len() implies (#[trigger] front[i]) < g.len()
            && front[i] != b.ep by {
            assert(front[i] == order[i]);
        }
        lemma_insert_all_tied(b, g, front);
        lemma_insert_all_grows(b, g, front);
        law_insert_all(b, g, front);
        assert(order[order.len() - 1] == node);
        assert(!front.contains(node)) by {
            if front.contains(node) {
                let k = choose|k: int| 0 <= k < front.len() && front[k] == node;
                assert(order[k] == node);
            }
        }
        lemma_insert_tied(b, insert_all(b, g, front), front, node);
        assert(front.push(node) =~= order);
    }
}

/// In a built graph of at most `2 * m + 1` nodes the base layer ties all nodes to each other.
proof fn lemma_built_tied(b: Growth, levels: Seq<u8>, max_layer: u8)
    requires
        levels.len() <= 2 * b.m + 1,
        levels.len() <= usize::MAX,
        b.m >= 1,
        b.top == max_layer,
        b.ef >= 1,
        entry_of(levels, max_layer, b.ep),
    ensures
        tied(built(b, levels), b.ep, insertion_order(levels, b.top, b.ep)),
{
    let g = bare(levels);
    let order = insertion_order(levels, b.top, b.ep);
    lemma_bare(levels, b.m);
    law_insertion_order(levels, b.top, b.ep);
    assert(entry_ok(b, g)) by {
        assert forall|u: int| 0 <= u < g.len() implies (#[trigger] g[u]).len() <= b.top + 1 by {
            assert(levels[u] <= max_layer);
        }
    }
    assert(order.no_duplicates()) by {
        assert forall|i: int, j: int|
            0 <= i < order.len() && 0 <= j < order.len() && i != j implies order[i] != order[j] by {
            let (lo, hi) = if i < j {
                (i, j)
            } else {
                (j, i)
            };
            assert(levels[order[lo] as int] > levels[order[hi] as int] || (levels[order[lo] as int]
                == levels[order[hi] as int] && order[lo] < order[hi]));
        }
    }
    lemma_insert_all_tied(b, g, order);
}

/// In a built graph of at most `2 * m + 1` nodes every node is reached from every other in the base
/// layer.
pub proof fn law_base_connected(b: Growth, levels: Seq<u8>, max_layer: u8, x: usize, y: usize)
    requires
        levels.len() <= 2 * b.m + 1,
        levels.len() <= usize::MAX,
        b.top == max_layer,
        b.ef >= 1,
        entry_of(levels, max_layer, b.ep),
        x < levels.len(),
        y < levels.len(),
    ensures
        reaches(edges(built(b, levels), 0), x, y),
{
    if x == y {
        lemma_reach_self(edges(built(b, levels), 0), x);
    } else {
        let order = insertion_order(levels, b.top, b.ep);
        lemma_built_tied(b, levels, max_layer);
        law_insertion_order(levels, b.top, b.ep);
        assert(levels[x as int] <= max_layer && levels[y as int] <= max_layer);
        if x != b.ep {
            assert(order.contains(x));
        }
        if y != b.ep {
            assert(order.contains(y));
        }
        assert(inside(b.ep, order, x) && inside(b.ep, order, y));
    }
}

/// In a built graph of at most `2 * m + 1` nodes the edges of the base layer lead both ways.
pub proof fn law_base_both_ways(b: Growth, levels: Seq<u8>, max_layer: u8)
    requires
        levels.len() <= 2 * b.m + 1,
        levels.len() <= usize::MAX,
        b.top == max_layer,
        b.ef >= 1,
        entry_of(levels, max_layer, b.ep),
    ensures
        forall|u: usize, v: usize| #[trigger]
            nbrs(built(b, levels), 0, u).contains(v) ==> nbrs(built(b, levels), 0, v).contains(u),
{
    let g = built(b, levels);
    if b.m >= 1 {
        lemma_built_tied(b, levels, max_layer);
    } else {
        law_built(b, levels, max_layer);
        assert forall|u: usize, v: usize| #[trigger] nbrs(g, 0, u).contains(v) implies nbrs(
            g,
            0,
            v,
        ).contains(u) by {
            assert(stands_in(g, 0, u));
            assert(list_ok(g, b.m, 0, u, nbrs(g, 0, u)));
        }
    }
}

} // verus!
