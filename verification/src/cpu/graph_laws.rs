//! What holds of the lists of a graph and of the way they grow.
use super::beam_laws::{
    law_search_exhaustive, law_search_results, lemma_reach_join, lemma_reach_self, lemma_reach_step,
    lemma_search_bounded, reaches,
};
use super::build_graph::{built, insertion_order, law_insertion_order};
use super::build_laws::{law_fresh_node_linked, lemma_descend_avoids, unlinked};
use super::diversity::{
    chosen, diverse, dominated, ids, keyed, law_diverse, law_diverse_complete, lemma_diverse_from,
    lemma_without, pruned, without,
};
use super::greedy::{climb, climb_query, law_climb_local_minimum, lemma_nearest, nearest};
use super::insertion::{
    candidates, connect, connect_down, descend, entry_ok, insert, insert_all, keys_from,
    law_connect, lemma_candidates, lemma_connect_down, lemma_descend_stands, lemma_edges_within,
    lemma_link_back, lemma_selection_ok, link_back, next_start, selection, Growth,
};
use super::layers::{
    bare, cap, committed, edges, graph_ok, lemma_offset, lemma_with_list, lemma_with_list_ok,
    list_ok, nbrs, offered, offset, stands_in, with_list, Lists,
};
use super::slots::{ids_of, lemma_degree_bounds};
use crate::utils::ordered::{entry_le, lemma_sort_entries, sort_entries, Entry};
use vstd::prelude::*;

verus! {

/// The neighbours that are chosen are candidates other than the node itself, no more than there is
/// room for, nearest first, and none is nearer to one chosen before it than to the node. A
/// candidate that is not chosen is the node, is nearer to a chosen one than to the node, or comes
/// behind all that were chosen when there was no more room.
pub proof fn law_chosen(
    pair: spec_fn(usize, usize) -> u64,
    node: usize,
    cands: Seq<Entry>,
    room: nat,
)
    ensures
        ({
            let list = chosen(pair, node, cands, room);
            &&& list.len() <= room
            &&& forall|i: int|
                0 <= i < list.len() ==> cands.contains(#[trigger] list[i]) && list[i].1 != node
            &&& forall|i: int, j: int|
                0 <= i < j < list.len() ==> {
                    let (a, b) = (#[trigger] list[i], #[trigger] list[j]);
                    &&& a.0 < b.0 || (a.0 == b.0 && a.1 <= b.1)
                    &&& b.0 <= pair(b.1, a.1)
                }
            &&& forall|c: int|
                0 <= c < cands.len() ==> {
                    let e = #[trigger] cands[c];
                    ||| e.1 == node
                    ||| list.contains(e)
                    ||| exists|i: int|
                        0 <= i < list.len() && pair(e.1, (#[trigger] list[i]).1) < e.0
                    ||| list.len() == room && forall|i: int|
                        0 <= i < list.len() ==> {
                            let a = #[trigger] list[i];
                            a.0 < e.0 || (a.0 == e.0 && a.1 <= e.1)
                        }
                }
            &&& forall|c: int|
                0 <= c < cands.len() && (#[trigger] cands[c]).1 != node && room > 0 ==> list.len()
                    > 0 && list[0].0 <= cands[c].0
        }),
{
    let rest = without(cands, node);
    let sorted = sort_entries(rest);
    let list = chosen(pair, node, cands, room);
    let at = lemma_without(cands, node);
    lemma_sort_entries(rest);
    law_diverse(pair, sorted, room);
    let from = lemma_diverse_from(pair, sorted, room);
    assert forall|i: int| 0 <= i < list.len() implies cands.contains(#[trigger] list[i])
        && list[i].1 != node by {
        assert(sorted[from[i]] == list[i]);
        assert(sorted.contains(list[i]));
        let r = choose|r: int| 0 <= r < rest.len() && rest[r] == list[i];
        assert(cands[at[r]] == list[i]);
    }
    assert forall|i: int, j: int| 0 <= i < j < list.len() implies {
        let (a, b) = (#[trigger] list[i], #[trigger] list[j]);
        &&& a.0 < b.0 || (a.0 == b.0 && a.1 <= b.1)
        &&& b.0 <= pair(b.1, a.1)
    } by {
        assert(sorted[from[i]] == list[i] && sorted[from[j]] == list[j]);
        assert(from[i] < from[j]);
        assert(entry_le(sorted[from[i]], sorted[from[j]]));
    }
    assert forall|c: int| 0 <= c < cands.len() implies {
        let e = #[trigger] cands[c];
        ||| e.1 == node
        ||| list.contains(e)
        ||| exists|i: int| 0 <= i < list.len() && pair(e.1, (#[trigger] list[i]).1) < e.0
        ||| list.len() == room && forall|i: int|
            0 <= i < list.len() ==> {
                let a = #[trigger] list[i];
                a.0 < e.0 || (a.0 == e.0 && a.1 <= e.1)
            }
    } by {
        let e = cands[c];
        if e.1 != node {
            lemma_without_rest(cands, node, c);
            assert(sorted.contains(e));
            let k = choose|k: int| 0 <= k < sorted.len() && sorted[k] == e;
            law_diverse_complete(pair, sorted, room, k);
            if !list.contains(e) && !dominated(pair, list, e) {
                assert forall|i: int| 0 <= i < list.len() implies {
                    let a = #[trigger] list[i];
                    a.0 < e.0 || (a.0 == e.0 && a.1 <= e.1)
                } by {
                    assert(entry_le(list.last(), e));
                    let last = list.len() - 1;
                    if i < last {
                        let (a, b) = (list[i], list[last]);
                        assert(a.0 < b.0 || (a.0 == b.0 && a.1 <= b.1));
                    }
                }
            }
        }
    }
    assert forall|c: int|
        0 <= c < cands.len() && (#[trigger] cands[c]).1 != node && room > 0 implies list.len() > 0
        && list[0].0 <= cands[c].0 by {
        lemma_without_rest(cands, node, c);
        assert(sorted.contains(cands[c]));
        let k = choose|k: int| 0 <= k < sorted.len() && sorted[k] == cands[c];
        if k > 0 {
            assert(entry_le(sorted[0], sorted[k]));
        }
    }
}

/// A candidate other than the node is among the rest.
proof fn lemma_without_rest(cands: Seq<Entry>, node: usize, c: int)
    requires
        0 <= c < cands.len(),
        cands[c].1 != node,
    ensures
        without(cands, node).contains(cands[c]),
    decreases cands.len(),
{
    let t = cands.drop_last();
    if c < t.len() {
        lemma_without_rest(t, node, c);
        assert(t[c] == cands[c]);
        let k = choose|k: int| 0 <= k < without(t, node).len() && without(t, node)[k] == t[c];
        assert(without(cands, node)[k] == cands[c]);
    } else {
        let w = without(cands, node);
        assert(w[w.len() - 1] == cands[c]);
    }
}

/// A full list that a further neighbour is offered to keeps no more neighbours than it had. They
/// stand in order of their distance from the node, and none is nearer to one before it than to the
/// node. A neighbour that is not kept is nearer to a kept one than to the node, or comes behind
/// all that were kept when there was no more room.
pub proof fn law_pruned(
    pair: spec_fn(usize, usize) -> u64,
    node: usize,
    existing: Seq<usize>,
    new: usize,
)
    ensures
        ({
            let list = pruned(pair, node, existing, new);
            &&& list.len() <= existing.len()
            &&& forall|i: int|
                0 <= i < list.len() ==> #[trigger] list[i] == new || existing.contains(list[i])
            &&& forall|i: int, j: int|
                0 <= i < j < list.len() ==> {
                    let (a, b) = (#[trigger] list[i], #[trigger] list[j]);
                    &&& pair(node, a) < pair(node, b) || (pair(node, a) == pair(node, b) && a <= b)
                    &&& pair(node, b) <= pair(b, a)
                }
            &&& forall|u: usize|
                (u == new || existing.contains(u)) ==> {
                    ||| #[trigger] list.contains(u)
                    ||| exists|i: int|
                        0 <= i < list.len() && pair(u, #[trigger] list[i]) < pair(node, u)
                    ||| list.len() == existing.len() && forall|i: int|
                        0 <= i < list.len() ==> {
                            let a = #[trigger] list[i];
                            pair(node, a) < pair(node, u) || (pair(node, a) == pair(node, u) && a
                                <= u)
                        }
                }
        }),
{
    let all = existing.push(new);
    let cands = keyed(pair, node, all);
    let sorted = sort_entries(cands);
    let room = existing.len();
    let kept = diverse(pair, sorted, room);
    let list = pruned(pair, node, existing, new);
    lemma_sort_entries(cands);
    law_diverse(pair, sorted, room);
    let from = lemma_diverse_from(pair, sorted, room);
    assert forall|i: int| 0 <= i < kept.len() implies (#[trigger] kept[i]).0 == pair(
        node,
        list[i],
    ) && kept[i].1 == list[i] && all.contains(list[i]) by {
        assert(sorted[from[i]] == kept[i]);
        assert(sorted.contains(kept[i]));
        let c = choose|c: int| 0 <= c < cands.len() && cands[c] == kept[i];
        assert(cands[c] == (pair(node, all[c]), all[c]));
    }
    assert forall|i: int| 0 <= i < list.len() implies #[trigger] list[i] == new
        || existing.contains(list[i]) by {
        assert(kept[i].1 == list[i]);
        let c = choose|c: int| 0 <= c < all.len() && all[c] == list[i];
        if c < existing.len() {
            assert(existing[c] == list[i]);
        }
    }
    assert forall|i: int, j: int| 0 <= i < j < list.len() implies {
        let (a, b) = (#[trigger] list[i], #[trigger] list[j]);
        &&& pair(node, a) < pair(node, b) || (pair(node, a) == pair(node, b) && a <= b)
        &&& pair(node, b) <= pair(b, a)
    } by {
        assert(sorted[from[i]] == kept[i] && sorted[from[j]] == kept[j]);
        assert(from[i] < from[j]);
        assert(entry_le(sorted[from[i]], sorted[from[j]]));
        assert(kept[i].1 == list[i] && kept[j].1 == list[j]);
    }
    assert forall|u: usize| (u == new || existing.contains(u)) implies {
        ||| #[trigger] list.contains(u)
        ||| exists|i: int| 0 <= i < list.len() && pair(u, #[trigger] list[i]) < pair(node, u)
        ||| list.len() == existing.len() && forall|i: int|
            0 <= i < list.len() ==> {
                let a = #[trigger] list[i];
                pair(node, a) < pair(node, u) || (pair(node, a) == pair(node, u) && a <= u)
            }
    } by {
        let e: Entry = (pair(node, u), u);
        let c = if u == new {
            existing.len() as int
        } else {
            choose|c: int| 0 <= c < existing.len() && existing[c] == u
        };
        assert(all[c] == u);
        assert(cands[c] == e);
        assert(cands.contains(e));
        assert(sorted.contains(e));
        let k = choose|k: int| 0 <= k < sorted.len() && sorted[k] == e;
        law_diverse_complete(pair, sorted, room, k);
        if kept.contains(e) {
            let i = choose|i: int| 0 <= i < kept.len() && kept[i] == e;
            assert(list[i] == u);
        } else if dominated(pair, kept, e) {
            let i = choose|i: int| 0 <= i < kept.len() && pair(u, (#[trigger] kept[i]).1) < e.0;
            assert(kept[i].1 == list[i]);
            assert(pair(u, list[i]) < pair(node, u));
        } else {
            assert forall|i: int| 0 <= i < list.len() implies {
                let a = #[trigger] list[i];
                pair(node, a) < pair(node, u) || (pair(node, a) == pair(node, u) && a <= u)
            } by {
                assert(entry_le(kept.last(), e));
                let last = kept.len() - 1;
                assert(kept[i].1 == list[i]);
                assert(kept[last].1 == list[last]);
                if i < last {
                    let (a, b) = (list[i], list[last]);
                    assert(pair(node, a) < pair(node, b) || (pair(node, a) == pair(node, b) && a
                        <= b));
                }
            }
        }
    }
}

/// A list with room takes a new neighbour in at its end, and a neighbour that it holds changes
/// nothing. Of a full list and the new neighbour the diverse nearest are kept.
pub proof fn law_offered(
    pair: spec_fn(usize, usize) -> u64,
    room: nat,
    node: usize,
    list: Seq<usize>,
    new: usize,
)
    ensures
        ({
            let after = offered(pair, room, node, list, new);
            &&& list.contains(new) ==> after == list
            &&& !list.contains(new) && list.len() < room ==> after == list.push(new)
            &&& !list.contains(new) && list.len() >= room ==> {
                &&& after.len() <= list.len()
                &&& forall|i: int, j: int|
                    0 <= i < j < after.len() ==> {
                        let (a, b) = (#[trigger] after[i], #[trigger] after[j]);
                        &&& pair(node, a) <= pair(node, b)
                        &&& pair(node, b) <= pair(b, a)
                    }
                &&& forall|u: usize|
                    (u == new || list.contains(u)) ==> {
                        ||| #[trigger] after.contains(u)
                        ||| exists|i: int|
                            0 <= i < after.len() && pair(u, #[trigger] after[i]) < pair(node, u)
                        ||| after.len() == list.len() && forall|i: int|
                            0 <= i < after.len() ==> pair(node, #[trigger] after[i]) <= pair(
                                node,
                                u,
                            )
                    }
            }
        }),
{
    law_pruned(pair, node, list, new);
}

/// A node has room for `m` neighbours at every layer but the base layer, where it has room for
/// twice as many. The blocks of its layers stand one behind the other.
pub proof fn law_layer_room(m: nat, layer: int)
    requires
        layer >= 0,
    ensures
        cap(m, 0) == m + m,
        layer > 0 ==> cap(m, layer) == m,
        offset(m, 0) == 0,
        offset(m, layer + 1) == offset(m, layer) + cap(m, layer),
{
    lemma_offset(m, layer);
}

/// Before the first insertion a node of a level has an empty list at every layer up to its level,
/// and none above.
pub proof fn law_bare(levels: Seq<u8>, v: usize, layer: int)
    requires
        v < levels.len(),
    ensures
        bare(levels).len() == levels.len(),
        stands_in(bare(levels), layer, v) <==> 0 <= layer <= levels[v as int],
        nbrs(bare(levels), layer, v).len() == 0,
{
}

/// The neighbours in a block are its entries in front of the first empty place.
pub proof fn law_slots(slots: Seq<u32>)
    ensures
        ({
            let list = ids_of(slots);
            &&& list.len() <= slots.len()
            &&& forall|i: int|
                0 <= i < list.len() ==> #[trigger] list[i] == slots[i] && slots[i] != u32::MAX
            &&& list.len() < slots.len() ==> slots[list.len() as int] == u32::MAX
        }),
{
    lemma_degree_bounds(slots);
}

/// One look at a list moves to the nearest node of the list, and only where it is nearer than the
/// node itself.
pub proof fn law_nearest(key: spec_fn(usize) -> u64, list: Seq<usize>, cur: usize)
    ensures
        ({
            let next = nearest(key, list, cur);
            &&& next == cur || (list.contains(next) && key(next) < key(cur))
            &&& key(next) <= key(cur)
            &&& forall|i: int| 0 <= i < list.len() ==> key(next) <= key(#[trigger] list[i])
        }),
{
    lemma_nearest(key, list, cur);
}

/// A climb ends at a node that can be reached from where it began, is no farther, and has no nearer
/// neighbour. It stays where it began if and only if no neighbour is nearer.
pub proof fn law_climb(
    adj: spec_fn(usize) -> Seq<usize>,
    key: spec_fn(usize) -> u64,
    cur: usize,
)
    ensures
        ({
            let end = climb(adj, key, cur);
            &&& reaches(adj, cur, end)
            &&& end == cur || key(end) < key(cur)
            &&& forall|j: int| 0 <= j < adj(end).len() ==> key(end) <= key(#[trigger] adj(end)[j])
            &&& end == cur <==> forall|j: int|
                0 <= j < adj(cur).len() ==> key(cur) <= key(#[trigger] adj(cur)[j])
        }),
    decreases key(cur),
{
    law_climb_local_minimum(adj, key, cur);
    let next = nearest(key, adj(cur), cur);
    lemma_nearest(key, adj(cur), cur);
    lemma_reach_self(adj, cur);
    if key(next) < key(cur) {
        law_climb(adj, key, next);
        lemma_reach_step(adj, cur, cur, next);
        lemma_reach_join(adj, cur, next, climb(adj, key, next));
        let j = choose|j: int| 0 <= j < adj(cur).len() && #[trigger] adj(cur)[j] == next;
        assert(key(adj(cur)[j]) < key(cur));
    } else {
        assert forall|j: int| 0 <= j < adj(cur).len() implies key(cur) <= key(
            #[trigger] adj(cur)[j],
        ) by {
            assert(key(next) <= key(adj(cur)[j]));
        }
    }
}

/// A climb by distances to a query goes on from a node whose distance is a number, and stays at one
/// whose distance is not.
pub proof fn law_climb_numbers(
    adj: spec_fn(usize) -> Seq<usize>,
    key: spec_fn(usize) -> u64,
    numbered: spec_fn(usize) -> bool,
    cur: usize,
)
    ensures
        ({
            let end = climb_query(adj, key, numbered, cur);
            &&& !numbered(cur) ==> end == cur
            &&& numbered(cur) ==> key(end) <= key(cur) && forall|j: int|
                0 <= j < adj(end).len() ==> key(end) <= key(#[trigger] adj(end)[j])
        }),
{
    law_climb_local_minimum(adj, key, cur);
}

/// The descent to a layer ends no farther from the node than it began, and where it passed a layer,
/// at a node without a nearer neighbour at the lowest layer that it passed.
pub proof fn law_descent(
    g: Lists,
    key: spec_fn(usize) -> u64,
    layer: int,
    low: int,
    cur: usize,
)
    ensures
        ({
            let end = descend(g, key, layer, low, cur);
            &&& key(end) <= key(cur)
            &&& layer < low ==> end == cur
            &&& layer >= low ==> forall|j: int|
                0 <= j < nbrs(g, low, end).len() ==> key(end) <= key(
                    #[trigger] nbrs(g, low, end)[j],
                )
        }),
    decreases layer - low + 1,
{
    if layer >= low {
        let next = climb(edges(g, layer), key, cur);
        law_climb_local_minimum(edges(g, layer), key, cur);
        law_descent(g, key, layer - 1, low, next);
        if layer == low {
            let end = descend(g, key, layer, low, cur);
            assert(end == next);
            assert forall|j: int| 0 <= j < nbrs(g, low, end).len() implies key(end) <= key(
                #[trigger] nbrs(g, low, end)[j],
            ) by {
                assert(edges(g, layer)(end)[j] == nbrs(g, low, end)[j]);
            }
        }
    }
}

/// The neighbours selected for a node at a layer stand at that layer, are not the node, and are no
/// more than the layer has room for. They come nearest first by their distance from the node, and
/// none is nearer to one before it than to the node. The next layer begins at the nearest.
pub proof fn law_selection(b: Growth, g: Lists, layer: int, node: usize, cur: usize)
    requires
        graph_ok(g, b.m),
        stands_in(g, layer, cur),
    ensures
        ({
            let list = ids(selection(b, g, layer, node, cur));
            let next = next_start(selection(b, g, layer, node, cur), cur);
            &&& layer == 0 ==> list.len() <= 2 * b.m
            &&& layer != 0 ==> list.len() <= b.m
            &&& list.no_duplicates()
            &&& forall|i: int|
                0 <= i < list.len() ==> stands_in(g, layer, #[trigger] list[i]) && list[i] != node
            &&& forall|i: int, j: int|
                0 <= i < j < list.len() ==> {
                    let (u, v) = (#[trigger] list[i], #[trigger] list[j]);
                    &&& (b.pair)(node, u) <= (b.pair)(node, v)
                    &&& (b.pair)(node, v) <= (b.pair)(v, u)
                }
            &&& list.len() == 0 ==> next == cur
            &&& list.len() > 0 ==> list.contains(next)
            &&& forall|i: int|
                0 <= i < list.len() ==> (b.pair)(node, next) <= (b.pair)(node, #[trigger] list[i])
        }),
{
    let s = selection(b, g, layer, node, cur);
    let found = candidates(b, g, layer, node, cur);
    let list = ids(s);
    lemma_selection_ok(b, g, layer, node, cur);
    lemma_candidates(b, g, layer, node, cur);
    law_chosen(b.pair, node, found, cap(b.m, layer));
    assert forall|i: int| 0 <= i < list.len() implies (#[trigger] s[i]).0 == (b.pair)(
        node,
        list[i],
    ) && s[i].1 == list[i] by {
        assert(found.contains(s[i]));
        let c = choose|c: int| 0 <= c < found.len() && found[c] == s[i];
        assert(found[c].0 == (b.pair)(node, found[c].1));
    }
    assert forall|i: int| 0 <= i < list.len() implies stands_in(g, layer, #[trigger] list[i])
        && list[i] != node by {
        assert(s[i].1 == list[i]);
    }
    assert forall|i: int, j: int| 0 <= i < j < list.len() implies {
        let (u, v) = (#[trigger] list[i], #[trigger] list[j]);
        &&& (b.pair)(node, u) <= (b.pair)(node, v)
        &&& (b.pair)(node, v) <= (b.pair)(v, u)
    } by {
        assert(s[i].1 == list[i] && s[j].1 == list[j]);
        assert(s[i].0 == (b.pair)(node, list[i]) && s[j].0 == (b.pair)(node, list[j]));
    }
    let next = next_start(s, cur);
    if list.len() > 0 {
        assert(list[0] == s[0].1);
        assert forall|i: int| 0 <= i < list.len() implies (b.pair)(node, next) <= (b.pair)(
            node,
            #[trigger] list[i],
        ) by {
            if i > 0 {
                assert((b.pair)(node, list[0]) <= (b.pair)(node, list[i]));
            }
        }
    }
}

/// A node that is connected at a layer gets the neighbours selected for it, and is offered to each
/// of them. The list of every other node stays, and so does every other layer.
pub proof fn law_linked_back(b: Growth, g: Lists, layer: int, node: usize, cur: usize, u: usize)
    requires
        graph_ok(g, b.m),
        stands_in(g, layer, node),
        stands_in(g, layer, cur),
        ids(selection(b, g, layer, node, cur)).contains(u),
    ensures
        nbrs(connect(b, g, layer, node, cur), layer, u) == offered(
            b.pair,
            cap(b.m, layer),
            u,
            nbrs(g, layer, u),
            node,
        ),
        nbrs(g, layer, u).len() < cap(b.m, layer) ==> nbrs(
            connect(b, g, layer, node, cur),
            layer,
            u,
        ).contains(node),
{
    let list = ids(selection(b, g, layer, node, cur));
    let h = with_list(g, layer, node, list);
    lemma_selection_ok(b, g, layer, node, cur);
    lemma_with_list(g, layer, node, list);
    lemma_with_list_ok(g, b.m, layer, node, list);
    let k = choose|k: int| 0 <= k < list.len() && list[k] == u;
    assert(selection(b, g, layer, node, cur)[k].1 == u);
    lemma_linked_back(b, h, layer, node, list, k);
    let now = nbrs(g, layer, u);
    if now.len() < cap(b.m, layer) && !now.contains(node) {
        assert(now.push(node)[now.len() as int] == node);
    }
}

/// Each of the listed nodes is offered the node once.
proof fn lemma_linked_back(
    b: Growth,
    g: Lists,
    layer: int,
    node: usize,
    list: Seq<usize>,
    k: int,
)
    requires
        graph_ok(g, b.m),
        stands_in(g, layer, node),
        list.no_duplicates(),
        0 <= k < list.len(),
        list[k] != node,
        stands_in(g, layer, list[k]),
    ensures
        nbrs(link_back(b, g, layer, node, list), layer, list[k]) == offered(
            b.pair,
            cap(b.m, layer),
            list[k],
            nbrs(g, layer, list[k]),
            node,
        ),
    decreases list.len(),
{
    let front = list.drop_last();
    let h = link_back(b, g, layer, node, front);
    lemma_link_back(b, g, layer, node, front);
    let v = list.last();
    if k < front.len() {
        assert(front[k] == list[k]);
        assert(list[k] != v);
        lemma_linked_back(b, g, layer, node, front, k);
        if v != node && stands_in(h, layer, v) {
            lemma_with_list(
                h,
                layer,
                v,
                offered(b.pair, cap(b.m, layer), v, nbrs(h, layer, v), node),
            );
        }
    } else {
        assert(!front.contains(v));
        assert(nbrs(h, layer, v) == nbrs(g, layer, v));
        assert(stands_in(h, layer, v)) by {
            assert(g[v as int].len() == h[v as int].len());
        }
        lemma_with_list(
            h,
            layer,
            v,
            offered(b.pair, cap(b.m, layer), v, nbrs(h, layer, v), node),
        );
    }
}

/// What a fresh node and its neighbours have at a layer once the node is connected there.
pub open spec fn well_linked(b: Growth, g: Lists, h: Lists, layer: int, node: usize) -> bool {
    let list = nbrs(h, layer, node);
    let room: nat = if layer == 0 {
        b.m + b.m
    } else {
        b.m
    };
    &&& 1 <= list.len() <= room
    &&& forall|i: int, j: int|
        0 <= i < j < list.len() ==> {
            let (u, v) = (#[trigger] list[i], #[trigger] list[j]);
            &&& u != v
            &&& (b.pair)(node, u) <= (b.pair)(node, v)
            &&& (b.pair)(node, v) <= (b.pair)(v, u)
        }
    &&& forall|u: usize| #[trigger]
        list.contains(u) ==> u != node && nbrs(h, layer, u) == offered(
            b.pair,
            room,
            u,
            nbrs(g, layer, u),
            node,
        )
    &&& forall|u: usize|
        u != node && !list.contains(u) ==> #[trigger] nbrs(h, layer, u) == nbrs(g, layer, u)
}

/// A fresh node that is connected from a layer down is linked at every layer.
proof fn lemma_linked_down(b: Growth, g: Lists, layer: int, node: usize, cur: usize, l: int)
    requires
        graph_ok(g, b.m),
        b.m >= 1,
        b.ef >= 1,
        0 <= l <= layer,
        stands_in(g, layer, node),
        stands_in(g, layer, cur),
        cur != node,
        unlinked(g, layer, node),
    ensures
        well_linked(b, g, connect_down(b, g, layer, node, cur), l, node),
    decreases layer,
{
    let s = selection(b, g, layer, node, cur);
    let h = connect(b, g, layer, node, cur);
    let next = next_start(s, cur);
    let r = connect_down(b, g, layer, node, cur);
    law_connect(b, g, layer, node, cur);
    law_selection(b, g, layer, node, cur);
    lemma_selection_ok(b, g, layer, node, cur);
    law_fresh_node_linked(b, g, layer, node, cur);
    assert(s[0].1 != node);
    if layer > 0 {
        assert(g[node as int].len() == h[node as int].len());
        assert(g[next as int].len() == h[next as int].len());
        assert(stands_in(h, layer - 1, node));
        assert(stands_in(h, layer - 1, next));
        lemma_connect_down(b, h, layer - 1, node, next);
    }
    if l < layer {
        assert forall|k: int, u: usize| k <= layer - 1 implies !(#[trigger] nbrs(
            h,
            k,
            u,
        )).contains(node) by {
            assert(nbrs(h, k, u) == nbrs(g, k, u));
        }
        lemma_linked_down(b, h, layer - 1, node, next, l);
        assert forall|u: usize| #[trigger] nbrs(h, l, u) == nbrs(g, l, u) by {}
        let list = nbrs(r, l, node);
        assert forall|u: usize| #[trigger] list.contains(u) implies nbrs(r, l, u) == offered(
            b.pair,
            cap(b.m, l),
            u,
            nbrs(g, l, u),
            node,
        ) by {
            assert(nbrs(h, l, u) == nbrs(g, l, u));
        }
        assert forall|u: usize| u != node && !list.contains(u) implies #[trigger] nbrs(r, l, u)
            == nbrs(g, l, u) by {
            assert(nbrs(h, l, u) == nbrs(g, l, u));
        }
    } else {
        if layer == 0 {
            assert(connect_down(b, h, -1, node, next) == h);
        }
        assert forall|u: usize| #[trigger] nbrs(r, layer, u) == nbrs(h, layer, u) by {}
        let list = nbrs(r, layer, node);
        assert(nbrs(r, layer, node) == nbrs(h, layer, node));
        assert(list == ids(s));
        assert forall|i: int, j: int| 0 <= i < j < list.len() implies #[trigger] list[i]
            != #[trigger] list[j] by {}
        assert forall|u: usize| #[trigger] list.contains(u) implies u != node && nbrs(r, layer, u)
            == offered(b.pair, cap(b.m, layer), u, nbrs(g, layer, u), node) by {
            law_linked_back(b, g, layer, node, cur, u);
            assert(nbrs(r, layer, u) == nbrs(h, layer, u));
            let k = choose|k: int| 0 <= k < list.len() && list[k] == u;
            assert(stands_in(g, layer, list[k]) && list[k] != node);
        }
        assert forall|u: usize| u != node && !list.contains(u) implies #[trigger] nbrs(
            r,
            layer,
            u,
        ) == nbrs(g, layer, u) by {
            assert(nbrs(r, layer, u) == nbrs(h, layer, u));
        }
    }
}

/// An insertion links a fresh node at every layer where it stands: it gets at least one neighbour
/// there, nearest first and diverse, each of them is offered the node, and no other list changes.
pub proof fn law_inserted(b: Growth, g: Lists, node: usize, layer: int)
    requires
        graph_ok(g, b.m),
        entry_ok(b, g),
        b.m >= 1,
        b.ef >= 1,
        node < g.len(),
        node != b.ep,
        unlinked(g, b.top, node),
        0 <= layer < g[node as int].len(),
    ensures
        well_linked(b, g, insert(b, g, node), layer, node),
{
    let level = g[node as int].len() - 1;
    let key = keys_from(b, node);
    assert(g[node as int].len() <= b.top + 1);
    lemma_descend_stands(g, b.m, key, b.top, level + 1, b.ep);
    lemma_descend_avoids(g, key, b.top, level + 1, b.ep, node);
    let cur = descend(g, key, b.top, level + 1, b.ep);
    assert(unlinked(g, level, node));
    lemma_linked_down(b, g, level, node, cur, layer);
}

/// The candidates for a node at a layer are at most as many as the search width, each with its
/// distance from the node. Where they are fewer, every node that can be reached at the layer is
/// among them.
pub proof fn law_candidates(b: Growth, g: Lists, layer: int, node: usize, cur: usize, v: usize)
    requires
        graph_ok(g, b.m),
        stands_in(g, layer, cur),
    ensures
        ({
            let found = candidates(b, g, layer, node, cur);
            &&& found.len() <= b.ef
            &&& b.ef >= 1 ==> found.len() >= 1
            &&& forall|i: int|
                0 <= i < found.len() ==> (#[trigger] found[i]).0 == (b.pair)(node, found[i].1)
            &&& found.len() < b.ef && reaches(|u: usize| nbrs(g, layer, u), cur, v)
                ==> found.contains(((b.pair)(node, v), v))
        }),
{
    lemma_edges_within(g, b.m, layer);
    lemma_candidates(b, g, layer, node, cur);
    let key = keys_from(b, node);
    lemma_search_bounded(edges(g, layer), key, b.ef, g.len(), cur);
    let found = candidates(b, g, layer, node, cur);
    if b.ef >= 1 {
        law_search_results(edges(g, layer), key, b.ef, g.len(), cur);
    }
    assert(edges(g, layer) =~= |u: usize| nbrs(g, layer, u));
    if found.len() < b.ef && reaches(edges(g, layer), cur, v) {
        law_search_exhaustive(edges(g, layer), key, b.ef, g.len(), cur, v);
    }
}

/// A candidate other than the node is selected, is nearer to a selected one than to the node, or
/// comes behind all that are selected when there is no more room. The nearest is always selected.
pub proof fn law_selection_complete(
    b: Growth,
    g: Lists,
    layer: int,
    node: usize,
    cur: usize,
    v: usize,
)
    requires
        graph_ok(g, b.m),
        stands_in(g, layer, cur),
        candidates(b, g, layer, node, cur).contains(((b.pair)(node, v), v)),
        v != node,
        layer >= 0,
    ensures
        ({
            let list = ids(selection(b, g, layer, node, cur));
            let room: nat = if layer == 0 {
                b.m + b.m
            } else {
                b.m
            };
            &&& {
                ||| list.contains(v)
                ||| exists|i: int|
                    0 <= i < list.len() && (b.pair)(v, #[trigger] list[i]) < (b.pair)(node, v)
                ||| list.len() == room && forall|i: int|
                    0 <= i < list.len() ==> (b.pair)(node, #[trigger] list[i]) <= (b.pair)(node, v)
            }
            &&& room > 0 ==> list.len() > 0 && (b.pair)(node, list[0]) <= (b.pair)(node, v)
        }),
{
    let s = selection(b, g, layer, node, cur);
    let list = ids(s);
    let found = candidates(b, g, layer, node, cur);
    let e: Entry = ((b.pair)(node, v), v);
    lemma_candidates(b, g, layer, node, cur);
    law_chosen(b.pair, node, found, cap(b.m, layer));
    assert forall|i: int| 0 <= i < s.len() implies (#[trigger] s[i]).0 == (b.pair)(node, list[i])
        && s[i].1 == list[i] by {
        assert(found.contains(s[i]));
        let c = choose|c: int| 0 <= c < found.len() && found[c] == s[i];
        assert(found[c].0 == (b.pair)(node, found[c].1));
    }
    let c = choose|c: int| 0 <= c < found.len() && found[c] == e;
    if s.contains(e) {
        let i = choose|i: int| 0 <= i < s.len() && s[i] == e;
        assert(list[i] == v);
    } else if exists|i: int| 0 <= i < s.len() && (b.pair)(v, (#[trigger] s[i]).1) < e.0 {
        let i = choose|i: int| 0 <= i < s.len() && (b.pair)(v, (#[trigger] s[i]).1) < e.0;
        assert((b.pair)(v, list[i]) < (b.pair)(node, v));
    } else {
        assert(found[c] == e);
        assert forall|i: int| 0 <= i < list.len() implies (b.pair)(node, #[trigger] list[i])
            <= (b.pair)(node, v) by {
            assert(s[i].0 == (b.pair)(node, list[i]));
        }
    }
    if cap(b.m, layer) > 0 {
        assert(s[0].0 == (b.pair)(node, list[0]));
    }
}

/// A node is left out of a list of candidates wherever it stands, and the rest keeps its order.
pub proof fn law_without(cands: Seq<Entry>, node: usize, e: Entry)
    ensures
        without(Seq::<Entry>::empty(), node).len() == 0,
        without(cands.push(e), node) == if e.1 == node {
            without(cands, node)
        } else {
            without(cands, node).push(e)
        },
{
    assert(cands.push(e).drop_last() =~= cands);
}

/// An update that was planned on an earlier list is committed to the list of now. A neighbour that
/// was there then is left alone, one that is there now too. Where the list then had room, the
/// neighbour is offered to the list of now; otherwise the diverse nearest of the list of now and
/// the neighbour are kept.
pub proof fn law_committed(
    pair: spec_fn(usize, usize) -> u64,
    room: nat,
    node: usize,
    seen: Seq<usize>,
    list: Seq<usize>,
    new: usize,
)
    ensures
        ({
            let after = committed(pair, room, node, seen, list, new);
            &&& seen.contains(new) || list.contains(new) ==> after == list
            &&& !seen.contains(new) && !list.contains(new) && seen.len() < room && list.len() < room
                ==> after == list.push(new)
            &&& !seen.contains(new) && !list.contains(new) && (seen.len() >= room || list.len()
                >= room) ==> after == pruned(pair, node, list, new)
        }),
{
}

/// A node is connected layer by layer, from the highest of its layers down. The search at the next
/// layer begins at the nearest neighbour that was selected, or where this one began if none was.
pub proof fn law_connect_in_turn(
    b: Growth,
    g: Lists,
    layer: int,
    node: usize,
    cur: usize,
) -> (next: usize)
    requires
        graph_ok(g, b.m),
        layer >= 0,
        stands_in(g, layer, cur),
    ensures
        connect_down(b, g, -1, node, cur) == g,
        connect_down(b, g, layer, node, cur) == connect_down(
            b,
            connect(b, g, layer, node, cur),
            layer - 1,
            node,
            next,
        ),
        ({
            let list = ids(selection(b, g, layer, node, cur));
            &&& list.len() == 0 ==> next == cur
            &&& list.len() > 0 ==> list.contains(next)
            &&& forall|i: int|
                0 <= i < list.len() ==> (b.pair)(node, next) <= (b.pair)(node, #[trigger] list[i])
        }),
{
    law_selection(b, g, layer, node, cur);
    next_start(selection(b, g, layer, node, cur), cur)
}

/// An insertion descends from the entry point to the layer above the highest of the node, to where
/// no neighbour is nearer to the node, and connects the node from there down.
pub proof fn law_insert_start(b: Growth, g: Lists, node: usize) -> (cur: usize)
    requires
        node < g.len(),
        g[node as int].len() > 0,
    ensures
        insert(b, g, node) == connect_down(b, g, g[node as int].len() - 1, node, cur),
        (b.pair)(node, cur) <= (b.pair)(node, b.ep),
        b.top < g[node as int].len() ==> cur == b.ep,
        b.top >= g[node as int].len() ==> forall|j: int|
            0 <= j < nbrs(g, g[node as int].len() as int, cur).len() ==> (b.pair)(node, cur) <= (
            b.pair)(node, #[trigger] nbrs(g, g[node as int].len() as int, cur)[j]),
{
    let key = keys_from(b, node);
    let low = g[node as int].len() as int;
    law_descent(g, key, b.top, low, b.ep);
    let cur = descend(g, key, b.top, low, b.ep);
    assert(key(cur) == (b.pair)(node, cur) && key(b.ep) == (b.pair)(node, b.ep));
    assert forall|j: int| b.top >= low && 0 <= j < nbrs(g, low, cur).len() implies (b.pair)(
        node,
        cur,
    ) <= (b.pair)(node, #[trigger] nbrs(g, low, cur)[j]) by {
        assert(key(cur) <= key(nbrs(g, low, cur)[j]));
    }
    cur
}

/// Nodes are inserted one after the other, in the order that is given.
pub proof fn law_insert_in_turn(b: Growth, g: Lists, order: Seq<usize>, node: usize)
    ensures
        insert_all(b, g, Seq::<usize>::empty()) == g,
        insert_all(b, g, order.push(node)) == insert(b, insert_all(b, g, order), node),
{
    assert(order.push(node).drop_last() =~= order);
}

/// The neighbours of a node at a layer are no more than there is room for, different from each
/// other and from the node, and stand at that layer themselves.
pub proof fn law_neighbours(g: Lists, m: nat, layer: int, v: usize)
    requires
        graph_ok(g, m),
        v < g.len(),
        0 <= layer < g[v as int].len(),
    ensures
        ({
            let list = g[v as int][layer];
            &&& layer == 0 ==> list.len() <= m + m
            &&& layer > 0 ==> list.len() <= m
            &&& forall|i: int|
                0 <= i < list.len() ==> (#[trigger] list[i]) < g.len() && list[i] != v && layer
                    < g[list[i] as int].len()
            &&& forall|i: int, j: int|
                0 <= i < j < list.len() ==> #[trigger] list[i] != #[trigger] list[j]
        }),
{
    let list = nbrs(g, layer, v);
    assert(stands_in(g, layer, v));
    assert(list_ok(g, m, layer, v, list));
    assert forall|i: int| 0 <= i < list.len() implies (#[trigger] list[i]) < g.len() && list[i] != v
        && layer < g[list[i] as int].len() by {
        assert(list.contains(list[i]));
        assert(stands_in(g, layer, list[i]));
    }
}

/// The neighbours of a node at a layer are those that are listed there. A node has none at a layer
/// above its own, and no node beyond the last has any.
pub proof fn law_nbrs(g: Lists, layer: int, v: usize)
    ensures
        v < g.len() && 0 <= layer < g[v as int].len() ==> nbrs(g, layer, v) == g[v as int][layer]
            && stands_in(g, layer, v),
        v >= g.len() || layer < 0 || layer >= g[v as int].len() ==> nbrs(g, layer, v).len() == 0
            && !stands_in(g, layer, v),
        edges(g, layer)(v) == nbrs(g, layer, v),
{
}

/// A new list takes the place of the list of one node at one layer, and every other list stays.
pub proof fn law_with_list(g: Lists, layer: int, v: usize, list: Seq<usize>, l: int, u: usize)
    requires
        v < g.len(),
        0 <= layer < g[v as int].len(),
        u < g.len(),
        0 <= l < g[u as int].len(),
    ensures
        ({
            let h = with_list(g, layer, v, list);
            &&& h.len() == g.len()
            &&& h[u as int].len() == g[u as int].len()
            &&& u == v && l == layer ==> h[u as int][l] == list
            &&& u != v || l != layer ==> h[u as int][l] == g[u as int][l]
        }),
{
}

/// The ids of candidates stand in the order of the candidates.
pub proof fn law_ids(s: Seq<Entry>, i: int)
    requires
        0 <= i < s.len(),
    ensures
        ids(s).len() == s.len(),
        ids(s)[i] == s[i].1,
{
}

/// A graph is built from empty lists, by inserting every node but the entry point, the higher layers
/// first.
pub proof fn law_built_in_turn(b: Growth, levels: Seq<u8>) -> (order: Seq<usize>)
    requires
        levels.len() <= usize::MAX,
        forall|v: int| 0 <= v < levels.len() ==> (#[trigger] levels[v]) <= b.top,
    ensures
        built(b, levels) == insert_all(b, bare(levels), order),
        forall|i: int, j: int|
            0 <= i < j < order.len() ==> levels[#[trigger] order[i] as int] > levels[
                #[trigger] order[j] as int] || (levels[order[i] as int] == levels[order[j] as int]
                && order[i] < order[j]),
        forall|v: usize| v < levels.len() ==> (#[trigger] order.contains(v) <==> v != b.ep),
        forall|i: int| 0 <= i < order.len() ==> (#[trigger] order[i]) < levels.len(),
{
    law_insertion_order(levels, b.top, b.ep);
    let order = insertion_order(levels, b.top, b.ep);
    assert forall|v: usize| v < levels.len() implies (#[trigger] order.contains(v) <==> v
        != b.ep) by {
        if order.contains(v) {
            let i = choose|i: int| 0 <= i < order.len() && order[i] == v;
            assert(order[i] != b.ep);
        }
    }
    order
}

} // verus!
