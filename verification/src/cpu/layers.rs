//! A layered neighbour graph.
//!
//! Node `v` stands in the layers `0..lists[v].len()`, and `lists[v][l]` are its neighbours at layer
//! `l`. The base layer has room for twice as many neighbours per node as the layers above it.
use super::diversity::{lemma_pruned, pruned};
use vstd::prelude::*;

verus! {

/// The neighbours of every node at every layer it stands in.
pub type Lists = Seq<Seq<Seq<usize>>>;

/// How many neighbours a node may have at a layer.
pub open spec fn cap(m: nat, layer: int) -> nat {
    if layer == 0 {
        m * 2
    } else {
        m
    }
}

/// Where the block of a layer begins among the slots of a node.
pub open spec fn offset(m: nat, layer: int) -> int {
    if layer <= 0 {
        0
    } else {
        m * 2 + (layer - 1) * m
    }
}

/// The blocks of the layers stand one behind the other.
pub proof fn lemma_offset(m: nat, layer: int)
    requires
        layer >= 0,
    ensures
        offset(m, layer) >= 0,
        offset(m, layer) + cap(m, layer) == offset(m, layer + 1),
        offset(m, layer + 1) == m * 2 + layer * m,
{
    if layer > 0 {
        assert((layer - 1) * m + m == layer * m) by (nonlinear_arith);
        assert((layer - 1) * m >= 0) by (nonlinear_arith)
            requires
                layer > 0,
                m >= 0,
        ;
    }
}

/// The block of a lower layer ends before the block of a higher one begins.
pub proof fn lemma_offset_apart(m: nat, low: int, high: int)
    requires
        0 <= low < high,
    ensures
        offset(m, low) + cap(m, low) <= offset(m, high),
{
    lemma_offset(m, low);
    lemma_offset(m, high - 1);
    assert(low * m <= (high - 1) * m) by (nonlinear_arith)
        requires
            0 <= low < high,
            m >= 0,
    ;
}

/// The neighbours of a node at a layer; none where the node does not stand in the layer.
pub open spec fn nbrs(g: Lists, layer: int, v: usize) -> Seq<usize> {
    if v < g.len() && 0 <= layer < g[v as int].len() {
        g[v as int][layer]
    } else {
        Seq::empty()
    }
}

/// The edges of one layer.
pub open spec fn edges(g: Lists, layer: int) -> spec_fn(usize) -> Seq<usize> {
    |v: usize| nbrs(g, layer, v)
}

/// The node stands in the layer.
pub open spec fn stands_in(g: Lists, layer: int, v: usize) -> bool {
    v < g.len() && 0 <= layer < g[v as int].len()
}

/// `list` may be the neighbours of `v` at `layer`: no more than there is room for, all different,
/// none of them `v` itself, all of them in the layer.
pub open spec fn list_ok(g: Lists, m: nat, layer: int, v: usize, list: Seq<usize>) -> bool {
    &&& list.len() <= cap(m, layer)
    &&& list.no_duplicates()
    &&& !list.contains(v)
    &&& forall|j: int| 0 <= j < list.len() ==> stands_in(g, layer, #[trigger] list[j])
}

/// Every node stands in the base layer, and all its lists are in order.
pub open spec fn graph_ok(g: Lists, m: nat) -> bool {
    &&& forall|v: usize| v < g.len() ==> (#[trigger] g[v as int]).len() > 0
    &&& forall|v: usize, layer: int|
        stands_in(g, layer, v) ==> list_ok(g, m, layer, v, #[trigger] nbrs(g, layer, v))
}

/// The graph with another list for `v` at `layer`.
pub open spec fn with_list(g: Lists, layer: int, v: usize, list: Seq<usize>) -> Lists {
    g.update(v as int, g[v as int].update(layer, list))
}

/// Both graphs have the same nodes in the same layers.
pub open spec fn same_shape(g: Lists, h: Lists) -> bool {
    &&& g.len() == h.len()
    &&& forall|v: int| 0 <= v < g.len() ==> (#[trigger] g[v]).len() == h[v].len()
}

/// A graph without edges in which node `v` stands in the layers up to `levels[v]`.
pub open spec fn bare(levels: Seq<u8>) -> Lists {
    Seq::new(
        levels.len(),
        |v: int| Seq::new((levels[v] + 1) as nat, |l: int| Seq::<usize>::empty()),
    )
}

/// A graph without edges is in order.
pub proof fn lemma_bare(levels: Seq<u8>, m: nat)
    ensures
        graph_ok(bare(levels), m),
{
}

/// Another list for one node and layer leaves all other lists alone.
pub proof fn lemma_with_list(g: Lists, layer: int, v: usize, list: Seq<usize>)
    requires
        stands_in(g, layer, v),
    ensures
        same_shape(g, with_list(g, layer, v, list)),
        nbrs(with_list(g, layer, v, list), layer, v) == list,
        forall|l: int, u: usize|
            (l != layer || u != v) ==> #[trigger] nbrs(with_list(g, layer, v, list), l, u) == nbrs(
                g,
                l,
                u,
            ),
        forall|l: int, u: usize|
            stands_in(with_list(g, layer, v, list), l, u) == #[trigger] stands_in(g, l, u),
{
}

/// A list that is in order keeps the graph in order.
pub proof fn lemma_with_list_ok(g: Lists, m: nat, layer: int, v: usize, list: Seq<usize>)
    requires
        graph_ok(g, m),
        stands_in(g, layer, v),
        list_ok(g, m, layer, v, list),
    ensures
        graph_ok(with_list(g, layer, v, list), m),
{
    let h = with_list(g, layer, v, list);
    lemma_with_list(g, layer, v, list);
    assert forall|u: usize| u < h.len() implies (#[trigger] h[u as int]).len() > 0 by {
        assert(g[u as int].len() > 0);
    }
    assert forall|u: usize, l: int| stands_in(h, l, u) implies list_ok(
        h,
        m,
        l,
        u,
        #[trigger] nbrs(h, l, u),
    ) by {
        assert(stands_in(g, l, u));
        if u != v || l != layer {
            assert(nbrs(h, l, u) == nbrs(g, l, u));
            assert(list_ok(g, m, l, u, nbrs(g, l, u)));
        }
        let t = nbrs(h, l, u);
        assert forall|j: int| 0 <= j < t.len() implies stands_in(h, l, #[trigger] t[j]) by {
            assert(stands_in(g, l, t[j]));
        }
    }
}

/// The neighbours of `v` after `new` was offered to a list with room for `room`.
pub open spec fn offered(
    pair: spec_fn(usize, usize) -> u64,
    room: nat,
    v: usize,
    list: Seq<usize>,
    new: usize,
) -> Seq<usize> {
    if list.contains(new) {
        list
    } else if list.len() < room {
        list.push(new)
    } else {
        pruned(pair, v, list, new)
    }
}

/// The neighbours of `v` after `new` was offered by a writer that had seen `seen`, while the list
/// may have become `list` since.
pub open spec fn committed(
    pair: spec_fn(usize, usize) -> u64,
    room: nat,
    v: usize,
    seen: Seq<usize>,
    list: Seq<usize>,
    new: usize,
) -> Seq<usize> {
    if seen.contains(new) {
        list
    } else if seen.len() < room {
        offered(pair, room, v, list, new)
    } else if list == seen {
        pruned(pair, v, seen, new)
    } else if list.contains(new) {
        list
    } else {
        pruned(pair, v, list, new)
    }
}

/// A writer that saw the list as it is offers the new neighbour to it.
pub proof fn law_commit_fresh(
    pair: spec_fn(usize, usize) -> u64,
    room: nat,
    v: usize,
    list: Seq<usize>,
    new: usize,
)
    ensures
        committed(pair, room, v, list, list, new) == offered(pair, room, v, list, new),
{
}

/// To offer a neighbour twice is to offer it once, wherever there is room.
pub proof fn law_offer_twice(
    pair: spec_fn(usize, usize) -> u64,
    room: nat,
    v: usize,
    list: Seq<usize>,
    new: usize,
)
    requires
        list.len() < room || list.contains(new),
    ensures
        offered(pair, room, v, list, new).contains(new),
        offered(pair, room, v, offered(pair, room, v, list, new), new) == offered(
            pair,
            room,
            v,
            list,
            new,
        ),
{
    let once = offered(pair, room, v, list, new);
    if !list.contains(new) {
        assert(once[list.len() as int] == new);
    }
}

/// To offer a neighbour that a list holds changes nothing in the graph, and neither does a second
/// offer after one that found room.
pub proof fn law_offer_known(
    pair: spec_fn(usize, usize) -> u64,
    room: nat,
    g: Lists,
    layer: int,
    v: usize,
    new: usize,
)
    requires
        stands_in(g, layer, v),
        nbrs(g, layer, v).contains(new) || nbrs(g, layer, v).len() < room,
    ensures
        ({
            let once = with_list(
                g,
                layer,
                v,
                offered(pair, room, v, nbrs(g, layer, v), new),
            );
            &&& nbrs(g, layer, v).contains(new) ==> once == g
            &&& nbrs(once, layer, v).contains(new)
            &&& with_list(once, layer, v, offered(pair, room, v, nbrs(once, layer, v), new)) == once
        }),
{
    let list = nbrs(g, layer, v);
    let after = offered(pair, room, v, list, new);
    let once = with_list(g, layer, v, after);
    law_offer_twice(pair, room, v, list, new);
    lemma_with_list(g, layer, v, after);
    assert(once[v as int] == g[v as int].update(layer, after));
    assert(once[v as int].update(layer, after) =~= once[v as int]);
    assert(with_list(once, layer, v, after) =~= once);
    if list.contains(new) {
        assert(g[v as int].update(layer, list) =~= g[v as int]);
        assert(once =~= g);
    }
}

/// A list of different nodes, without `v` itself and no longer than there is room, is such a list
/// after `new` was offered, holds nothing but what it held and `new`, and is not empty.
pub proof fn law_offered_list(
    pair: spec_fn(usize, usize) -> u64,
    room: nat,
    v: usize,
    list: Seq<usize>,
    new: usize,
)
    requires
        room >= 1,
        list.len() <= room,
        list.no_duplicates(),
        !list.contains(v),
        new != v,
    ensures
        ({
            let after = offered(pair, room, v, list, new);
            &&& 1 <= after.len() <= room
            &&& after.no_duplicates()
            &&& !after.contains(v)
            &&& forall|u: usize| #[trigger] after.contains(u) ==> u == new || list.contains(u)
        }),
{
    let after = offered(pair, room, v, list, new);
    if list.contains(new) {
    } else if list.len() < room {
        assert forall|u: usize| #[trigger] after.contains(u) implies u == new || list.contains(
            u,
        ) by {
            let k = choose|k: int| 0 <= k < after.len() && after[k] == u;
            if k < list.len() {
                assert(list[k] == u);
            }
        }
        assert forall|i: int, j: int|
            0 <= i < after.len() && 0 <= j < after.len() && i != j implies after[i]
            != after[j] by {
            if i < list.len() {
                assert(list.contains(list[i]));
            }
            if j < list.len() {
                assert(list.contains(list[j]));
            }
        }
    } else {
        lemma_pruned(pair, v, list, new);
    }
}

/// A new neighbour at the end of a list with room, and what is kept of a list and a new neighbour,
/// are lists in order.
pub proof fn lemma_grown_ok(
    pair: spec_fn(usize, usize) -> u64,
    g: Lists,
    m: nat,
    layer: int,
    v: usize,
    new: usize,
)
    requires
        graph_ok(g, m),
        stands_in(g, layer, v),
        stands_in(g, layer, new),
        new != v,
        !nbrs(g, layer, v).contains(new),
    ensures
        nbrs(g, layer, v).len() < cap(m, layer) ==> list_ok(
            g,
            m,
            layer,
            v,
            nbrs(g, layer, v).push(new),
        ),
        list_ok(g, m, layer, v, pruned(pair, v, nbrs(g, layer, v), new)),
{
    let list = nbrs(g, layer, v);
    assert(list_ok(g, m, layer, v, list));
    lemma_pruned(pair, v, list, new);
    let kept = pruned(pair, v, list, new);
    assert forall|j: int| 0 <= j < kept.len() implies stands_in(g, layer, #[trigger] kept[j]) by {
        assert(kept.contains(kept[j]));
        if kept[j] != new {
            let k = choose|k: int| 0 <= k < list.len() && list[k] == kept[j];
            assert(stands_in(g, layer, list[k]));
        }
    }
    let longer = list.push(new);
    assert forall|j: int| 0 <= j < longer.len() implies stands_in(
        g,
        layer,
        #[trigger] longer[j],
    ) by {
        if j < list.len() {
            assert(stands_in(g, layer, list[j]));
        }
    }
    if longer.contains(v) {
        let k = choose|k: int| 0 <= k < longer.len() && longer[k] == v;
        assert(list[k] == v);
    }
}

/// Whatever a writer had seen, its commit leaves a list that is in order.
pub proof fn law_commit_keeps_order(
    pair: spec_fn(usize, usize) -> u64,
    g: Lists,
    m: nat,
    layer: int,
    v: usize,
    seen: Seq<usize>,
    new: usize,
)
    requires
        graph_ok(g, m),
        stands_in(g, layer, v),
        stands_in(g, layer, new),
        new != v,
    ensures
        list_ok(
            g,
            m,
            layer,
            v,
            committed(pair, cap(m, layer), v, seen, nbrs(g, layer, v), new),
        ),
{
    assert(list_ok(g, m, layer, v, nbrs(g, layer, v)));
    if !nbrs(g, layer, v).contains(new) {
        lemma_grown_ok(pair, g, m, layer, v, new);
    }
}

} // verus!
