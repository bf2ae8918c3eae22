//! What holds of every index and every query.
use super::beam::search;
use super::beam_laws::{
    law_neighbours_counted, law_search_exhaustive, law_search_locally_optimal, law_search_results,
    reaches,
};
use super::build_graph::entry_of;
use super::build_laws::law_no_node_alone;
use super::connected_laws::law_base_connected;
use super::diversity::ids;
use super::graph_laws::{law_climb_numbers, law_nearest};
use super::greedy::{climb, climb_query, law_climb_local_minimum, nearest};
use super::hnsw::{descend_query, distances_of, flat_data, lemma_descend_query, HnswIndex};
use super::insertion::lemma_edges_within;
use super::layers::{edges, nbrs, Lists};
use super::levels::{law_levels_limited, levels_of, LAYER_LIMIT};
use super::sq8::query_codes;
use crate::utils::dist::Dist;
use crate::utils::float::AnnSearchFloat;
use crate::utils::math::lemma_distinct_full;
use crate::utils::matrix::{flat_row, lemma_row_bounds, MatView};
use crate::utils::memory::law_buffer;
use crate::utils::ordered::{ascending, at_most, entry_le, Entry};
use vstd::arithmetic::div_mod::lemma_fundamental_div_mod;
use vstd::layout::size_of;
use vstd::prelude::*;

verus! {

/// A query finds at most `k` different vectors, nearest first, each with the key of its distance to
/// the query. For a positive `k` it finds at least one.
pub proof fn law_query_results<T: AnnSearchFloat>(
    index: &HnswIndex<T>,
    dist: spec_fn(int) -> T,
    k: usize,
    ef_search: usize,
)
    requires
        index.wf(),
        index.n > 0,
    ensures
        ({
            let s = index.found_by(dist, k, ef_search);
            &&& s.len() <= k
            &&& k > 0 ==> s.len() > 0
            &&& ascending(s)
            &&& forall|i: int|
                0 <= i < s.len() ==> (#[trigger] s[i]).1 < index.n && s[i].0 == dist(
                    s[i].1 as int,
                ).rank()
            &&& forall|i: int, j: int| 0 <= i < j < s.len() ==> s[i].1 != s[j].1
            &&& ids(s).no_duplicates()
        }),
{
    index.lemma_graph();
    let g = index.graph();
    let key = |v: usize| dist(v as int).rank();
    let numbered = |v: usize| dist(v as int).number_spec();
    let ep = index.entry_point as usize;
    let cur = descend_query(g, key, numbered, index.max_layer as int, ep);
    lemma_descend_query(g, index.m as nat, key, numbered, index.max_layer as int, ep);
    lemma_edges_within(g, index.m as nat, 0);
    let ef: nat = if ef_search >= k {
        ef_search as nat
    } else {
        k as nat
    };
    let s = index.found_by(dist, k, ef_search);
    if k > 0 {
        law_search_results(edges(g, 0), key, ef, g.len(), cur);
        let w = search(edges(g, 0), key, ef, g.len(), cur);
        assert forall|i: int| 0 <= i < s.len() implies (#[trigger] s[i]).1 < index.n && s[i].0
            == dist(s[i].1 as int).rank() by {
            assert(s[i] == w[i]);
        }
        assert forall|i: int, j: int| 0 <= i < j < s.len() implies s[i].1 != s[j].1 by {
            assert(s[i] == w[i] && s[j] == w[j]);
        }
    }
    let list = ids(s);
    assert forall|i: int, j: int| 0 <= i < list.len() && 0 <= j < list.len() && i != j implies
        list[i] != list[j] by {
        assert(list[i] == s[i].1 && list[j] == s[j].1);
        if i < j {
            assert(s[i].1 != s[j].1);
        } else {
            assert(s[j].1 != s[i].1);
        }
    }
}

/// With the same search width, fewer neighbours are the first of more neighbours.
pub proof fn law_query_prefix<T: AnnSearchFloat>(
    index: &HnswIndex<T>,
    dist: spec_fn(int) -> T,
    few: usize,
    many: usize,
    ef_search: usize,
)
    requires
        few <= many <= ef_search,
    ensures
        index.found_by(dist, few, ef_search) == at_most(
            index.found_by(dist, many, ef_search),
            few as nat,
        ),
{
    assert(index.found_by(dist, few, ef_search) =~= at_most(
        index.found_by(dist, many, ef_search),
        few as nat,
    ));
}

/// Where every vector can be reached in the base layer, a query whose search width is at least the
/// number of vectors is exact: no vector that was left out is nearer than one that was found, and
/// vectors are left out only where `k` were found.
pub proof fn law_query_exact_when_wide<T: AnnSearchFloat>(
    index: &HnswIndex<T>,
    dist: spec_fn(int) -> T,
    k: usize,
    ef_search: usize,
    v: usize,
)
    requires
        index.wf(),
        index.n > 0,
        ef_search >= index.n || k >= index.n,
        v < index.n,
        forall|a: usize, b: usize|
            a < index.n && b < index.n ==> #[trigger] reaches(edges(index.graph(), 0), a, b),
    ensures
        index.exact_at(dist, k, ef_search, v),
{
    index.lemma_graph();
    let g = index.graph();
    let key = |u: usize| dist(u as int).rank();
    let ep = index.entry_point as usize;
    let numbered = |u: usize| dist(u as int).number_spec();
    let cur = descend_query(g, key, numbered, index.max_layer as int, ep);
    lemma_descend_query(g, index.m as nat, key, numbered, index.max_layer as int, ep);
    lemma_edges_within(g, index.m as nat, 0);
    let ef: nat = if ef_search >= k {
        ef_search as nat
    } else {
        k as nat
    };
    let w = search(edges(g, 0), key, ef, g.len(), cur);
    law_search_results(edges(g, 0), key, ef, g.len(), cur);
    assert(w.contains((key(v), v))) by {
        if w.len() < ef {
            assert(reaches(edges(g, 0), cur, v));
            law_search_exhaustive(edges(g, 0), key, ef, g.len(), cur, v);
        } else {
            lemma_distinct_full(ids(w), g.len(), v);
            let i = choose|i: int| 0 <= i < ids(w).len() && ids(w)[i] == v;
            assert(w[i] == (key(v), v));
        }
    }
    let at = choose|i: int| 0 <= i < w.len() && w[i] == (key(v), v);
    let s = index.found_by(dist, k, ef_search);
    if at < s.len() {
        assert(ids(s)[at] == v);
    } else {
        assert forall|i: int| 0 <= i < s.len() implies (#[trigger] s[i]).0 <= dist(
            v as int,
        ).rank() by {
            assert(s[i] == w[i]);
            assert(crate::utils::ordered::entry_le(w[i], w[at]));
        }
    }
}

/// In a built index of at most `2 * m + 1` vectors every vector can be reached from every other,
/// and a query whose search width is at least the number of vectors is exact.
pub proof fn law_query_exact_when_small<T: AnnSearchFloat>(
    index: &HnswIndex<T>,
    data: &MatView<T>,
    metric: Dist,
    levels: Seq<u8>,
    sq8: bool,
    dist: spec_fn(int) -> T,
    k: usize,
    ef_search: usize,
    v: usize,
)
    requires
        index.wf(),
        index.built_from(data, index.m, index.ef_construction, metric, levels, sq8),
        0 < index.n <= 2 * index.m + 1,
        index.ef_construction >= 1,
        ef_search >= index.n || k >= index.n,
        v < index.n,
    ensures
        forall|a: usize, b: usize|
            a < index.n && b < index.n ==> #[trigger] reaches(edges(index.graph(), 0), a, b),
        index.exact_at(dist, k, ef_search, v),
{
    assert forall|a: usize, b: usize| a < index.n && b < index.n implies #[trigger] reaches(
        edges(index.graph(), 0),
        a,
        b,
    ) by {
        law_base_connected(index.growth(), levels, index.max_layer, a, b);
    }
    law_query_exact_when_wide(index, dist, k, ef_search, v);
}

/// The rows of a matrix determine its flat form.
proof fn lemma_flat_unique<T: AnnSearchFloat>(data: &MatView<T>, a: Seq<T>, b: Seq<T>)
    requires
        flat_data(data, a),
        flat_data(data, b),
    ensures
        a == b,
{
    let dim = data.ncols as int;
    let n = data.nrows as int;
    assert forall|k: int| 0 <= k < a.len() implies a[k] == b[k] by {
        if dim == 0 {
            assert(n * dim == 0) by (nonlinear_arith)
                requires
                    dim == 0,
            ;
        } else {
            let i = k / dim;
            let d = k % dim;
            lemma_fundamental_div_mod(k, dim);
            assert(0 <= i < n && k == i * dim + d) by (nonlinear_arith)
                requires
                    0 <= k < n * dim,
                    dim > 0,
                    0 <= d < dim,
                    k == dim * i + d,
            ;
            lemma_row_bounds(i, n, dim);
            assert(flat_row(a, dim, i) == flat_row(b, dim, i));
            assert(flat_row(a, dim, i)[d] == a[k]);
            assert(flat_row(b, dim, i)[d] == b[k]);
        }
    }
    assert(a =~= b);
}

/// Two indices built from the same data with the same settings and layers have the same vectors and
/// the same graph, and every query finds the same in both.
pub proof fn law_build_reproducible<T: AnnSearchFloat>(
    a: &HnswIndex<T>,
    b: &HnswIndex<T>,
    data: &MatView<T>,
    m: usize,
    ef_construction: usize,
    metric: Dist,
    levels: Seq<u8>,
    sq8: bool,
    dist: spec_fn(int) -> T,
    k: usize,
    ef_search: usize,
)
    requires
        a.built_from(data, m, ef_construction, metric, levels, sq8),
        b.built_from(data, m, ef_construction, metric, levels, sq8),
    ensures
        a.vectors() == b.vectors(),
        a.graph() == b.graph(),
        a.found_by(dist, k, ef_search) == b.found_by(dist, k, ef_search),
{
    if sq8 {
        let n = data.nrows as int;
        let dim = data.ncols as int;
        let fa = choose|flat: Seq<T>|
            flat_data(data, flat) && #[trigger] super::hnsw::sq8_storage(a.storage, flat, n, dim);
        let fb = choose|flat: Seq<T>|
            flat_data(data, flat) && #[trigger] super::hnsw::sq8_storage(b.storage, flat, n, dim);
        lemma_flat_unique(data, fa, fb);
    } else {
        lemma_flat_unique(data, a.vectors_flat@, b.vectors_flat@);
    }
    assert(a.vectors() == b.vectors());
    if data.nrows > 0 {
        lemma_entry_unique(
            levels,
            a.max_layer,
            a.entry_point as usize,
            b.max_layer,
            b.entry_point as usize,
        );
        assert(a.growth() == b.growth());
    }
}

/// No neighbour of a found vector would improve the results: it was found too, or `k` were found
/// and it is no nearer than the furthest of them.
pub proof fn law_query_locally_optimal<T: AnnSearchFloat>(
    index: &HnswIndex<T>,
    dist: spec_fn(int) -> T,
    k: usize,
    ef_search: usize,
    i: int,
    v: usize,
)
    requires
        index.wf(),
        index.n > 0,
        0 <= i < index.found_by(dist, k, ef_search).len(),
        nbrs(index.graph(), 0, index.found_by(dist, k, ef_search)[i].1).contains(v),
    ensures
        ({
            let s = index.found_by(dist, k, ef_search);
            ids(s).contains(v) || (s.len() == k && dist(v as int).rank() >= s.last().0)
        }),
{
    index.lemma_graph();
    let g = index.graph();
    let key = |u: usize| dist(u as int).rank();
    let ep = index.entry_point as usize;
    let numbered = |u: usize| dist(u as int).number_spec();
    let cur = descend_query(g, key, numbered, index.max_layer as int, ep);
    lemma_descend_query(g, index.m as nat, key, numbered, index.max_layer as int, ep);
    lemma_edges_within(g, index.m as nat, 0);
    let ef: nat = if ef_search >= k {
        ef_search as nat
    } else {
        k as nat
    };
    let adj = edges(g, 0);
    let s = index.found_by(dist, k, ef_search);
    let w = search(adj, key, ef, g.len(), cur);
    law_search_results(adj, key, ef, g.len(), cur);
    law_search_locally_optimal(adj, key, ef, g.len(), cur);
    assert(s[i] == w[i]);
    let list = nbrs(g, 0, s[i].1);
    let j = choose|j: int| 0 <= j < list.len() && list[j] == v;
    assert(adj(w[i].1)[j] == v);
    let last = s.len() - 1;
    assert(s.last() == w[last]);
    if w.contains((key(v), v)) {
        let at = choose|at: int| 0 <= at < w.len() && w[at] == (key(v), v);
        if at < s.len() {
            assert(s[at] == w[at]);
            assert(ids(s)[at] == v);
        } else {
            assert(crate::utils::ordered::entry_le(w[last], w[at]));
        }
    } else if last < w.len() - 1 {
        assert(crate::utils::ordered::entry_le(w[last], w[w.len() - 1]));
    }
}

/// What a vector of an index without codes finds, taken as a query, is what its numbers find.
pub proof fn law_self_query<T: AnnSearchFloat>(
    index: &HnswIndex<T>,
    node: int,
    k: usize,
    ef_search: usize,
)
    requires
        index.vectors().codes is None,
    ensures
        index.found_by(index.self_distance(node), k, ef_search) == index.found_by(
            index.query_distance(flat_row(index.vectors().flat, index.vectors().dim, node)),
            k,
            ef_search,
        ),
{
    assert(index.self_distance(node) =~= index.query_distance(
        flat_row(index.vectors().flat, index.vectors().dim, node),
    ));
}

/// In an index with codes a query finds what the vector with the same codes finds.
pub proof fn law_self_query_codes<T: AnnSearchFloat>(
    index: &HnswIndex<T>,
    node: int,
    query: Seq<T>,
    k: usize,
    ef_search: usize,
)
    requires
        index.vectors().codes matches Some(q) && query_codes(query, q.1) == flat_row(
            q.0,
            index.vectors().dim,
            node,
        ),
    ensures
        index.found_by(index.query_distance(query), k, ef_search) == index.found_by(
            index.self_distance(node),
            k,
            ef_search,
        ),
{
    assert(index.self_distance(node) =~= index.query_distance(query));
}

/// In a built index of two or more vectors every vector has a neighbour in the base layer.
pub proof fn law_no_vector_alone<T: AnnSearchFloat>(
    index: &HnswIndex<T>,
    data: &MatView<T>,
    metric: Dist,
    levels: Seq<u8>,
    sq8: bool,
    v: usize,
)
    requires
        index.built_from(data, index.m, index.ef_construction, metric, levels, sq8),
        index.n == levels.len(),
        index.n >= 2,
        index.m >= 1,
        index.ef_construction >= 1,
        v < index.n,
    ensures
        nbrs(index.graph(), 0, v).len() > 0,
{
    law_no_node_alone(index.growth(), levels, index.max_layer, v);
}

/// What an index is made of besides its graph: every vector has a highest layer of at most 15, the
/// highest layer of all is that of the entry point, which is the first vector that stands so high,
/// the ids are the places in the data, candidates are not extended, and there are norms for the
/// cosine metric only.
pub proof fn law_index_header<T: AnnSearchFloat>(
    index: &HnswIndex<T>,
    data: &MatView<T>,
    m: usize,
    ef_construction: usize,
    metric: Dist,
    words: Seq<u64>,
    sq8: bool,
)
    requires
        index.wf(),
        index.built_from(data, m, ef_construction, metric, levels_of::<T>(words, m), sq8),
        data.nrows > 0,
    ensures
        index.layer_assignments@.len() == data.nrows,
        forall|v: int|
            0 <= v < data.nrows ==> (#[trigger] index.layer_assignments@[v]) <= LAYER_LIMIT
                && index.layer_assignments@[v] <= index.max_layer,
        index.entry_point < data.nrows,
        index.layer_assignments@[index.entry_point as int] == index.max_layer,
        forall|v: int|
            0 <= v < index.entry_point ==> (#[trigger] index.layer_assignments@[v])
                < index.max_layer,
        index.original_ids@ == Seq::new(data.nrows as nat, |i: int| i as usize),
        !index.extend_candidates,
        index.norms@.len() == if metric == Dist::Cosine {
            data.nrows as nat
        } else {
            0
        },
{
    law_levels_limited::<T>(words, m);
}

/// The layers of an index depend on the random words and on `m` alone: whatever the data, the
/// metric, the search width and the storage, the same words give the same layers and the same entry
/// point.
pub proof fn law_layers_by_words<T: AnnSearchFloat>(
    a: &HnswIndex<T>,
    b: &HnswIndex<T>,
    data_a: &MatView<T>,
    data_b: &MatView<T>,
    m: usize,
    ef_a: usize,
    ef_b: usize,
    metric_a: Dist,
    metric_b: Dist,
    sq8_a: bool,
    sq8_b: bool,
    words: Seq<u64>,
)
    requires
        data_a.nrows == data_b.nrows,
        a.built_from(data_a, m, ef_a, metric_a, levels_of::<T>(words, m), sq8_a),
        b.built_from(data_b, m, ef_b, metric_b, levels_of::<T>(words, m), sq8_b),
    ensures
        a.layer_assignments@ == b.layer_assignments@,
        a.max_layer == b.max_layer,
        a.entry_point == b.entry_point,
{
    if data_a.nrows > 0 {
        lemma_entry_unique(
            levels_of::<T>(words, m),
            a.max_layer,
            a.entry_point as usize,
            b.max_layer,
            b.entry_point as usize,
        );
    }
}

/// There is one entry node.
proof fn lemma_entry_unique(levels: Seq<u8>, top_a: u8, ep_a: usize, top_b: u8, ep_b: usize)
    requires
        entry_of(levels, top_a, ep_a),
        entry_of(levels, top_b, ep_b),
    ensures
        top_a == top_b,
        ep_a == ep_b,
{
    assert(levels[ep_a as int] <= top_b && levels[ep_b as int] <= top_a);
    if ep_a < ep_b {
        assert(levels[ep_a as int] < top_b);
    }
    if ep_b < ep_a {
        assert(levels[ep_b as int] < top_a);
    }
}

/// An answer has as many distances as ids, and at most `k` of either. The ids are different vectors
/// of the index, each distance is that of the vector beside it, and the distances ascend.
pub proof fn law_answer<T: AnnSearchFloat>(
    index: &HnswIndex<T>,
    dist: spec_fn(int) -> T,
    k: usize,
    ef_search: usize,
)
    requires
        index.wf(),
        index.n > 0,
    ensures
        ({
            let found = ids(index.found_by(dist, k, ef_search));
            let dists = distances_of(index.found_by(dist, k, ef_search), dist);
            &&& found.len() == dists.len()
            &&& found.len() <= k
            &&& k > 0 ==> found.len() > 0
            &&& forall|i: int|
                0 <= i < found.len() ==> (#[trigger] found[i]) < index.n && dists[i] == dist(
                    found[i] as int,
                )
            &&& forall|i: int, j: int|
                0 <= i < j < found.len() ==> {
                    &&& #[trigger] found[i] != #[trigger] found[j]
                    &&& dists[i].rank() <= dists[j].rank()
                }
        }),
{
    law_query_results(index, dist, k, ef_search);
    let s = index.found_by(dist, k, ef_search);
    let found = ids(s);
    let dists = distances_of(s, dist);
    assert forall|i: int| 0 <= i < found.len() implies (#[trigger] found[i]) < index.n && dists[i]
        == dist(found[i] as int) && s[i].0 == dists[i].rank() by {
        assert(found[i] == s[i].1);
    }
    assert forall|i: int, j: int| 0 <= i < j < found.len() implies {
        &&& #[trigger] found[i] != #[trigger] found[j]
        &&& dists[i].rank() <= dists[j].rank()
    } by {
        assert(s[i].1 != s[j].1);
        assert(entry_le(s[i], s[j]));
        assert(s[i].0 == dists[i].rank() && s[j].0 == dists[j].rank());
    }
}

/// The descent of a query ends no farther from the query than it began. Where it passed a layer, it
/// ends at a node whose distance is not a number or that has no nearer neighbour at the lowest
/// layer above the base.
pub proof fn law_query_descent(
    g: Lists,
    key: spec_fn(usize) -> u64,
    numbered: spec_fn(usize) -> bool,
    layer: int,
    cur: usize,
)
    ensures
        ({
            let end = descend_query(g, key, numbered, layer, cur);
            &&& key(end) <= key(cur)
            &&& layer <= 0 ==> end == cur
            &&& layer > 0 && numbered(end) ==> forall|j: int|
                0 <= j < nbrs(g, 1, end).len() ==> key(end) <= key(#[trigger] nbrs(g, 1, end)[j])
        }),
    decreases layer,
{
    if layer > 0 {
        let next = climb_query(edges(g, layer), key, numbered, cur);
        law_climb_numbers(edges(g, layer), key, numbered, cur);
        law_query_descent(g, key, numbered, layer - 1, next);
        let end = descend_query(g, key, numbered, layer, cur);
        if layer == 1 && numbered(end) {
            assert(end == next);
            assert forall|j: int| 0 <= j < nbrs(g, 1, end).len() implies key(end) <= key(
                #[trigger] nbrs(g, 1, end)[j],
            ) by {
                assert(edges(g, 1)(end)[j] == nbrs(g, 1, end)[j]);
            }
        }
    }
}

/// The nearest vector of an answer is no farther than the entry point, than any neighbour of the
/// entry point at the highest layer, and than the neighbours in the base layer of each vector of
/// the answer.
pub proof fn law_nearest_found<T: AnnSearchFloat>(
    index: &HnswIndex<T>,
    dist: spec_fn(int) -> T,
    k: usize,
    ef_search: usize,
)
    requires
        index.wf(),
        index.n > 0,
        k > 0,
    ensures
        ({
            let s = index.found_by(dist, k, ef_search);
            let top = index.max_layer as int;
            let ep = index.entry_point as usize;
            &&& s.len() > 0
            &&& dist(s[0].1 as int).rank() <= dist(ep as int).rank()
            &&& dist(ep as int).number_spec() ==> forall|j: int|
                0 <= j < nbrs(index.graph(), top, ep).len() ==> dist(s[0].1 as int).rank() <= dist(
                    #[trigger] nbrs(index.graph(), top, ep)[j] as int,
                ).rank()
            &&& forall|i: int, j: int|
                0 <= i < s.len() && 0 <= j < nbrs(index.graph(), 0, s[i].1).len() ==> dist(
                    s[0].1 as int,
                ).rank() <= dist(#[trigger] nbrs(index.graph(), 0, s[i].1)[j] as int).rank()
        }),
{
    index.lemma_graph();
    law_query_results(index, dist, k, ef_search);
    let g = index.graph();
    let key = |v: usize| dist(v as int).rank();
    let numbered = |v: usize| dist(v as int).number_spec();
    let ep = index.entry_point as usize;
    let top = index.max_layer as int;
    let cur = descend_query(g, key, numbered, top, ep);
    lemma_descend_query(g, index.m as nat, key, numbered, top, ep);
    lemma_edges_within(g, index.m as nat, 0);
    law_query_descent(g, key, numbered, top, ep);
    let ef: nat = if ef_search >= k {
        ef_search as nat
    } else {
        k as nat
    };
    let s = index.found_by(dist, k, ef_search);
    let w = search(edges(g, 0), key, ef, g.len(), cur);
    law_search_results(edges(g, 0), key, ef, g.len(), cur);
    law_search_locally_optimal(edges(g, 0), key, ef, g.len(), cur);
    assert(s[0] == w[0]);
    assert forall|e: Entry| #[trigger] w.contains(e) implies w[0].0 <= e.0 by {
        let i = choose|i: int| 0 <= i < w.len() && w[i] == e;
        if i > 0 {
            assert(entry_le(w[0], w[i]));
        }
    }
    assert(w.contains(w.last()));
    assert(w[0].0 <= key(cur));
    assert forall|i: int, j: int|
        0 <= i < s.len() && 0 <= j < nbrs(g, 0, s[i].1).len() implies dist(s[0].1 as int).rank()
        <= dist(#[trigger] nbrs(g, 0, s[i].1)[j] as int).rank() by {
        assert(s[i] == w[i]);
        let v = edges(g, 0)(w[i].1)[j];
        assert(w.contains((key(v), v)) || (w.len() == ef && key(v) >= w.last().0));
    }
    if numbered(ep) {
        assert forall|j: int| 0 <= j < nbrs(g, top, ep).len() implies dist(s[0].1 as int).rank()
            <= dist(#[trigger] nbrs(g, top, ep)[j] as int).rank() by {
            let v = nbrs(g, top, ep)[j];
            if top == 0 {
                assert(cur == ep);
                assert(edges(g, 0)(cur)[j] == v);
                law_neighbours_counted(edges(g, 0), key, ef, g.len(), cur, j);
            } else {
                let next = climb_query(edges(g, top), key, numbered, ep);
                lemma_climb_passes(edges(g, top), key, ep, j);
                law_query_descent(g, key, numbered, top - 1, next);
                assert(edges(g, top)(ep)[j] == v);
            }
        }
    }
}

/// A climb ends no farther than any neighbour of where it began.
proof fn lemma_climb_passes(
    adj: spec_fn(usize) -> Seq<usize>,
    key: spec_fn(usize) -> u64,
    cur: usize,
    j: int,
)
    requires
        0 <= j < adj(cur).len(),
    ensures
        key(climb(adj, key, cur)) <= key(adj(cur)[j]),
{
    let next = nearest(key, adj(cur), cur);
    law_nearest(key, adj(cur), cur);
    if key(next) < key(cur) {
        law_climb_local_minimum(adj, key, next);
    }
}

/// A query searches the base layer with the search width it is given, or with the number of
/// neighbours where that is larger, from where its descent ended. The nearest of what the search
/// found are its results, and with a width below the number of neighbours it is the same query as
/// with that number for a width.
pub proof fn law_query_width<T: AnnSearchFloat>(
    index: &HnswIndex<T>,
    dist: spec_fn(int) -> T,
    k: usize,
    ef_search: usize,
)
    ensures
        ({
            let key = |v: usize| dist(v as int).rank();
            let numbered = |v: usize| dist(v as int).number_spec();
            let g = index.graph();
            let start = descend_query(
                g,
                key,
                numbered,
                index.max_layer as int,
                index.entry_point as usize,
            );
            let found = index.found_by(dist, k, ef_search);
            let wide = search(|v: usize| nbrs(g, 0, v), key, ef_search as nat, g.len(), start);
            &&& ef_search >= k && wide.len() >= k ==> found == wide.take(k as int)
            &&& ef_search >= k && wide.len() < k ==> found == wide
            &&& ef_search < k ==> found == index.found_by(dist, k, k)
        }),
{
    assert(edges(index.graph(), 0) =~= |v: usize| nbrs(index.graph(), 0, v));
    let key = |v: usize| dist(v as int).rank();
    let numbered = |v: usize| dist(v as int).number_spec();
    let g = index.graph();
    let start = descend_query(g, key, numbered, index.max_layer as int, index.entry_point as usize);
    let wide = search(|v: usize| nbrs(g, 0, v), key, ef_search as nat, g.len(), start);
    if wide.len() == k {
        assert(wide.take(k as int) =~= wide);
    }
}

/// Each of the buffers of an index takes at least the bytes of what it holds.
pub proof fn law_buffers<T: AnnSearchFloat>(index: &HnswIndex<T>, bytes: Seq<usize>)
    requires
        index.buffers(bytes),
    ensures
        bytes.len() == 8,
        bytes[0] == usize::MAX || bytes[0] >= index.vectors_flat@.len() * size_of::<T>(),
        bytes[1] == usize::MAX || bytes[1] >= index.norms@.len() * size_of::<T>(),
        bytes[2] == usize::MAX || bytes[2] >= index.layer_assignments@.len() * size_of::<u8>(),
        bytes[3] == usize::MAX || bytes[3] >= index.neighbours_flat@.len() * size_of::<u32>(),
        bytes[4] == usize::MAX || bytes[4] >= index.neighbour_offsets@.len() * size_of::<usize>(),
        bytes[5] == usize::MAX || bytes[5] >= index.original_ids@.len() * size_of::<usize>(),
        index.storage is Float ==> bytes[6] == 0 && bytes[7] == 0,
        index.storage is Sq8 ==> {
            &&& bytes[6] == usize::MAX || bytes[6] >= index.storage->codes@.len() * size_of::<i8>()
            &&& bytes[7] == usize::MAX || bytes[7] >= index.storage->weights@.len() * size_of::<
                T::Narrow,
            >()
        },
{
    law_buffer::<T>(index.vectors_flat@.len(), bytes[0]);
    law_buffer::<T>(index.norms@.len(), bytes[1]);
    law_buffer::<u8>(index.layer_assignments@.len(), bytes[2]);
    law_buffer::<u32>(index.neighbours_flat@.len(), bytes[3]);
    law_buffer::<usize>(index.neighbour_offsets@.len(), bytes[4]);
    law_buffer::<usize>(index.original_ids@.len(), bytes[5]);
    if index.storage is Sq8 {
        law_buffer::<i8>(index.storage->codes@.len(), bytes[6]);
        law_buffer::<T::Narrow>(index.storage->weights@.len(), bytes[7]);
    }
}

} // verus!
