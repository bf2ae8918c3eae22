//! What the distances of an index are distances of.
use super::build_graph::built;
use super::construction::{block, flat_slots, start_of};
use super::graph_laws::law_slots;
use super::hnsw::{flat_data, sq8_storage, HnswIndex};
use super::layers::{lemma_offset, lemma_offset_apart, nbrs, offset};
use super::slots::{ids_of, EMPTY};
use super::sq8::{code_of, endpoints, query_codes, scales_of, weighted_l2};
use super::sq8_laws::law_codes_by_dimension;
use super::store::{between, euclidean_between, to_codes, to_query, Vectors};
use crate::utils::dist::Dist;
use crate::utils::float::{plain_norm, AnnSearchFloat, Real};
use crate::utils::matrix::{flat_row, lemma_row_bounds, MatView};
use vstd::prelude::*;

verus! {

/// The distance that a graph is built with compares the vector of the first node with the vector of
/// the second by the metric, under the cosine metric with the norm of either.
pub proof fn law_pair_distance<T: AnnSearchFloat>(v: Vectors<T>, a: int, b: int)
    requires
        v.codes is None,
    ensures
        ({
            let x = v.flat.subrange(a * v.dim, a * v.dim + v.dim);
            let y = v.flat.subrange(b * v.dim, b * v.dim + v.dim);
            &&& euclidean_between(v, a, b) == T::euclidean_spec(x, y)
            &&& v.metric == Dist::SquaredEuclidean ==> between(v, a, b) == T::euclidean_spec(x, y)
            &&& v.metric == Dist::Manhattan ==> between(v, a, b) == T::manhattan_spec(x, y)
            &&& v.metric == Dist::Cosine ==> between(v, a, b) == T::cosine_spec(
                x,
                y,
                v.norms[a],
                v.norms[b],
            )
        }),
{
}

/// The distance of a vector to a query compares the vector with the query by the metric, under the
/// cosine metric with the norm of the vector and the norm of the query.
pub proof fn law_query_distance<T: AnnSearchFloat>(v: Vectors<T>, query: Seq<T>, i: int)
    ensures
        ({
            let x = v.flat.subrange(i * v.dim, i * v.dim + v.dim);
            let norm = plain_norm(query);
            &&& v.metric == Dist::SquaredEuclidean ==> to_query(v, query, i) == T::euclidean_spec(
                x,
                query,
            )
            &&& v.metric == Dist::Manhattan ==> to_query(v, query, i) == T::manhattan_spec(
                x,
                query,
            )
            &&& v.metric == Dist::Cosine ==> to_query(v, query, i) == T::cosine_spec(
                x,
                query,
                v.norms[i],
                norm,
            )
        }),
{
}

/// A query with the numbers of a stored vector has the distances that the graph is built with
/// between that vector and the others.
pub proof fn law_pair_agrees_with_query<T: AnnSearchFloat>(v: Vectors<T>, a: int, b: int)
    requires
        v.codes is None,
        v.metric == Dist::Cosine ==> v.norms[b] == plain_norm(
            v.flat.subrange(b * v.dim, b * v.dim + v.dim),
        ),
    ensures
        between(v, a, b) == to_query(v, v.flat.subrange(b * v.dim, b * v.dim + v.dim), a),
{
}

/// Vectors with the same numbers, and the same norms under the cosine metric, have the same
/// distances, to each other and to every query: nothing but the vector of a node counts, for the
/// first node and for the second.
pub proof fn law_same_vectors_same_distances<T: AnnSearchFloat>(
    v: Vectors<T>,
    w: Vectors<T>,
    a: int,
    b: int,
    c: int,
    d: int,
    query: Seq<T>,
)
    requires
        v.codes is None,
        w.codes is None,
        v.metric == w.metric,
        v.flat.subrange(a * v.dim, a * v.dim + v.dim) == w.flat.subrange(
            c * w.dim,
            c * w.dim + w.dim,
        ),
        v.flat.subrange(b * v.dim, b * v.dim + v.dim) == w.flat.subrange(
            d * w.dim,
            d * w.dim + w.dim,
        ),
        v.metric == Dist::Cosine ==> v.norms[a] == w.norms[c] && v.norms[b] == w.norms[d],
    ensures
        between(v, a, b) == between(w, c, d),
        euclidean_between(v, a, b) == euclidean_between(w, c, d),
        to_query(v, query, a) == to_query(w, query, c),
{
}

/// Between codes the distance that the graph is built with and the distance of a query with the
/// codes of a stored vector are one, whatever the metric: the weighted squared distance of the
/// codes under the weights of the index.
pub proof fn law_code_distance<T: AnnSearchFloat>(
    v: Vectors<T>,
    codes: Seq<i8>,
    weights: Seq<T::Narrow>,
    query: Seq<i8>,
    a: int,
    b: int,
)
    requires
        v.codes == Some((codes, weights)),
    ensures
        ({
            let x = codes.subrange(a * v.dim, a * v.dim + v.dim);
            let y = codes.subrange(b * v.dim, b * v.dim + v.dim);
            &&& between(v, a, b) == T::widen_spec(weighted_l2(x, y, weights))
            &&& euclidean_between(v, a, b) == between(v, a, b)
            &&& to_codes(v, query, b) == T::widen_spec(weighted_l2(query, y, weights))
            &&& to_codes(v, x, b) == between(v, a, b)
        }),
{
}

/// What a query of an index without codes is compared with: the numbers, norms and metric of the
/// index.
pub proof fn law_index_distances<T: AnnSearchFloat>(
    index: &HnswIndex<T>,
    query: Seq<T>,
    a: int,
    b: int,
)
    requires
        index.storage is Float,
    ensures
        ({
            let dim = index.dim as int;
            let x = index.vectors_flat@.subrange(a * dim, a * dim + dim);
            let y = index.vectors_flat@.subrange(b * dim, b * dim + dim);
            let (p, q) = (index.norms@[a], index.norms@[b]);
            let to = index.query_distance(query)(a);
            let own = index.self_distance(b)(a);
            match index.metric {
                Dist::SquaredEuclidean => to == T::euclidean_spec(x, query) && own
                    == T::euclidean_spec(x, y),
                Dist::Manhattan => to == T::manhattan_spec(x, query) && own == T::manhattan_spec(
                    x,
                    y,
                ),
                Dist::Cosine => to == T::cosine_spec(x, query, p, plain_norm(query)) && own
                    == T::cosine_spec(x, y, p, plain_norm(y)),
            }
        }),
        forall|i: usize, j: usize| #[trigger]
            (index.growth().pair)(i, j) == ({
                let dim = index.dim as int;
                let x = index.vectors_flat@.subrange(i * dim, i * dim + dim);
                let y = index.vectors_flat@.subrange(j * dim, j * dim + dim);
                match index.metric {
                    Dist::SquaredEuclidean => T::euclidean_spec(x, y),
                    Dist::Manhattan => T::manhattan_spec(x, y),
                    Dist::Cosine => T::cosine_spec(
                        x,
                        y,
                        index.norms@[i as int],
                        index.norms@[j as int],
                    ),
                }
            }).rank(),
{
}

/// What a query of an index with codes is compared with: the codes and weights of the index.
pub proof fn law_index_code_distances<T: AnnSearchFloat>(
    index: &HnswIndex<T>,
    query: Seq<T>,
    a: int,
    b: int,
)
    requires
        index.storage is Sq8,
    ensures
        ({
            let dim = index.dim as int;
            let codes = index.storage->codes@;
            let weights = index.storage->weights@;
            let x = codes.subrange(a * dim, a * dim + dim);
            let y = codes.subrange(b * dim, b * dim + dim);
            &&& index.query_distance(query)(a) == T::widen_spec(
                weighted_l2(query_codes(query, weights), x, weights),
            )
            &&& index.self_distance(b)(a) == T::widen_spec(weighted_l2(y, x, weights))
        }),
        forall|i: usize, j: usize| #[trigger]
            (index.growth().pair)(i, j) == T::widen_spec(
                weighted_l2(
                    index.storage->codes@.subrange(
                        i * index.dim,
                        i * index.dim + index.dim as int,
                    ),
                    index.storage->codes@.subrange(
                        j * index.dim,
                        j * index.dim + index.dim as int,
                    ),
                    index.storage->weights@,
                ),
            ).rank(),
{
}

/// An index without codes holds the numbers of the data, row by row, and under the cosine metric
/// the norm of every row.
pub proof fn law_index_holds_data<T: AnnSearchFloat>(
    index: &HnswIndex<T>,
    data: &MatView<T>,
    m: usize,
    ef_construction: usize,
    metric: Dist,
    levels: Seq<u8>,
    i: int,
    j: int,
)
    requires
        index.built_from(data, m, ef_construction, metric, levels, false),
        0 <= i < data.nrows,
        0 <= j < data.ncols,
    ensures
        index.storage is Float,
        index.n == data.nrows,
        index.dim == data.ncols,
        index.metric == metric,
        index.vectors_flat@.len() == data.nrows * data.ncols,
        index.vectors_flat@[i * data.ncols + j] == data.data@[i * data.row_stride + j
            * data.col_stride],
        metric == Dist::Cosine ==> index.norms@.len() == data.nrows && index.norms@[i]
            == T::l2_norm_spec(
            Seq::new(
                data.ncols as nat,
                |c: int| data.data@[i * data.row_stride + c * data.col_stride],
            ),
        ),
{
    let dim = data.ncols as int;
    lemma_row_bounds(i, data.nrows as int, dim);
    let row = index.vectors_flat@.subrange(i * dim, i * dim + dim);
    assert(flat_row(index.vectors_flat@, dim, i) == data.row_values(i));
    assert(row == data.row_values(i));
    assert(row[j] == index.vectors_flat@[i * dim + j]);
    assert(data.row_values(i) =~= Seq::new(
        data.ncols as nat,
        |c: int| data.data@[i * data.row_stride + c * data.col_stride],
    ));
}

/// The numbers of a matrix, row by row.
proof fn lemma_flat_numbers<T: AnnSearchFloat>(data: &MatView<T>, flat: Seq<T>, i: int, j: int)
    requires
        flat_data(data, flat),
        0 <= i < data.nrows,
        0 <= j < data.ncols,
    ensures
        flat[i * data.ncols + j] == data.data@[i * data.row_stride + j * data.col_stride],
{
    let dim = data.ncols as int;
    lemma_row_bounds(i, data.nrows as int, dim);
    let row = flat.subrange(i * dim, i * dim + dim);
    assert(flat_row(flat, dim, i) == data.row_values(i));
    assert(row == data.row_values(i));
    assert(row[j] == flat[i * dim + j]);
}

/// An index with codes holds the codes of the numbers of the data, each with the scale of its
/// dimension, and the squares of the scales as weights. It holds no numbers beside them.
pub proof fn law_index_holds_codes<T: AnnSearchFloat>(
    index: &HnswIndex<T>,
    data: &MatView<T>,
    m: usize,
    ef_construction: usize,
    metric: Dist,
    levels: Seq<u8>,
)
    requires
        index.built_from(data, m, ef_construction, metric, levels, true),
    ensures
        index.storage is Sq8,
        index.n == data.nrows,
        index.dim == data.ncols,
        index.vectors_flat@.len() == 0,
        index.storage->codes@.len() == data.nrows * data.ncols,
        index.storage->weights@.len() == data.ncols,
        index.storage->stats.clipped_values == 0,
        index.storage->stats.endpoint_codes == endpoints(index.storage->codes@),
        exists|flat: Seq<T>|
            #![trigger scales_of(flat, data.ncols as int, data.nrows as int)]
            {
                let scales = scales_of(flat, data.ncols as int, data.nrows as int);
                &&& flat.len() == data.nrows * data.ncols
                &&& forall|i: int, d: int|
                    0 <= i < data.nrows && 0 <= d < data.ncols ==> {
                        let x = #[trigger] data.data@[i * data.row_stride + d * data.col_stride];
                        &&& flat[i * data.ncols + d] == x
                        &&& index.storage->codes@[i * data.ncols + d] == code_of(x, scales[d])
                    }
                &&& forall|d: int|
                    0 <= d < data.ncols ==> #[trigger] index.storage->weights@[d]
                        == scales[d].times_spec(scales[d])
            },
{
    let (n, dim) = (data.nrows as int, data.ncols as int);
    let flat = choose|flat: Seq<T>|
        flat_data(data, flat) && #[trigger] sq8_storage(index.storage, flat, n, dim);
    let scales = scales_of(flat, dim, n);
    assert forall|i: int, d: int| 0 <= i < data.nrows && 0 <= d < data.ncols implies {
        let x = #[trigger] data.data@[i * data.row_stride + d * data.col_stride];
        &&& flat[i * data.ncols + d] == x
        &&& index.storage->codes@[i * data.ncols + d] == code_of(x, scales[d])
    } by {
        lemma_flat_numbers(data, flat, i, d);
        law_codes_by_dimension(flat, dim, scales, n, i, d);
    }
}

/// The neighbours of a node at a layer are the entries of its block, up to the first empty place.
/// The blocks of a node stand one behind the other, with room for `2 * m` neighbours in the base
/// layer and for `m` in each layer above, and the nodes follow one another.
pub proof fn law_index_lists<T: AnnSearchFloat>(index: &HnswIndex<T>, v: usize, layer: int)
    requires
        index.wf(),
        v < index.n,
        0 <= layer <= index.layer_assignments@[v as int],
    ensures
        ({
            let list = nbrs(index.graph(), layer, v);
            let m = index.m as int;
            let start = index.neighbour_offsets@[v as int] + if layer == 0 {
                0
            } else {
                2 * m + (layer - 1) * m
            };
            let room = if layer == 0 {
                2 * m
            } else {
                m
            };
            &&& list.len() <= room
            &&& start + room <= index.neighbours_flat@.len()
            &&& forall|j: int|
                0 <= j < list.len() ==> #[trigger] list[j] == index.neighbours_flat@[start + j]
                    && list[j] != EMPTY
            &&& list.len() < room ==> index.neighbours_flat@[start + list.len()] == EMPTY
        }),
        index.neighbour_offsets@[0] == 0,
        v + 1 < index.n ==> index.neighbour_offsets@[v + 1] == index.neighbour_offsets@[v as int]
            + 2 * index.m + index.layer_assignments@[v as int] * index.m,
{
    let m = index.m as nat;
    let level = index.layer_assignments@[v as int] as int;
    let slots = flat_slots(
        index.neighbours_flat@,
        index.neighbour_offsets@,
        index.layer_assignments@,
        m,
        v as int,
    );
    let part = block(slots, m, layer);
    lemma_offset(m, layer);
    lemma_offset(m, level);
    if layer < level {
        lemma_offset_apart(m, layer, level);
    }
    assert(index.neighbour_offsets@[v as int] == start_of(
        m,
        index.layer_assignments@,
        v as int,
    ));
    assert(index.neighbour_offsets@[0] == 0);
    if v + 1 < index.n {
        assert(index.neighbour_offsets@[v + 1] == start_of(
            m,
            index.layer_assignments@,
            v + 1,
        ));
    }
    assert(nbrs(index.graph(), layer, v) == ids_of(part));
    law_slots(part);
    assert(offset(m, layer + 1) <= slots.len());
}

/// A graph grows with the parameters of its index: lists of `m` neighbours, a search width of
/// `ef_construction`, and descents that begin at the entry point in the highest layer.
pub proof fn law_growth<T: AnnSearchFloat>(
    index: &HnswIndex<T>,
    data: &MatView<T>,
    m: usize,
    ef_construction: usize,
    metric: Dist,
    levels: Seq<u8>,
    sq8: bool,
)
    requires
        index.built_from(data, m, ef_construction, metric, levels, sq8),
        data.nrows > 0,
    ensures
        index.growth().m == m,
        index.growth().ef == ef_construction,
        index.growth().top == index.max_layer,
        index.growth().ep == index.entry_point,
        index.graph() == built(index.growth(), levels),
        index.layer_assignments@ == levels,
{
}

/// The graph of an index is built with the distances that its queries are answered with: a query
/// with the numbers of one vector is as far from another vector as the graph takes the two to be,
/// under the cosine metric where the norm that is held is the norm of a query with these numbers.
pub proof fn law_graph_agrees_with_queries<T: AnnSearchFloat>(
    index: &HnswIndex<T>,
    a: usize,
    b: usize,
)
    ensures
        ({
            let dim = index.dim as int;
            let y = index.vectors_flat@.subrange(b * dim, b * dim + dim);
            let held = index.metric != Dist::Cosine || index.norms@[b as int] == plain_norm(y);
            &&& index.storage is Float && held ==> (index.growth().pair)(a, b)
                == index.query_distance(y)(a as int).rank() && (index.growth().pair)(a, b)
                == index.self_distance(b as int)(a as int).rank()
            &&& index.storage is Sq8 ==> (index.growth().pair)(a, b) == index.self_distance(
                a as int,
            )(b as int).rank()
            &&& index.storage is Sq8 ==> forall|query: Seq<T>|
                query_codes(query, index.storage->weights@) == index.storage->codes@.subrange(
                    a * dim,
                    a * dim + dim,
                ) ==> (index.growth().pair)(a, b) == (#[trigger] index.query_distance(query))(
                    b as int,
                ).rank()
        }),
{
}

} // verus!
