//! Hierarchical navigable small world graphs.
use super::beam::{search, search_layer};
use super::build_graph::{build_graph, built, entry_of};
use super::construction::{block, flat_of, flat_ok, flat_slots, slots_ok, ConstructionGraph};
use super::diversity::ids;
use super::greedy::{climb, climb_query, greedy_search_layer};
use super::insertion::{descend, growth, lemma_climb_stands, Growth};
use super::layers::{
    bare, cap, edges, graph_ok, lemma_offset, lemma_offset_apart, list_ok, nbrs, offset, stands_in,
    Lists,
};
use super::levels::{assign_levels, find_entry, levels_of, LAYER_LIMIT};
use super::slots::{ids_of, packed, LayerView, NodeKeys, QueryKeys};
use super::sq8::{
    codes_of, count_endpoints, encode_all, encode_query, endpoints, fit_scales, query_codes,
    scales_of, square_scales, weights_of, HnswSq8Stats,
};
use super::store::{
    between, code_row, euclidean_between, to_codes, to_query, vectors_of, vectors_ok, CodeQuery,
    FloatQuery, HnswVectorStorage, VectorStore, Vectors,
};
use crate::errors::AnnSearchErrors;
use crate::parallel::{par_try_map, split_results, KnnOptionResult, KnnResult};
use crate::utils::clock::{nanos_since, now};
use crate::utils::dist::Dist;
use crate::utils::float::{sequential_norm, AnnSearchFloat};
use crate::utils::math::least;
use crate::utils::matrix::{flat_row, lemma_row_bounds, matrix_to_flat, MatView, RowView};
use crate::utils::memory::{buffer_bytes, buffer_of, plus_bytes};
use crate::utils::ordered::{at_most, Entry};
use crate::utils::random::{seeded_words, small_rng_words};
use crate::utils::search_state::SearchState;
use vstd::layout::size_of;
use vstd::prelude::*;
use vstd::slice::slice_subrange;

verus! {

/// An index over a layered neighbour graph.
pub struct HnswIndex<T: AnnSearchFloat> {
    /// All vectors, one behind the other; empty where they are quantised.
    pub vectors_flat: Vec<T>,
    /// The number of dimensions.
    pub dim: usize,
    /// The number of vectors.
    pub n: usize,
    /// The norms of the vectors, for the cosine metric; otherwise empty.
    pub norms: Vec<T>,
    /// How the vectors are kept.
    pub storage: HnswVectorStorage<T::Narrow>,
    /// The metric.
    pub metric: Dist,
    /// The highest layer of every node.
    pub layer_assignments: Vec<u8>,
    /// The slots of all nodes, one node behind the other.
    pub neighbours_flat: Vec<u32>,
    /// Where the slots of every node begin.
    pub neighbour_offsets: Vec<usize>,
    /// The node where every query begins.
    pub entry_point: u32,
    /// The highest layer.
    pub max_layer: u8,
    /// How many neighbours a node keeps in the layers above the base layer.
    pub m: usize,
    /// How many candidates a search keeps during construction.
    pub ef_construction: usize,
    /// Whether the candidates are extended by their neighbours. They never are.
    pub extend_candidates: bool,
    /// The ids of the vectors.
    pub original_ids: Vec<usize>,
}

/// Climb towards a query in every layer from `layer` down to the one above the base layer.
pub open spec fn descend_query(
    g: Lists,
    key: spec_fn(usize) -> u64,
    numbered: spec_fn(usize) -> bool,
    layer: int,
    cur: usize,
) -> usize
    decreases layer,
{
    if layer <= 0 {
        cur
    } else {
        descend_query(
            g,
            key,
            numbered,
            layer - 1,
            climb_query(edges(g, layer), key, numbered, cur),
        )
    }
}

/// A descent ends at a node of the base layer.
pub proof fn lemma_descend_query(
    g: Lists,
    m: nat,
    key: spec_fn(usize) -> u64,
    numbered: spec_fn(usize) -> bool,
    layer: int,
    cur: usize,
)
    requires
        graph_ok(g, m),
        layer >= 0,
        stands_in(g, layer, cur),
    ensures
        stands_in(g, 0, descend_query(g, key, numbered, layer, cur)),
    decreases layer,
{
    if layer > 0 {
        lemma_climb_stands(g, m, layer, key, cur);
        lemma_descend_query(
            g,
            m,
            key,
            numbered,
            layer - 1,
            climb_query(edges(g, layer), key, numbered, cur),
        );
    }
}

/// Towards a query whose distances are all numbers a descent climbs in every layer.
pub proof fn law_descend_query_numbers(
    g: Lists,
    key: spec_fn(usize) -> u64,
    numbered: spec_fn(usize) -> bool,
    layer: int,
    cur: usize,
)
    requires
        forall|v: usize| #[trigger] numbered(v),
    ensures
        descend_query(g, key, numbered, layer, cur) == descend(g, key, layer, 1, cur),
    decreases layer,
{
    if layer > 0 {
        assert(numbered(cur));
        law_descend_query_numbers(
            g,
            key,
            numbered,
            layer - 1,
            climb(edges(g, layer), key, cur),
        );
    }
}

/// What a query finds in a graph: the first `k` results of a search in the base layer that begins
/// where a greedy descent through the upper layers ends.
pub open spec fn found(
    g: Lists,
    top: int,
    ep: usize,
    key: spec_fn(usize) -> u64,
    numbered: spec_fn(usize) -> bool,
    k: usize,
    ef_search: usize,
) -> Seq<Entry> {
    let ef: nat = if ef_search >= k {
        ef_search as nat
    } else {
        k as nat
    };
    at_most(
        search(edges(g, 0), key, ef, g.len(), descend_query(g, key, numbered, top, ep)),
        k as nat,
    )
}

/// The distances of found nodes.
pub open spec fn distances_of<T>(s: Seq<Entry>, dist: spec_fn(int) -> T) -> Seq<T> {
    Seq::new(s.len(), |i: int| dist(s[i].1 as int))
}

impl<T: AnnSearchFloat> HnswIndex<T> {
    /// The neighbours of every node at every layer it stands in.
    pub open spec fn graph(&self) -> Lists {
        flat_of(
            self.neighbours_flat@,
            self.neighbour_offsets@,
            self.layer_assignments@,
            self.m as nat,
        )
    }

    /// What distances depend on.
    pub open spec fn vectors(&self) -> Vectors<T> {
        vectors_of(self.vectors_flat@, self.norms@, self.storage, self.dim, self.metric)
    }

    /// The vectors and the graph of the index are in order.
    pub open spec fn wf(&self) -> bool {
        &&& vectors_ok(self.vectors(), self.n as int)
        &&& self.layer_assignments@.len() == self.n
        &&& flat_ok(
            self.neighbours_flat@,
            self.neighbour_offsets@,
            self.layer_assignments@,
            self.m as nat,
        )
        &&& self.n > 0 ==> entry_of(
            self.layer_assignments@,
            self.max_layer,
            self.entry_point as usize,
        )
        &&& self.original_ids@ == Seq::new(self.n as nat, |i: int| i as usize)
    }

    /// The distance from a query to a vector of the index.
    pub open spec fn query_distance(&self, query: Seq<T>) -> spec_fn(int) -> T {
        |i: int|
            match self.vectors().codes {
                None => to_query(self.vectors(), query, i),
                Some(q) => to_codes(self.vectors(), query_codes(query, q.1), i),
            }
    }

    /// The distance from a vector of the index, taken as a query, to a vector of the index.
    pub open spec fn self_distance(&self, node: int) -> spec_fn(int) -> T {
        |i: int|
            match self.vectors().codes {
                None => to_query(
                    self.vectors(),
                    flat_row(self.vectors().flat, self.vectors().dim, node),
                    i,
                ),
                Some(q) => to_codes(
                    self.vectors(),
                    flat_row(q.0, self.vectors().dim, node),
                    i,
                ),
            }
    }

    /// What a query finds when distances are given.
    pub open spec fn found_by(
        &self,
        dist: spec_fn(int) -> T,
        k: usize,
        ef_search: usize,
    ) -> Seq<Entry> {
        found(
            self.graph(),
            self.max_layer as int,
            self.entry_point as usize,
            |v: usize| dist(v as int).rank(),
            |v: usize| dist(v as int).number_spec(),
            k,
            ef_search,
        )
    }

    /// The query found the vector, or it found `k` vectors that are all at least as near.
    pub open spec fn exact_at(
        &self,
        dist: spec_fn(int) -> T,
        k: usize,
        ef_search: usize,
        v: usize,
    ) -> bool {
        let s = self.found_by(dist, k, ef_search);
        ids(s).contains(v) || (s.len() == k && forall|i: int|
            0 <= i < s.len() ==> (#[trigger] s[i]).0 <= dist(v as int).rank())
    }

    /// What the graph of the index is like.
    pub proof fn lemma_graph(&self)
        requires
            self.wf(),
        ensures
            self.graph().len() == self.n,
            graph_ok(self.graph(), self.m as nat),
            forall|l: int, v: usize| #[trigger]
                stands_in(self.graph(), l, v) <==> v < self.n && 0 <= l
                    <= self.layer_assignments@[v as int],
            self.n > 0 ==> stands_in(
                self.graph(),
                self.max_layer as int,
                self.entry_point as usize,
            ),
    {
    }

    /// The slots of a node at a layer that it stands in lie within the slots of all nodes.
    proof fn lemma_slots(&self, node_id: usize, layer: u8)
        requires
            self.wf(),
            node_id < self.n,
            layer <= self.layer_assignments@[node_id as int],
        ensures
            ({
                let m = self.m as nat;
                let start = self.neighbour_offsets@[node_id as int] + offset(m, layer as int);
                &&& self.neighbour_offsets@[node_id as int] <= start
                &&& start + cap(m, layer as int) <= self.neighbours_flat@.len()
                &&& ids_of(
                    self.neighbours_flat@.subrange(start, start + cap(m, layer as int)),
                ) == nbrs(self.graph(), layer as int, node_id)
                &&& packed(self.neighbours_flat@.subrange(start, start + cap(m, layer as int)))
            }),
    {
        let m = self.m as nat;
        let v = node_id as int;
        let level = self.layer_assignments@[v] as int;
        let base = self.neighbour_offsets@[v] as int;
        let slots = flat_slots(
            self.neighbours_flat@,
            self.neighbour_offsets@,
            self.layer_assignments@,
            m,
            v,
        );
        let start = base + offset(m, layer as int);
        lemma_offset(m, layer as int);
        lemma_offset(m, level);
        if layer < level {
            lemma_offset_apart(m, layer as int, level + 1);
        }
        assert(base + offset(m, level + 1) <= self.neighbours_flat@.len());
        assert(slots_ok(slots, m, level));
        assert(self.neighbours_flat@.subrange(start, start + cap(m, layer as int)) =~= block(
            slots,
            m,
            layer as int,
        ));
    }

    /// Where the slots of a node at a layer begin.
    pub fn neighbours_offset(&self, node_id: usize, layer: u8) -> (r: usize)
        requires
            self.wf(),
            node_id < self.n,
            layer <= self.layer_assignments@[node_id as int],
        ensures
            r == self.neighbour_offsets@[node_id as int] + offset(self.m as nat, layer as int),
    {
        let base: usize = self.neighbour_offsets[node_id];
        let len: usize = self.neighbours_flat.len();
        proof {
            self.lemma_slots(node_id, layer);
        }
        if layer == 0 {
            base
        } else {
            proof {
                let (m, l) = (self.m as int, layer as int);
                assert((l - 1) * m == m * (l - 1)) by (nonlinear_arith);
                assert(m * (l - 1) >= 0) by (nonlinear_arith)
                    requires
                        m >= 0,
                        l >= 1,
                ;
            }
            base + self.m * 2 + self.m * (layer as usize - 1)
        }
    }

    /// How many neighbours a node may have at a layer.
    pub fn max_neighbours_for_layer(&self, layer: u8) -> (r: usize)
        requires
            self.wf(),
        ensures
            r == cap(self.m as nat, layer as int),
    {
        if layer == 0 {
            self.m * 2
        } else {
            self.m
        }
    }

    /// The slots of a node at a layer; none where the node does not stand in the layer.
    pub fn get_neighbours_at_layer(&self, node_id: usize, layer: u8) -> (r: &[u32])
        requires
            self.wf(),
            node_id < self.n,
        ensures
            ids_of(r@) == nbrs(self.graph(), layer as int, node_id),
            packed(r@),
            r@.len() == if layer <= self.layer_assignments@[node_id as int] {
                cap(self.m as nat, layer as int)
            } else {
                0
            },
    {
        if layer > self.layer_assignments[node_id] {
            let r = slice_subrange(self.neighbours_flat.as_slice(), 0, 0);
            assert(ids_of(r@) =~= Seq::<usize>::empty());
            return r;
        }
        let len: usize = self.neighbours_flat.len();
        proof {
            self.lemma_slots(node_id, layer);
        }
        let start: usize = self.neighbours_offset(node_id, layer);
        let count: usize = self.max_neighbours_for_layer(layer);
        slice_subrange(self.neighbours_flat.as_slice(), start, start + count)
    }

    /// The vectors of the index.
    pub fn store(&self) -> (r: VectorStore<'_, T>)
        ensures
            r.vectors() == self.vectors(),
            r.n == self.n,
            r.dim == self.dim,
            r.metric == self.metric,
            *r.storage == self.storage,
    {
        VectorStore {
            vectors_flat: self.vectors_flat.as_slice(),
            norms: self.norms.as_slice(),
            storage: &self.storage,
            dim: self.dim,
            n: self.n,
            metric: self.metric,
        }
    }

    /// Check that a vector has the dimensions of the index.
    pub fn check_dim(&self, actual: usize) -> (r: Result<(), AnnSearchErrors>)
        ensures
            r == if actual == self.dim {
                Ok::<(), AnnSearchErrors>(())
            } else {
                Err(AnnSearchErrors::DimensionMismatch { expected: self.dim, actual })
            },
    {
        if actual == self.dim {
            Ok(())
        } else {
            Err(AnnSearchErrors::DimensionMismatch { expected: self.dim, actual })
        }
    }

    /// Descend greedily at one layer. A node whose distance is no number is not left.
    pub fn greedy_search_layer_query<K: QueryKeys>(
        &self,
        start_node: usize,
        layer: u8,
        keys: &K,
    ) -> (r: usize)
        requires
            self.wf(),
            keys.wf(),
            keys.size() == self.n,
            start_node < self.n,
        ensures
            r == climb_query(
                edges(self.graph(), layer as int),
                |v: usize| keys.key(v),
                |v: usize| keys.numbered(v),
                start_node,
            ),
            r < self.n,
    {
        let view = IndexLayer { index: self, layer };
        proof {
            self.lemma_graph();
            assert((|v: usize| view.adj(v)) =~= edges(self.graph(), layer as int));
        }
        if keys.is_numbered(start_node) {
            greedy_search_layer(&view, keys, start_node)
        } else {
            start_node
        }
    }

    /// Search the nearest nodes of one layer.
    pub fn search_layer_query<K: NodeKeys>(
        &self,
        layer: u8,
        entry_node: usize,
        ef: usize,
        state: &mut SearchState,
        keys: &K,
    )
        requires
            self.wf(),
            keys.wf(),
            keys.size() == self.n,
            entry_node < self.n,
        ensures
            final(state).wf(),
            final(state).working_sorted@ == search(
                edges(self.graph(), layer as int),
                |v: usize| keys.key(v),
                ef as nat,
                self.n as nat,
                entry_node,
            ),
    {
        let view = IndexLayer { index: self, layer };
        proof {
            self.lemma_graph();
            assert((|v: usize| view.adj(v)) =~= edges(self.graph(), layer as int));
        }
        search_layer(&view, keys, entry_node, ef, self.n, state);
    }

    /// Find the nearest nodes, given the keys of the distances to all nodes.
    pub fn query_with_distance<K: QueryKeys>(
        &self,
        k: usize,
        ef_search: usize,
        keys: &K,
    ) -> (r: Vec<Entry>)
        requires
            self.wf(),
            self.n > 0,
            keys.wf(),
            keys.size() == self.n,
        ensures
            r@ == found(
                self.graph(),
                self.max_layer as int,
                self.entry_point as usize,
                |v: usize| keys.key(v),
                |v: usize| keys.numbered(v),
                k,
                ef_search,
            ),
            forall|i: int| 0 <= i < r@.len() ==> (#[trigger] r@[i]).1 < self.n,
    {
        let ghost g = self.graph();
        let ghost key = |v: usize| keys.key(v);
        let ghost numbered = |v: usize| keys.numbered(v);
        proof {
            self.lemma_graph();
        }
        let mut current: usize = self.entry_point as usize;
        let mut layer: u8 = self.max_layer;
        while layer > 0
            invariant
                self.wf(),
                g == self.graph(),
                graph_ok(g, self.m as nat),
                keys.wf(),
                keys.size() == self.n,
                g.len() == self.n,
                key == (|v: usize| keys.key(v)),
                numbered == (|v: usize| keys.numbered(v)),
                stands_in(g, layer as int, current),
                descend_query(g, key, numbered, layer as int, current) == descend_query(
                    g,
                    key,
                    numbered,
                    self.max_layer as int,
                    self.entry_point as usize,
                ),
            decreases layer,
        {
            proof {
                lemma_climb_stands(g, self.m as nat, layer as int, key, current);
            }
            current = self.greedy_search_layer_query(current, layer, keys);
            layer = layer - 1;
        }
        let ef: usize = if ef_search >= k {
            ef_search
        } else {
            k
        };
        let mut state = SearchState::new(self.n);
        self.search_layer_query(0, current, ef, &mut state, keys);
        let all = state.working_sorted.data();
        let ghost w = search(edges(g, 0), key, ef as nat, g.len(), current);
        proof {
            lemma_results_in_range(g, self.m as nat, key, ef as nat, current);
            assert(all@ == w);
        }
        let mut r: Vec<Entry> = Vec::new();
        let mut i: usize = 0;
        while i < all.len() && i < k
            invariant
                i <= all@.len(),
                i <= k,
                r@ == all@.take(i as int),
            decreases all.len() - i,
        {
            r.push(all[i]);
            proof {
                assert(r@ =~= all@.take(i + 1));
            }
            i += 1;
        }
        proof {
            assert(r@ =~= at_most(w, k as nat));
        }
        r
    }

    /// Find the nearest vectors to a query, nearest first, with their distances. A query with other
    /// dimensions than the index is refused.
    pub fn query(&self, query: &[T], k: usize, ef_search: usize) -> (r: KnnResult<T>)
        requires
            self.wf(),
            query@.len() == self.dim ==> self.n > 0,
        ensures
            r matches Err(e) ==> query@.len() != self.dim && e
                == (AnnSearchErrors::DimensionMismatch {
                expected: self.dim,
                actual: query@.len() as usize,
            }),
            r matches Ok(res) ==> query@.len() == self.dim && ({
                let s = self.found_by(self.query_distance(query@), k, ef_search);
                res.0@ == ids(s) && res.1@ == distances_of(s, self.query_distance(query@))
            }),
    {
        match self.check_dim(query.len()) {
            Err(e) => {
                return Err(e);
            },
            Ok(_) => {},
        }
        let store = self.store();
        let ghost dist = self.query_distance(query@);
        match &self.storage {
            HnswVectorStorage::Float => {
                let query_norm: T = if self.metric == Dist::Cosine {
                    sequential_norm(query)
                } else {
                    T::one()
                };
                let keys = FloatQuery { store: &store, query, query_norm };
                assert((|v: usize| keys.key(v)) =~= (|v: usize| dist(v as int).rank()));
                assert((|v: usize| keys.numbered(v)) =~= (|v: usize|
                    dist(v as int).number_spec()));
                let hits = self.query_with_distance(k, ef_search, &keys);
                let mut indices: Vec<usize> = Vec::new();
                let mut distances: Vec<T> = Vec::new();
                let mut i: usize = 0;
                while i < hits.len()
                    invariant
                        i <= hits@.len(),
                        forall|j: int| 0 <= j < hits@.len() ==> (#[trigger] hits@[j]).1 < self.n,
                        keys.wf(),
                        keys.store == &store,
                        keys.query == query,
                        keys.query_norm == query_norm,
                        store.n == self.n,
                        store.vectors() == self.vectors(),
                        dist == self.query_distance(query@),
                        self.vectors().codes.is_none(),
                        indices@ == ids(hits@).take(i as int),
                        distances@ == distances_of(hits@, dist).take(i as int),
                    decreases hits.len() - i,
                {
                    let id: usize = hits[i].1;
                    assert(hits@[i as int].1 < self.n);
                    indices.push(id);
                    distances.push(store.compute_float_query_distance(query, id, query_norm));
                    proof {
                        assert(indices@ =~= ids(hits@).take(i + 1));
                        assert(distances@ =~= distances_of(hits@, dist).take(i + 1));
                    }
                    i += 1;
                }
                assert(indices@ =~= ids(hits@));
                assert(distances@ =~= distances_of(hits@, dist));
                Ok((indices, distances))
            },
            HnswVectorStorage::Sq8 { weights, .. } => {
                let codes = encode_query(query, weights.as_slice());
                proof {
                    let q = self.vectors().codes->Some_0;
                    assert((|i: int| to_codes(self.vectors(), codes@, i)) =~= dist);
                }
                Ok(self.query_sq8_codes(codes.as_slice(), k, ef_search))
            },
        }
    }

    /// Find the nearest vectors to a query that is given as codes.
    pub fn query_sq8_codes(&self, query: &[i8], k: usize, ef_search: usize) -> (r: (
        Vec<usize>,
        Vec<T>,
    ))
        requires
            self.wf(),
            self.n > 0,
            self.vectors().codes.is_some(),
            query@.len() == self.dim,
        ensures
            ({
                let dist = |i: int| to_codes(self.vectors(), query@, i);
                let s = self.found_by(dist, k, ef_search);
                r.0@ == ids(s) && r.1@ == distances_of(s, dist)
            }),
    {
        let store = self.store();
        let keys = CodeQuery { store: &store, query };
        let ghost dist = |i: int| to_codes(self.vectors(), query@, i);
        assert((|v: usize| keys.key(v)) =~= (|v: usize| dist(v as int).rank()));
        assert((|v: usize| keys.numbered(v)) =~= (|v: usize| dist(v as int).number_spec()));
        let hits = self.query_with_distance(k, ef_search, &keys);
        let mut indices: Vec<usize> = Vec::new();
        let mut distances: Vec<T> = Vec::new();
        let mut i: usize = 0;
        while i < hits.len()
            invariant
                i <= hits@.len(),
                forall|j: int| 0 <= j < hits@.len() ==> (#[trigger] hits@[j]).1 < self.n,
                keys.wf(),
                keys.store == &store,
                keys.query == query,
                store.n == self.n,
                store.vectors() == self.vectors(),
                dist == (|i: int| to_codes(self.vectors(), query@, i)),
                indices@ == ids(hits@).take(i as int),
                distances@ == distances_of(hits@, dist).take(i as int),
            decreases hits.len() - i,
        {
            let id: usize = hits[i].1;
            assert(hits@[i as int].1 < self.n);
            indices.push(id);
            distances.push(keys.distance(id));
            proof {
                assert(indices@ =~= ids(hits@).take(i + 1));
                assert(distances@ =~= distances_of(hits@, dist).take(i + 1));
            }
            i += 1;
        }
        assert(indices@ =~= ids(hits@));
        assert(distances@ =~= distances_of(hits@, dist));
        (indices, distances)
    }

    /// Find the nearest vectors to a row of a matrix. A row whose numbers stand side by side is
    /// read in place, any other is copied.
    pub fn query_row(&self, query_row: &RowView<T>, k: usize, ef_search: usize) -> (r: KnnResult<T>)
        requires
            self.wf(),
            query_row.ncols == self.dim ==> self.n > 0,
            query_row.wf(),
        ensures
            r matches Err(e) ==> query_row.ncols != self.dim && e
                == (AnnSearchErrors::DimensionMismatch {
                expected: self.dim,
                actual: query_row.ncols,
            }),
            r matches Ok(res) ==> query_row.ncols == self.dim && ({
                let dist = self.query_distance(query_row.values());
                let s = self.found_by(dist, k, ef_search);
                res.0@ == ids(s) && res.1@ == distances_of(s, dist)
            }),
    {
        match query_row.contiguous() {
            Some(query) => self.query(query, k, ef_search),
            None => {
                let query = query_row.to_vec();
                self.query(query.as_slice(), k, ef_search)
            },
        }
    }

    /// Find the nearest vectors to a vector of the index.
    pub fn query_member(&self, i: usize, k: usize, ef_search: usize) -> (r: KnnResult<T>)
        requires
            self.wf(),
            i < self.n,
        ensures
            r matches Ok(res) && ({
                let dist = self.self_distance(i as int);
                let s = self.found_by(dist, k, ef_search);
                res.0@ == ids(s) && res.1@ == distances_of(s, dist)
            }),
    {
        let ghost dist = self.self_distance(i as int);
        match &self.storage {
            HnswVectorStorage::Float => {
                let store = self.store();
                let query = store.vector(i);
                assert(self.query_distance(query@) =~= dist);
                self.query(query, k, ef_search)
            },
            HnswVectorStorage::Sq8 { codes, .. } => {
                let query = code_row(codes.as_slice(), self.n, self.dim, i);
                assert((|j: int| to_codes(self.vectors(), query@, j)) =~= dist);
                Ok(self.query_sq8_codes(query, k, ef_search))
            },
        }
    }

    /// Find the nearest vectors to every vector of the index, in parallel. Row `i` belongs to
    /// vector `i`.
    pub fn generate_knn(&self, k: usize, ef_search: usize, return_dist: bool) -> (r:
        KnnOptionResult<T>)
        requires
            self.wf(),
        ensures
            r matches Ok(res) && res.0@.len() == self.n && (res.1.is_some() == return_dist) && (
            res.1 matches Some(d) ==> d@.len() == self.n) && forall|i: int|
                0 <= i < self.n ==> {
                    let dist = self.self_distance(i);
                    let s = self.found_by(dist, k, ef_search);
                    (#[trigger] res.0@[i])@ == ids(s) && (res.1 matches Some(d) ==> d@[i]@
                        == distances_of(s, dist))
                },
    {
        let row = |i: usize| -> (res: KnnResult<T>)
            requires
                self.wf(),
                i < self.n,
            ensures
                res matches Ok(pair) && ({
                    let dist = self.self_distance(i as int);
                    let s = self.found_by(dist, k, ef_search);
                    pair.0@ == ids(s) && pair.1@ == distances_of(s, dist)
                }),
            { self.query_member(i, k, ef_search) };
        match par_try_map(self.n, row) {
            Err(e) => {
                proof {
                    assert(false);
                }
                Err(e)
            },
            Ok(results) => {
                let ghost all = results@;
                let r = split_results(results, return_dist);
                proof {
                    assert forall|i: int| 0 <= i < self.n implies {
                        let dist = self.self_distance(i);
                        let s = self.found_by(dist, k, ef_search);
                        (#[trigger] r.0@[i])@ == ids(s) && (r.1 matches Some(d) ==> d@[i]@
                            == distances_of(s, dist))
                    } by {
                        let at = i as usize;
                        assert(call_ensures(
                            row,
                            (at,),
                            Ok::<(Vec<usize>, Vec<T>), AnnSearchErrors>(all[at as int]),
                        ));
                        assert(r.0@[i] == all[i].0);
                    }
                }
                Ok(r)
            },
        }
    }

    /// Quantise vectors, and let go of the vectors themselves.
    fn quantise(vectors_flat: Vec<T>, n: usize, dim: usize) -> (r: HnswVectorStorage<T::Narrow>)
        requires
            vectors_flat@.len() == n * dim,
            dim > 0,
        ensures
            sq8_storage(r, vectors_flat@, n as int, dim as int),
    {
        let start = now();
        let scales = fit_scales(vectors_flat.as_slice(), n, dim);
        let codes = encode_all(vectors_flat.as_slice(), n, dim, scales.as_slice());
        let endpoint_codes: usize = count_endpoints(codes.as_slice());
        let weights = square_scales(scales.as_slice());
        let stats = HnswSq8Stats {
            quantization_nanos: nanos_since(&start),
            endpoint_codes,
            clipped_values: 0,
        };
        HnswVectorStorage::Sq8 { codes, weights, stats }
    }

    /// Build an index whose nodes have the given highest layers.
    pub fn from_levels(
        data: &MatView<T>,
        m: usize,
        ef_construction: usize,
        metric: Dist,
        levels: Vec<u8>,
        sq8: bool,
    ) -> (r: Self)
        requires
            data.wf(),
            data.nrows * data.ncols <= usize::MAX,
            data.nrows <= u32::MAX,
            levels@.len() == data.nrows,
            m * 2 <= usize::MAX,
            forall|i: int|
                0 <= i < levels@.len() ==> m * 2 + (#[trigger] levels@[i]) * m <= usize::MAX,
            sq8 ==> data.ncols > 0,
        ensures
            r.wf(),
            r.built_from(data, m, ef_construction, metric, levels@, sq8),
    {
        let (flat, n, dim) = matrix_to_flat(data);
        let mut norms: Vec<T> = Vec::new();
        if metric == Dist::Cosine {
            let mut i: usize = 0;
            let len: usize = flat.len();
            while i < n
                invariant
                    i <= n,
                    len == flat@.len(),
                    len == n * dim,
                    n == data.nrows,
                    dim == data.ncols,
                    forall|k: int|
                        0 <= k < n ==> #[trigger] flat_row(flat@, dim as int, k)
                            == data.row_values(k),
                    norms@ == norms_of(data).take(i as int),
                decreases n - i,
            {
                proof {
                    lemma_row_bounds(i as int, n as int, dim as int);
                }
                let start: usize = i * dim;
                let row = slice_subrange(flat.as_slice(), start, start + dim);
                assert(row@ == flat_row(flat@, dim as int, i as int));
                norms.push(T::calculate_l2_norm(row));
                proof {
                    assert(norms@ =~= norms_of(data).take(i + 1));
                }
                i += 1;
            }
            assert(norms@ =~= norms_of(data));
        }
        let ghost raw = flat@;
        let mut vectors_flat: Vec<T> = Vec::new();
        let storage: HnswVectorStorage<T::Narrow> = if sq8 {
            Self::quantise(flat, n, dim)
        } else {
            vectors_flat = flat;
            HnswVectorStorage::Float
        };
        let ghost vectors = vectors_of(vectors_flat@, norms@, storage, dim, metric);
        let (max_layer, entry) = find_entry(levels.as_slice());
        let mut graph = ConstructionGraph::new(n, levels.as_slice(), m);
        if n > 0 {
            let store = VectorStore {
                vectors_flat: vectors_flat.as_slice(),
                norms: norms.as_slice(),
                storage: &storage,
                dim,
                n,
                metric,
            };
            proof {
                assert(store.vectors() == vectors);
                assert((|a: usize, b: usize| super::diversity::PairKeys::pair(&store, a, b)) =~= (
                |a: usize, b: usize| between(vectors, a as int, b as int).rank()));
            }
            build_graph(&mut graph, levels.as_slice(), &store, ef_construction, max_layer, entry);
        }
        let (neighbours_flat, neighbour_offsets, layer_assignments) = graph.into_flat();
        let mut original_ids: Vec<usize> = Vec::new();
        let mut i: usize = 0;
        while i < n
            invariant
                i <= n,
                original_ids@ == Seq::new(i as nat, |j: int| j as usize),
            decreases n - i,
        {
            original_ids.push(i);
            proof {
                assert(original_ids@ =~= Seq::new((i + 1) as nat, |j: int| j as usize));
            }
            i += 1;
        }
        let index = HnswIndex {
            vectors_flat,
            dim,
            n,
            norms,
            storage,
            metric,
            layer_assignments,
            neighbours_flat,
            neighbour_offsets,
            entry_point: entry as u32,
            max_layer,
            m,
            ef_construction,
            extend_candidates: false,
            original_ids,
        };
        proof {
            assert(index.vectors() == vectors);
            assert(index.layer_assignments@ == levels@);
            if n == 0 {
                assert(bare(levels@) =~= Seq::empty());
            }
        }
        index
    }

    /// Build an index; the layers of its nodes come from random words drawn for the seed.
    pub fn build(
        data: &MatView<T>,
        m: usize,
        ef_construction: usize,
        metric: &Dist,
        seed: usize,
    ) -> (r: Self)
        requires
            data.wf(),
            data.nrows * data.ncols <= usize::MAX,
            data.nrows <= u32::MAX,
            m * 17 <= usize::MAX,
            m != 1 || data.nrows == 0,
        ensures
            r.wf(),
            r.built_from(
                data,
                m,
                ef_construction,
                *metric,
                levels_of::<T>(
                    small_rng_words(usize::BITS, seed as u64, data.nrows as nat),
                    m,
                ),
                false,
            ),
    {
        Self::build_impl(data, m, ef_construction, metric, seed, false)
    }

    /// Build an index by squared Euclidean distance over vectors that are quantised to one byte per
    /// dimension.
    pub fn build_sq8(data: &MatView<T>, m: usize, ef_construction: usize, seed: usize) -> (r: Self)
        requires
            data.wf(),
            data.nrows * data.ncols <= usize::MAX,
            data.nrows <= u32::MAX,
            m * 17 <= usize::MAX,
            m != 1 || data.nrows == 0,
            data.ncols > 0,
        ensures
            r.wf(),
            r.built_from(
                data,
                m,
                ef_construction,
                Dist::SquaredEuclidean,
                levels_of::<T>(
                    small_rng_words(usize::BITS, seed as u64, data.nrows as nat),
                    m,
                ),
                true,
            ),
    {
        Self::build_impl(data, m, ef_construction, &Dist::SquaredEuclidean, seed, true)
    }

    /// Draw random words for the seed, assign the nodes to layers, and build the index.
    fn build_impl(
        data: &MatView<T>,
        m: usize,
        ef_construction: usize,
        metric: &Dist,
        seed: usize,
        sq8: bool,
    ) -> (r: Self)
        requires
            data.wf(),
            data.nrows * data.ncols <= usize::MAX,
            data.nrows <= u32::MAX,
            m * 17 <= usize::MAX,
            sq8 ==> data.ncols > 0,
        ensures
            r.wf(),
            r.built_from(
                data,
                m,
                ef_construction,
                *metric,
                levels_of::<T>(
                    small_rng_words(usize::BITS, seed as u64, data.nrows as nat),
                    m,
                ),
                sq8,
            ),
    {
        let words = seeded_words(seed as u64, data.nrows);
        let levels = assign_levels::<T>(words.as_slice(), m);
        proof {
            assert forall|i: int| 0 <= i < levels@.len() implies m * 2 + (#[trigger] levels@[i]) * m
                <= usize::MAX by {
                let (l, w) = (levels@[i] as int, m as int);
                assert(l <= LAYER_LIMIT);
                assert(l * w <= 15 * w) by (nonlinear_arith)
                    requires
                        0 <= l <= 15,
                        w >= 0,
                ;
            }
        }
        Self::from_levels(data, m, ef_construction, *metric, levels, sq8)
    }

    /// Find the nearest vectors with the search width used for validation.
    pub fn query_for_validation(&self, query_vec: &[T], k: usize) -> (r: KnnResult<T>)
        requires
            self.wf(),
            query_vec@.len() == self.dim ==> self.n > 0,
        ensures
            r matches Err(e) ==> query_vec@.len() != self.dim && e
                == (AnnSearchErrors::DimensionMismatch {
                expected: self.dim,
                actual: query_vec@.len() as usize,
            }),
            r matches Ok(res) ==> query_vec@.len() == self.dim && ({
                let s = self.found_by(self.query_distance(query_vec@), k, 200);
                res.0@ == ids(s) && res.1@ == distances_of(s, self.query_distance(query_vec@))
            }),
    {
        self.query(query_vec, k, 200)
    }

    /// The squared Euclidean distance between two vectors of the index.
    pub fn euclidean_distance(&self, i: usize, j: usize) -> (r: T)
        requires
            self.wf(),
            i < self.n,
            j < self.n,
        ensures
            r == euclidean_between(self.vectors(), i as int, j as int),
    {
        self.store().euclidean_distance(i, j)
    }

    /// Whether candidates were extended by their neighbours.
    pub fn extend_candidates(&self) -> (r: bool)
        ensures
            r == self.extend_candidates,
    {
        self.extend_candidates
    }

    /// Diagnostics of the quantisation; none where the vectors are kept as they are.
    pub fn sq8_stats(&self) -> (r: Option<HnswSq8Stats>)
        ensures
            r == match self.storage {
                HnswVectorStorage::Float => None,
                HnswVectorStorage::Sq8 { stats, .. } => Some(stats),
            },
    {
        match &self.storage {
            HnswVectorStorage::Float => None,
            HnswVectorStorage::Sq8 { stats, .. } => Some(*stats),
        }
    }

    /// `bytes` are the sizes of the buffers of the index.
    pub open spec fn buffers(&self, bytes: Seq<usize>) -> bool {
        &&& bytes.len() == 8
        &&& buffer_of::<T>(self.vectors_flat@.len(), bytes[0])
        &&& buffer_of::<T>(self.norms@.len(), bytes[1])
        &&& buffer_of::<u8>(self.layer_assignments@.len(), bytes[2])
        &&& buffer_of::<u32>(self.neighbours_flat@.len(), bytes[3])
        &&& buffer_of::<usize>(self.neighbour_offsets@.len(), bytes[4])
        &&& buffer_of::<usize>(self.original_ids@.len(), bytes[5])
        &&& match self.storage {
            HnswVectorStorage::Float => bytes[6] == 0 && bytes[7] == 0,
            HnswVectorStorage::Sq8 { codes, weights, .. } => buffer_of::<i8>(
                codes@.len(),
                bytes[6],
            ) && buffer_of::<T::Narrow>(weights@.len(), bytes[7]),
        }
    }

    /// The memory of the index: of the index itself and of all its buffers.
    pub fn memory_usage_bytes(&self) -> (r: usize)
        ensures
            exists|bytes: Seq<usize>| #[trigger]
                self.buffers(bytes) && r == least(
                    size_of::<Self>() + bytes[0] + bytes[1] + bytes[2] + bytes[3] + bytes[4]
                        + bytes[5] + bytes[6] + bytes[7],
                    usize::MAX as int,
                ),
    {
        let vectors: usize = buffer_bytes(&self.vectors_flat);
        let norms: usize = buffer_bytes(&self.norms);
        let levels: usize = buffer_bytes(&self.layer_assignments);
        let slots: usize = buffer_bytes(&self.neighbours_flat);
        let offsets: usize = buffer_bytes(&self.neighbour_offsets);
        let ids: usize = buffer_bytes(&self.original_ids);
        let (codes, weights): (usize, usize) = match &self.storage {
            HnswVectorStorage::Float => (0, 0),
            HnswVectorStorage::Sq8 { codes, weights, .. } => (
                buffer_bytes(codes),
                buffer_bytes(weights),
            ),
        };
        let header: usize = core::mem::size_of::<Self>();
        let a: usize = plus_bytes(plus_bytes(plus_bytes(header, vectors), norms), levels);
        let b: usize = plus_bytes(plus_bytes(slots, offsets), ids);
        let c: usize = plus_bytes(codes, weights);
        proof {
            let bytes = seq![vectors, norms, levels, slots, offsets, ids, codes, weights];
            assert(self.buffers(bytes));
        }
        plus_bytes(plus_bytes(a, b), c)
    }

    /// All vectors, one behind the other.
    pub fn vectors_flat(&self) -> (r: &[T])
        ensures
            r@ == self.vectors_flat@,
    {
        self.vectors_flat.as_slice()
    }

    /// The norms of the vectors.
    pub fn norms(&self) -> (r: &[T])
        ensures
            r@ == self.norms@,
    {
        self.norms.as_slice()
    }

    /// The number of dimensions.
    pub fn dim(&self) -> (r: usize)
        ensures
            r == self.dim,
    {
        self.dim
    }

    /// The number of vectors.
    pub fn n(&self) -> (r: usize)
        ensures
            r == self.n,
    {
        self.n
    }

    /// The metric.
    pub fn metric(&self) -> (r: Dist)
        ensures
            r == self.metric,
    {
        self.metric
    }

    /// The ids of the vectors: their places in the data.
    pub fn original_ids(&self) -> (r: &[usize])
        requires
            self.wf(),
        ensures
            r@ == Seq::new(self.n as nat, |i: int| i as usize),
    {
        self.original_ids.as_slice()
    }

    /// How an index comes out of the data and the highest layers of its nodes.
    pub open spec fn built_from(
        &self,
        data: &MatView<T>,
        m: usize,
        ef_construction: usize,
        metric: Dist,
        levels: Seq<u8>,
        sq8: bool,
    ) -> bool {
        &&& self.n == data.nrows
        &&& self.dim == data.ncols
        &&& self.metric == metric
        &&& self.m == m
        &&& self.ef_construction == ef_construction
        &&& !self.extend_candidates
        &&& self.layer_assignments@ == levels
        &&& self.norms@ == if metric == Dist::Cosine {
            norms_of(data)
        } else {
            Seq::empty()
        }
        &&& if sq8 {
            self.vectors_flat@ == Seq::<T>::empty() && exists|flat: Seq<T>|
                flat_data(data, flat) && #[trigger] sq8_storage(
                    self.storage,
                    flat,
                    data.nrows as int,
                    data.ncols as int,
                )
        } else {
            self.storage == HnswVectorStorage::<T::Narrow>::Float && flat_data(
                data,
                self.vectors_flat@,
            )
        }
        &&& if data.nrows == 0 {
            self.max_layer == 0 && self.entry_point == 0
        } else {
            entry_of(levels, self.max_layer, self.entry_point as usize)
        }
        &&& self.graph() == if data.nrows == 0 {
            Seq::empty()
        } else {
            built(self.growth(), levels)
        }
    }

    /// What the insertion of nodes goes by.
    pub open spec fn growth(&self) -> Growth {
        Growth {
            pair: |a: usize, b: usize| between(self.vectors(), a as int, b as int).rank(),
            m: self.m as nat,
            ef: self.ef_construction as nat,
            top: self.max_layer as int,
            ep: self.entry_point as usize,
        }
    }
}

/// The numbers of a matrix, one row behind the other.
pub open spec fn flat_data<T: AnnSearchFloat>(data: &MatView<T>, flat: Seq<T>) -> bool {
    &&& flat.len() == data.nrows * data.ncols
    &&& forall|i: int|
        0 <= i < data.nrows ==> #[trigger] flat_row(flat, data.ncols as int, i)
            == data.row_values(i)
}

/// The norms of the rows of a matrix.
pub open spec fn norms_of<T: AnnSearchFloat>(data: &MatView<T>) -> Seq<T> {
    Seq::new(data.nrows as nat, |i: int| T::l2_norm_spec(data.row_values(i)))
}

/// The storage holds the codes and weights of the vectors.
pub open spec fn sq8_storage<T: AnnSearchFloat>(
    storage: HnswVectorStorage<T::Narrow>,
    flat: Seq<T>,
    n: int,
    dim: int,
) -> bool {
    match storage {
        HnswVectorStorage::Float => false,
        HnswVectorStorage::Sq8 { codes, weights, stats } => {
            &&& codes@ == codes_of(flat, dim, scales_of(flat, dim, n))
            &&& weights@ == weights_of(scales_of(flat, dim, n))
            &&& stats.endpoint_codes == endpoints(codes@)
            &&& stats.clipped_values == 0
        },
    }
}

/// The results of a search are nodes of the graph.
pub proof fn lemma_results_in_range(
    g: Lists,
    m: nat,
    key: spec_fn(usize) -> u64,
    ef: nat,
    cur: usize,
)
    requires
        graph_ok(g, m),
        stands_in(g, 0, cur),
    ensures
        forall|i: int|
            #![trigger search(edges(g, 0), key, ef, g.len(), cur)[i]]
            0 <= i < search(edges(g, 0), key, ef, g.len(), cur).len() ==> search(
                edges(g, 0),
                key,
                ef,
                g.len(),
                cur,
            )[i].1 < g.len(),
{
    super::insertion::lemma_edges_within(g, m, 0);
    super::beam_laws::lemma_search_bounded(edges(g, 0), key, ef, g.len(), cur);
    if ef >= 1 {
        super::beam_laws::law_search_results(edges(g, 0), key, ef, g.len(), cur);
    }
}

/// One layer of an index.
pub struct IndexLayer<'a, T: AnnSearchFloat> {
    pub index: &'a HnswIndex<T>,
    pub layer: u8,
}

impl<'a, T: AnnSearchFloat> LayerView for IndexLayer<'a, T> {
    open spec fn size(&self) -> nat {
        self.index.n as nat
    }

    open spec fn adj(&self, node: usize) -> Seq<usize> {
        nbrs(self.index.graph(), self.layer as int, node)
    }

    open spec fn wf(&self) -> bool {
        self.index.wf()
    }

    proof fn lemma_closed(&self) {
        self.index.lemma_graph();
        let g = self.index.graph();
        let l = self.layer as int;
        assert forall|node: usize, j: int|
            node < self.size() && 0 <= j < self.adj(node).len() implies (#[trigger] self.adj(
            node,
        )[j]) < self.size() by {
            assert(stands_in(g, l, node));
            assert(list_ok(g, self.index.m as nat, l, node, nbrs(g, l, node)));
            assert(stands_in(g, l, nbrs(g, l, node)[j]));
        }
    }

    fn slots(&self, node: usize) -> (r: &[u32]) {
        self.index.get_neighbours_at_layer(node, self.layer)
    }
}

} // verus!
