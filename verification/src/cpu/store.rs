//! The vectors of an index and the distances between them.
use super::diversity::PairKeys;
use super::slots::{NodeKeys, QueryKeys};
use super::sq8::{sq8_weighted_l2, weighted_l2, HnswSq8Stats};
use crate::utils::dist::Dist;
use crate::utils::float::{plain_norm, AnnSearchFloat};
use crate::utils::matrix::{flat_row, lemma_row_bounds};
use vstd::prelude::*;
use vstd::slice::slice_subrange;

verus! {

/// How the vectors of an index are kept.
pub enum HnswVectorStorage<N> {
    /// As they are.
    Float,
    /// As codes of one byte per dimension.
    Sq8 {
        /// The codes of all vectors, one vector behind the other.
        codes: Vec<i8>,
        /// The squares of the scales.
        weights: Vec<N>,
        /// Diagnostics of the quantisation.
        stats: HnswSq8Stats,
    },
}

/// What distances depend on.
pub struct Vectors<T: AnnSearchFloat> {
    /// All vectors, one behind the other; unused where there are codes.
    pub flat: Seq<T>,
    /// The norms of the vectors, for the cosine metric.
    pub norms: Seq<T>,
    /// The number of dimensions.
    pub dim: int,
    /// The metric.
    pub metric: Dist,
    /// Codes and weights, where vectors are quantised.
    pub codes: Option<(Seq<i8>, Seq<T::Narrow>)>,
}

/// The squared Euclidean distance between two vectors of the index.
pub open spec fn euclidean_between<T: AnnSearchFloat>(v: Vectors<T>, a: int, b: int) -> T {
    match v.codes {
        None => T::euclidean_spec(flat_row(v.flat, v.dim, a), flat_row(v.flat, v.dim, b)),
        Some(q) => T::widen_spec(
            weighted_l2(flat_row(q.0, v.dim, a), flat_row(q.0, v.dim, b), q.1),
        ),
    }
}

/// The distance between two vectors of the index. Codes are always compared by weighted squared
/// distance.
pub open spec fn between<T: AnnSearchFloat>(v: Vectors<T>, a: int, b: int) -> T {
    if v.codes.is_some() {
        euclidean_between(v, a, b)
    } else {
        match v.metric {
            Dist::SquaredEuclidean => euclidean_between(v, a, b),
            Dist::Cosine => T::cosine_spec(
                flat_row(v.flat, v.dim, a),
                flat_row(v.flat, v.dim, b),
                v.norms[a],
                v.norms[b],
            ),
            Dist::Manhattan => T::manhattan_spec(
                flat_row(v.flat, v.dim, a),
                flat_row(v.flat, v.dim, b),
            ),
        }
    }
}

/// The distance from a vector of the index to a query, where vectors are kept as they are.
pub open spec fn to_query<T: AnnSearchFloat>(v: Vectors<T>, query: Seq<T>, i: int) -> T {
    match v.metric {
        Dist::SquaredEuclidean => T::euclidean_spec(flat_row(v.flat, v.dim, i), query),
        Dist::Cosine => T::cosine_spec(
            flat_row(v.flat, v.dim, i),
            query,
            v.norms[i],
            plain_norm(query),
        ),
        Dist::Manhattan => T::manhattan_spec(flat_row(v.flat, v.dim, i), query),
    }
}

/// The distance from the codes of a query to a vector of the index, where vectors are quantised.
pub open spec fn to_codes<T: AnnSearchFloat>(v: Vectors<T>, query: Seq<i8>, i: int) -> T {
    T::widen_spec(
        weighted_l2(query, flat_row(v.codes->Some_0.0, v.dim, i), v.codes->Some_0.1),
    )
}

/// The vectors of an index.
pub struct VectorStore<'a, T: AnnSearchFloat> {
    pub vectors_flat: &'a [T],
    pub norms: &'a [T],
    pub storage: &'a HnswVectorStorage<T::Narrow>,
    pub dim: usize,
    pub n: usize,
    pub metric: Dist,
}

/// What distances depend on.
pub open spec fn vectors_of<T: AnnSearchFloat>(
    vectors_flat: Seq<T>,
    norms: Seq<T>,
    storage: HnswVectorStorage<T::Narrow>,
    dim: usize,
    metric: Dist,
) -> Vectors<T> {
    Vectors {
        flat: vectors_flat,
        norms,
        dim: dim as int,
        metric,
        codes: match storage {
            HnswVectorStorage::Float => None,
            HnswVectorStorage::Sq8 { codes, weights, .. } => Some((codes@, weights@)),
        },
    }
}

/// There are `n` vectors, with norms where the metric needs them.
pub open spec fn vectors_ok<T: AnnSearchFloat>(v: Vectors<T>, n: int) -> bool {
    &&& v.dim >= 0
    &&& match v.codes {
        None => v.flat.len() == n * v.dim && (v.metric == Dist::Cosine ==> v.norms.len() == n),
        Some(q) => q.0.len() == n * v.dim && q.1.len() == v.dim,
    }
}

impl<'a, T: AnnSearchFloat> VectorStore<'a, T> {
    /// What distances depend on.
    pub open spec fn vectors(&self) -> Vectors<T> {
        vectors_of(self.vectors_flat@, self.norms@, *self.storage, self.dim, self.metric)
    }

    /// There are as many vectors as there should be.
    pub open spec fn ok(&self) -> bool {
        vectors_ok(self.vectors(), self.n as int)
    }

    /// A vector of the index, where vectors are kept as they are.
    pub fn vector(&self, i: usize) -> (r: &'a [T])
        requires
            self.ok(),
            self.vectors().codes.is_none(),
            i < self.n,
        ensures
            r@ == flat_row(self.vectors().flat, self.dim as int, i as int),
            r@.len() == self.dim,
    {
        let len: usize = self.vectors_flat.len();
        proof {
            lemma_row_bounds(i as int, self.n as int, self.dim as int);
        }
        let start: usize = i * self.dim;
        slice_subrange(self.vectors_flat, start, start + self.dim)
    }

    /// The squared Euclidean distance between two vectors of the index.
    pub fn euclidean_distance(&self, i: usize, j: usize) -> (r: T)
        requires
            self.ok(),
            i < self.n,
            j < self.n,
        ensures
            r == euclidean_between(self.vectors(), i as int, j as int),
            self.storage is Float ==> r == T::euclidean_spec(
                self.vectors_flat@.subrange(i * self.dim, i * self.dim + self.dim as int),
                self.vectors_flat@.subrange(j * self.dim, j * self.dim + self.dim as int),
            ),
            self.storage is Sq8 ==> r == T::widen_spec(
                weighted_l2(
                    self.storage->codes@.subrange(i * self.dim, i * self.dim + self.dim as int),
                    self.storage->codes@.subrange(j * self.dim, j * self.dim + self.dim as int),
                    self.storage->weights@,
                ),
            ),
    {
        match self.storage {
            HnswVectorStorage::Float => T::euclidean_simd(self.vector(i), self.vector(j)),
            HnswVectorStorage::Sq8 { codes, weights, .. } => {
                let a = code_row(codes.as_slice(), self.n, self.dim, i);
                let b = code_row(codes.as_slice(), self.n, self.dim, j);
                T::widen(sq8_weighted_l2(a, b, weights.as_slice()))
            },
        }
    }

    /// The distance between two vectors of the index.
    pub fn distance(&self, i: usize, j: usize) -> (r: T)
        requires
            self.ok(),
            i < self.n,
            j < self.n,
        ensures
            r == between(self.vectors(), i as int, j as int),
            ({
                let x = self.vectors_flat@.subrange(i * self.dim, i * self.dim + self.dim as int);
                let y = self.vectors_flat@.subrange(j * self.dim, j * self.dim + self.dim as int);
                self.storage is Float ==> r == match self.metric {
                    Dist::SquaredEuclidean => T::euclidean_spec(x, y),
                    Dist::Cosine => T::cosine_spec(
                        x,
                        y,
                        self.norms@[i as int],
                        self.norms@[j as int],
                    ),
                    Dist::Manhattan => T::manhattan_spec(x, y),
                }
            }),
            self.storage is Sq8 ==> r == T::widen_spec(
                weighted_l2(
                    self.storage->codes@.subrange(i * self.dim, i * self.dim + self.dim as int),
                    self.storage->codes@.subrange(j * self.dim, j * self.dim + self.dim as int),
                    self.storage->weights@,
                ),
            ),
    {
        match self.storage {
            HnswVectorStorage::Sq8 { .. } => self.euclidean_distance(i, j),
            HnswVectorStorage::Float => match self.metric {
                Dist::SquaredEuclidean => self.euclidean_distance(i, j),
                Dist::Cosine => T::cosine_simd(
                    self.vector(i),
                    self.vector(j),
                    self.norms[i],
                    self.norms[j],
                ),
                Dist::Manhattan => T::manhattan_simd(self.vector(i), self.vector(j)),
            },
        }
    }

    /// The distance from a vector of the index to a query with the given norm.
    pub fn compute_float_query_distance(&self, query: &[T], idx: usize, query_norm: T) -> (r: T)
        requires
            self.ok(),
            self.vectors().codes.is_none(),
            idx < self.n,
            query@.len() == self.dim,
            self.metric == Dist::Cosine ==> query_norm == plain_norm(query@),
        ensures
            r == to_query(self.vectors(), query@, idx as int),
            ({
                let x = self.vectors_flat@.subrange(
                    idx * self.dim,
                    idx * self.dim + self.dim as int,
                );
                r == match self.metric {
                    Dist::SquaredEuclidean => T::euclidean_spec(x, query@),
                    Dist::Cosine => T::cosine_spec(
                        x,
                        query@,
                        self.norms@[idx as int],
                        query_norm,
                    ),
                    Dist::Manhattan => T::manhattan_spec(x, query@),
                }
            }),
    {
        match self.metric {
            Dist::SquaredEuclidean => T::euclidean_simd(self.vector(idx), query),
            Dist::Cosine => T::cosine_simd(self.vector(idx), query, self.norms[idx], query_norm),
            Dist::Manhattan => T::manhattan_simd(self.vector(idx), query),
        }
    }
}

/// The codes of a vector of the index.
pub fn code_row(codes: &[i8], n: usize, dim: usize, i: usize) -> (r: &[i8])
    requires
        codes@.len() == n * dim,
        i < n,
    ensures
        r@ == flat_row(codes@, dim as int, i as int),
        r@.len() == dim,
{
    let len: usize = codes.len();
    proof {
        lemma_row_bounds(i as int, n as int, dim as int);
    }
    let start: usize = i * dim;
    slice_subrange(codes, start, start + dim)
}

impl<'a, T: AnnSearchFloat> PairKeys for VectorStore<'a, T> {
    open spec fn size(&self) -> nat {
        self.n as nat
    }

    open spec fn pair(&self, a: usize, b: usize) -> u64 {
        between(self.vectors(), a as int, b as int).rank()
    }

    open spec fn wf(&self) -> bool {
        self.ok()
    }

    fn pair_of(&self, a: usize, b: usize) -> (r: u64) {
        self.distance(a, b).order_key()
    }
}

/// The keys of the distances to a query, where vectors are kept as they are.
pub struct FloatQuery<'a, T: AnnSearchFloat> {
    pub store: &'a VectorStore<'a, T>,
    pub query: &'a [T],
    pub query_norm: T,
}

impl<'a, T: AnnSearchFloat> NodeKeys for FloatQuery<'a, T> {
    open spec fn size(&self) -> nat {
        self.store.n as nat
    }

    open spec fn key(&self, node: usize) -> u64 {
        to_query(self.store.vectors(), self.query@, node as int).rank()
    }

    open spec fn wf(&self) -> bool {
        &&& self.store.ok()
        &&& self.store.vectors().codes.is_none()
        &&& self.query@.len() == self.store.dim
        &&& self.store.metric == Dist::Cosine ==> self.query_norm == plain_norm(self.query@)
    }

    fn key_of(&self, node: usize) -> (r: u64) {
        self.store.compute_float_query_distance(self.query, node, self.query_norm).order_key()
    }
}

impl<'a, T: AnnSearchFloat> QueryKeys for FloatQuery<'a, T> {
    open spec fn numbered(&self, node: usize) -> bool {
        to_query(self.store.vectors(), self.query@, node as int).number_spec()
    }

    fn is_numbered(&self, node: usize) -> (r: bool) {
        self.store.compute_float_query_distance(self.query, node, self.query_norm).is_number()
    }
}

/// The keys of the distances to the codes of a query, where vectors are quantised.
pub struct CodeQuery<'a, T: AnnSearchFloat> {
    pub store: &'a VectorStore<'a, T>,
    pub query: &'a [i8],
}

impl<'a, T: AnnSearchFloat> CodeQuery<'a, T> {
    /// The distance from the query to a vector of the index.
    pub fn distance(&self, idx: usize) -> (r: T)
        requires
            self.store.ok(),
            self.store.vectors().codes.is_some(),
            self.query@.len() == self.store.dim,
            idx < self.store.n,
        ensures
            r == to_codes(self.store.vectors(), self.query@, idx as int),
            r == T::widen_spec(
                weighted_l2(
                    self.query@,
                    self.store.storage->codes@.subrange(
                        idx * self.store.dim,
                        idx * self.store.dim + self.store.dim as int,
                    ),
                    self.store.storage->weights@,
                ),
            ),
    {
        match self.store.storage {
            HnswVectorStorage::Sq8 { codes, weights, .. } => {
                let row = code_row(codes.as_slice(), self.store.n, self.store.dim, idx);
                T::widen(sq8_weighted_l2(self.query, row, weights.as_slice()))
            },
            HnswVectorStorage::Float => {
                proof {
                    assert(false);
                }
                T::zero()
            },
        }
    }
}

impl<'a, T: AnnSearchFloat> NodeKeys for CodeQuery<'a, T> {
    open spec fn size(&self) -> nat {
        self.store.n as nat
    }

    open spec fn key(&self, node: usize) -> u64 {
        to_codes(self.store.vectors(), self.query@, node as int).rank()
    }

    open spec fn wf(&self) -> bool {
        &&& self.store.ok()
        &&& self.store.vectors().codes.is_some()
        &&& self.query@.len() == self.store.dim
    }

    fn key_of(&self, node: usize) -> (r: u64) {
        self.distance(node).order_key()
    }
}

impl<'a, T: AnnSearchFloat> QueryKeys for CodeQuery<'a, T> {
    open spec fn numbered(&self, node: usize) -> bool {
        to_codes(self.store.vectors(), self.query@, node as int).number_spec()
    }

    fn is_numbered(&self, node: usize) -> (r: bool) {
        self.distance(node).is_number()
    }
}

} // verus!
