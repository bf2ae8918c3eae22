//! Scalar quantisation to signed bytes.
//!
//! Every dimension has a scale of its own. A number becomes the nearest multiple of the scale of
//! its dimension, between `-127` and `127`. Squared distances are weighted with the squares of the
//! scales.
use crate::utils::float::{AnnSearchFloat, Real};
use crate::utils::matrix::lemma_row_bounds;
use vstd::arithmetic::div_mod::lemma_fundamental_div_mod_converse;
use vstd::prelude::*;

verus! {

/// Diagnostics of a quantisation.
#[derive(Clone, Copy, Debug, PartialEq, Eq, Structural)]
pub struct HnswSq8Stats {
    /// Wall time spent on scales and codes, in nanoseconds.
    pub quantization_nanos: u64,
    /// Number of codes at either end of the range.
    pub endpoint_codes: usize,
    /// Number of values outside the range that the scales were fitted to.
    pub clipped_values: usize,
}

/// The largest absolute value of a dimension among the first `n` vectors.
pub open spec fn column_max<T: AnnSearchFloat>(
    flat: Seq<T>,
    dim: int,
    d: int,
    n: int,
) -> T::Narrow
    decreases n,
{
    if n <= 0 {
        T::Narrow::zero_spec()
    } else {
        column_max(flat, dim, d, n - 1).larger_spec(
            flat[(n - 1) * dim + d].abs_spec().narrow_spec(),
        )
    }
}

/// The scale of a dimension whose largest absolute value is given.
pub open spec fn scale_of<N: Real>(max_abs: N) -> N {
    if max_abs.rank() > N::zero_spec().rank() {
        max_abs.over_spec(N::of_int_spec(127))
    } else {
        N::one_spec()
    }
}

/// The scales of all dimensions.
pub open spec fn scales_of<T: AnnSearchFloat>(flat: Seq<T>, dim: int, n: int) -> Seq<T::Narrow> {
    Seq::new(dim as nat, |d: int| scale_of(column_max(flat, dim, d, n)))
}

/// An integer between the ends of the range.
pub open spec fn clamped(v: i32) -> i8 {
    if v < -127 {
        -127i8
    } else if v > 127 {
        127i8
    } else {
        v as i8
    }
}

/// The code of a number.
pub open spec fn code_of<T: AnnSearchFloat>(v: T, scale: T::Narrow) -> i8 {
    clamped(v.narrow_spec().over_spec(scale).rounded_spec())
}

/// The codes of all numbers.
pub open spec fn codes_of<T: AnnSearchFloat>(
    flat: Seq<T>,
    dim: int,
    scales: Seq<T::Narrow>,
) -> Seq<i8> {
    Seq::new(flat.len(), |k: int| code_of(flat[k], scales[k % dim]))
}

/// The weights that belong to scales.
pub open spec fn weights_of<N: Real>(scales: Seq<N>) -> Seq<N> {
    Seq::new(scales.len(), |d: int| scales[d].times_spec(scales[d]))
}

/// How many codes stand at either end of the range.
pub open spec fn endpoints(codes: Seq<i8>) -> nat
    decreases codes.len(),
{
    if codes.len() == 0 {
        0
    } else {
        endpoints(codes.drop_last()) + if codes.last() == -127 || codes.last() == 127 {
            1nat
        } else {
            0nat
        }
    }
}

/// The codes of a query: a number becomes the nearest multiple of the root of the weight.
pub open spec fn query_codes<T: AnnSearchFloat>(
    query: Seq<T>,
    weights: Seq<T::Narrow>,
) -> Seq<i8> {
    Seq::new(query.len(), |d: int| code_of(query[d], weights[d].sqrt_spec()))
}

/// The square of the difference of two codes.
pub open spec fn square_gap(a: i8, b: i8) -> i32 {
    ((a - b) * (a - b)) as i32
}

/// The weighted squared distance of two vectors of codes.
pub open spec fn weighted_l2<N: Real>(a: Seq<i8>, b: Seq<i8>, weights: Seq<N>) -> N
    decreases a.len(),
{
    if a.len() == 0 {
        N::zero_spec()
    } else {
        let d = a.len() - 1;
        weighted_l2(a.drop_last(), b, weights).plus_spec(
            N::of_int_spec(square_gap(a[d], b[d])).times_spec(weights[d]),
        )
    }
}

/// Codes lie between `-127` and `127`.
pub proof fn law_codes_in_range<T: AnnSearchFloat>(v: T, scale: T::Narrow)
    ensures
        -127 <= code_of(v, scale) <= 127,
{
}

/// The weighted distance does not depend on the order of the vectors.
pub proof fn law_weighted_symmetric<N: Real>(a: Seq<i8>, b: Seq<i8>, weights: Seq<N>)
    requires
        a.len() == b.len(),
    ensures
        weighted_l2(a, b, weights) == weighted_l2(b, a, weights),
    decreases a.len(),
{
    if a.len() > 0 {
        let d = a.len() - 1;
        let (x, y) = (a[d] as int, b[d] as int);
        assert((x - y) * (x - y) == (y - x) * (y - x)) by (nonlinear_arith);
        lemma_weighted_prefix(a.drop_last(), b, weights);
        lemma_weighted_prefix(b.drop_last(), a, weights);
        assert(b.take(d) =~= b.drop_last());
        assert(a.take(d) =~= a.drop_last());
        law_weighted_symmetric(a.drop_last(), b.drop_last(), weights);
    }
}

/// The weighted distance reads no more of the second vector than there is of the first.
proof fn lemma_weighted_prefix<N: Real>(a: Seq<i8>, b: Seq<i8>, weights: Seq<N>)
    requires
        a.len() <= b.len(),
    ensures
        weighted_l2(a, b, weights) == weighted_l2(a, b.take(a.len() as int), weights),
    decreases a.len(),
{
    if a.len() > 0 {
        let c = b.take(a.len() as int);
        lemma_weighted_prefix(a.drop_last(), b, weights);
        lemma_weighted_prefix(a.drop_last(), c, weights);
        assert(c.take(a.len() - 1) =~= b.take(a.len() - 1));
    }
}

/// The code of a number.
fn encode<T: AnnSearchFloat>(v: T, scale: T::Narrow) -> (r: i8)
    ensures
        r == code_of(v, scale),
{
    let rounded: i32 = v.narrow().over(scale).rounded();
    if rounded < -127 {
        -127
    } else if rounded > 127 {
        127
    } else {
        rounded as i8
    }
}

/// The scales of all dimensions.
pub fn fit_scales<T: AnnSearchFloat>(flat: &[T], n: usize, dim: usize) -> (r: Vec<T::Narrow>)
    requires
        flat@.len() == n * dim,
    ensures
        r@ == scales_of(flat@, dim as int, n as int),
{
    let len: usize = flat.len();
    let mut scales: Vec<T::Narrow> = Vec::new();
    let mut d: usize = 0;
    while d < dim
        invariant
            d <= dim,
            len == flat@.len(),
            len == n * dim,
            scales@ == scales_of(flat@, dim as int, n as int).take(d as int),
        decreases dim - d,
    {
        let mut max_abs: T::Narrow = T::Narrow::zero();
        let mut i: usize = 0;
        while i < n
            invariant
                i <= n,
                d < dim,
                len == flat@.len(),
                len == n * dim,
                max_abs == column_max(flat@, dim as int, d as int, i as int),
            decreases n - i,
        {
            proof {
                lemma_row_bounds(i as int, n as int, dim as int);
            }
            max_abs = max_abs.larger(flat[i * dim + d].abs().narrow());
            i += 1;
        }
        let scale: T::Narrow = if max_abs.order_key() > T::Narrow::zero().order_key() {
            max_abs.over(T::Narrow::of_int(127))
        } else {
            T::Narrow::one()
        };
        scales.push(scale);
        proof {
            assert(scales@ =~= scales_of(flat@, dim as int, n as int).take(d + 1));
        }
        d += 1;
    }
    assert(scales@ =~= scales_of(flat@, dim as int, n as int));
    scales
}

/// The codes of all numbers.
pub fn encode_all<T: AnnSearchFloat>(
    flat: &[T],
    n: usize,
    dim: usize,
    scales: &[T::Narrow],
) -> (r: Vec<i8>)
    requires
        flat@.len() == n * dim,
        scales@.len() == dim,
    ensures
        r@ == codes_of(flat@, dim as int, scales@),
{
    let mut codes: Vec<i8> = Vec::new();
    let mut i: usize = 0;
    while i < n
        invariant
            i <= n,
            flat@.len() == n * dim,
            scales@.len() == dim,
            codes@.len() == i * dim,
            codes@ == codes_of(flat@, dim as int, scales@).take(codes@.len() as int),
        decreases n - i,
    {
        proof {
            lemma_row_bounds(i as int, n as int, dim as int);
        }
        let mut d: usize = 0;
        while d < dim
            invariant
                d <= dim,
                i < n,
                flat@.len() == n * dim,
                scales@.len() == dim,
                i * dim + dim <= n * dim,
                codes@.len() == i * dim + d,
                codes@ == codes_of(flat@, dim as int, scales@).take(codes@.len() as int),
            decreases dim - d,
        {
            let ghost k = codes@.len() as int;
            proof {
                assert(0 <= i * dim) by (nonlinear_arith);
                assert(k == dim as int * (i as int) + d as int) by (nonlinear_arith)
                    requires
                        k == i * dim + d,
                ;
                lemma_fundamental_div_mod_converse(k, dim as int, i as int, d as int);
                assert(k < flat@.len());
            }
            let code: i8 = encode(flat[codes.len()], scales[d]);
            codes.push(code);
            proof {
                assert(codes@ =~= codes_of(flat@, dim as int, scales@).take(k + 1));
            }
            d += 1;
        }
        i += 1;
    }
    assert(codes@ =~= codes_of(flat@, dim as int, scales@));
    codes
}

/// Count the codes at either end of the range.
pub fn count_endpoints(codes: &[i8]) -> (r: usize)
    ensures
        r == endpoints(codes@),
{
    let mut count: usize = 0;
    let mut i: usize = 0;
    assert(codes@.take(0) =~= Seq::<i8>::empty());
    while i < codes.len()
        invariant
            i <= codes@.len(),
            count <= i,
            count == endpoints(codes@.take(i as int)),
        decreases codes.len() - i,
    {
        proof {
            assert(codes@.take(i + 1).drop_last() =~= codes@.take(i as int));
            assert(codes@.take(i + 1).last() == codes@[i as int]);
        }
        if codes[i] == -127 || codes[i] == 127 {
            count += 1;
        }
        i += 1;
    }
    assert(codes@.take(i as int) =~= codes@);
    count
}

/// The weights that belong to scales.
pub fn square_scales<N: Real>(scales: &[N]) -> (r: Vec<N>)
    ensures
        r@ == weights_of(scales@),
{
    let mut weights: Vec<N> = Vec::new();
    let mut d: usize = 0;
    while d < scales.len()
        invariant
            d <= scales@.len(),
            weights@ == weights_of(scales@).take(d as int),
        decreases scales.len() - d,
    {
        weights.push(scales[d].times(scales[d]));
        proof {
            assert(weights@ =~= weights_of(scales@).take(d + 1));
        }
        d += 1;
    }
    assert(weights@ =~= weights_of(scales@));
    weights
}

/// The codes of a query.
pub fn encode_query<T: AnnSearchFloat>(query: &[T], weights: &[T::Narrow]) -> (r: Vec<i8>)
    requires
        query@.len() == weights@.len(),
    ensures
        r@ == query_codes(query@, weights@),
{
    let mut codes: Vec<i8> = Vec::new();
    let mut d: usize = 0;
    while d < query.len()
        invariant
            d <= query@.len(),
            query@.len() == weights@.len(),
            codes@ == query_codes(query@, weights@).take(d as int),
        decreases query.len() - d,
    {
        codes.push(encode(query[d], weights[d].sqrt()));
        proof {
            assert(codes@ =~= query_codes(query@, weights@).take(d + 1));
        }
        d += 1;
    }
    assert(codes@ =~= query_codes(query@, weights@));
    codes
}

/// The weighted squared distance of two vectors of codes.
pub fn sq8_weighted_l2<N: Real>(a: &[i8], b: &[i8], weights: &[N]) -> (r: N)
    requires
        a@.len() == b@.len(),
        a@.len() == weights@.len(),
    ensures
        r == weighted_l2(a@, b@, weights@),
{
    let mut sum: N = N::zero();
    let mut i: usize = 0;
    assert(a@.take(0) =~= Seq::<i8>::empty());
    while i < a.len()
        invariant
            i <= a@.len(),
            a@.len() == b@.len(),
            a@.len() == weights@.len(),
            sum == weighted_l2(a@.take(i as int), b@, weights@),
        decreases a.len() - i,
    {
        let gap: i32 = a[i] as i32 - b[i] as i32;
        proof {
            let t = a@.take(i + 1);
            assert(t.drop_last() =~= a@.take(i as int));
            assert(t[i as int] == a@[i as int]);
            assert(0 <= gap * gap <= 65025) by (nonlinear_arith)
                requires
                    -255 <= gap <= 255,
            ;
        }
        sum = sum.plus(N::of_int(gap * gap).times(weights[i]));
        i += 1;
    }
    assert(a@.take(i as int) =~= a@);
    sum
}

} // verus!
