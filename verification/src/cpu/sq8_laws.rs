//! What holds of scales, codes and weighted distances.
use super::sq8::{
    code_of, codes_of, column_max, endpoints, query_codes, scale_of, scales_of, weighted_l2,
    weights_of,
};
use crate::utils::float::{AnnSearchFloat, Real};
use crate::utils::matrix::lemma_row_bounds;
use vstd::arithmetic::div_mod::lemma_fundamental_div_mod_converse;
use vstd::prelude::*;

verus! {

/// The signs of the numbers do not count for the scales: data with the same absolute values has the
/// same scales.
pub proof fn law_scales_of_magnitudes<T: AnnSearchFloat>(
    one: Seq<T>,
    other: Seq<T>,
    dim: int,
    n: int,
)
    requires
        dim >= 0,
        n >= 0,
        one.len() == n * dim,
        other.len() == n * dim,
        forall|k: int|
            0 <= k < n * dim ==> (#[trigger] one[k]).abs_spec() == other[k].abs_spec(),
    ensures
        scales_of(one, dim, n) == scales_of(other, dim, n),
{
    assert forall|d: int| 0 <= d < dim implies column_max(one, dim, d, n) == #[trigger] column_max(
        other,
        dim,
        d,
        n,
    ) by {
        lemma_column_of_magnitudes(one, other, dim, d, n, n);
    }
    assert(scales_of(one, dim, n) =~= scales_of(other, dim, n));
}

/// The signs of the numbers do not count for one dimension.
proof fn lemma_column_of_magnitudes<T: AnnSearchFloat>(
    one: Seq<T>,
    other: Seq<T>,
    dim: int,
    d: int,
    n: int,
    i: int,
)
    requires
        0 <= d < dim,
        0 <= i <= n,
        one.len() == n * dim,
        other.len() == n * dim,
        forall|k: int|
            0 <= k < n * dim ==> (#[trigger] one[k]).abs_spec() == other[k].abs_spec(),
    ensures
        column_max(one, dim, d, i) == column_max(other, dim, d, i),
    decreases i,
{
    if i > 0 {
        lemma_column_of_magnitudes(one, other, dim, d, n, i - 1);
        lemma_row_bounds(i - 1, n, dim);
        assert(one[(i - 1) * dim + d].abs_spec() == other[(i - 1) * dim + d].abs_spec());
    }
}

/// The largest absolute value of a dimension, of numbers among which the larger can be told: none
/// is above it, and it is zero or that of some vector.
proof fn lemma_column_largest<T: AnnSearchFloat>(flat: Seq<T>, dim: int, d: int, n: int)
    requires
        0 <= d < dim,
        n >= 0,
        T::Narrow::zero_spec().number_spec(),
        forall|i: int|
            0 <= i < n ==> (#[trigger] flat[i * dim + d]).abs_spec().narrow_spec().number_spec(),
        forall|x: T::Narrow, y: T::Narrow|
            x.number_spec() && y.number_spec() ==> {
                let z = #[trigger] x.larger_spec(y);
                (z == x || z == y) && z.rank() >= x.rank() && z.rank() >= y.rank()
            },
    ensures
        column_max(flat, dim, d, n).number_spec(),
        column_max(flat, dim, d, n).rank() >= T::Narrow::zero_spec().rank(),
        forall|i: int|
            0 <= i < n ==> (#[trigger] flat[i * dim + d]).abs_spec().narrow_spec().rank()
                <= column_max(flat, dim, d, n).rank(),
        column_max(flat, dim, d, n) == T::Narrow::zero_spec() || exists|i: int|
            0 <= i < n && (#[trigger] flat[i * dim + d]).abs_spec().narrow_spec() == column_max(
                flat,
                dim,
                d,
                n,
            ),
    decreases n,
{
    if n > 0 {
        lemma_column_largest(flat, dim, d, n - 1);
        let before = column_max(flat, dim, d, n - 1);
        let x = flat[(n - 1) * dim + d].abs_spec().narrow_spec();
        assert(x.number_spec());
        let after = before.larger_spec(x);
        assert(column_max(flat, dim, d, n) == after);
    }
}

/// The scale of a dimension is the largest absolute value of the dimension, divided by 127: no
/// absolute value is above it, and some vector has it. It is one only where no absolute value is
/// above zero. This is of numbers among which the larger can be told.
pub proof fn law_scale_largest<T: AnnSearchFloat>(flat: Seq<T>, dim: int, d: int, n: int)
    requires
        0 <= d < dim,
        n >= 0,
        T::Narrow::zero_spec().number_spec(),
        forall|i: int|
            0 <= i < n ==> (#[trigger] flat[i * dim + d]).abs_spec().narrow_spec().number_spec(),
        forall|x: T::Narrow, y: T::Narrow|
            x.number_spec() && y.number_spec() ==> {
                let z = #[trigger] x.larger_spec(y);
                (z == x || z == y) && z.rank() >= x.rank() && z.rank() >= y.rank()
            },
    ensures
        scales_of(flat, dim, n).len() == dim,
        (exists|i: int|
            0 <= i < n && ({
                let top = (#[trigger] flat[i * dim + d]).abs_spec().narrow_spec();
                &&& top.rank() > T::Narrow::zero_spec().rank()
                &&& scales_of(flat, dim, n)[d] == top.over_spec(T::Narrow::of_int_spec(127))
                &&& forall|j: int|
                    0 <= j < n ==> (#[trigger] flat[j * dim + d]).abs_spec().narrow_spec().rank()
                        <= top.rank()
            })) || (scales_of(flat, dim, n)[d] == T::Narrow::one_spec() && forall|j: int|
            0 <= j < n ==> (#[trigger] flat[j * dim + d]).abs_spec().narrow_spec().rank()
                <= T::Narrow::zero_spec().rank()),
{
    lemma_column_largest(flat, dim, d, n);
    let top = column_max(flat, dim, d, n);
    if top.rank() > T::Narrow::zero_spec().rank() {
        let i = choose|i: int|
            0 <= i < n && (#[trigger] flat[i * dim + d]).abs_spec().narrow_spec() == top;
        assert(flat[i * dim + d].abs_spec().narrow_spec() == top);
    }
}

/// The largest absolute value grows vector by vector: a further vector counts with its absolute
/// value in the narrow type, and with none there is none above zero.
pub proof fn law_scale_by_vector<T: AnnSearchFloat>(
    flat: Seq<T>,
    dim: int,
    d: int,
    n: int,
)
    requires
        0 <= d < dim,
        n >= 0,
    ensures
        column_max(flat, dim, d, 0) == T::Narrow::zero_spec(),
        column_max(flat, dim, d, n + 1) == column_max(flat, dim, d, n).larger_spec(
            flat[n * dim + d].abs_spec().narrow_spec(),
        ),
        scales_of(flat, dim, n)[d] == scale_of(column_max(flat, dim, d, n)),
        forall|top: T::Narrow|
            top.rank() > T::Narrow::zero_spec().rank() ==> #[trigger] scale_of(top)
                == top.over_spec(T::Narrow::of_int_spec(127)),
        forall|top: T::Narrow|
            top.rank() <= T::Narrow::zero_spec().rank() ==> #[trigger] scale_of(top)
                == T::Narrow::one_spec(),
{
}

/// The code of a number is the nearest integer to the number divided by the scale, held between
/// `-127` and `127`.
pub proof fn law_code_nearest<T: AnnSearchFloat>(v: T, scale: T::Narrow)
    ensures
        ({
            let nearest = v.narrow_spec().over_spec(scale).rounded_spec();
            &&& -127 <= nearest <= 127 ==> code_of(v, scale) == nearest
            &&& nearest > 127 ==> code_of(v, scale) == 127
            &&& nearest < -127 ==> code_of(v, scale) == -127
        }),
{
}

/// Every number is coded with the scale of its own dimension.
pub proof fn law_codes_by_dimension<T: AnnSearchFloat>(
    flat: Seq<T>,
    dim: int,
    scales: Seq<T::Narrow>,
    n: int,
    i: int,
    d: int,
)
    requires
        0 <= i < n,
        0 <= d < dim,
        flat.len() == n * dim,
    ensures
        codes_of(flat, dim, scales).len() == flat.len(),
        codes_of(flat, dim, scales)[i * dim + d] == code_of(flat[i * dim + d], scales[d]),
{
    lemma_row_bounds(i, n, dim);
    assert(i * dim + d == dim * i + d) by (nonlinear_arith);
    lemma_fundamental_div_mod_converse(i * dim + d, dim, i, d);
}

/// A weight is the square of its scale.
pub proof fn law_weights<N: Real>(scales: Seq<N>, d: int)
    requires
        0 <= d < scales.len(),
    ensures
        weights_of(scales).len() == scales.len(),
        weights_of(scales)[d] == scales[d].times_spec(scales[d]),
{
}

/// A query is coded with the roots of the weights. With the numbers of a stored vector it has the
/// codes of that vector, as long as the root of the square of a scale is the scale.
pub proof fn law_query_codes<T: AnnSearchFloat>(
    flat: Seq<T>,
    dim: int,
    scales: Seq<T::Narrow>,
    n: int,
    i: int,
    query: Seq<T>,
    weights: Seq<T::Narrow>,
)
    requires
        0 <= i < n,
        dim >= 0,
        flat.len() == n * dim,
        scales.len() == dim,
        forall|d: int|
            0 <= d < dim ==> (#[trigger] scales[d]).times_spec(scales[d]).sqrt_spec() == scales[d],
    ensures
        query_codes(query, weights).len() == query.len(),
        forall|d: int|
            0 <= d < query.len() ==> #[trigger] query_codes(query, weights)[d] == code_of(
                query[d],
                weights[d].sqrt_spec(),
            ),
        query_codes(flat.subrange(i * dim, i * dim + dim), weights_of(scales)) == codes_of(
            flat,
            dim,
            scales,
        ).subrange(i * dim, i * dim + dim),
{
    lemma_row_bounds(i, n, dim);
    let row = flat.subrange(i * dim, i * dim + dim);
    let stored = codes_of(flat, dim, scales).subrange(i * dim, i * dim + dim);
    let coded = query_codes(row, weights_of(scales));
    assert forall|d: int| 0 <= d < dim implies coded[d] == stored[d] by {
        law_codes_by_dimension(flat, dim, scales, n, i, d);
        assert(scales[d].times_spec(scales[d]).sqrt_spec() == scales[d]);
    }
    assert(coded =~= stored);
}

/// The weighted distance is a sum over the dimensions: a further dimension adds the square of the
/// difference of its codes, times its weight, and without dimensions it is zero.
pub proof fn law_weighted_sum<N: Real>(
    a: Seq<i8>,
    b: Seq<i8>,
    weights: Seq<N>,
    x: i8,
    y: i8,
    weight: N,
)
    requires
        a.len() == b.len(),
        a.len() == weights.len(),
    ensures
        weighted_l2(Seq::<i8>::empty(), Seq::<i8>::empty(), Seq::<N>::empty()) == N::zero_spec(),
        weighted_l2(a.push(x), b.push(y), weights.push(weight)) == weighted_l2(
            a,
            b,
            weights,
        ).plus_spec(N::of_int_spec(((x - y) * (x - y)) as i32).times_spec(weight)),
{
    let (c, d, w) = (a.push(x), b.push(y), weights.push(weight));
    assert(c.drop_last() =~= a);
    lemma_weighted_longer(a, b, d, weights, w);
}

/// What stands behind the codes of the first vector does not count.
proof fn lemma_weighted_longer<N: Real>(
    a: Seq<i8>,
    b: Seq<i8>,
    d: Seq<i8>,
    weights: Seq<N>,
    w: Seq<N>,
)
    requires
        a.len() <= b.len(),
        a.len() <= d.len(),
        a.len() <= weights.len(),
        a.len() <= w.len(),
        forall|i: int| 0 <= i < a.len() ==> b[i] == #[trigger] d[i],
        forall|i: int| 0 <= i < a.len() ==> weights[i] == #[trigger] w[i],
    ensures
        weighted_l2(a, b, weights) == weighted_l2(a, d, w),
    decreases a.len(),
{
    if a.len() > 0 {
        let last = a.len() - 1;
        assert(b[last] == d[last]);
        assert(weights[last] == w[last]);
        lemma_weighted_longer(a.drop_last(), b, d, weights, w);
    }
}

/// Only the differences of the codes count: vectors that are shifted alike have the same distance,
/// and all vectors have the same distance to themselves.
pub proof fn law_weighted_by_differences<N: Real>(
    a: Seq<i8>,
    b: Seq<i8>,
    c: Seq<i8>,
    d: Seq<i8>,
    weights: Seq<N>,
)
    requires
        a.len() == b.len(),
        c.len() == a.len(),
        d.len() == a.len(),
        weights.len() == a.len(),
        forall|i: int| 0 <= i < a.len() ==> a[i] - b[i] == #[trigger] c[i] - d[i],
    ensures
        weighted_l2(a, b, weights) == weighted_l2(c, d, weights),
    decreases a.len(),
{
    if a.len() > 0 {
        let last = a.len() - 1;
        assert(a[last] - b[last] == c[last] - d[last]);
        let (p, q, r, s) = (a.drop_last(), b.drop_last(), c.drop_last(), d.drop_last());
        assert forall|i: int| 0 <= i < p.len() implies p[i] - q[i] == #[trigger] r[i] - s[i] by {
            assert(a[i] - b[i] == c[i] - d[i]);
        }
        let w = weights.drop_last();
        law_weighted_by_differences(p, q, r, s, w);
        lemma_weighted_longer(p, q, b, w, weights);
        lemma_weighted_longer(r, s, d, w, weights);
    }
}

/// A code at either end of the range counts as one, any other as none.
pub proof fn law_endpoints(codes: Seq<i8>, c: i8)
    ensures
        endpoints(Seq::<i8>::empty()) == 0,
        endpoints(codes.push(c)) == endpoints(codes) + if c == 127 || c == -127 {
            1int
        } else {
            0int
        },
{
    assert(codes.push(c).drop_last() =~= codes);
}

} // verus!
