//! Numbers of the vector data.
//!
//! The library computes with the numbers of its callers through the traits of this module. Every
//! operation is a function of its arguments; the contracts of the library say which operations are
//! applied to what, in which order.
use vstd::prelude::*;

verus! {

/// Some function of `a`, another one for every `tag`.
pub closed spec fn some_function<A, R>(tag: int, a: A) -> R {
    arbitrary::<spec_fn(int, A) -> R>()(tag, a)
}

/// A number type with the operations that distances are computed with.
pub trait Real: Copy + Send + Sync {
    /// The place of a number in the order of numbers.
    closed spec fn rank(self) -> u64 {
        some_function(0, self)
    }

    closed spec fn zero_spec() -> Self {
        some_function(1, 0int)
    }

    closed spec fn one_spec() -> Self {
        some_function(2, 0int)
    }

    closed spec fn plus_spec(self, other: Self) -> Self {
        some_function(3, (self, other))
    }

    closed spec fn times_spec(self, other: Self) -> Self {
        some_function(4, (self, other))
    }

    closed spec fn over_spec(self, other: Self) -> Self {
        some_function(5, (self, other))
    }

    closed spec fn larger_spec(self, other: Self) -> Self {
        some_function(6, (self, other))
    }

    closed spec fn sqrt_spec(self) -> Self {
        some_function(7, self)
    }

    closed spec fn abs_spec(self) -> Self {
        some_function(8, self)
    }

    closed spec fn ln_spec(self) -> Self {
        some_function(9, self)
    }

    closed spec fn neg_spec(self) -> Self {
        some_function(10, self)
    }

    closed spec fn of_int_spec(v: i32) -> Self {
        some_function(11, v)
    }

    closed spec fn of_size_spec(v: usize) -> Self {
        some_function(12, v)
    }

    closed spec fn of_unit_spec(v: u64) -> Self {
        some_function(13, v)
    }

    closed spec fn rounded_spec(self) -> i32 {
        some_function(14, self)
    }

    closed spec fn floor_u8_spec(self) -> Option<u8> {
        some_function(15, self)
    }

    closed spec fn of_u32_spec(v: u32) -> Self {
        some_function(23, v)
    }

    closed spec fn number_spec(self) -> bool {
        some_function(24, self)
    }

    closed spec fn truncated_spec(self) -> usize {
        some_function(25, self)
    }

    /// The place of the number in the order of numbers: a smaller number has a smaller key, and
    /// what is no number has a larger key than any number.
    fn order_key(self) -> (r: u64)
        ensures
            r == self.rank(),
    ;

    /// Whether this is a number at all. What is none is neither smaller nor larger than anything.
    fn is_number(self) -> (r: bool)
        ensures
            r == self.number_spec(),
    ;

    /// Zero.
    fn zero() -> (r: Self)
        ensures
            r == Self::zero_spec(),
    ;

    /// One.
    fn one() -> (r: Self)
        ensures
            r == Self::one_spec(),
    ;

    /// The sum.
    fn plus(self, other: Self) -> (r: Self)
        ensures
            r == self.plus_spec(other),
    ;

    /// The product.
    fn times(self, other: Self) -> (r: Self)
        ensures
            r == self.times_spec(other),
    ;

    /// The quotient.
    fn over(self, other: Self) -> (r: Self)
        ensures
            r == self.over_spec(other),
    ;

    /// The larger of two numbers, and the number where the other is none.
    fn larger(self, other: Self) -> (r: Self)
        ensures
            r == self.larger_spec(other),
    ;

    /// The square root.
    fn sqrt(self) -> (r: Self)
        ensures
            r == self.sqrt_spec(),
    ;

    /// The absolute value.
    fn abs(self) -> (r: Self)
        ensures
            r == self.abs_spec(),
    ;

    /// The natural logarithm.
    fn ln(self) -> (r: Self)
        ensures
            r == self.ln_spec(),
    ;

    /// The number with the opposite sign.
    fn neg(self) -> (r: Self)
        ensures
            r == self.neg_spec(),
    ;

    /// The number nearest to an integer.
    fn of_int(v: i32) -> (r: Self)
        ensures
            r == Self::of_int_spec(v),
    ;

    /// The number nearest to an unsigned integer.
    fn of_u32(v: u32) -> (r: Self)
        ensures
            r == Self::of_u32_spec(v),
    ;

    /// The number nearest to a size.
    fn of_size(v: usize) -> (r: Self)
        ensures
            r == Self::of_size_spec(v),
    ;

    /// The number nearest to `v` divided by two to the power of 53.
    fn of_unit(v: u64) -> (r: Self)
        ensures
            r == Self::of_unit_spec(v),
    ;

    /// The nearest integer, or the nearest that fits.
    fn rounded(self) -> (r: i32)
        ensures
            r == self.rounded_spec(),
    ;

    /// The number without its fraction, or the nearest that fits; zero for what is no number.
    fn truncated(self) -> (r: usize)
        ensures
            r == self.truncated_spec(),
    ;

    /// The largest integer that is not above the number, where it fits.
    fn floor_u8(self) -> (r: Option<u8>)
        ensures
            r == self.floor_u8_spec(),
    ;
}

/// A number type of vector data, with its distances.
pub trait AnnSearchFloat: Real {
    /// A number type of single precision, for the weights of quantised vectors and for sizes.
    type Narrow: Real;

    closed spec fn narrow_spec(self) -> Self::Narrow {
        some_function(16, self)
    }

    closed spec fn widen_spec(v: Self::Narrow) -> Self {
        some_function(17, v)
    }

    closed spec fn euclidean_spec(a: Seq<Self>, b: Seq<Self>) -> Self {
        some_function(18, (a, b))
    }

    closed spec fn cosine_spec(a: Seq<Self>, b: Seq<Self>, norm_a: Self, norm_b: Self) -> Self {
        some_function(19, (a, b, norm_a, norm_b))
    }

    closed spec fn manhattan_spec(a: Seq<Self>, b: Seq<Self>) -> Self {
        some_function(20, (a, b))
    }

    closed spec fn l2_norm_spec(a: Seq<Self>) -> Self {
        some_function(21, a)
    }

    closed spec fn unset_spec() -> Self {
        some_function(22, 0int)
    }

    /// The nearest number of the narrow type.
    fn narrow(self) -> (r: Self::Narrow)
        ensures
            r == self.narrow_spec(),
    ;

    /// The number of the narrow type in this type.
    fn widen(v: Self::Narrow) -> (r: Self)
        ensures
            r == Self::widen_spec(v),
    ;

    /// The squared Euclidean distance.
    fn euclidean_simd(a: &[Self], b: &[Self]) -> (r: Self)
        requires
            a@.len() == b@.len(),
        ensures
            r == Self::euclidean_spec(a@, b@),
    ;

    /// The cosine distance of vectors with the given norms.
    fn cosine_simd(a: &[Self], b: &[Self], norm_a: Self, norm_b: Self) -> (r: Self)
        requires
            a@.len() == b@.len(),
        ensures
            r == Self::cosine_spec(a@, b@, norm_a, norm_b),
    ;

    /// The Manhattan distance.
    fn manhattan_simd(a: &[Self], b: &[Self]) -> (r: Self)
        requires
            a@.len() == b@.len(),
        ensures
            r == Self::manhattan_spec(a@, b@),
    ;

    /// The distance that marks a slot without a result: the largest number of the narrow type.
    fn unset_distance() -> (r: Self)
        ensures
            r == Self::unset_spec(),
    ;

    /// The Euclidean norm.
    fn calculate_l2_norm(a: &[Self]) -> (r: Self)
        ensures
            r == Self::l2_norm_spec(a@),
    ;
}

/// The sum of the squares of the numbers.
pub open spec fn square_sum<T: Real>(v: Seq<T>) -> T
    decreases v.len(),
{
    if v.len() == 0 {
        T::zero_spec()
    } else {
        square_sum(v.drop_last()).plus_spec(v.last().times_spec(v.last()))
    }
}

/// The square root of the sum of the squares, summed up from the first to the last.
pub open spec fn plain_norm<T: Real>(v: Seq<T>) -> T {
    square_sum(v).sqrt_spec()
}

/// The norm is the root of the sum of the squares: a further number adds its square to the sum,
/// whose root is taken once.
pub proof fn law_norm<T: Real>(v: Seq<T>, x: T)
    ensures
        plain_norm(Seq::<T>::empty()) == T::zero_spec().sqrt_spec(),
        square_sum(Seq::<T>::empty()) == T::zero_spec(),
        square_sum(v.push(x)) == square_sum(v).plus_spec(x.times_spec(x)),
        plain_norm(v.push(x)) == square_sum(v).plus_spec(x.times_spec(x)).sqrt_spec(),
{
    assert(v.push(x).drop_last() =~= v);
}

/// The Euclidean norm, summed up from the first number to the last.
pub fn sequential_norm<T: Real>(v: &[T]) -> (r: T)
    ensures
        r == plain_norm(v@),
{
    let mut sum: T = T::zero();
    let mut i: usize = 0;
    assert(v@.take(0) =~= Seq::<T>::empty());
    while i < v.len()
        invariant
            i <= v@.len(),
            sum == square_sum(v@.take(i as int)),
        decreases v.len() - i,
    {
        proof {
            assert(v@.take(i + 1).drop_last() =~= v@.take(i as int));
            assert(v@.take(i + 1).last() == v@[i as int]);
        }
        sum = sum.plus(v[i].times(v[i]));
        i += 1;
    }
    assert(v@.take(i as int) =~= v@);
    sum.sqrt()
}

} // verus!
