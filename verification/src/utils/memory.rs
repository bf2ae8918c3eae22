//! Memory of indices.
use super::math::least;
use vstd::layout::size_of;
use vstd::prelude::*;

verus! {

/// How many elements a vector has room for, from `std::vec::Vec::capacity`: at least as many as it
/// holds.
#[verifier::external_body]
pub(crate) fn capacity_of<A>(v: &Vec<A>) -> (r: usize)
    ensures
        r >= v@.len(),
{
    v.capacity()
}

/// `bytes` is the size of a buffer with room for `room` elements, as far as it can be counted.
pub open spec fn is_buffer<A>(room: usize, bytes: usize) -> bool {
    bytes == least(room * size_of::<A>(), usize::MAX as int)
}

/// `bytes` is the size of the buffer of a vector that holds `len` elements.
pub open spec fn buffer_of<A>(len: nat, bytes: usize) -> bool {
    exists|room: usize| room >= len && #[trigger] is_buffer::<A>(room, bytes)
}

/// A buffer takes at least the bytes of what it holds.
pub proof fn law_buffer<A>(len: nat, bytes: usize)
    requires
        buffer_of::<A>(len, bytes),
    ensures
        bytes >= len * size_of::<A>() || bytes == usize::MAX,
{
    let room = choose|room: usize| room >= len && #[trigger] is_buffer::<A>(room, bytes);
    let each = size_of::<A>();
    assert(room * each >= len * each) by (nonlinear_arith)
        requires
            room >= len,
            each >= 0,
    ;
}

/// The size of the buffer of a vector.
pub fn buffer_bytes<A>(v: &Vec<A>) -> (r: usize)
    ensures
        buffer_of::<A>(v@.len(), r),
{
    let room: usize = capacity_of(v);
    let each: usize = core::mem::size_of::<A>();
    let r: usize = match room.checked_mul(each) {
        Some(bytes) => bytes,
        None => usize::MAX,
    };
    proof {
        assert(is_buffer::<A>(room, r));
    }
    r
}

/// The sum of two sizes, as far as it can be counted.
pub fn plus_bytes(a: usize, b: usize) -> (r: usize)
    ensures
        r == least(a + b, usize::MAX as int),
{
    match a.checked_add(b) {
        Some(sum) => sum,
        None => usize::MAX,
    }
}

/// The size of `count` elements, as far as it can be counted.
pub fn times_bytes(count: usize, each: usize) -> (r: usize)
    ensures
        r == least(count * each, usize::MAX as int),
{
    match count.checked_mul(each) {
        Some(bytes) => bytes,
        None => usize::MAX,
    }
}

} // verus!
