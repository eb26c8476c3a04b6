//! How much memory lists hold.

use vstd::prelude::*;
use vstd::layout::size_of;

verus! {

/// How many elements a list has room for, by `Vec::capacity`. The elements it holds fit, and the
/// room takes at most `isize::MAX` bytes, the most that a list ever allocates; what the allocator
/// gave within these bounds is left open.
#[verifier::external_body]
pub(crate) fn capacity_of<T>(v: &Vec<T>) -> (n: usize)
    ensures
        room_of::<T>(v@.len(), n),
{
    v.capacity()
}

/// A list of `len` elements can have room for `room` of them.
pub open spec fn room_of<T>(len: nat, room: usize) -> bool {
    len <= room && room * size_of::<T>() <= isize::MAX
}

/// A number of bytes cut to what a `usize` can hold.
pub open spec fn capped_bytes(n: int) -> int {
    if n > usize::MAX {
        usize::MAX as int
    } else {
        n
    }
}

/// The bytes that room for `room` elements takes, at `size` bytes an element.
pub fn room_bytes(room: usize, size: usize) -> (n: usize)
    ensures
        n == capped_bytes(room * size),
{
    proof {
        assert(room * size >= 0) by (nonlinear_arith)
            requires
                room >= 0,
                size >= 0,
        ;
    }
    match room.checked_mul(size) {
        Some(n) => n,
        None => usize::MAX,
    }
}

} // verus!
