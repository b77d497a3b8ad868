//! The monomorphic sorting entry over unsigned 32-bit integers.  It takes
//! the direction as a bare boolean flag and drives the same verified
//! recursion as the generic entry.

use vstd::prelude::*;

use crate::bitonic::{is_pow2, sorted_in};
use crate::second::do_sort;

verus! {

/// Sort the whole vector of `u32`, ascending when `up` is true and
/// descending otherwise.
///
/// The multiset of elements and the length are always preserved; when the
/// length is a power of two the vector is monotone in the chosen
/// direction on return.
pub fn sort(x: &mut Vec<u32>, up: bool)
    ensures
        final(x)@.len() == old(x)@.len(),
        final(x)@.to_multiset() == old(x)@.to_multiset(),
        is_pow2(old(x)@.len() as int) ==> sorted_in(final(x)@, up),
{
    let n = x.len();
    do_sort(x, 0, n, up);
    proof {
        assert(x@.subrange(0, n as int) =~= x@);
        assert(old(x)@.subrange(0, n as int) =~= old(x)@);
    }
}

} // verus!
