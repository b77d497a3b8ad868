//! Laws relating the sorting entries to each other: idempotence on sorted
//! input, duality of the two directions, and agreement of the generic and
//! the monomorphic entry.
//!
//! Each law compares two sequences that meet the sorting contract — sorted
//! in some direction and carrying a given multiset — since that contract
//! pins the result down completely once the order relation is
//! antisymmetric.

use vstd::prelude::*;

use vstd::relations::total_ordering;
use vstd::seq_lib::lemma_sorted_unique;

use crate::bitonic::{dle, sorted_in};
use crate::total_order::TotalOrder;

verus! {

/// The order relation identifies values that it cannot tell apart.
/// Together with the trait's obligations this makes `le` a total order in
/// the strict sense; the laws below assume it where they speak of equality
/// of whole sequences.
pub open spec fn antisymmetric_le<T: TotalOrder>() -> bool {
    forall|a: T, b: T| #[trigger] a.le(b) && #[trigger] b.le(a) ==> a == b
}

/// A sorted rearrangement of a sequence is unique: two sequences that are
/// sorted the same way and carry the same multiset are equal.
pub proof fn lemma_sorted_permutation_unique<T: TotalOrder>(s: Seq<T>, t: Seq<T>, up: bool)
    requires
        antisymmetric_le::<T>(),
        sorted_in(s, up),
        sorted_in(t, up),
        s.to_multiset() == t.to_multiset(),
    ensures
        s == t,
{
    let leq = |a: T, b: T| dle(up, a, b);
    assert forall|a: T| #[trigger] leq(a, a) by {
        T::total(a, a);
    }
    assert forall|a: T, b: T| #[trigger] leq(a, b) && #[trigger] leq(b, a) implies a == b by {
        assert(a.le(b) && b.le(a));
    }
    assert forall|a: T, b: T, c: T| #[trigger] leq(a, b) && #[trigger] leq(b, c) implies leq(
        a,
        c,
    ) by {
        if up {
            T::transitive(a, b, c);
        } else {
            T::transitive(c, b, a);
        }
    }
    assert forall|a: T, b: T| #[trigger] leq(a, b) || #[trigger] leq(b, a) by {
        T::total(a, b);
    }
    assert(total_ordering(leq));
    lemma_sorted_unique(s, t, leq);
    assert(s =~= t);
}

/// Sorting an already sorted sequence leaves it unchanged: any result the
/// sorting contract allows on a sorted input `pre` — sorted the same way,
/// same multiset — is `pre` itself.
pub proof fn lemma_sort_idempotent<T: TotalOrder>(pre: Seq<T>, post: Seq<T>, up: bool)
    requires
        antisymmetric_le::<T>(),
        sorted_in(pre, up),
        sorted_in(post, up),
        post.to_multiset() == pre.to_multiset(),
    ensures
        post == pre,
{
    lemma_sorted_permutation_unique(post, pre, up);
}

/// Sorting ascending and reversing the result equals sorting descending:
/// whenever `asc` and `desc` are sorted in the two directions out of the
/// same multiset, `asc` reversed is `desc`.
pub proof fn lemma_direction_duality<T: TotalOrder>(asc: Seq<T>, desc: Seq<T>)
    requires
        antisymmetric_le::<T>(),
        sorted_in(asc, true),
        sorted_in(desc, false),
        asc.to_multiset() == desc.to_multiset(),
    ensures
        asc.reverse() == desc,
{
    let rev = asc.reverse();
    let n = asc.len() as int;
    assert forall|i: int, j: int| 0 <= i < j < n implies dle(false, #[trigger] rev[i], #[trigger] rev[j]) by {
        assert(rev[i] == asc[n - 1 - i] && rev[j] == asc[n - 1 - j]);
        assert(dle(true, asc[n - 1 - j], asc[n - 1 - i]));
    }
    asc.lemma_reverse_to_multiset();
    lemma_sorted_permutation_unique(rev, desc, false);
}

/// The generic entry with `Ascending` and the `u32` entry with `true` meet
/// the same contract, so on power-of-two lengths their outputs on one
/// input coincide: any two ascending-sorted sequences out of that input's
/// multiset are equal.
pub proof fn lemma_generic_matches_u32(a: Seq<u32>, b: Seq<u32>)
    requires
        sorted_in(a, true),
        sorted_in(b, true),
        a.to_multiset() == b.to_multiset(),
    ensures
        a == b,
{
    assert(antisymmetric_le::<u32>());
    lemma_sorted_permutation_unique(a, b, true);
}

} // verus!
