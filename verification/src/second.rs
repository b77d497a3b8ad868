//! The generic sorting entry: the bitonic build/merge recursion over any
//! totally ordered element type, driven on index ranges of one vector.

use vstd::prelude::*;

use crate::SortOrder;
use crate::bitonic::{
    bitonic, dle, is_pow2, lemma_cross_multiset, lemma_half_cleaner, lemma_ms_split,
    lemma_sorted_join, lemma_swap_multiset, lemma_updown_bitonic, sorted_in,
};
use crate::direction_of;
use crate::total_order::TotalOrder;

verus! {

/// `post` and `pre` agree in length and everywhere outside `[lo, hi)`.
pub open spec fn frame_eq<T>(pre: Seq<T>, post: Seq<T>, lo: int, hi: int) -> bool {
    &&& post.len() == pre.len()
    &&& forall|k: int| 0 <= k < pre.len() && !(lo <= k < hi) ==> #[trigger] post[k] == pre[k]
}

/// Pair `i` of a comparator pass is settled: the partners were exchanged
/// exactly when the left one was strictly past the right one in direction
/// `up` — ties are never swapped — and they now stand in direction `up`.
pub open spec fn pair_done<T: TotalOrder>(pre: Seq<T>, post: Seq<T>, up: bool, i: int) -> bool {
    let m = pre.len() as int / 2;
    let swapped = ((!pre[i].le(pre[i + m])) == up);
    &&& post[i] == (if swapped {
        pre[i + m]
    } else {
        pre[i]
    })
    &&& post[i + m] == (if swapped {
        pre[i]
    } else {
        pre[i + m]
    })
    &&& dle(up, post[i], post[i + m])
}

/// What one whole comparator pass does to the range it works on.
pub open spec fn cas_rel<T: TotalOrder>(pre: Seq<T>, post: Seq<T>, up: bool) -> bool {
    let m = pre.len() as int / 2;
    &&& post.len() == pre.len()
    &&& forall|i: int| 0 <= i < m ==> #[trigger] pair_done(pre, post, up, i)
    &&& forall|i: int| 2 * m <= i < pre.len() ==> #[trigger] post[i] == pre[i]
}

/// Relies on `<[T]>::swap`, reached through `Vec`'s deref: it exchanges
/// the elements at the two indices and moves nothing else.
#[verifier::external_body]
fn swap_in_vec<T>(x: &mut Vec<T>, i: usize, j: usize)
    requires
        i < old(x)@.len(),
        j < old(x)@.len(),
    ensures
        final(x)@ == old(x)@.update(i as int, old(x)@[j as int]).update(
            j as int,
            old(x)@[i as int],
        ),
{
    x.swap(i, j);
}

/// One comparator pass over `[lo, hi)`: each index of the first half is
/// compared with its partner one half-length away and the two are swapped
/// exactly when they disagree with direction `up`.
fn compare_and_swap<T: TotalOrder>(x: &mut Vec<T>, lo: usize, hi: usize, up: bool)
    requires
        lo <= hi <= old(x)@.len(),
    ensures
        frame_eq(old(x)@, final(x)@, lo as int, hi as int),
        cas_rel(
            old(x)@.subrange(lo as int, hi as int),
            final(x)@.subrange(lo as int, hi as int),
            up,
        ),
        final(x)@.subrange(lo as int, hi as int).to_multiset() == old(x)@.subrange(
            lo as int,
            hi as int,
        ).to_multiset(),
{
    let m = (hi - lo) / 2;
    let mut i: usize = 0;
    while i < m
        invariant
            lo <= hi <= x@.len(),
            x@.len() == old(x)@.len(),
            m == (hi - lo) / 2,
            i <= m,
            forall|k: int|
                0 <= k < x@.len() && !(lo <= k < lo + i) && !(lo + m <= k < lo + m + i)
                    ==> #[trigger] x@[k] == old(x)@[k],
            forall|j: int|
                0 <= j < i ==> #[trigger] pair_done(
                    old(x)@.subrange(lo as int, hi as int),
                    x@.subrange(lo as int, hi as int),
                    up,
                    j,
                ),
            x@.subrange(lo as int, hi as int).to_multiset() == old(x)@.subrange(
                lo as int,
                hi as int,
            ).to_multiset(),
        decreases m - i,
    {
        proof {
            assert(lo + m + i < hi) by {
                assert(2 * ((hi - lo) / 2) <= hi - lo);
            }
        }
        let gt = !x[lo + i].leq(&x[lo + m + i]);
        let ghost prev = x@;
        if gt == up {
            swap_in_vec(x, lo + i, lo + m + i);
            proof {
                lemma_swap_multiset(prev.subrange(lo as int, hi as int), i as int, i + m);
                assert(x@.subrange(lo as int, hi as int) =~= prev.subrange(
                    lo as int,
                    hi as int,
                ).update(i as int, prev.subrange(lo as int, hi as int)[i + m]).update(
                    i + m,
                    prev.subrange(lo as int, hi as int)[i as int],
                ));
            }
        }
        proof {
            let a = old(x)@.subrange(lo as int, hi as int);
            let b = x@.subrange(lo as int, hi as int);
            let bp = prev.subrange(lo as int, hi as int);
            assert(a.len() as int / 2 == m);
            // the pair just handled now stands in direction `up`
            assert(pair_done(a, b, up, i as int)) by {
                assert(bp[i as int] == a[i as int] && bp[i + m] == a[i + m]);
                T::total(a[i as int], a[i + m]);
            }
            // earlier pairs were not touched
            assert forall|j: int| 0 <= j < i implies #[trigger] pair_done(a, b, up, j) by {
                assert(pair_done(a, bp, up, j));
                assert(b[j] == bp[j] && b[j + m] == bp[j + m]);
            }
        }
        i += 1;
    }
    proof {
        let a = old(x)@.subrange(lo as int, hi as int);
        let b = x@.subrange(lo as int, hi as int);
        assert forall|k: int| 2 * (a.len() as int / 2) <= k < a.len() implies #[trigger] b[k]
            == a[k] by {
            assert(x@[lo + k] == old(x)@[lo + k]);
        }
    }
}

/// Bitonic merge on `[lo, hi)`: one comparator pass, then the same merge
/// on each half.  On a bitonic range of power-of-two length the range
/// comes out monotone in direction `up`; on every range the multiset of
/// elements is kept and nothing outside the range moves.
#[verifier::rlimit(100)]
fn sub_sort<T: TotalOrder>(x: &mut Vec<T>, lo: usize, hi: usize, up: bool)
    requires
        lo <= hi <= old(x)@.len(),
    ensures
        frame_eq(old(x)@, final(x)@, lo as int, hi as int),
        final(x)@.subrange(lo as int, hi as int).to_multiset() == old(x)@.subrange(
            lo as int,
            hi as int,
        ).to_multiset(),
        is_pow2(hi - lo) && bitonic(old(x)@.subrange(lo as int, hi as int)) ==> sorted_in(
            final(x)@.subrange(lo as int, hi as int),
            up,
        ),
    decreases hi - lo, 0int,
{
    if hi - lo > 1 {
        let ghost s0 = x@;
        compare_and_swap(x, lo, hi, up);
        let ghost s1 = x@;
        let m = (hi - lo) / 2;
        let mid = lo + m;
        sub_sort(x, lo, mid, up);
        let ghost s2 = x@;
        sub_sort(x, mid, hi, up);
        proof {
            let lo_i = lo as int;
            let hi_i = hi as int;
            let mid_i = mid as int;
            let mi = m as int;
            let n = hi_i - lo_i;
            let s3 = x@;
            let a0 = s0.subrange(lo_i, hi_i);
            let a1 = s1.subrange(lo_i, hi_i);
            let a2 = s2.subrange(lo_i, hi_i);
            let a3 = s3.subrange(lo_i, hi_i);
            // the two recursive calls kept the other half in place
            assert(s2.subrange(mid_i, hi_i) =~= s1.subrange(mid_i, hi_i));
            assert(s3.subrange(lo_i, mid_i) =~= s2.subrange(lo_i, mid_i));
            // multiset bookkeeping across the three steps
            assert(a1.subrange(0, mi) =~= s1.subrange(lo_i, mid_i));
            assert(a1.subrange(mi, n) =~= s1.subrange(mid_i, hi_i));
            assert(a2.subrange(0, mi) =~= s2.subrange(lo_i, mid_i));
            assert(a2.subrange(mi, n) =~= s2.subrange(mid_i, hi_i));
            assert(a3.subrange(0, mi) =~= s3.subrange(lo_i, mid_i));
            assert(a3.subrange(mi, n) =~= s3.subrange(mid_i, hi_i));
            lemma_ms_split(a2, a1, mi);
            lemma_ms_split(a3, a2, mi);
            if is_pow2(hi - lo) && bitonic(a0) {
                // the length is even, so the pass split the range exactly
                assert(n % 2 == 0 && is_pow2(n / 2));
                assert(2 * mi == n);
                assert forall|i: int|
                    0 <= i < mi implies ((#[trigger] a1[i] == a0[i] && a1[i + mi] == a0[i + mi])
                    || (a1[i] == a0[i + mi] && a1[i + mi] == a0[i])) && dle(
                    up,
                    a1[i],
                    a1[i + mi],
                ) by {
                    assert(pair_done(a0, a1, up, i));
                }
                lemma_half_cleaner(a0, a1, mi, up);
                // each half is bitonic, so the recursive merges sorted them
                assert(bitonic(s1.subrange(lo_i, mid_i)));
                assert(bitonic(s2.subrange(mid_i, hi_i)));
                assert(sorted_in(a3.subrange(0, mi), up));
                assert(sorted_in(a3.subrange(mi, n), up));
                // the pass ordered the halves against each other, and the
                // merges only rearranged within each half
                assert forall|p: int, q: int|
                    0 <= p < mi && 0 <= q < n - mi implies dle(
                    up,
                    #[trigger] a1.subrange(0, mi)[p],
                    #[trigger] a1.subrange(mi, n)[q],
                ) by {
                    assert(dle(up, a1[p], a1[mi + q]));
                }
                lemma_cross_multiset(
                    a1.subrange(0, mi),
                    a1.subrange(mi, n),
                    a3.subrange(0, mi),
                    a3.subrange(mi, n),
                    up,
                );
                assert forall|i: int, j: int| 0 <= i < mi <= j < n implies dle(
                    up,
                    #[trigger] a3[i],
                    #[trigger] a3[j],
                ) by {
                    assert(dle(up, a3.subrange(0, mi)[i], a3.subrange(mi, n)[j - mi]));
                }
                lemma_sorted_join(a3, mi, up);
            }
        }
    }
}

/// Bitonic build on `[lo, hi)`: sort the left half ascending and the
/// right half descending — fixed directions, which is what makes the whole
/// range bitonic — then merge in the caller's direction.  On power-of-two
/// lengths the range comes out monotone in direction `up`; on every length
/// the multiset of elements is kept and nothing outside the range moves.
pub(crate) fn do_sort<T: TotalOrder>(x: &mut Vec<T>, lo: usize, hi: usize, up: bool)
    requires
        lo <= hi <= old(x)@.len(),
    ensures
        frame_eq(old(x)@, final(x)@, lo as int, hi as int),
        final(x)@.subrange(lo as int, hi as int).to_multiset() == old(x)@.subrange(
            lo as int,
            hi as int,
        ).to_multiset(),
        is_pow2(hi - lo) ==> sorted_in(final(x)@.subrange(lo as int, hi as int), up),
    decreases hi - lo, 1int,
{
    if hi - lo > 1 {
        let m = (hi - lo) / 2;
        let mid = lo + m;
        let ghost s0 = x@;
        do_sort(x, lo, mid, true);
        let ghost s1 = x@;
        do_sort(x, mid, hi, false);
        let ghost s2 = x@;
        proof {
            let lo_i = lo as int;
            let hi_i = hi as int;
            let mid_i = mid as int;
            let mi = m as int;
            let n = hi_i - lo_i;
            let a0 = s0.subrange(lo_i, hi_i);
            let a1 = s1.subrange(lo_i, hi_i);
            let a2 = s2.subrange(lo_i, hi_i);
            assert(s1.subrange(mid_i, hi_i) =~= s0.subrange(mid_i, hi_i));
            assert(s2.subrange(lo_i, mid_i) =~= s1.subrange(lo_i, mid_i));
            assert(a1.subrange(0, mi) =~= s1.subrange(lo_i, mid_i));
            assert(a1.subrange(mi, n) =~= s1.subrange(mid_i, hi_i));
            assert(a2.subrange(0, mi) =~= s2.subrange(lo_i, mid_i));
            assert(a2.subrange(mi, n) =~= s2.subrange(mid_i, hi_i));
            assert(a0.subrange(0, mi) =~= s0.subrange(lo_i, mid_i));
            assert(a0.subrange(mi, n) =~= s0.subrange(mid_i, hi_i));
            lemma_ms_split(a1, a0, mi);
            lemma_ms_split(a2, a1, mi);
            if is_pow2(hi - lo) {
                // halves of a power of two are powers of two
                assert(n % 2 == 0 && is_pow2(n / 2));
                assert(mid_i - lo_i == n / 2 && hi_i - mid_i == n / 2);
                assert(sorted_in(s2.subrange(lo_i, mid_i), true));
                assert(sorted_in(s2.subrange(mid_i, hi_i), false));
                lemma_updown_bitonic(a2, mi);
            }
        }
        sub_sort(x, lo, hi, up);
        proof {
            let lo_i = lo as int;
            let hi_i = hi as int;
            let s3 = x@;
            assert(s3.subrange(lo_i, hi_i).to_multiset() == s2.subrange(
                lo_i,
                hi_i,
            ).to_multiset());
        }
    }
}

/// Sort the whole vector in the direction named by `order`.
///
/// The multiset of elements and the length are always preserved; when the
/// length is a power of two the vector is monotone in the chosen
/// direction on return.
pub fn sort<T: TotalOrder>(x: &mut Vec<T>, order: &SortOrder)
    ensures
        final(x)@.len() == old(x)@.len(),
        final(x)@.to_multiset() == old(x)@.to_multiset(),
        is_pow2(old(x)@.len() as int) ==> sorted_in(final(x)@, direction_of(*order)),
{
    let n = x.len();
    match order {
        SortOrder::Ascending => do_sort(x, 0, n, true),
        SortOrder::Descending => do_sort(x, 0, n, false),
    }
    proof {
        assert(x@.subrange(0, n as int) =~= x@);
        assert(old(x)@.subrange(0, n as int) =~= old(x)@);
    }
}

} // verus!
