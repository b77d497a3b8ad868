//! The sequence-level theory behind the sort: directed order, sortedness,
//! the bitonic predicate, and the lemmas that carry the halving merge.
//!
//! "Bitonic" is stated here through a four-point test: no four positions
//! may hold values that zigzag strictly.  Every concatenation of a
//! non-decreasing run and a non-increasing run — and every cyclic rotation
//! of one — passes this test, and the test is exactly what one pass of the
//! comparator network preserves on both halves.

use vstd::prelude::*;

use crate::total_order::TotalOrder;

verus! {

/// `a` comes no later than `b` when sorting in direction `up`.
pub open spec fn dle<T: TotalOrder>(up: bool, a: T, b: T) -> bool {
    if up {
        a.le(b)
    } else {
        b.le(a)
    }
}

/// The sequence is monotone in direction `up`.
pub open spec fn sorted_in<T: TotalOrder>(s: Seq<T>, up: bool) -> bool {
    forall|i: int, j: int| 0 <= i < j < s.len() ==> dle(up, #[trigger] s[i], #[trigger] s[j])
}

/// Four values, read at increasing positions, go strictly up and down
/// alternately (in either phase).
pub open spec fn zigzag<T: TotalOrder>(a: T, b: T, c: T, d: T) -> bool {
    (!a.le(b) && !c.le(b) && !c.le(d) && !a.le(d)) || (!b.le(a) && !b.le(c) && !d.le(c) && !d.le(
        a,
    ))
}

/// A sequence is bitonic when no four of its positions zigzag.
#[verifier::opaque]
pub open spec fn bitonic<T: TotalOrder>(s: Seq<T>) -> bool {
    forall|q1: int, q2: int, q3: int, q4: int|
        0 <= q1 < q2 < q3 < q4 < s.len() ==> !zigzag(
            #[trigger] s[q1],
            #[trigger] s[q2],
            #[trigger] s[q3],
            #[trigger] s[q4],
        )
}

/// `n` is a power of two.
pub open spec fn is_pow2(n: int) -> bool
    decreases n,
{
    if n < 1 {
        false
    } else if n == 1 {
        true
    } else {
        n % 2 == 0 && is_pow2(n / 2)
    }
}

/// `dle` is reflexive in either direction.
pub proof fn lemma_dle_refl<T: TotalOrder>(up: bool, a: T)
    ensures
        dle(up, a, a),
{
    T::total(a, a);
}

/// `dle` is transitive in either direction.
pub proof fn lemma_dle_trans<T: TotalOrder>(up: bool, x: T, y: T, z: T)
    requires
        dle(up, x, y),
        dle(up, y, z),
    ensures
        dle(up, x, z),
{
    if up {
        T::transitive(x, y, z);
    } else {
        T::transitive(z, y, x);
    }
}

/// From `x ≤ e` and `x ≰ y` conclude `e ≰ y`.
proof fn lemma_shift_above<T: TotalOrder>(x: T, e: T, y: T)
    requires
        x.le(e),
        !x.le(y),
    ensures
        !e.le(y),
{
    if e.le(y) {
        T::transitive(x, e, y);
    }
}

/// From `e ≤ x` and `y ≰ x` conclude `y ≰ e`.
proof fn lemma_shift_below<T: TotalOrder>(x: T, e: T, y: T)
    requires
        e.le(x),
        !y.le(x),
    ensures
        !y.le(e),
{
    if y.le(e) {
        T::transitive(y, e, x);
    }
}

/// A non-decreasing run followed by a non-increasing run is bitonic.
pub proof fn lemma_updown_bitonic<T: TotalOrder>(s: Seq<T>, m: int)
    requires
        0 <= m <= s.len(),
        sorted_in(s.subrange(0, m), true),
        sorted_in(s.subrange(m, s.len() as int), false),
    ensures
        bitonic(s),
{
    reveal(crate::bitonic::bitonic);
    let n = s.len() as int;
    let pre = s.subrange(0, m);
    let suf = s.subrange(m, n);
    assert forall|q1: int, q2: int, q3: int, q4: int|
        0 <= q1 < q2 < q3 < q4 < n implies !zigzag(s[q1], s[q2], s[q3], s[q4]) by {
        // Any strict zigzag would put a strict rise inside the
        // non-increasing suffix or a strict fall inside the
        // non-decreasing prefix.
        if q2 < m {
            assert(pre[q1] == s[q1] && pre[q2] == s[q2]);
            assert(dle(true, s[q1], s[q2]));
        } else {
            assert(suf[q2 - m] == s[q2] && suf[q3 - m] == s[q3]);
            assert(dle(false, s[q2], s[q3]));
        }
        if q3 < m {
            assert(pre[q2] == s[q2] && pre[q3] == s[q3]);
            assert(dle(true, s[q2], s[q3]));
        } else {
            assert(suf[q3 - m] == s[q3] && suf[q4 - m] == s[q4]);
            assert(dle(false, s[q3], s[q4]));
        }
    }
}

/// One half left by a comparator pass is itself bitonic.
///
/// `hs` holds, for each pair `(pre[k], pre[k + m])`, the member that the
/// pass put on this half; `below` says whether this half received the
/// member that comes first in direction `up`.
proof fn lemma_half_bitonic<T: TotalOrder>(pre: Seq<T>, hs: Seq<T>, m: int, up: bool, below: bool)
    requires
        pre.len() == 2 * m,
        hs.len() == m,
        bitonic(pre),
        forall|k: int| 0 <= k < m ==> #[trigger] hs[k] == pre[k] || hs[k] == pre[k + m],
        below ==> forall|k: int|
            0 <= k < m ==> dle(up, #[trigger] hs[k], pre[k]) && dle(up, hs[k], pre[k + m]),
        !below ==> forall|k: int|
            0 <= k < m ==> dle(up, pre[k], #[trigger] hs[k]) && dle(up, pre[k + m], hs[k]),
    ensures
        bitonic(hs),
{
    // When `up == below`, every member kept on this half lies at or below
    // both members of its pair in the raw order, so a zigzag among the
    // kept members spreads its two peaks over whole pairs of `pre`; in
    // the opposite case it spreads its two valleys.  Either way four
    // positions of `pre` zigzag.
    reveal(crate::bitonic::bitonic);
    let low_raw = (up == below);
    assert forall|q1: int, q2: int, q3: int, q4: int|
        0 <= q1 < q2 < q3 < q4 < m implies !zigzag(hs[q1], hs[q2], hs[q3], hs[q4]) by {
        if zigzag(hs[q1], hs[q2], hs[q3], hs[q4]) {
            assert(hs[q1] == pre[q1] || hs[q1] == pre[q1 + m]);
            assert(hs[q2] == pre[q2] || hs[q2] == pre[q2 + m]);
            assert(hs[q3] == pre[q3] || hs[q3] == pre[q3 + m]);
            assert(hs[q4] == pre[q4] || hs[q4] == pre[q4 + m]);
            if !hs[q1].le(hs[q2]) && !hs[q3].le(hs[q2]) && !hs[q3].le(hs[q4]) && !hs[q1].le(
                hs[q4],
            ) {
                // peaks at q1, q3; valleys at q2, q4
                if low_raw {
                    lemma_shift_above(hs[q1], pre[q1], hs[q2]);
                    lemma_shift_above(hs[q1], pre[q1 + m], hs[q2]);
                    lemma_shift_above(hs[q1], pre[q1], hs[q4]);
                    lemma_shift_above(hs[q1], pre[q1 + m], hs[q4]);
                    lemma_shift_above(hs[q3], pre[q3], hs[q2]);
                    lemma_shift_above(hs[q3], pre[q3 + m], hs[q2]);
                    lemma_shift_above(hs[q3], pre[q3], hs[q4]);
                    lemma_shift_above(hs[q3], pre[q3 + m], hs[q4]);
                } else {
                    lemma_shift_below(hs[q2], pre[q2], hs[q1]);
                    lemma_shift_below(hs[q2], pre[q2 + m], hs[q1]);
                    lemma_shift_below(hs[q2], pre[q2], hs[q3]);
                    lemma_shift_below(hs[q2], pre[q2 + m], hs[q3]);
                    lemma_shift_below(hs[q4], pre[q4], hs[q1]);
                    lemma_shift_below(hs[q4], pre[q4 + m], hs[q1]);
                    lemma_shift_below(hs[q4], pre[q4], hs[q3]);
                    lemma_shift_below(hs[q4], pre[q4 + m], hs[q3]);
                }
            } else {
                // valleys at q1, q3; peaks at q2, q4
                if low_raw {
                    lemma_shift_above(hs[q2], pre[q2], hs[q1]);
                    lemma_shift_above(hs[q2], pre[q2 + m], hs[q1]);
                    lemma_shift_above(hs[q2], pre[q2], hs[q3]);
                    lemma_shift_above(hs[q2], pre[q2 + m], hs[q3]);
                    lemma_shift_above(hs[q4], pre[q4], hs[q1]);
                    lemma_shift_above(hs[q4], pre[q4 + m], hs[q1]);
                    lemma_shift_above(hs[q4], pre[q4], hs[q3]);
                    lemma_shift_above(hs[q4], pre[q4 + m], hs[q3]);
                } else {
                    lemma_shift_below(hs[q1], pre[q1], hs[q2]);
                    lemma_shift_below(hs[q1], pre[q1 + m], hs[q2]);
                    lemma_shift_below(hs[q1], pre[q1], hs[q4]);
                    lemma_shift_below(hs[q1], pre[q1 + m], hs[q4]);
                    lemma_shift_below(hs[q3], pre[q3], hs[q2]);
                    lemma_shift_below(hs[q3], pre[q3 + m], hs[q2]);
                    lemma_shift_below(hs[q3], pre[q3], hs[q4]);
                    lemma_shift_below(hs[q3], pre[q3 + m], hs[q4]);
                }
            }
            assert(false);
        }
    }
}

/// One comparator pass over a bitonic range leaves two bitonic halves,
/// with every member of the first half at or before every member of the
/// second in the chosen direction.
pub proof fn lemma_half_cleaner<T: TotalOrder>(pre: Seq<T>, post: Seq<T>, m: int, up: bool)
    requires
        0 <= m,
        pre.len() == 2 * m,
        post.len() == 2 * m,
        bitonic(pre),
        forall|i: int|
            0 <= i < m ==> (#[trigger] post[i] == pre[i] && post[i + m] == pre[i + m]) || (post[i]
                == pre[i + m] && post[i + m] == pre[i]),
        forall|i: int| 0 <= i < m ==> dle(up, #[trigger] post[i], post[i + m]),
    ensures
        forall|i: int, j: int|
            0 <= i < m <= j < 2 * m ==> dle(up, #[trigger] post[i], #[trigger] post[j]),
        bitonic(post.subrange(0, m)),
        bitonic(post.subrange(m, 2 * m)),
{
    reveal(crate::bitonic::bitonic);
    // Each kept pair brackets its sources in direction `up`.
    assert forall|k: int| 0 <= k < m implies dle(up, #[trigger] post[k], pre[k]) && dle(
        up,
        post[k],
        pre[k + m],
    ) && dle(up, pre[k], post[k + m]) && dle(up, pre[k + m], post[k + m]) by {
        lemma_dle_refl(up, post[k]);
        lemma_dle_refl(up, post[k + m]);
    }
    // Cross property: a violation would make the two source pairs zigzag.
    assert forall|i: int, j: int| 0 <= i < m <= j < 2 * m implies dle(
        up,
        #[trigger] post[i],
        #[trigger] post[j],
    ) by {
        let jj = j - m;
        if i != jj && !dle(up, post[i], post[j]) {
            assert forall|e: T, f: T|
                (e == pre[i] || e == pre[i + m]) && (f == pre[jj] || f == pre[jj + m]) implies !dle(
                up,
                e,
                f,
            ) by {
                if dle(up, e, f) {
                    assert(dle(up, post[jj], pre[jj]));
                    lemma_dle_trans(up, post[i], e, f);
                    lemma_dle_trans(up, post[i], f, post[jj + m]);
                }
            }
            assert(!dle(up, pre[i], pre[jj]) && !dle(up, pre[i], pre[jj + m]));
            assert(!dle(up, pre[i + m], pre[jj]) && !dle(up, pre[i + m], pre[jj + m]));
            if i < jj {
                assert(zigzag(pre[i], pre[jj], pre[i + m], pre[jj + m]));
            } else {
                assert(zigzag(pre[jj], pre[i], pre[jj + m], pre[i + m]));
            }
            assert(false);
        }
    }
    let left = post.subrange(0, m);
    let right = post.subrange(m, 2 * m);
    assert forall|k: int| 0 <= k < m implies #[trigger] left[k] == pre[k] || left[k] == pre[k
        + m] by {
        assert(left[k] == post[k]);
    }
    assert forall|k: int| 0 <= k < m implies #[trigger] right[k] == pre[k] || right[k] == pre[k
        + m] by {
        assert(right[k] == post[k + m]);
        assert(post[k] == pre[k] || post[k] == pre[k + m]);
    }
    assert forall|k: int| 0 <= k < m implies dle(up, #[trigger] left[k], pre[k]) && dle(
        up,
        left[k],
        pre[k + m],
    ) by {
        assert(left[k] == post[k]);
    }
    assert forall|k: int| 0 <= k < m implies dle(up, pre[k], #[trigger] right[k]) && dle(
        up,
        pre[k + m],
        right[k],
    ) by {
        assert(right[k] == post[k + m]);
        assert(dle(up, post[k], pre[k]));
    }
    lemma_half_bitonic(pre, left, m, up, true);
    lemma_half_bitonic(pre, right, m, up, false);
}

/// Two sorted halves with the cross property concatenate to a sorted whole.
pub proof fn lemma_sorted_join<T: TotalOrder>(s: Seq<T>, m: int, up: bool)
    requires
        0 <= m <= s.len(),
        sorted_in(s.subrange(0, m), up),
        sorted_in(s.subrange(m, s.len() as int), up),
        forall|i: int, j: int|
            0 <= i < m <= j < s.len() ==> dle(up, #[trigger] s[i], #[trigger] s[j]),
    ensures
        sorted_in(s, up),
{
    let n = s.len() as int;
    let lo = s.subrange(0, m);
    let hi = s.subrange(m, n);
    assert forall|i: int, j: int| 0 <= i < j < n implies dle(up, s[i], s[j]) by {
        if j < m {
            assert(lo[i] == s[i] && lo[j] == s[j]);
            assert(dle(up, lo[i], lo[j]));
        } else if i >= m {
            assert(hi[i - m] == s[i] && hi[j - m] == s[j]);
            assert(dle(up, hi[i - m], hi[j - m]));
        }
    }
}

/// The cross property survives any rearrangement of each side.
pub proof fn lemma_cross_multiset<T: TotalOrder>(
    a1: Seq<T>,
    a2: Seq<T>,
    b1: Seq<T>,
    b2: Seq<T>,
    up: bool,
)
    requires
        b1.to_multiset() == a1.to_multiset(),
        b2.to_multiset() == a2.to_multiset(),
        forall|p: int, q: int|
            0 <= p < a1.len() && 0 <= q < a2.len() ==> dle(up, #[trigger] a1[p], #[trigger] a2[q]),
    ensures
        forall|p: int, q: int|
            0 <= p < b1.len() && 0 <= q < b2.len() ==> dle(up, #[trigger] b1[p], #[trigger] b2[q]),
{
    broadcast use vstd::seq_lib::group_to_multiset_ensures;

    assert forall|p: int, q: int|
        0 <= p < b1.len() && 0 <= q < b2.len() implies dle(up, #[trigger] b1[p], #[trigger] b2[q]) by {
        assert(b1.contains(b1[p]));
        assert(b2.contains(b2[q]));
        assert(a1.to_multiset().count(b1[p]) > 0);
        assert(a2.to_multiset().count(b2[q]) > 0);
        assert(a1.contains(b1[p]));
        assert(a2.contains(b2[q]));
        let k1 = choose|k: int| 0 <= k < a1.len() && a1[k] == b1[p];
        let k2 = choose|k: int| 0 <= k < a2.len() && a2[k] == b2[q];
        assert(dle(up, a1[k1], a2[k2]));
    }
}

/// Two sequences whose matching halves carry equal multisets carry equal
/// multisets as wholes.
pub proof fn lemma_ms_split<T>(s: Seq<T>, t: Seq<T>, m: int)
    requires
        s.len() == t.len(),
        0 <= m <= s.len(),
        s.subrange(0, m).to_multiset() == t.subrange(0, m).to_multiset(),
        s.subrange(m, s.len() as int).to_multiset() == t.subrange(m, t.len() as int).to_multiset(),
    ensures
        s.to_multiset() == t.to_multiset(),
{
    let n = s.len() as int;
    vstd::seq_lib::lemma_multiset_commutative(s.subrange(0, m), s.subrange(m, n));
    vstd::seq_lib::lemma_multiset_commutative(t.subrange(0, m), t.subrange(m, n));
    assert(s =~= s.subrange(0, m) + s.subrange(m, n));
    assert(t =~= t.subrange(0, m) + t.subrange(m, n));
}

/// Exchanging two positions of a sequence keeps its multiset.
pub proof fn lemma_swap_multiset<T>(s: Seq<T>, i: int, j: int)
    requires
        0 <= i < s.len(),
        0 <= j < s.len(),
    ensures
        s.update(i, s[j]).update(j, s[i]).to_multiset() == s.to_multiset(),
{
    broadcast use vstd::seq_lib::group_to_multiset_ensures;
    broadcast use vstd::seq_lib::to_multiset_update;
    broadcast use vstd::multiset::group_multiset_axioms;

    if i == j {
        assert(s.update(i, s[j]).update(j, s[i]) =~= s);
    } else {
        let s1 = s.update(i, s[j]);
        assert(s.contains(s[i]));
        assert(s1[j] == s[j]);
        assert(s1.contains(s1[j]));
        assert(s1.update(j, s[i]).to_multiset() =~= s.to_multiset());
    }
}

} // verus!
