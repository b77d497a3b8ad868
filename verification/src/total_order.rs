//! The ordering that the sort consumes: a trait packaging a total order
//! relation, the proof obligations that make it one, and an executable
//! comparison, together with implementations for the element types the
//! crate is used with.

use vstd::prelude::*;
use vstd::string::StrSliceExecFns;

verus! {

/// A type whose values are totally ordered by `le`.
///
/// Implementations must prove `le` transitive and total; reflexivity
/// follows from totality.  Antisymmetry with respect to specification
/// equality is deliberately not demanded here — the sorting proofs do not
/// need it — and the laws that do need it (idempotence, direction duality)
/// take it as an explicit hypothesis.
pub trait TotalOrder: Sized {
    /// The order relation: `self` comes no later than `other`.
    spec fn le(self, other: Self) -> bool;

    /// `le` is transitive.
    proof fn transitive(x: Self, y: Self, z: Self)
        requires
            x.le(y),
            y.le(z),
        ensures
            x.le(z),
    ;

    /// `le` is total: any two values are comparable.
    proof fn total(x: Self, y: Self)
        ensures
            x.le(y) || y.le(x),
    ;

    /// Executable comparison deciding the relation.
    fn leq(&self, other: &Self) -> (r: bool)
        ensures
            r == self.le(*other),
    ;
}

impl TotalOrder for u32 {
    open spec fn le(self, other: Self) -> bool {
        self <= other
    }

    proof fn transitive(x: Self, y: Self, z: Self) {
    }

    proof fn total(x: Self, y: Self) {
    }

    fn leq(&self, other: &Self) -> (r: bool) {
        *self <= *other
    }
}

/// Lexicographic order on character sequences, by character code.
pub open spec fn lex_le(a: Seq<char>, b: Seq<char>) -> bool
    decreases a.len(),
{
    if a.len() == 0 {
        true
    } else if b.len() == 0 {
        false
    } else if (a[0] as u32) < (b[0] as u32) {
        true
    } else if (b[0] as u32) < (a[0] as u32) {
        false
    } else {
        lex_le(a.drop_first(), b.drop_first())
    }
}

/// Lexicographic order is total.
pub proof fn lemma_lex_le_total(a: Seq<char>, b: Seq<char>)
    ensures
        lex_le(a, b) || lex_le(b, a),
    decreases a.len(),
{
    if a.len() > 0 && b.len() > 0 && (a[0] as u32) == (b[0] as u32) {
        lemma_lex_le_total(a.drop_first(), b.drop_first());
    }
}

/// Lexicographic order is transitive.
pub proof fn lemma_lex_le_trans(a: Seq<char>, b: Seq<char>, c: Seq<char>)
    requires
        lex_le(a, b),
        lex_le(b, c),
    ensures
        lex_le(a, c),
    decreases a.len(),
{
    if a.len() > 0 {
        if (a[0] as u32) == (b[0] as u32) && (b[0] as u32) == (c[0] as u32) {
            lemma_lex_le_trans(a.drop_first(), b.drop_first(), c.drop_first());
        }
    }
}

/// Executable lexicographic comparison of two string slices.
fn str_leq(a: &str, b: &str) -> (r: bool)
    ensures
        r == lex_le(a@, b@),
{
    let n1 = a.unicode_len();
    let n2 = b.unicode_len();
    let mut i: usize = 0;
    proof {
        assert(a@.skip(0) =~= a@);
        assert(b@.skip(0) =~= b@);
    }
    while i < n1 && i < n2
        invariant
            i <= n1,
            i <= n2,
            n1 == a@.len(),
            n2 == b@.len(),
            lex_le(a@, b@) == lex_le(a@.skip(i as int), b@.skip(i as int)),
        decreases n1 - i,
    {
        let c1 = a.get_char(i) as u32;
        let c2 = b.get_char(i) as u32;
        if c1 != c2 {
            proof {
                assert(a@.skip(i as int)[0] == a@[i as int]);
                assert(b@.skip(i as int)[0] == b@[i as int]);
            }
            return c1 < c2;
        }
        proof {
            assert(a@.skip(i as int)[0] == a@[i as int]);
            assert(b@.skip(i as int)[0] == b@[i as int]);
            assert(a@.skip(i as int).drop_first() =~= a@.skip(i + 1));
            assert(b@.skip(i as int).drop_first() =~= b@.skip(i + 1));
        }
        i += 1;
    }
    proof {
        if n1 <= n2 {
            assert(a@.skip(i as int).len() == 0);
        } else {
            assert(i == n2);
            assert(a@.skip(i as int).len() > 0 && b@.skip(i as int).len() == 0);
        }
    }
    n1 <= n2
}

impl<'a> TotalOrder for &'a str {
    open spec fn le(self, other: Self) -> bool {
        lex_le(self@, other@)
    }

    proof fn transitive(x: Self, y: Self, z: Self) {
        lemma_lex_le_trans(x@, y@, z@);
    }

    proof fn total(x: Self, y: Self) {
        lemma_lex_le_total(x@, y@);
    }

    fn leq(&self, other: &Self) -> (r: bool) {
        str_leq(*self, *other)
    }
}

impl TotalOrder for String {
    open spec fn le(self, other: Self) -> bool {
        lex_le(self@, other@)
    }

    proof fn transitive(x: Self, y: Self, z: Self) {
        lemma_lex_le_trans(x@, y@, z@);
    }

    proof fn total(x: Self, y: Self) {
        lemma_lex_le_total(x@, y@);
    }

    fn leq(&self, other: &Self) -> (r: bool) {
        str_leq(self.as_str(), other.as_str())
    }
}

} // verus!
