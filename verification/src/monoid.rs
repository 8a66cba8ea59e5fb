//! The aggregation interface of the segment tree, the in-order combination
//! of a row of values, and counts as an instance.

use vstd::prelude::*;

verus! {

/// A value type with an associative combination and a two-sided identity.
///
/// The combination need not be commutative: users combine in positional
/// order, the left operand standing for the smaller positions.
pub trait Monoid: Sized {
    /// The identity, as a mathematical value.
    spec fn neutral() -> Self;

    /// The combination, as a mathematical function.
    spec fn combine(self, other: Self) -> Self;

    /// The identity is neutral on both sides.
    proof fn lemma_neutral(a: Self)
        ensures
            Self::neutral().combine(a) == a,
            a.combine(Self::neutral()) == a,
    ;

    /// The combination is associative.
    proof fn lemma_associative(a: Self, b: Self, c: Self)
        ensures
            a.combine(b).combine(c) == a.combine(b.combine(c)),
    ;

    /// The identity.
    fn m_empty() -> (e: Self)
        ensures
            e == Self::neutral(),
    ;

    /// The combination of `self`, on the left, and `other`, on the right.
    fn m_append(&self, other: &Self) -> (r: Self)
        ensures
            r == self.combine(*other),
    ;
}

/// The combination of `s[lo..hi]` in the order of the row; the identity
/// where the stretch is empty.
pub open spec fn fold<T: Monoid>(s: Seq<T>, lo: int, hi: int) -> T
    decreases hi - lo,
{
    if hi <= lo {
        T::neutral()
    } else {
        fold(s, lo, hi - 1).combine(s[hi - 1])
    }
}

/// The combination of one value is that value.
pub proof fn lemma_fold_one<T: Monoid>(s: Seq<T>, i: int)
    ensures
        fold(s, i, i + 1) == s[i],
{
    T::lemma_neutral(s[i]);
    assert(fold(s, i, i) == T::neutral());
}

/// A stretch combines to the combination of its two parts, wherever it is
/// cut.
pub proof fn lemma_fold_split<T: Monoid>(s: Seq<T>, lo: int, mid: int, hi: int)
    requires
        lo <= mid <= hi,
    ensures
        fold(s, lo, hi) == fold(s, lo, mid).combine(fold(s, mid, hi)),
    decreases hi - mid,
{
    if mid == hi {
        T::lemma_neutral(fold(s, lo, mid));
    } else {
        lemma_fold_split(s, lo, mid, hi - 1);
        T::lemma_associative(fold(s, lo, mid), fold(s, mid, hi - 1), s[hi - 1]);
    }
}

/// Addition of two counts, held at `usize::MAX` where the sum would pass it.
pub open spec fn capped_sum(a: usize, b: usize) -> usize {
    if a + b > usize::MAX {
        usize::MAX
    } else {
        (a + b) as usize
    }
}

/// Counts under addition; a sum that would pass `usize::MAX` stays there.
impl Monoid for usize {
    open spec fn neutral() -> usize {
        0
    }

    open spec fn combine(self, other: usize) -> usize {
        capped_sum(self, other)
    }

    proof fn lemma_neutral(a: usize) {
    }

    proof fn lemma_associative(a: usize, b: usize, c: usize) {
    }

    fn m_empty() -> (e: usize) {
        0
    }

    fn m_append(&self, other: &usize) -> (r: usize) {
        match self.checked_add(*other) {
            Some(total) => total,
            None => usize::MAX,
        }
    }
}

/// The sum of the counts `s[lo..hi]`.
pub open spec fn total(s: Seq<usize>, lo: int, hi: int) -> int
    decreases hi - lo,
{
    if hi <= lo {
        0
    } else {
        total(s, lo, hi - 1) + s[hi - 1]
    }
}

/// Counts combine to their sum, held at `usize::MAX` where the sum would
/// pass it.
pub proof fn lemma_fold_is_capped_total(s: Seq<usize>, lo: int, hi: int)
    ensures
        0 <= total(s, lo, hi),
        fold(s, lo, hi) == if total(s, lo, hi) > usize::MAX {
            usize::MAX as int
        } else {
            total(s, lo, hi)
        },
    decreases hi - lo,
{
    if lo < hi {
        lemma_fold_is_capped_total(s, lo, hi - 1);
    }
}

} // verus!
