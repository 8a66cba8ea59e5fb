//! A static segment tree over a row of monoid values, which answers the
//! in-order combination of any stretch of the row.
//!
//! The tree of `n` leaves lies in an array of `2n` places: the leaves in the
//! places `n..2n`, and in each place `i` of `1..n` the combination of the
//! places `2i` and `2i + 1`. Place 0 is not used.

use crate::monoid::{fold, lemma_fold_one, lemma_fold_split, Monoid};
use vstd::prelude::*;

verus! {

/// What place `i` of the array holds in a tree over the leaves `s`.
pub open spec fn node_value<T: Monoid>(s: Seq<T>, i: int) -> T
    decreases
        (if i < s.len() {
            s.len() - i
        } else {
            0
        }),
{
    if i <= 0 {
        T::neutral()
    } else if i >= s.len() {
        s[i - s.len()]
    } else {
        node_value(s, 2 * i).combine(node_value(s, 2 * i + 1))
    }
}

/// The first leaf under place `i` of a tree of `n` leaves.
spec fn span_lo(n: int, i: int) -> int
    decreases
        (if i < n {
            n - i
        } else {
            0
        }),
{
    if i >= n || i <= 0 {
        i - n
    } else {
        span_lo(n, 2 * i)
    }
}

/// The place after the last leaf under place `i` of a tree of `n` leaves.
spec fn span_hi(n: int, i: int) -> int
    decreases
        (if i < n {
            n - i
        } else {
            0
        }),
{
    if i >= n || i <= 0 {
        i - n + 1
    } else {
        span_hi(n, 2 * i + 1)
    }
}

/// Whether the leaves under place `i` are one stretch of the row, in its
/// order.
spec fn aligned(n: int, i: int) -> bool
    decreases
        (if i < n {
            n - i
        } else {
            0
        }),
{
    if i >= n || i <= 0 {
        true
    } else {
        aligned(n, 2 * i) && aligned(n, 2 * i + 1) && span_hi(n, 2 * i) == span_lo(n, 2 * i + 1)
    }
}

/// A segment tree over a row of values of `T`.
pub struct SegmentTree<T: Monoid + Copy> {
    nodes: Vec<T>,
}

impl<T: Monoid + Copy> Clone for SegmentTree<T> {
    fn clone(&self) -> (tree: Self)
        ensures
            tree@ == self@,
    {
        proof {
            use_type_invariant(self);
        }
        let mut v: Vec<T> = Vec::with_capacity(self.nodes.len());
        for k in 0..self.nodes.len()
            invariant
                v@ == self.nodes@.subrange(0, k as int),
        {
            v.push(self.nodes[k]);
        }
        assert(v@ == self.nodes@);
        SegmentTree { nodes: v }
    }
}

impl<T: Monoid + Copy> View for SegmentTree<T> {
    type V = Seq<T>;

    /// The leaves, in the order of the row.
    closed spec fn view(&self) -> Seq<T> {
        self.nodes@.subrange(self.nodes@.len() as int / 2, self.nodes@.len() as int)
    }
}

impl<T: Monoid + Copy> SegmentTree<T> {
    /// The array has an even number of places, and each inner place holds
    /// the combination of its two children.
    #[verifier::type_invariant]
    spec fn well_formed(self) -> bool {
        &&& self.nodes@.len() % 2 == 0
        &&& forall|i: int|
            1 <= i < self.nodes@.len() / 2 ==> #[trigger] self.nodes@[i] == self.nodes@[2
                * i].combine(self.nodes@[2 * i + 1])
    }

    /// The tree over the given leaves.
    pub fn with_leaves(leaves: &[T]) -> (tree: Self)
        ensures
            tree@ == leaves@,
    {
        let length = leaves.len();
        let mut v: Vec<T> = Vec::new();
        // Fill the inner places with the identity, then append the leaves
        for k in 0..length
            invariant
                v@.len() == k,
        {
            v.push(T::m_empty());
        }
        for k in 0..length
            invariant
                length == leaves@.len(),
                v@.len() == length + k,
                v@.subrange(length as int, length + k) == leaves@.subrange(0, k as int),
        {
            v.push(leaves[k]);
            assert(v@.subrange(length as int, length + k + 1) == v@.subrange(
                length as int,
                length + k,
            ).push(leaves@[k as int]));
            assert(leaves@.subrange(0, k + 1) == leaves@.subrange(0, k as int).push(
                leaves@[k as int],
            ));
        }
        assert(leaves@.subrange(0, length as int) == leaves@);
        // Combine all the way up
        let size = v.len();
        let mut i: usize = length;
        while i > 1
            invariant
                i <= length,
                length == leaves@.len(),
                size == 2 * length,
                v@.len() == 2 * length,
                v@.subrange(length as int, 2 * length) == leaves@,
                forall|j: int|
                    i <= j < length ==> #[trigger] v@[j] == v@[2 * j].combine(v@[2 * j + 1]),
            decreases i,
        {
            i = i - 1;
            let left = v[2 * i];
            let right = v[2 * i + 1];
            let ghost before = v@;
            v.set(i, left.m_append(&right));
            assert(v@.subrange(length as int, 2 * length) == before.subrange(
                length as int,
                2 * length,
            ));
        }
        SegmentTree { nodes: v }
    }

    /// What the root holds: `None` for the tree without leaves.
    pub fn root(&self) -> (r: Option<T>)
        ensures
            r == if self@.len() == 0 {
                None
            } else {
                Some(node_value(self@, 1))
            },
    {
        proof {
            use_type_invariant(self);
        }
        if self.nodes.len() < 2 {
            None
        } else {
            proof {
                self.lemma_node_value(1);
            }
            Some(self.nodes[1])
        }
    }

    /// Each place holds what the layout says.
    proof fn lemma_node_value(self, i: int)
        requires
            self.well_formed(),
            1 <= i < self.nodes@.len(),
        ensures
            self.nodes@[i] == node_value(self@, i),
        decreases self.nodes@.len() - i,
    {
        let n = self.nodes@.len() as int / 2;
        if i < n {
            self.lemma_node_value(2 * i);
            self.lemma_node_value(2 * i + 1);
        }
    }

    /// A place whose leaves are one stretch of the row holds the
    /// combination of that stretch.
    proof fn lemma_aligned_node(self, i: int)
        requires
            self.well_formed(),
            1 <= i < self.nodes@.len(),
            aligned(self@.len() as int, i),
        ensures
            0 <= span_lo(self@.len() as int, i) < span_hi(self@.len() as int, i) <= self@.len(),
            self.nodes@[i] == fold(
                self@,
                span_lo(self@.len() as int, i),
                span_hi(self@.len() as int, i),
            ),
        decreases self.nodes@.len() - i,
    {
        let n = self@.len() as int;
        if i < n {
            self.lemma_aligned_node(2 * i);
            self.lemma_aligned_node(2 * i + 1);
            lemma_fold_split(self@, span_lo(n, 2 * i), span_hi(n, 2 * i), span_hi(n, 2 * i + 1));
        } else {
            lemma_fold_one(self@, i - n);
        }
    }

    /// The combination of the leaves `left..=right`, in their order.
    pub fn query(&self, left: usize, right: usize) -> (r: T)
        requires
            left <= right < self@.len(),
        ensures
            r == fold(self@, left as int, right + 1),
    {
        proof {
            use_type_invariant(self);
        }
        let half = self.nodes.len() / 2;
        let ghost n = half as int;
        let mut left_at = half + left;
        let mut right_at = half + right;
        // What was taken in from the left end, and from the right end
        let mut left_acc = T::m_empty();
        let mut right_acc = T::m_empty();
        let ghost mut a: int = left as int;
        let ghost mut b: int = right + 1;
        while left_at <= right_at
            invariant
                self.well_formed(),
                n == self@.len(),
                self.nodes@.len() == 2 * n,
                1 <= left_at <= right_at + 1,
                right_at < 2 * n,
                2 * n <= usize::MAX,
                left <= a,
                b <= right + 1,
                left_acc == fold(self@, left as int, a),
                right_acc == fold(self@, b, right + 1),
                left_at <= right_at ==> span_lo(n, left_at as int) == a && span_hi(
                    n,
                    right_at as int,
                ) == b,
                left_at > right_at ==> a == b,
                forall|j: int| left_at <= j <= right_at ==> #[trigger] aligned(n, j),
                forall|j: int|
                    left_at <= j < right_at ==> #[trigger] span_hi(n, j) == span_lo(n, j + 1),
            decreases right_at,
        {
            let ghost low = left_at as int;
            let ghost high = right_at as int;
            proof {
                assert(aligned(n, low) && aligned(n, high));
                self.lemma_aligned_node(low);
                self.lemma_aligned_node(high);
            }
            if left_at % 2 == 1 {
                left_acc = left_acc.m_append(&self.nodes[left_at]);
                left_at = left_at + 1;
                proof {
                    lemma_fold_split(self@, left as int, a, span_hi(n, low));
                    a = span_hi(n, low);
                    if low < high {
                        assert(span_hi(n, low) == span_lo(n, low + 1));
                    }
                }
            }
            if right_at % 2 == 0 {
                right_acc = self.nodes[right_at].m_append(&right_acc);
                right_at = right_at - 1;
                proof {
                    lemma_fold_split(self@, span_lo(n, high), b, right + 1);
                    b = span_lo(n, high);
                    if left_at < high {
                        assert(span_hi(n, high - 1) == span_lo(n, high - 1 + 1));
                    }
                }
            }
            let ghost low = left_at as int;
            let ghost high = right_at as int;
            left_at = left_at / 2;
            right_at = right_at / 2;
            proof {
                if low <= high {
                    assert forall|j: int| left_at <= j <= right_at implies #[trigger] aligned(
                        n,
                        j,
                    ) by {
                        assert(aligned(n, 2 * j));
                        assert(aligned(n, 2 * j + 1));
                        assert(span_hi(n, 2 * j) == span_lo(n, 2 * j + 1));
                    }
                    assert forall|j: int| left_at <= j < right_at implies #[trigger] span_hi(n, j)
                        == span_lo(n, j + 1) by {
                        assert(span_hi(n, 2 * j + 1) == span_lo(n, 2 * j + 1 + 1));
                    }
                }
            }
        }
        proof {
            lemma_fold_split(self@, left as int, a, right + 1);
        }
        left_acc.m_append(&right_acc)
    }
}

} // verus!
