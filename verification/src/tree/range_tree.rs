//! A static balanced tree over sorted instants, which answers "the widest
//! range of observed instants inside `[from, to]`".
//!
//! The leaves, read from left to right, are the instants. A node that is
//! not a leaf carries the last leaf of its left subtree, which holds the
//! first half of its leaves, rounded down.

use crate::timestamp::Timestamp;
use vstd::prelude::*;

verus! {

/// Each instant of `s` lies before the next.
pub open spec fn strictly_increasing(s: Seq<Timestamp>) -> bool {
    forall|i: int, j: int| 0 <= i < j < s.len() ==> s[i]@ < s[j]@
}

/// `a` is the first instant of `s` that is not before `from`.
pub open spec fn is_first_from(s: Seq<Timestamp>, from: int, a: Timestamp) -> bool {
    &&& s.contains(a)
    &&& from <= a@
    &&& forall|i: int| 0 <= i < s.len() && from <= s[i]@ ==> a@ <= s[i]@
}

/// `b` is the last instant of `s` that is not after `to`.
pub open spec fn is_last_until(s: Seq<Timestamp>, to: int, b: Timestamp) -> bool {
    &&& s.contains(b)
    &&& b@ <= to
    &&& forall|i: int| 0 <= i < s.len() && s[i]@ <= to ==> s[i]@ <= b@
}

/// No instant of `s` lies in `[from, to]`.
pub open spec fn none_within(s: Seq<Timestamp>, from: int, to: int) -> bool {
    forall|i: int| 0 <= i < s.len() ==> !(from <= #[trigger] s[i]@ <= to)
}

/// A tree over sorted instants; the tree without a root has no leaves.
pub struct RangeTree {
    root: Option<Box<Node>>,
}

/// A leaf, which has no subtree and carries its instant, or a node with two
/// subtrees, which carries the last leaf of the left one.
struct Node {
    value: Timestamp,
    left: RangeTree,
    right: RangeTree,
}

impl View for RangeTree {
    type V = Seq<Timestamp>;

    /// The leaves, from left to right.
    closed spec fn view(&self) -> Seq<Timestamp> {
        self.leaves()
    }
}

impl Clone for RangeTree {
    fn clone(&self) -> (tree: Self)
        ensures
            tree@ == self@,
        decreases self,
    {
        proof {
            use_type_invariant(self);
        }
        match &self.root {
            None => RangeTree { root: None },
            Some(node) => {
                let left = node.left.clone();
                let right = node.right.clone();
                proof {
                    use_type_invariant(&node.left);
                    use_type_invariant(&node.right);
                    use_type_invariant(&left);
                    use_type_invariant(&right);
                    node.left.lemma_no_leaves();
                    node.right.lemma_no_leaves();
                    left.lemma_no_leaves();
                    right.lemma_no_leaves();
                }
                RangeTree { root: Some(Box::new(Node { value: node.value, left, right })) }
            },
        }
    }
}

impl RangeTree {
    /// The leaves, from left to right.
    spec fn leaves(self) -> Seq<Timestamp>
        decreases self,
    {
        match self.root {
            None => Seq::empty(),
            Some(node) => if node.left.root is None && node.right.root is None {
                seq![node.value]
            } else {
                node.left.leaves() + node.right.leaves()
            },
        }
    }

    /// The leaves ascend; each node that is not a leaf carries the last leaf
    /// of its left subtree, which holds the first half of its leaves,
    /// rounded down.
    #[verifier::type_invariant]
    spec fn well_formed(self) -> bool
        decreases self,
    {
        match self.root {
            None => true,
            Some(node) => if node.left.root is None && node.right.root is None {
                true
            } else {
                &&& node.left.well_formed()
                &&& node.right.well_formed()
                &&& node.left.leaves().len() >= 1
                &&& node.left.leaves().len() == (node.left.leaves().len()
                    + node.right.leaves().len()) / 2
                &&& node.value == node.left.leaves().last()
                &&& strictly_increasing(node.left.leaves() + node.right.leaves())
            },
        }
    }

    /// The instant that the root carries: the only leaf of a tree of one,
    /// else the last leaf of the first half.
    pub open spec fn splitter(leaves: Seq<Timestamp>) -> Timestamp {
        if leaves.len() == 1 {
            leaves[0]
        } else {
            leaves[leaves.len() / 2 - 1]
        }
    }

    /// The tree without leaves.
    pub fn nil() -> (tree: Self)
        ensures
            tree@ == Seq::<Timestamp>::empty(),
    {
        RangeTree { root: None }
    }

    /// The tree of one leaf.
    pub fn with_root(root: Timestamp) -> (tree: Self)
        ensures
            tree@ == seq![root],
    {
        RangeTree {
            root: Some(
                Box::new(
                    Node {
                        value: root,
                        left: RangeTree { root: None },
                        right: RangeTree { root: None },
                    },
                ),
            ),
        }
    }

    /// The tree over the given leaves, which come sorted.
    pub fn with_leaves(leaves: &[Timestamp]) -> (tree: Self)
        requires
            strictly_increasing(leaves@),
        ensures
            tree@ == leaves@,
        decreases leaves@.len(),
    {
        let length = leaves.len();
        if length == 0 {
            RangeTree::nil()
        } else if length == 1 {
            assert(leaves@ == seq![leaves@[0]]);
            RangeTree::with_root(leaves[0])
        } else {
            let (left_leaves, right_leaves) = leaves.split_at(length / 2);
            let left_tree = RangeTree::with_leaves(left_leaves);
            let right_tree = RangeTree::with_leaves(right_leaves);
            let value = left_leaves[left_leaves.len() - 1];
            proof {
                use_type_invariant(&left_tree);
                use_type_invariant(&right_tree);
                assert(left_leaves@ + right_leaves@ == leaves@);
            }
            RangeTree { root: Some(Box::new(Node { value, left: left_tree, right: right_tree })) }
        }
    }

    /// The instant that the root carries.
    pub fn root(&self) -> (r: Option<Timestamp>)
        ensures
            r == if self@.len() == 0 {
                None
            } else {
                Some(Self::splitter(self@))
            },
    {
        proof {
            use_type_invariant(self);
        }
        match &self.root {
            None => None,
            Some(node) => {
                proof {
                    use_type_invariant(&node.left);
                    use_type_invariant(&node.right);
                    node.left.lemma_no_leaves();
                    node.right.lemma_no_leaves();
                }
                Some(node.value)
            },
        }
    }

    /// Only the tree without a root has no leaves.
    proof fn lemma_no_leaves(self)
        requires
            self.well_formed(),
        ensures
            (self.leaves().len() == 0) == (self.root is None),
    {
    }

    /// Where the descent from the root ends that goes left at a node whose
    /// splitter is not before `to`, right at one whose splitter is before
    /// `from`, and stops at any other node and at a leaf.
    spec fn split_node(self, from: int, to: int) -> Self
        decreases self,
    {
        match self.root {
            None => self,
            Some(node) => if node.left.root is None && node.right.root is None {
                self
            } else if to <= node.value@ {
                node.left.split_node(from, to)
            } else if node.value@ < from {
                node.right.split_node(from, to)
            } else {
                self
            },
        }
    }

    /// The first subtree that holds every leaf of `[from, to]`: the node at
    /// which the paths to `from` and to `to` part, whose splitter lies in
    /// `[from, to)`, or the leaf they end in.
    fn find_split_node(&self, from: &Timestamp, to: &Timestamp) -> (r: Option<&Self>)
        requires
            from@ <= to@,
        ensures
            r.is_some() == (self@.len() > 0),
            r matches Some(sub) ==> {
                &&& forall|i: int| 0 <= i < sub@.len() ==> self@.contains(#[trigger] sub@[i])
                &&& forall|i: int|
                    0 <= i < self@.len() && from@ <= (#[trigger] self@[i])@ <= to@
                        ==> sub@.contains(self@[i])
                &&& *sub == self.split_node(from@, to@)
                &&& sub@.len() >= 1
                &&& sub@.len() == 1 || from@ <= Self::splitter(sub@)@ < to@
            },
        decreases self,
    {
        proof {
            use_type_invariant(self);
            self.lemma_no_leaves();
        }
        match &self.root {
            None => None,
            Some(node) => {
                proof {
                    use_type_invariant(&node.left);
                    use_type_invariant(&node.right);
                    node.left.lemma_no_leaves();
                    node.right.lemma_no_leaves();
                }
                let ghost left = node.left.leaves();
                let ghost right = node.right.leaves();
                assert(node.left@ == left && node.right@ == right);
                if to.le(&node.value) {
                    // [ ... from <= to <= value ... ]: every leaf of the range is on the left
                    match node.left.find_split_node(from, to) {
                        None => Some(self),
                        Some(sub) => {
                            proof {
                                assert forall|i: int| 0 <= i < sub@.len() implies self@.contains(
                                    #[trigger] sub@[i],
                                ) by {
                                    let k = choose|k: int| 0 <= k < left.len() && left[k] == sub@[i];
                                    assert(self@[k] == sub@[i]);
                                }
                                assert forall|i: int|
                                    0 <= i < self@.len() && from@ <= (#[trigger] self@[i])@
                                        <= to@ implies sub@.contains(self@[i]) by {
                                    if i >= left.len() {
                                        assert((left + right)[left.len() - 1] == node.value);
                                    }
                                    assert(left[i] == self@[i]);
                                }
                            }
                            Some(sub)
                        },
                    }
                } else if node.value.lt(from) {
                    // [ ... value < from <= to ... ]: every leaf of the range is on the right
                    match node.right.find_split_node(from, to) {
                        None => Some(self),
                        Some(sub) => {
                            proof {
                                assert forall|i: int| 0 <= i < sub@.len() implies self@.contains(
                                    #[trigger] sub@[i],
                                ) by {
                                    let k = choose|k: int|
                                        0 <= k < right.len() && right[k] == sub@[i];
                                    assert(self@[left.len() + k] == sub@[i]);
                                }
                                assert forall|i: int|
                                    0 <= i < self@.len() && from@ <= (#[trigger] self@[i])@
                                        <= to@ implies sub@.contains(self@[i]) by {
                                    if i < left.len() {
                                        assert((left + right)[left.len() - 1] == node.value);
                                    }
                                    assert(right[i - left.len()] == self@[i]);
                                }
                            }
                            Some(sub)
                        },
                    }
                } else {
                    // [ ... from <= value < to ... ]: the paths part here
                    proof {
                        if self@.len() != 1 {
                            assert(self@[left.len() - 1] == node.value);
                        }
                    }
                    Some(self)
                }
            },
        }
    }

    /// The first leaf that is not before `from`.
    fn left_bound(&self, from: &Timestamp) -> (r: Option<Timestamp>)
        ensures
            match r {
                Some(a) => is_first_from(self@, from@, a),
                None => forall|i: int| 0 <= i < self@.len() ==> (#[trigger] self@[i])@ < from@,
            },
        decreases self,
    {
        proof {
            use_type_invariant(self);
        }
        match &self.root {
            None => None,
            Some(node) => {
                proof {
                    use_type_invariant(&node.left);
                    use_type_invariant(&node.right);
                    node.left.lemma_no_leaves();
                    node.right.lemma_no_leaves();
                }
                let ghost left = node.left.leaves();
                let ghost right = node.right.leaves();
                assert(node.left@ == left && node.right@ == right);
                if from.le(&node.value) {
                    match node.left.left_bound(from) {
                        None => {
                            assert(self@ == seq![node.value]) by {
                                if left.len() > 0 {
                                    assert(left[left.len() - 1]@ < from@);
                                }
                            }
                            assert(self@[0] == node.value);
                            Some(node.value)
                        },
                        Some(a) => {
                            proof {
                                let k = choose|k: int| 0 <= k < left.len() && left[k] == a;
                                assert(self@[k] == a);
                                assert(a@ <= left[left.len() - 1]@);
                                assert forall|i: int|
                                    0 <= i < self@.len() && from@ <= self@[i]@ implies a@
                                    <= self@[i]@ by {
                                    if i < left.len() {
                                        assert(left[i] == self@[i]);
                                    } else {
                                        assert((left + right)[left.len() - 1]@ < (left + right)[i]@);
                                    }
                                }
                            }
                            Some(a)
                        },
                    }
                } else {
                    match node.right.left_bound(from) {
                        None => {
                            proof {
                                assert forall|i: int| 0 <= i < self@.len() implies (
                                #[trigger] self@[i])@ < from@ by {
                                    if self@.len() == 1 {
                                    } else if i < left.len() {
                                        assert((left + right)[i]@ <= (left + right)[left.len()
                                            - 1]@);
                                    } else {
                                        assert(right[i - left.len()] == self@[i]);
                                    }
                                }
                            }
                            None
                        },
                        Some(a) => {
                            proof {
                                let k = choose|k: int| 0 <= k < right.len() && right[k] == a;
                                assert(self@[left.len() + k] == a);
                                assert forall|i: int|
                                    0 <= i < self@.len() && from@ <= self@[i]@ implies a@
                                    <= self@[i]@ by {
                                    if i < left.len() {
                                        assert((left + right)[i]@ <= (left + right)[left.len()
                                            - 1]@);
                                    } else {
                                        assert(right[i - left.len()] == self@[i]);
                                    }
                                }
                            }
                            Some(a)
                        },
                    }
                }
            },
        }
    }

    /// The last leaf that is not after `to`.
    fn right_bound(&self, to: &Timestamp) -> (r: Option<Timestamp>)
        ensures
            match r {
                Some(b) => is_last_until(self@, to@, b),
                None => forall|i: int| 0 <= i < self@.len() ==> (#[trigger] self@[i])@ > to@,
            },
        decreases self,
    {
        proof {
            use_type_invariant(self);
        }
        match &self.root {
            None => None,
            Some(node) => {
                proof {
                    use_type_invariant(&node.left);
                    use_type_invariant(&node.right);
                    node.left.lemma_no_leaves();
                    node.right.lemma_no_leaves();
                }
                let ghost left = node.left.leaves();
                let ghost right = node.right.leaves();
                assert(node.left@ == left && node.right@ == right);
                if node.value.lt(to) {
                    match node.right.right_bound(to) {
                        None => {
                            proof {
                                if self@.len() == 1 {
                                    assert(self@[0] == node.value);
                                } else {
                                    assert(self@[left.len() - 1] == node.value);
                                    assert forall|i: int|
                                        0 <= i < self@.len() && self@[i]@ <= to@ implies self@[i]@
                                        <= node.value@ by {
                                        if i < left.len() {
                                            assert((left + right)[i]@ <= (left + right)[left.len()
                                                - 1]@);
                                        } else {
                                            assert(right[i - left.len()] == self@[i]);
                                        }
                                    }
                                }
                            }
                            Some(node.value)
                        },
                        Some(b) => {
                            proof {
                                let k = choose|k: int| 0 <= k < right.len() && right[k] == b;
                                assert(self@[left.len() + k] == b);
                                assert forall|i: int|
                                    0 <= i < self@.len() && self@[i]@ <= to@ implies self@[i]@
                                    <= b@ by {
                                    if i < left.len() {
                                        assert((left + right)[i]@ < (left + right)[left.len()
                                            + k]@);
                                    } else {
                                        assert(right[i - left.len()] == self@[i]);
                                    }
                                }
                            }
                            Some(b)
                        },
                    }
                } else {
                    match node.left.right_bound(to) {
                        None => {
                            if to.lt(&node.value) {
                                proof {
                                    assert forall|i: int| 0 <= i < self@.len() implies (
                                    #[trigger] self@[i])@ > to@ by {
                                        if self@.len() == 1 {
                                        } else if i < left.len() {
                                            assert(left[i] == self@[i]);
                                        } else {
                                            assert((left + right)[left.len() - 1]@ < (left
                                                + right)[i]@);
                                        }
                                    }
                                }
                                None
                            } else {
                                assert(self@ == seq![node.value]) by {
                                    if left.len() > 0 {
                                        assert(left[left.len() - 1]@ > to@);
                                    }
                                }
                                assert(self@[0] == node.value);
                                Some(node.value)
                            }
                        },
                        Some(b) => {
                            proof {
                                let k = choose|k: int| 0 <= k < left.len() && left[k] == b;
                                assert(self@[k] == b);
                                assert forall|i: int|
                                    0 <= i < self@.len() && self@[i]@ <= to@ implies self@[i]@
                                    <= b@ by {
                                    if i < left.len() {
                                        assert(left[i] == self@[i]);
                                    } else {
                                        assert((left + right)[left.len() - 1]@ < (left + right)[i]@);
                                    }
                                }
                            }
                            Some(b)
                        },
                    }
                }
            },
        }
    }

    /// The widest range of leaves inside `[from, to]`: its first and its last
    /// leaf, or `None` where no leaf lies in it, as when `from` is after `to`.
    pub fn largest_range(&self, from: &Timestamp, to: &Timestamp) -> (r: Option<
        (Timestamp, Timestamp),
    >)
        ensures
            match r {
                Some((a, b)) => {
                    &&& is_first_from(self@, from@, a)
                    &&& is_last_until(self@, to@, b)
                    &&& a@ <= b@
                },
                None => none_within(self@, from@, to@),
            },
    {
        if to.lt(from) {
            return None;
        }
        match self.find_split_node(from, to) {
            None => None,
            Some(tree) => {
                let maybe_left = tree.left_bound(from);
                let maybe_right = tree.right_bound(to);
                match (maybe_left, maybe_right) {
                    (Some(left), Some(right)) => {
                        proof {
                            if tree@.len() != 1 {
                                let k = tree@.len() / 2 - 1;
                                assert(left@ <= tree@[k]@ <= right@);
                            } else {
                                assert(left == tree@[0] && right == tree@[0]);
                            }
                            let ia = choose|i: int| 0 <= i < tree@.len() && tree@[i] == left;
                            assert(self@.contains(tree@[ia]));
                            let ib = choose|i: int| 0 <= i < tree@.len() && tree@[i] == right;
                            assert(self@.contains(tree@[ib]));
                            assert forall|i: int|
                                0 <= i < self@.len() && from@ <= self@[i]@ implies left@
                                <= self@[i]@ by {
                                if self@[i]@ <= to@ {
                                    let j = choose|j: int|
                                        0 <= j < tree@.len() && tree@[j] == self@[i];
                                    assert(left@ <= tree@[j]@);
                                }
                            }
                            assert forall|i: int|
                                0 <= i < self@.len() && self@[i]@ <= to@ implies self@[i]@
                                <= right@ by {
                                if from@ <= self@[i]@ {
                                    let j = choose|j: int|
                                        0 <= j < tree@.len() && tree@[j] == self@[i];
                                    assert(tree@[j]@ <= right@);
                                }
                            }
                        }
                        Some((left, right))
                    },
                    (None, _) => {
                        proof {
                            assert forall|i: int| 0 <= i < self@.len() implies !(from@ <= (
                            #[trigger] self@[i])@ <= to@) by {
                                if from@ <= self@[i]@ <= to@ {
                                    let j = choose|j: int|
                                        0 <= j < tree@.len() && tree@[j] == self@[i];
                                    assert(tree@[j]@ < from@);
                                }
                            }
                        }
                        None
                    },
                    (_, None) => {
                        proof {
                            assert forall|i: int| 0 <= i < self@.len() implies !(from@ <= (
                            #[trigger] self@[i])@ <= to@) by {
                                if from@ <= self@[i]@ <= to@ {
                                    let j = choose|j: int|
                                        0 <= j < tree@.len() && tree@[j] == self@[i];
                                    assert(tree@[j]@ > to@);
                                }
                            }
                        }
                        None
                    },
                }
            },
        }
    }
}

} // verus!
