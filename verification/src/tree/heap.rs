//! A binary min-heap of counted queries, laid out in an array: the root at
//! index 0, the children of index `i` at `2i + 1` and `2i + 2`.
//!
//! An entry is a count and a query id. Entries are ordered by count, and
//! entries of one count by id.

use vstd::multiset::{lemma_multiset_empty_len, Multiset};
use vstd::prelude::*;
use vstd::seq_lib::{to_multiset_contains, to_multiset_insert, to_multiset_len, to_multiset_remove};

verus! {

/// `a` comes before `b`, or is `b`.
pub open spec fn entry_le(a: (usize, u64), b: (usize, u64)) -> bool {
    a.0 < b.0 || (a.0 == b.0 && a.1 <= b.1)
}

/// `a` comes before `b`.
pub open spec fn entry_lt(a: (usize, u64), b: (usize, u64)) -> bool {
    a.0 < b.0 || (a.0 == b.0 && a.1 < b.1)
}

/// `x` is in `m`, and no entry of `m` comes before it.
pub open spec fn is_least(m: Multiset<(usize, u64)>, x: (usize, u64)) -> bool {
    m.count(x) > 0 && forall|y: (usize, u64)| #[trigger] m.count(y) > 0 ==> entry_le(x, y)
}

/// Every entry but the root is not before its parent.
spec fn heap_ordered(s: Seq<(usize, u64)>) -> bool {
    forall|i: int| 0 < i < s.len() ==> entry_le(#[trigger] s[(i - 1) / 2], s[i])
}

/// The heap order, but that the entry at `k` may come before its parent; it
/// holds between the parent of `k` and the children of `k`.
spec fn ordered_but_above(s: Seq<(usize, u64)>, k: int) -> bool {
    &&& forall|i: int| 0 < i < s.len() && i != k ==> entry_le(#[trigger] s[(i - 1) / 2], s[i])
    &&& k > 0 ==> forall|c: int|
        0 < c < s.len() && (c - 1) / 2 == k ==> entry_le(s[(k - 1) / 2], #[trigger] s[c])
}

/// Whether place `i` lies in the subtree of place `top`.
spec fn under(top: int, i: int) -> bool
    decreases i,
{
    i == top || (i > top && i > 0 && under(top, (i - 1) / 2))
}

/// Whether place `i` lies on the way from place `from` up to the root.
spec fn on_path(from: int, i: int) -> bool
    decreases from,
{
    i == from || (from > 0 && on_path((from - 1) / 2, i))
}

/// The heap order in the subtree of `top`: no entry of it but `top` comes
/// before its parent.
spec fn ordered_under(s: Seq<(usize, u64)>, top: int) -> bool {
    forall|i: int|
        0 < i < s.len() && under(top, (i - 1) / 2) ==> entry_le(s[(i - 1) / 2], #[trigger] s[i])
}

/// The heap order in the subtree of `top`, but that the children of `top`
/// may come before the entry at `top`.
spec fn ordered_under_but_at(s: Seq<(usize, u64)>, top: int) -> bool {
    forall|i: int|
        0 < i < s.len() && (i - 1) / 2 != top && under(top, (i - 1) / 2) ==> entry_le(
            s[(i - 1) / 2],
            #[trigger] s[i],
        )
}

/// `x` is the entry at `top` or at one of its children.
spec fn top_or_child(s: Seq<(usize, u64)>, top: int, x: (usize, u64)) -> bool {
    ||| x == s[top]
    ||| 2 * top + 1 < s.len() && x == s[2 * top + 1]
    ||| 2 * top + 2 < s.len() && x == s[2 * top + 2]
}

/// The entries with those at `i` and `j` exchanged.
spec fn exchanged(s: Seq<(usize, u64)>, i: int, j: int) -> Seq<(usize, u64)> {
    s.update(i, s[j]).update(j, s[i])
}

/// The entries after the entry at `from` has sunk: as long as a child comes
/// before it, it changes places with the child that comes first.
spec fn sunk(s: Seq<(usize, u64)>, from: int) -> Seq<(usize, u64)>
    decreases s.len() - from,
{
    let left = 2 * from + 1;
    let right = 2 * from + 2;
    if from < 0 || left >= s.len() {
        s
    } else {
        let nearer = if entry_lt(s[left], s[from]) {
            left
        } else {
            from
        };
        let least = if right < s.len() && entry_lt(s[right], s[nearer]) {
            right
        } else {
            nearer
        };
        if least == from {
            s
        } else {
            sunk(exchanged(s, from, least), least)
        }
    }
}

/// The entries after the entry at `from` has risen: as long as it comes
/// before its parent, it changes places with it.
spec fn risen(s: Seq<(usize, u64)>, from: int) -> Seq<(usize, u64)>
    decreases from,
{
    if from <= 0 || from >= s.len() || !entry_lt(s[from], s[(from - 1) / 2]) {
        s
    } else {
        risen(exchanged(s, from, (from - 1) / 2), (from - 1) / 2)
    }
}

/// Every place lies in the subtree of the root.
proof fn lemma_under_root(i: int)
    requires
        0 <= i,
    ensures
        under(0, i),
    decreases i,
{
    if i > 0 {
        lemma_under_root((i - 1) / 2);
    }
}

/// What lies in the subtree of a child lies in the subtree of its parent.
proof fn lemma_under_child(top: int, child: int, i: int)
    requires
        0 <= top,
        child > 0,
        (child - 1) / 2 == top,
        under(child, i),
    ensures
        under(top, i),
    decreases i,
{
    if i != child {
        lemma_under_child(top, child, (i - 1) / 2);
    } else {
        assert(under(top, top));
    }
}

/// What lies in the subtree of a place, and is not the place, lies in the
/// subtree of one of its children.
proof fn lemma_under_split(top: int, i: int)
    requires
        0 <= top,
        under(top, i),
        i != top,
    ensures
        under(2 * top + 1, i) || under(2 * top + 2, i),
    decreases i,
{
    if (i - 1) / 2 != top {
        lemma_under_split(top, (i - 1) / 2);
    }
}

/// Of two places with a place in both their subtrees, the later lies in the
/// subtree of the earlier.
proof fn lemma_under_apart(a: int, b: int, i: int)
    requires
        0 <= a < b,
        under(a, i),
        under(b, i),
    ensures
        under(a, b),
    decreases i,
{
    if i != b {
        lemma_under_apart(a, b, (i - 1) / 2);
    }
}

/// The subtrees of the two children of a place share no place.
proof fn lemma_siblings_apart(top: int, i: int)
    requires
        0 <= top,
    ensures
        !(under(2 * top + 1, i) && under(2 * top + 2, i)),
{
    if under(2 * top + 1, i) && under(2 * top + 2, i) {
        lemma_under_apart(2 * top + 1, 2 * top + 2, i);
        assert(!under(2 * top + 1, top));
    }
}

/// In a heap no entry comes before the root.
proof fn lemma_root_least(s: Seq<(usize, u64)>, i: int)
    requires
        heap_ordered(s),
        0 <= i < s.len(),
    ensures
        entry_le(s[0], s[i]),
    decreases i,
{
    if i > 0 {
        lemma_root_least(s, (i - 1) / 2);
        assert(entry_le(s[(i - 1) / 2], s[i]));
    }
}

/// The root of a heap is the least of its entries.
proof fn lemma_root_is_least(s: Seq<(usize, u64)>)
    requires
        heap_ordered(s),
        s.len() > 0,
    ensures
        is_least(s.to_multiset(), s[0]),
{
    assert(s.contains(s[0]));
    to_multiset_contains(s, s[0]);
    assert forall|y: (usize, u64)| s.to_multiset().count(y) > 0 implies entry_le(s[0], y) by {
        to_multiset_contains(s, y);
        let i = choose|i: int| 0 <= i < s.len() && s[i] == y;
        lemma_root_least(s, i);
    }
}

/// Writing `x` at `i` takes the old entry out of the contents and puts `x` in.
proof fn lemma_update_contents(s: Seq<(usize, u64)>, i: int, x: (usize, u64))
    requires
        0 <= i < s.len(),
    ensures
        s.update(i, x).to_multiset() == s.to_multiset().remove(s[i]).insert(x),
{
    assert(s.update(i, x) == s.remove(i).insert(i, x));
    to_multiset_remove(s, i);
    to_multiset_insert(s.remove(i), i, x);
}

/// Exchanging two entries keeps the contents.
proof fn lemma_swap_contents(s: Seq<(usize, u64)>, i: int, j: int)
    requires
        0 <= i < s.len(),
        0 <= j < s.len(),
    ensures
        s.update(i, s[j]).update(j, s[i]).to_multiset() == s.to_multiset(),
{
    let t = s.update(i, s[j]);
    lemma_update_contents(s, i, s[j]);
    lemma_update_contents(t, j, s[i]);
    to_multiset_contains(s, s[i]);
    to_multiset_contains(s, s[j]);
    assert(s.contains(s[i]) && s.contains(s[j]));
    assert(t.update(j, s[i]).to_multiset() =~= s.to_multiset());
}

/// A min-heap of entries.
pub struct MinHeap {
    nodes: Vec<(usize, u64)>,
}

impl View for MinHeap {
    type V = Multiset<(usize, u64)>;

    /// The entries held, each as often as it was put in and not taken out.
    closed spec fn view(&self) -> Multiset<(usize, u64)> {
        self.nodes@.to_multiset()
    }
}

/// Whether `a` comes before `b`.
pub fn before(a: &(usize, u64), b: &(usize, u64)) -> (r: bool)
    ensures
        r == entry_lt(*a, *b),
{
    a.0 < b.0 || (a.0 == b.0 && a.1 < b.1)
}

/// Exchanges the entries at `i` and `j`.
fn swap(nodes: &mut Vec<(usize, u64)>, i: usize, j: usize)
    requires
        i < old(nodes)@.len(),
        j < old(nodes)@.len(),
    ensures
        final(nodes)@ == old(nodes)@.update(i as int, old(nodes)@[j as int]).update(
            j as int,
            old(nodes)@[i as int],
        ),
        final(nodes)@.to_multiset() == old(nodes)@.to_multiset(),
{
    let first = nodes[i];
    let second = nodes[j];
    nodes.set(i, second);
    nodes.set(j, first);
    proof {
        lemma_swap_contents(old(nodes)@, i as int, j as int);
    }
}

impl MinHeap {
    /// No entry comes before its parent.
    #[verifier::type_invariant]
    spec fn well_formed(self) -> bool {
        heap_ordered(self.nodes@)
    }

    /// The heap without entries.
    pub fn new() -> (heap: Self)
        ensures
            heap@ == Multiset::<(usize, u64)>::empty(),
    {
        let heap = MinHeap { nodes: Vec::new() };
        proof {
            to_multiset_len(heap.nodes@);
            lemma_multiset_empty_len(heap.nodes@.to_multiset());
        }
        heap
    }

    /// The number of entries.
    pub fn len(&self) -> (n: usize)
        ensures
            n == self@.len(),
    {
        proof {
            to_multiset_len(self.nodes@);
        }
        self.nodes.len()
    }

    /// The least entry, where there is one.
    pub fn peek(&self) -> (r: Option<&(usize, u64)>)
        ensures
            match r {
                Some(least) => is_least(self@, *least),
                None => self@.len() == 0,
            },
    {
        proof {
            use_type_invariant(self);
            to_multiset_len(self.nodes@);
        }
        if self.nodes.len() == 0 {
            None
        } else {
            proof {
                lemma_root_is_least(self.nodes@);
            }
            Some(&self.nodes[0])
        }
    }

    /// Puts an entry in.
    pub fn insert(&mut self, element: (usize, u64))
        ensures
            final(self)@ == old(self)@.insert(element),
    {
        proof {
            use_type_invariant(&*self);
        }
        let mut nodes: Vec<(usize, u64)> = Vec::new();
        std::mem::swap(&mut nodes, &mut self.nodes);
        let element_index = nodes.len();
        nodes.push(element);
        proof {
            vstd::seq_lib::to_multiset_build(old(self).nodes@, element);
        }
        Self::heapify_up(&mut nodes, element_index);
        self.nodes = nodes;
    }

    /// Takes the least entry out, where there is one.
    pub fn extract(&mut self) -> (r: Option<(usize, u64)>)
        ensures
            match r {
                Some(least) => is_least(old(self)@, least) && final(self)@ == old(self)@.remove(
                    least,
                ),
                None => old(self)@.len() == 0 && final(self)@ == old(self)@,
            },
    {
        proof {
            use_type_invariant(&*self);
            to_multiset_len(self.nodes@);
        }
        let ghost before = self.nodes@;
        let mut nodes: Vec<(usize, u64)> = Vec::new();
        std::mem::swap(&mut nodes, &mut self.nodes);
        let result = match nodes.len() {
            0 => None,
            1 => {
                proof {
                    lemma_root_is_least(before);
                    to_multiset_remove(before, 0);
                    assert(before.remove(0) == before.drop_last());
                }
                nodes.pop()
            },
            _ => {
                let element = nodes[0];
                let new_head = nodes.pop().unwrap();
                nodes.set(0, new_head);
                proof {
                    lemma_root_is_least(before);
                    let rest = before.drop_last();
                    to_multiset_remove(before, before.len() - 1);
                    assert(before.remove(before.len() - 1) == rest);
                    lemma_update_contents(rest, 0, new_head);
                    to_multiset_contains(before, new_head);
                    assert(before.contains(before[before.len() - 1]));
                    to_multiset_contains(rest, element);
                    assert(rest.contains(rest[0]));
                    assert(nodes@.to_multiset() =~= before.to_multiset().remove(element));
                    assert(ordered_under_but_at(nodes@, 0)) by {
                        assert forall|i: int|
                            0 < i < nodes@.len() && (i - 1) / 2 != 0 implies entry_le(
                            nodes@[(i - 1) / 2],
                            #[trigger] nodes@[i],
                        ) by {
                            assert(entry_le(before[(i - 1) / 2], before[i]));
                        }
                    }
                }
                Self::heapify_down(&mut nodes, 0);
                proof {
                    assert forall|i: int| 0 < i < nodes@.len() implies entry_le(
                        #[trigger] nodes@[(i - 1) / 2],
                        nodes@[i],
                    ) by {
                        lemma_under_root((i - 1) / 2);
                    }
                }
                Some(element)
            },
        };
        self.nodes = nodes;
        result
    }

    /// The entries, in no order that is promised; the heap is used up.
    pub fn into_vec(self) -> (entries: Vec<(usize, u64)>)
        ensures
            entries@.to_multiset() == self@,
    {
        self.nodes
    }

    /// Lets the entry at `from` sink until neither child comes before it.
    /// Where the subtree of `from` is in heap order but at `from`, it is in
    /// heap order afterwards; what lies outside it stays in place.
    fn heapify_down(nodes: &mut Vec<(usize, u64)>, from: usize)
        requires
            from < old(nodes)@.len(),
            ordered_under_but_at(old(nodes)@, from as int),
        ensures
            final(nodes)@.len() == old(nodes)@.len(),
            final(nodes)@.to_multiset() == old(nodes)@.to_multiset(),
            ordered_under(final(nodes)@, from as int),
            forall|i: int|
                0 <= i < final(nodes)@.len() && !under(from as int, i)
                    ==> #[trigger] final(nodes)@[i] == old(nodes)@[i],
            top_or_child(old(nodes)@, from as int, final(nodes)@[from as int]),
            final(nodes)@ == sunk(old(nodes)@, from as int),
        decreases old(nodes)@.len() - from,
    {
        let length = nodes.len();
        if from >= length / 2 {
            // no child
            return ;
        }
        let left_index = 2 * from + 1;
        let right_index = left_index + 1;

        let mut min_index = from;

        if before(&nodes[left_index], &nodes[min_index]) {
            min_index = left_index;
        }
        if right_index < length && before(&nodes[right_index], &nodes[min_index]) {
            min_index = right_index;
        }
        if from != min_index {
            let ghost s = nodes@;
            let ghost top = from as int;
            let ghost low = min_index as int;
            swap(nodes, from, min_index);
            let ghost t = nodes@;
            proof {
                lemma_under_child(top, low, low);
                assert forall|i: int|
                    0 < i < t.len() && (i - 1) / 2 != low && under(low, (i - 1) / 2) implies entry_le(
                    t[(i - 1) / 2],
                    #[trigger] t[i],
                ) by {
                    lemma_under_child(top, low, (i - 1) / 2);
                    assert(entry_le(s[(i - 1) / 2], s[i]));
                }
            }
            Self::heapify_down(nodes, min_index);
            proof {
                let u = nodes@;
                assert forall|i: int| 0 <= i < u.len() && !under(top, i) implies #[trigger] u[i]
                    == s[i] by {
                    if under(low, i) {
                        lemma_under_child(top, low, i);
                    }
                }
                assert(u[top] == s[low]);
                // what has come to `low` is not before what has gone up
                assert(entry_le(s[low], u[low])) by {
                    if 2 * low + 1 < s.len() {
                        lemma_under_child(top, low, low);
                        assert(entry_le(s[(2 * low + 1 - 1) / 2], s[2 * low + 1]));
                    }
                    if 2 * low + 2 < s.len() {
                        lemma_under_child(top, low, low);
                        assert(entry_le(s[(2 * low + 2 - 1) / 2], s[2 * low + 2]));
                    }
                }
                assert forall|i: int| 0 < i < u.len() && under(top, (i - 1) / 2) implies entry_le(
                    u[(i - 1) / 2],
                    #[trigger] u[i],
                ) by {
                    let above = (i - 1) / 2;
                    if above == top {
                        if i != low {
                            lemma_siblings_apart(top, i);
                            assert(under(i, i));
                        }
                    } else {
                        lemma_under_split(top, above);
                        if under(low, above) {
                        } else {
                            lemma_siblings_apart(top, above);
                            lemma_siblings_apart(top, i);
                            let other = if low == 2 * top + 1 {
                                2 * top + 2
                            } else {
                                2 * top + 1
                            };
                            assert(under(other, above));
                            assert(under(other, i));
                            assert(entry_le(s[above], s[i]));
                        }
                    }
                }
            }
        }
    }

    /// Lets the entry at `from` rise until it does not come before its
    /// parent. Only places on the way from `from` to the root may change.
    fn heapify_up(nodes: &mut Vec<(usize, u64)>, from: usize)
        requires
            from < old(nodes)@.len(),
            ordered_but_above(old(nodes)@, from as int),
        ensures
            final(nodes)@.len() == old(nodes)@.len(),
            heap_ordered(final(nodes)@),
            final(nodes)@.to_multiset() == old(nodes)@.to_multiset(),
            forall|i: int|
                0 <= i < final(nodes)@.len() && !on_path(from as int, i)
                    ==> #[trigger] final(nodes)@[i] == old(nodes)@[i],
            final(nodes)@ == risen(old(nodes)@, from as int),
        decreases from,
    {
        if from == 0 {
            return ;
        }
        let parent = (from - 1) / 2;
        if before(&nodes[from], &nodes[parent]) {
            let ghost s = nodes@;
            swap(nodes, from, parent);
            proof {
                let t = nodes@;
                assert forall|i: int| 0 < i < t.len() && i != parent implies entry_le(
                    #[trigger] t[(i - 1) / 2],
                    t[i],
                ) by {
                    if i == from {
                    } else if (i - 1) / 2 == parent {
                        assert(entry_le(s[(i - 1) / 2], s[i]));
                    } else if (i - 1) / 2 == from {
                        assert(entry_le(s[(from - 1) / 2], s[i]));
                    } else {
                        assert(entry_le(s[(i - 1) / 2], s[i]));
                    }
                }
                if parent > 0 {
                    assert(entry_le(s[(parent - 1) / 2], s[parent as int]));
                    assert forall|c: int|
                        0 < c < t.len() && (c - 1) / 2 == parent implies entry_le(
                        t[(parent - 1) / 2],
                        #[trigger] t[c],
                    ) by {
                        if c != from {
                            assert(entry_le(s[(c - 1) / 2], s[c]));
                        }
                    }
                }
            }
            Self::heapify_up(nodes, parent);
            proof {
                let u = nodes@;
                assert forall|i: int| 0 <= i < u.len() && !on_path(from as int, i) implies #[trigger] u[i]
                    == s[i] by {
                    assert(!on_path(parent as int, i));
                }
            }
        } else {
            proof {
                let s = nodes@;
                assert forall|i: int| 0 < i < s.len() implies entry_le(
                    #[trigger] s[(i - 1) / 2],
                    s[i],
                ) by {
                }
            }
        }
    }
}

} // verus!
