//! The most frequent queries of a frequency map: a bounded selection with
//! the min-heap.
//!
//! The heap is filled with the first `k` entries. Each entry after them
//! takes the place of the least entry of the heap if it comes after it: if
//! its count is greater or, the counts being equal, its id. What the heap
//! holds at the end is handed out by descending count, and entries of one
//! count by descending id; so the outcome does not depend on the order in
//! which the map is walked.

use crate::tree::heap::{before, entry_le, entry_lt, MinHeap};
use std::collections::HashMap;
use vstd::multiset::Multiset;
use vstd::prelude::*;
use vstd::seq_lib::{to_multiset_build, to_multiset_contains, to_multiset_len};
use vstd::std_specs::hash::group_hash_axioms;

verus! {

broadcast use group_hash_axioms;

/// The lesser of two numbers.
pub open spec fn lesser(a: int, b: int) -> int {
    if a <= b {
        a
    } else {
        b
    }
}

/// Whether `id` is one of the ids that `ranked` lists.
pub open spec fn lists(ranked: Seq<(usize, u64)>, id: u64) -> bool {
    exists|i: int| 0 <= i < ranked.len() && (#[trigger] ranked[i]).1 == id
}

/// `ranked` lists the `k` most frequent ids of `counts`: pairs of a count
/// and its id, each id once, by descending count, and those of one count by
/// descending id; as many as `k` and the map allow; and each id that is left
/// out has a lesser count than those listed or, with the count of one
/// listed, a lesser id.
pub open spec fn is_selection(ranked: Seq<(usize, u64)>, counts: Map<u64, usize>, k: int) -> bool {
    &&& ranked.len() == lesser(k, counts.dom().len() as int)
    &&& forall|i: int|
        0 <= i < ranked.len() ==> counts.contains_key((#[trigger] ranked[i]).1) && ranked[i].0
            == counts[ranked[i].1]
    &&& forall|i: int, j: int| 0 <= i < j < ranked.len() ==> ranked[i].1 != ranked[j].1
    &&& forall|i: int, j: int| 0 <= i < j < ranked.len() ==> entry_lt(ranked[j], ranked[i])
    &&& forall|id: u64, i: int|
        #[trigger] counts.contains_key(id) && !lists(ranked, id) && 0 <= i < ranked.len()
            ==> entry_lt((counts[id], id), #[trigger] ranked[i])
}

/// What the heap holds while the first `done` of `keys` have been seen.
spec fn selecting(
    held: Multiset<(usize, u64)>,
    counts: Map<u64, usize>,
    keys: Seq<u64>,
    done: int,
    k: int,
) -> bool {
    &&& held.len() == lesser(k, done)
    &&& forall|e: (usize, u64)| #[trigger] held.count(e) <= 1
    &&& forall|e: (usize, u64)| #[trigger]
        held.count(e) > 0 ==> counts.contains_key(e.1) && e.0 == counts[e.1] && exists|i: int|
            0 <= i < done && keys[i] == e.1
    &&& forall|i: int|
        0 <= i < done && held.count((counts[#[trigger] keys[i]], keys[i])) == 0 ==> held.len() == k
    &&& forall|i: int, e: (usize, u64)|
        0 <= i < done && held.count((counts[#[trigger] keys[i]], keys[i])) == 0 && #[trigger]
        held.count(e) > 0 ==> entry_lt((counts[keys[i]], keys[i]), e)
}

/// The `k` most frequent ids of a frequency map with their counts, by
/// descending count; of ids of one count the greater comes first.
pub fn select_top(counts: &HashMap<u64, usize>, k: usize) -> (ranked: Vec<(usize, u64)>)
    ensures
        is_selection(ranked@, counts@, k as int),
{
    let mut heap = MinHeap::new();
    let ghost mut keys: Seq<u64> = Seq::empty();
    for id in it: counts.keys()
        invariant
            it.seq().unref().to_set() == counts@.dom(),
            it.seq().no_duplicates(),
            it.seq().len() == counts@.dom().len(),
            keys == it.seq().unref().take(it.index() as int),
            selecting(heap@, counts@, keys, keys.len() as int, k as int),
    {
        let ghost done = keys.len() as int;
        let ghost held = heap@;
        proof {
            assert(it.seq().unref()[done] == *id);
            assert(it.seq().unref().to_set().contains(it.seq().unref()[done]));
            assert forall|e: (usize, u64)| held.count(e) > 0 implies e.1 != *id by {
                let i = choose|i: int| 0 <= i < done && keys[i] == e.1;
                assert(it.seq()[i] != it.seq()[done]);
            }
            keys = keys.push(*id);
            assert(keys == it.seq().unref().take(done + 1));
        }
        let ghost all = keys;
        let count = match counts.get(id) {
            Some(count) => *count,
            None => 0,
        };
        let entry = (count, *id);
        if heap.len() < k {
            heap.insert(entry);
            proof {
                let now = heap@;
                assert forall|e: (usize, u64)| #[trigger] now.count(e) > 0 implies counts@.contains_key(
                    e.1,
                ) && e.0 == counts@[e.1] && exists|i: int| 0 <= i < done + 1 && all[i] == e.1 by {
                    if e == entry {
                        assert(all[done] == e.1);
                    } else {
                        assert(held.count(e) > 0);
                        let i = choose|i: int| 0 <= i < done && all[i] == e.1;
                        assert(all[i] == e.1);
                    }
                }
                assert forall|i: int, e: (usize, u64)|
                    0 <= i < done + 1 && now.count((counts@[#[trigger] all[i]], all[i])) == 0
                        && #[trigger] now.count(e) > 0 implies entry_lt(
                    (counts@[all[i]], all[i]),
                    e,
                ) by {
                    // nothing was left out so far
                    if i < done {
                        assert(held.count((counts@[all[i]], all[i])) > 0);
                    }
                }
                assert forall|i: int|
                    0 <= i < done + 1 && now.count((counts@[#[trigger] all[i]], all[i]))
                        == 0 implies now.len() == k by {
                    if i < done {
                        assert(held.count((counts@[all[i]], all[i])) > 0);
                    }
                }
            }
        } else {
            match heap.peek() {
                Some(head) => {
                    let least = *head;
                    if before(&least, &entry) {
                        let taken = heap.extract();
                        let ghost without = heap@;
                        heap.insert(entry);
                        proof {
                            let now = heap@;
                            assert(held.count(least) > 0);
                            assert(taken is Some);
                            assert(entry_le(taken->0, least) && entry_le(least, taken->0));
                            assert(without == held.remove(least));
                            assert forall|e: (usize, u64)| #[trigger]
                                now.count(e) > 0 implies counts@.contains_key(e.1) && e.0
                                == counts@[e.1] && exists|i: int|
                                0 <= i < done + 1 && all[i] == e.1 by {
                                if e == entry {
                                    assert(all[done] == e.1);
                                } else {
                                    assert(held.count(e) > 0);
                                    let i = choose|i: int| 0 <= i < done && all[i] == e.1;
                                    assert(all[i] == e.1);
                                }
                            }
                            assert forall|i: int, e: (usize, u64)|
                                0 <= i < done + 1 && now.count((counts@[#[trigger] all[i]], all[i]))
                                    == 0 && #[trigger] now.count(e) > 0 implies entry_lt(
                                (counts@[all[i]], all[i]),
                                e,
                            ) by {
                                let left_out = (counts@[all[i]], all[i]);
                                assert(i < done);
                                if e != entry {
                                    assert(held.count(e) > 0);
                                    assert(e != least);
                                    assert(entry_le(least, e));
                                }
                                if left_out != least {
                                    assert(held.count(left_out) == 0);
                                    assert(held.count(least) > 0);
                                    assert(entry_lt(left_out, least));
                                }
                            }
                        }
                    } else {
                        proof {
                            assert forall|i: int, e: (usize, u64)|
                                0 <= i < done + 1 && held.count((counts@[#[trigger] all[i]], all[i]))
                                    == 0 && #[trigger] held.count(e) > 0 implies entry_lt(
                                (counts@[all[i]], all[i]),
                                e,
                            ) by {
                                if i == done {
                                    assert(held.count(least) > 0);
                                    assert(least.1 != *id);
                                    assert(entry_le(least, e));
                                }
                            }
                        }
                    }
                },
                None => {
                    proof {
                        vstd::multiset::lemma_multiset_empty_len(held);
                    }
                },
            }
        }
    }
    let ghost chosen = heap@;
    let ghost all = keys;
    assert(all.to_set() == counts@.dom() && all.len() == counts@.dom().len()) by {
        assert(forall|s: Seq<u64>| #[trigger] s.take(s.len() as int) == s);
    }

    // Take the entries out, the least first
    let mut ascending: Vec<(usize, u64)> = Vec::new();
    proof {
        assert(ascending@.to_multiset().add(heap@) =~= chosen) by {
            to_multiset_len(ascending@);
            vstd::multiset::lemma_multiset_empty_len(ascending@.to_multiset());
        }
    }
    while heap.len() > 0
        invariant
            ascending@.to_multiset().add(heap@) == chosen,
            forall|i: int, j: int|
                0 <= i < j < ascending@.len() ==> entry_le(ascending@[i], ascending@[j]),
            forall|i: int, e: (usize, u64)|
                0 <= i < ascending@.len() && #[trigger] heap@.count(e) > 0 ==> entry_le(
                    #[trigger] ascending@[i],
                    e,
                ),
        decreases heap@.len(),
    {
        let ghost before = ascending@;
        let ghost held = heap@;
        match heap.extract() {
            Some(least) => {
                ascending.push(least);
                proof {
                    to_multiset_build(before, least);
                    assert(ascending@.to_multiset().add(heap@) =~= chosen);
                    assert forall|i: int, j: int| 0 <= i < j < ascending@.len() implies entry_le(
                        ascending@[i],
                        ascending@[j],
                    ) by {
                        if j == before.len() {
                            assert(held.count(least) > 0);
                            assert(entry_le(before[i], least));
                        }
                    }
                    assert forall|i: int, e: (usize, u64)|
                        0 <= i < ascending@.len() && #[trigger] heap@.count(e) > 0 implies entry_le(
                        #[trigger] ascending@[i],
                        e,
                    ) by {
                        assert(held.count(e) > 0);
                        if i < before.len() {
                            assert(entry_le(before[i], e));
                        }
                    }
                }
            },
            None => {},
        }
    }
    proof {
        vstd::multiset::lemma_multiset_empty_len(heap@);
        assert(ascending@.to_multiset() =~= chosen);
        to_multiset_len(ascending@);
    }

    // Hand them out by descending count
    let mut ranked: Vec<(usize, u64)> = Vec::new();
    let mut at = ascending.len();
    while at > 0
        invariant
            at <= ascending@.len(),
            ranked@.len() == ascending@.len() - at,
            forall|i: int|
                0 <= i < ranked@.len() ==> #[trigger] ranked@[i] == ascending@[ascending@.len() - 1
                    - i],
        decreases at,
    {
        at = at - 1;
        ranked.push(ascending[at]);
    }
    proof {
        let up = ascending@;
        let down = ranked@;
        let n = up.len() as int;
        assert forall|x: (usize, u64)| up.to_multiset().contains(x) implies up.to_multiset().count(x)
            == 1 by {
            assert(chosen.count(x) <= 1);
        }
        up.lemma_multiset_has_no_duplicates_conv();
        assert forall|i: int| 0 <= i < n implies counts@.contains_key((#[trigger] up[i]).1)
            && up[i].0 == counts@[up[i].1] by {
            assert(up.contains(up[i]));
            to_multiset_contains(up, up[i]);
            assert(chosen.count(up[i]) > 0);
        }
        assert forall|i: int, j: int| 0 <= i < j < down.len() implies down[i].1 != down[j].1 by {
            assert(down[i] == up[n - 1 - i]);
            assert(down[j] == up[n - 1 - j]);
        }
        assert forall|i: int, j: int| 0 <= i < j < down.len() implies entry_lt(
            down[j],
            down[i],
        ) by {
            assert(down[i] == up[n - 1 - i]);
            assert(down[j] == up[n - 1 - j]);
            assert(entry_le(up[n - 1 - j], up[n - 1 - i]));
            assert(up[n - 1 - j] != up[n - 1 - i]);
        }
        assert forall|id: u64, i: int|
            #[trigger] counts@.contains_key(id) && !lists(down, id) && 0 <= i
                < down.len() implies entry_lt((counts@[id], id), #[trigger] down[i]) by {
            assert(all.to_set().contains(id));
            let p = choose|p: int| 0 <= p < all.len() && all[p] == id;
            let left_out = (counts@[id], id);
            if chosen.count(left_out) > 0 {
                to_multiset_contains(up, left_out);
                let q = choose|q: int| 0 <= q < n && up[q] == left_out;
                assert(down[n - 1 - q] == up[q]);
                assert(false);
            }
            assert(down[i] == up[n - 1 - i]);
            assert(up.contains(up[n - 1 - i]));
            to_multiset_contains(up, up[n - 1 - i]);
            assert(chosen.count(down[i]) > 0);
            assert(all[p] == id);
        }
    }
    ranked
}

/// Two selections from one map agree on their first `upto` places.
proof fn lemma_selections_agree(
    a: Seq<(usize, u64)>,
    b: Seq<(usize, u64)>,
    counts: Map<u64, usize>,
    k: int,
    upto: int,
)
    requires
        is_selection(a, counts, k),
        is_selection(b, counts, k),
        0 <= upto <= a.len(),
    ensures
        forall|i: int| 0 <= i < upto ==> a[i] == b[i],
    decreases upto,
{
    if upto > 0 {
        lemma_selections_agree(a, b, counts, k, upto - 1);
        let at = upto - 1;
        lemma_not_after(a, b, counts, k, at);
        lemma_not_after(b, a, counts, k, at);
    }
}

/// Where two selections agree before a place, the entry of the one at the
/// place does not come after that of the other.
proof fn lemma_not_after(
    a: Seq<(usize, u64)>,
    b: Seq<(usize, u64)>,
    counts: Map<u64, usize>,
    k: int,
    at: int,
)
    requires
        is_selection(a, counts, k),
        is_selection(b, counts, k),
        0 <= at < a.len(),
        forall|i: int| 0 <= i < at ==> a[i] == b[i],
    ensures
        entry_le(a[at], b[at]),
{
    let id = a[at].1;
    assert(counts.contains_key(a[at].1));
    if lists(b, id) {
        let j = choose|j: int| 0 <= j < b.len() && (#[trigger] b[j]).1 == id;
        assert(counts.contains_key(b[j].1));
        assert(b[j] == a[at]);
        if j < at {
            assert(a[j] == b[j]);
            assert(entry_lt(a[at], a[j]));
        } else if j > at {
            assert(entry_lt(b[j], b[at]));
        }
    } else {
        assert(entry_lt((counts[id], id), b[at]));
    }
}

/// A frequency map and a size have one selection: the outcome does not
/// depend on the order in which the entries are met.
pub proof fn lemma_selection_unique(
    a: Seq<(usize, u64)>,
    b: Seq<(usize, u64)>,
    counts: Map<u64, usize>,
    k: int,
)
    requires
        is_selection(a, counts, k),
        is_selection(b, counts, k),
    ensures
        a == b,
{
    lemma_selections_agree(a, b, counts, k, a.len() as int);
    assert(a =~= b);
}

} // verus!
