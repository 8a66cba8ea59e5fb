use query_log::monoid::Monoid;
use query_log::timestamp::Timestamp;
use query_log::tree::heap::MinHeap;
use query_log::tree::range_tree::RangeTree;
use query_log::tree::segment_tree::SegmentTree;

fn at(minutes: i64) -> Timestamp {
    Timestamp { minutes }
}

fn tree_of(minutes: &[i64]) -> RangeTree {
    let leaves: Vec<Timestamp> = minutes.iter().map(|m| at(*m)).collect();
    RangeTree::with_leaves(&leaves)
}

/// The answer by a plain scan of the leaves.
fn scan(minutes: &[i64], from: i64, to: i64) -> Option<(Timestamp, Timestamp)> {
    let inside: Vec<i64> = minutes.iter().copied().filter(|m| from <= *m && *m <= to).collect();
    match (inside.first(), inside.last()) {
        (Some(first), Some(last)) => Some((at(*first), at(*last))),
        _ => None,
    }
}

#[test]
fn largest_range_snaps_to_leaves() {
    let tree = tree_of(&[1, 10, 20, 30]);
    assert_eq!(tree.largest_range(&at(5), &at(25)), Some((at(10), at(20))));
    assert_eq!(tree.largest_range(&at(1), &at(30)), Some((at(1), at(30))));
    assert_eq!(tree.largest_range(&at(-5), &at(100)), Some((at(1), at(30))));
    assert_eq!(tree.largest_range(&at(10), &at(10)), Some((at(10), at(10))));
    assert_eq!(tree.largest_range(&at(21), &at(30)), Some((at(30), at(30))));
}

#[test]
fn largest_range_of_a_gap_is_none() {
    let tree = tree_of(&[1, 10, 20, 30]);
    assert_eq!(tree.largest_range(&at(11), &at(19)), None);
    assert_eq!(tree.largest_range(&at(31), &at(40)), None);
    assert_eq!(tree.largest_range(&at(-9), &at(0)), None);
}

#[test]
fn largest_range_of_a_reversed_range_is_none() {
    let tree = tree_of(&[1, 10, 20, 30]);
    assert_eq!(tree.largest_range(&at(25), &at(5)), None);
    assert_eq!(tree.largest_range(&at(11), &at(10)), None);
}

#[test]
fn largest_range_agrees_with_a_scan() {
    for size in 0..9usize {
        let minutes: Vec<i64> = (0..size as i64).map(|i| 3 * i + 2).collect();
        let tree = tree_of(&minutes);
        for from in -1..30 {
            for to in -1..30 {
                let expected = if from > to { None } else { scan(&minutes, from, to) };
                assert_eq!(tree.largest_range(&at(from), &at(to)), expected);
            }
        }
    }
}

#[test]
fn range_tree_roots() {
    assert_eq!(RangeTree::nil().root(), None);
    assert_eq!(RangeTree::with_root(at(7)).root(), Some(at(7)));
    assert_eq!(tree_of(&[]).root(), None);
    assert_eq!(tree_of(&[4]).root(), Some(at(4)));
    assert_eq!(tree_of(&[4, 8]).root(), Some(at(4)));
    assert_eq!(tree_of(&[4, 8, 9]).root(), Some(at(4)));
    assert_eq!(tree_of(&[4, 8, 9, 12, 15]).root(), Some(at(8)));
    assert_eq!(RangeTree::with_root(at(7)).largest_range(&at(0), &at(9)), Some((at(7), at(7))));
    assert_eq!(RangeTree::nil().largest_range(&at(0), &at(9)), None);
    assert_eq!(tree_of(&[4, 8, 9]).clone().largest_range(&at(5), &at(9)), Some((at(8), at(9))));
}

#[test]
fn segment_tree_sums_every_stretch() {
    for size in 1..10usize {
        let leaves: Vec<usize> = (0..size).map(|i| 7 * i + 1).collect();
        let tree = SegmentTree::with_leaves(&leaves);
        for left in 0..size {
            for right in left..size {
                let expected: usize = leaves[left..=right].iter().sum();
                assert_eq!(tree.query(left, right), expected);
            }
        }
    }
}

#[test]
fn segment_tree_of_one_stretch_is_the_leaf() {
    let leaves: Vec<usize> = vec![3, 1, 4, 1, 5, 9, 2];
    let tree = SegmentTree::with_leaves(&leaves);
    for place in 0..leaves.len() {
        assert_eq!(tree.query(place, place), leaves[place]);
    }
    assert_eq!(tree.query(0, 6), 25);
    assert_eq!(tree.clone().query(2, 4), 10);
}

#[test]
fn segment_tree_roots() {
    assert_eq!(SegmentTree::<usize>::with_leaves(&[]).root(), None);
    assert_eq!(SegmentTree::with_leaves(&[5usize]).root(), Some(5));
    assert_eq!(SegmentTree::with_leaves(&[1usize, 2, 3, 4]).root(), Some(10));
    assert_eq!(SegmentTree::with_leaves(&[1usize, 2, 3]).root(), Some(6));
}

#[test]
fn counts_add_up_and_stop_at_the_top() {
    assert_eq!(usize::m_empty(), 0);
    assert_eq!(2usize.m_append(&3), 5);
    assert_eq!(0usize.m_append(&9), 9);
    assert_eq!(usize::MAX.m_append(&1), usize::MAX);
    assert_eq!((usize::MAX - 1).m_append(&1), usize::MAX);
    let tree = SegmentTree::with_leaves(&[usize::MAX, 1, 2]);
    assert_eq!(tree.query(0, 1), usize::MAX);
    assert_eq!(tree.query(1, 2), 3);
}

#[test]
fn heap_hands_out_the_least_first() {
    let mut heap = MinHeap::new();
    assert_eq!(heap.len(), 0);
    assert_eq!(heap.peek(), None);
    assert_eq!(heap.extract(), None);
    for entry in [(5usize, 1u64), (3, 9), (8, 2), (3, 4), (1, 7), (8, 2)] {
        heap.insert(entry);
    }
    assert_eq!(heap.len(), 6);
    assert_eq!(heap.peek(), Some(&(1, 7)));
    let mut drained = Vec::new();
    while let Some(entry) = heap.extract() {
        drained.push(entry);
    }
    assert_eq!(drained, vec![(1, 7), (3, 4), (3, 9), (5, 1), (8, 2), (8, 2)]);
    assert_eq!(heap.len(), 0);
}

#[test]
fn heap_gives_back_what_it_holds() {
    let mut heap = MinHeap::new();
    for count in [4usize, 2, 6, 1] {
        heap.insert((count, 10 * count as u64));
    }
    assert_eq!(heap.extract(), Some((1, 10)));
    let mut rest = heap.into_vec();
    rest.sort();
    assert_eq!(rest, vec![(2, 20), (4, 40), (6, 60)]);
}
