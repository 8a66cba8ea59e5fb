//! The index over a query log and the queries it answers.
//!
//! The index is built once from the lines of the log. It keeps the minutes
//! that occur, in order, with the ids recorded in each; a range tree over
//! the minutes; a segment tree over the number of records of each minute;
//! and the text behind each id.

use crate::occurrence::{
    flatten, frequencies, ids_within, lemma_flatten_len, lemma_fold_counts,
    lemma_range_tally_witness, lemma_seen_bounds, lemma_tally_flatten, lemma_tally_flatten_none,
    range_tally, record_le, seen, seen_frequencies, sorted, spans, tally,
};
use crate::selection::{is_selection, lemma_selection_unique, select_top};
use crate::record::{fingerprint, fingerprint_of, parse_record, record_of};
use crate::timestamp::Timestamp;
use crate::tree::range_tree::{none_within, strictly_increasing, RangeTree};
use crate::tree::segment_tree::SegmentTree;
use itertools::Itertools;
use std::collections::HashMap;
use vstd::prelude::*;
use vstd::std_specs::hash::group_hash_axioms;

verus! {

broadcast use group_hash_axioms;

/// The records that the lines of a log make, in the order of the lines:
/// of each line that records something, the minute and the fingerprint of
/// the text.
pub open spec fn entries_of(lines: Seq<String>) -> Seq<(i64, u64)>
    decreases lines.len(),
{
    if lines.len() == 0 {
        Seq::empty()
    } else {
        let before = entries_of(lines.drop_last());
        match record_of(lines.last()@) {
            Some((minute, text)) => before.push((minute as i64, fingerprint_of(text))),
            None => before,
        }
    }
}

/// The text behind each id of a log: that of the first line with the id.
pub open spec fn texts_of(lines: Seq<String>) -> Map<u64, Seq<char>>
    decreases lines.len(),
{
    if lines.len() == 0 {
        Map::empty()
    } else {
        let before = texts_of(lines.drop_last());
        match record_of(lines.last()@) {
            Some((minute, text)) => if before.contains_key(fingerprint_of(text)) {
                before
            } else {
                before.insert(fingerprint_of(text), text)
            },
            None => before,
        }
    }
}

/// The minutes of groups of records.
pub open spec fn group_dates(groups: Seq<(i64, Vec<u64>)>) -> Seq<Timestamp> {
    Seq::new(groups.len(), |g: int| Timestamp { minutes: groups[g].0 })
}

/// The ids of groups of records.
pub open spec fn group_ids(groups: Seq<(i64, Vec<u64>)>) -> Seq<Seq<u64>> {
    Seq::new(groups.len(), |g: int| groups[g].1@)
}

/// Sorts records by minute, and those of one minute by id.
///
/// Calls the standard `sort` of slices. Trusted: the outcome holds the
/// records that came in, each as often as before, in ascending order of the
/// pairs.
#[verifier::external_body]
fn sort_entries(entries: &mut Vec<(i64, u64)>)
    ensures
        final(entries)@.to_multiset() == old(entries)@.to_multiset(),
        sorted(final(entries)@),
{
    entries.sort();
}

/// Groups records that follow each other with the same minute.
///
/// Calls `itertools::Itertools::group_by` with the minute as the key and
/// collects each group. Trusted: the groups, one after the other, are the
/// records that came in; no group is empty; two groups that follow each
/// other differ in the minute.
#[verifier::external_body]
fn group_by_minute(entries: Vec<(i64, u64)>) -> (groups: Vec<(i64, Vec<u64>)>)
    ensures
        flatten(group_dates(groups@), group_ids(groups@), groups@.len() as int) == entries@,
        forall|g: int| 0 <= g < groups@.len() ==> (#[trigger] groups@[g]).1@.len() > 0,
        forall|g: int|
            0 <= g < groups@.len() - 1 ==> (#[trigger] groups@[g]).0 != groups@[g + 1].0,
{
    let grouped = entries.into_iter().group_by(|entry| entry.0);
    grouped
        .into_iter()
        .map(|(minute, group)| (minute, group.map(|entry| entry.1).collect()))
        .collect()
}

/// A record of group `g` stands in the flattened groups after the records
/// of the groups before it.
proof fn lemma_flatten_index(
    dates: Seq<Timestamp>,
    buckets: Seq<Seq<u64>>,
    upto: int,
    g: int,
    j: int,
)
    requires
        0 <= g < upto,
        0 <= j < buckets[g].len(),
    ensures
        flatten(dates, buckets, g).len() + j < flatten(dates, buckets, upto).len(),
        flatten(dates, buckets, upto)[flatten(dates, buckets, g).len() + j] == (
            dates[g].minutes,
            buckets[g][j],
        ),
    decreases upto,
{
    if g < upto - 1 {
        lemma_flatten_index(dates, buckets, upto - 1, g, j);
    }
}

/// Sorted records in groups without gaps: the minutes of the groups
/// ascend.
proof fn lemma_group_dates_ascend(dates: Seq<Timestamp>, buckets: Seq<Seq<u64>>, g: int, h: int)
    requires
        dates.len() == buckets.len(),
        sorted(flatten(dates, buckets, dates.len() as int)),
        forall|d: int| 0 <= d < buckets.len() ==> (#[trigger] buckets[d]).len() > 0,
        forall|d: int| 0 <= d < dates.len() - 1 ==> (#[trigger] dates[d])@ != dates[d + 1]@,
        0 <= g < h < dates.len(),
    ensures
        dates[g]@ < dates[h]@,
    decreases h - g,
{
    let n = dates.len() as int;
    let all = flatten(dates, buckets, n);
    lemma_flatten_index(dates, buckets, n, h - 1, 0);
    lemma_flatten_index(dates, buckets, n, h, 0);
    let p = flatten(dates, buckets, h - 1).len() as int;
    let q = flatten(dates, buckets, h).len() as int;
    assert(q == p + buckets[h - 1].len());
    assert(record_le(all[p], all[q]));
    assert(dates[h - 1]@ != dates[h - 1 + 1]@);
    if g < h - 1 {
        lemma_group_dates_ascend(dates, buckets, g, h - 1);
    }
}

/// `answer` is `ranked` with the text in place of each id.
pub open spec fn renders(
    answer: Seq<(String, usize)>,
    ranked: Seq<(usize, u64)>,
    texts: Map<u64, Seq<char>>,
) -> bool {
    &&& answer.len() == ranked.len()
    &&& forall|i: int|
        0 <= i < answer.len() ==> (#[trigger] answer[i]).0@ == texts[ranked[i].1] && answer[i].1
            == ranked[i].0
}

/// `answer` lists the `k` most frequent queries of `[from, to]`: the most
/// frequent ids, with the text in place of each id.
pub open spec fn is_top_k(
    answer: Seq<(String, usize)>,
    records: Seq<(i64, u64)>,
    texts: Map<u64, Seq<char>>,
    from: int,
    to: int,
    k: int,
) -> bool {
    exists|ranked: Seq<(usize, u64)>| #[trigger]
        is_selection(ranked, frequencies(records, from, to), k) && renders(answer, ranked, texts)
}

/// The most frequent queries of a range are one list: two answers to one
/// question hold the same texts with the same counts in the same order,
/// whenever and wherever they are computed.
pub proof fn lemma_top_k_unique(
    first: Seq<(String, usize)>,
    second: Seq<(String, usize)>,
    records: Seq<(i64, u64)>,
    texts: Map<u64, Seq<char>>,
    from: int,
    to: int,
    k: int,
)
    requires
        is_top_k(first, records, texts, from, to, k),
        is_top_k(second, records, texts, from, to, k),
    ensures
        first.len() == second.len(),
        forall|i: int|
            0 <= i < first.len() ==> (#[trigger] first[i]).0@ == second[i].0@ && first[i].1
                == second[i].1,
{
    let counts = frequencies(records, from, to);
    let a = choose|ranked: Seq<(usize, u64)>| #[trigger]
        is_selection(ranked, counts, k) && renders(first, ranked, texts);
    let b = choose|ranked: Seq<(usize, u64)>| #[trigger]
        is_selection(ranked, counts, k) && renders(second, ranked, texts);
    lemma_selection_unique(a, b, counts, k);
}

/// The texts of a map of ids to texts.
pub open spec fn text_views(queries: Map<u64, String>) -> Map<u64, Seq<char>> {
    Map::new(|id: u64| queries.contains_key(id), |id: u64| queries[id]@)
}

/// The index over a log.
pub struct Solver {
    /// The text behind each id
    queries: HashMap<u64, String>,
    /// The place of each minute that occurs
    dates: HashMap<i64, usize>,
    /// The ids recorded in each minute that occurs
    grouped_queries: Vec<Vec<u64>>,
    /// For the minutes that occur within a range
    date_range_tree: RangeTree,
    /// For the number of records in a range of places
    segment_tree: SegmentTree<usize>,
}

impl Clone for Solver {
    fn clone(&self) -> (other: Self)
        ensures
            other.dates() == self.dates(),
            other.buckets() == self.buckets(),
            other.texts() == self.texts(),
    {
        proof {
            use_type_invariant(self);
        }
        let mut grouped_queries: Vec<Vec<u64>> = Vec::new();
        for d in 0..self.grouped_queries.len()
            invariant
                grouped_queries@.len() == d,
                forall|g: int|
                    0 <= g < d ==> (#[trigger] grouped_queries@[g])@ == self.grouped_queries@[g]@,
        {
            let bucket = &self.grouped_queries[d];
            let mut ids: Vec<u64> = Vec::new();
            for j in 0..bucket.len()
                invariant
                    ids@ == bucket@.take(j as int),
            {
                ids.push(bucket[j]);
                assert(bucket@.take(j + 1) == bucket@.take(j as int).push(bucket@[j as int]));
            }
            assert(bucket@.take(bucket@.len() as int) == bucket@);
            grouped_queries.push(ids);
        }
        let ghost buckets = Seq::new(grouped_queries@.len(), |d: int| grouped_queries@[d]@);
        assert(buckets == self.buckets());
        Solver {
            queries: self.queries.clone(),
            dates: self.dates.clone(),
            grouped_queries,
            date_range_tree: self.date_range_tree.clone(),
            segment_tree: self.segment_tree.clone(),
        }
    }
}

impl Solver {
    /// The minutes that occur, in order.
    pub closed spec fn dates(self) -> Seq<Timestamp> {
        self.date_range_tree@
    }

    /// The ids recorded in each minute that occurs, by its place.
    pub closed spec fn buckets(self) -> Seq<Seq<u64>> {
        Seq::new(self.grouped_queries@.len(), |d: int| self.grouped_queries@[d]@)
    }

    /// The text behind each id.
    pub closed spec fn texts(self) -> Map<u64, Seq<char>> {
        text_views(self.queries@)
    }

    /// The records, minute after minute.
    pub open spec fn records(self) -> Seq<(i64, u64)> {
        flatten(self.dates(), self.buckets(), self.dates().len() as int)
    }

    #[verifier::type_invariant]
    spec fn well_formed(self) -> bool {
        let dates = self.date_range_tree@;
        let n = self.grouped_queries@.len();
        &&& dates.len() == n
        &&& strictly_increasing(dates)
        &&& self.segment_tree@.len() == n
        &&& forall|d: int|
            0 <= d < n ==> #[trigger] self.segment_tree@[d] == self.grouped_queries@[d]@.len()
        &&& forall|d: int|
            0 <= d < n ==> self.dates@.contains_key((#[trigger] dates[d]).minutes)
                && self.dates@[dates[d].minutes] == d
        &&& range_tally(self.buckets(), 0, n as int, None) <= usize::MAX
        &&& forall|d: int, j: int|
            0 <= d < n && 0 <= j < self.grouped_queries@[d]@.len() ==> self.queries@.contains_key(
                #[trigger] self.grouped_queries@[d]@[j],
            )
    }

    /// Builds the index from the lines of a log. A line that records
    /// nothing is passed over.
    pub fn new(lines: &[String]) -> (solver: Self)
        ensures
            sorted(solver.records()),
            solver.records().to_multiset() == entries_of(lines@).to_multiset(),
            solver.records().len() == entries_of(lines@).len(),
            solver.texts() == texts_of(lines@),
            strictly_increasing(solver.dates()),
            solver.buckets().len() == solver.dates().len(),
            forall|d: int|
                0 <= d < solver.buckets().len() ==> (#[trigger] solver.buckets()[d]).len() > 0,
            forall|d: int, j: int|
                0 <= d < solver.buckets().len() && 0 <= j < solver.buckets()[d].len()
                    ==> solver.texts().contains_key(#[trigger] solver.buckets()[d][j]),
    {
        // Fingerprint the texts and keep them by fingerprint, and the
        // records of the log as they come
        let mut queries: HashMap<u64, String> = HashMap::new();
        let mut entries: Vec<(i64, u64)> = Vec::new();
        assert(text_views(queries@) == texts_of(lines@.take(0)));
        for i in 0..lines.len()
            invariant
                entries@ == entries_of(lines@.take(i as int)),
                text_views(queries@) == texts_of(lines@.take(i as int)),
                forall|p: int|
                    0 <= p < entries@.len() ==> queries@.contains_key((#[trigger] entries@[p]).1),
        {
            assert(lines@.take(i + 1).drop_last() == lines@.take(i as int));
            match parse_record(lines[i].as_str()) {
                Some((minute, text)) => {
                    let id = fingerprint(text.as_str());
                    if !queries.contains_key(&id) {
                        queries.insert(id, text);
                    }
                    entries.push((minute.minutes, id));
                    assert(text_views(queries@) == texts_of(lines@.take(i + 1)));
                },
                None => {},
            }
        }
        assert(lines@.take(lines@.len() as int) == lines@);

        // Sort the records, group them by minute and give each minute its place
        let ghost unsorted = entries@;
        sort_entries(&mut entries);
        let ghost ordered = entries@;
        let total = entries.len();
        let groups = group_by_minute(entries);
        let ghost runs = groups@;
        let ghost run_dates = group_dates(runs);
        let ghost run_ids = group_ids(runs);
        let count = groups.len();
        proof {
            assert forall|g: int, h: int| 0 <= g < h < run_dates.len() implies run_dates[g]@
                < run_dates[h]@ by {
                assert forall|d: int| 0 <= d < run_ids.len() implies (#[trigger] run_ids[d]).len()
                    > 0 by {
                    assert(runs[d].1@.len() > 0);
                }
                assert forall|d: int| 0 <= d < run_dates.len() - 1 implies (
                #[trigger] run_dates[d])@ != run_dates[d + 1]@ by {
                    assert(runs[d].0 != runs[d + 1].0);
                }
                lemma_group_dates_ascend(run_dates, run_ids, g, h);
            }
            lemma_flatten_len(run_dates, run_ids, count as int);
            assert(ordered.len() == total);
            assert forall|d: int, j: int|
                0 <= d < run_ids.len() && 0 <= j < run_ids[d].len() implies queries@.contains_key(
                #[trigger] run_ids[d][j],
            ) by {
                lemma_flatten_index(run_dates, run_ids, count as int, d, j);
                let p = flatten(run_dates, run_ids, d).len() + j;
                assert(ordered[p].1 == run_ids[d][j]);
                vstd::seq_lib::to_multiset_contains(ordered, ordered[p]);
                vstd::seq_lib::to_multiset_contains(unsorted, ordered[p]);
                assert(ordered.contains(ordered[p]));
                let u = choose|u: int| 0 <= u < unsorted.len() && unsorted[u] == ordered[p];
                assert(queries@.contains_key(unsorted[u].1));
            }
        }
        let mut date_map: HashMap<i64, usize> = HashMap::with_capacity(count);
        let mut range_tree_leaves: Vec<Timestamp> = Vec::new();
        let mut seg_tree_leaves: Vec<usize> = Vec::new();
        let mut grouped_queries: Vec<Vec<u64>> = Vec::new();
        for group in it: groups
            invariant
                it.seq() == runs,
                run_dates == group_dates(runs),
                run_ids == group_ids(runs),
                forall|g: int, h: int| 0 <= g < h < run_dates.len() ==> run_dates[g]@ < run_dates[h]@,
                range_tree_leaves@ == run_dates.take(it.index() as int),
                grouped_queries@.len() == it.index(),
                forall|d: int| 0 <= d < it.index() ==> (#[trigger] grouped_queries@[d])@ == run_ids[d],
                seg_tree_leaves@.len() == it.index(),
                forall|d: int| 0 <= d < it.index() ==> #[trigger] seg_tree_leaves@[d] == run_ids[d].len(),
                forall|d: int|
                    0 <= d < it.index() ==> date_map@.contains_key((#[trigger] run_dates[d]).minutes)
                        && date_map@[run_dates[d].minutes] == d,
        {
            let ghost at = it.index() as int;
            let (minute, ids) = group;
            assert(minute == runs[at].0 && ids@ == run_ids[at]);
            let date_id = range_tree_leaves.len();
            date_map.insert(minute, date_id);
            range_tree_leaves.push(Timestamp { minutes: minute });
            seg_tree_leaves.push(ids.len());
            grouped_queries.push(ids);
            proof {
                assert(run_dates.take(at + 1) == run_dates.take(at).push(run_dates[at]));
                assert forall|d: int| 0 <= d < at + 1 implies date_map@.contains_key(
                    (#[trigger] run_dates[d]).minutes,
                ) && date_map@[run_dates[d].minutes] == d by {
                    if d < at {
                        assert(run_dates[d]@ < run_dates[at]@);
                    }
                }
            }
        }
        assert(run_dates.take(run_dates.len() as int) == run_dates);
        let date_range_tree = RangeTree::with_leaves(range_tree_leaves.as_slice());
        let segment_tree = SegmentTree::with_leaves(seg_tree_leaves.as_slice());
        let ghost buckets = Seq::new(grouped_queries@.len(), |d: int| grouped_queries@[d]@);
        assert(buckets == run_ids);
        let solver = Solver {
            queries,
            dates: date_map,
            grouped_queries,
            date_range_tree,
            segment_tree,
        };
        assert(solver.records() == ordered);
        proof {
            vstd::seq_lib::to_multiset_len(ordered);
            vstd::seq_lib::to_multiset_len(unsorted);
        }
        solver
    }

    /// The places of the first and the last minute that occurs in
    /// `[from, to]`.
    fn find_date_range_ids(&self, from: &Timestamp, to: &Timestamp) -> (r: Option<(usize, usize)>)
        ensures
            match r {
                Some((first, last)) => spans(self.dates(), from@, to@, first as int, last as int),
                None => none_within(self.dates(), from@, to@),
            },
    {
        proof {
            use_type_invariant(self);
        }
        let maybe_range = self.date_range_tree.largest_range(from, to);
        match maybe_range {
            None => None,
            Some((first, last)) => {
                let ghost dates = self.dates();
                proof {
                    let i = choose|i: int| 0 <= i < dates.len() && dates[i] == first;
                    let j = choose|j: int| 0 <= j < dates.len() && dates[j] == last;
                    assert(self.dates@[dates[i].minutes] == i);
                    assert(self.dates@[dates[j].minutes] == j);
                    assert forall|d: int| 0 <= d < dates.len() implies ((from@ <= (
                    #[trigger] dates[d])@ <= to@) <==> i <= d <= j) by {
                        if d < i {
                            assert(dates[d]@ < dates[i]@);
                        }
                        if d > j {
                            assert(dates[j]@ < dates[d]@);
                        }
                        if i <= d <= j {
                            assert(i < d ==> dates[i]@ < dates[d]@);
                            assert(d < j ==> dates[d]@ < dates[j]@);
                        }
                    }
                }
                match self.dates.get(&first.minutes) {
                    None => None,
                    Some(from_id) => match self.dates.get(&last.minutes) {
                        None => None,
                        Some(to_id) => Some((*from_id, *to_id)),
                    },
                }
            },
        }
    }

    /// How often each id occurs in the groups `first..=last`.
    fn count_queries(&self, first: usize, last: usize) -> (counts: HashMap<u64, usize>)
        requires
            first <= last < self.dates().len(),
        ensures
            counts@ == seen_frequencies(self.buckets(), first as int, last + 1, 0),
    {
        proof {
            use_type_invariant(self);
        }
        let ghost buckets = self.buckets();
        let mut counts: HashMap<u64, usize> = HashMap::new();
        assert(counts@ =~= seen_frequencies(buckets, first as int, first as int, 0));
        let groups = self.grouped_queries.len();
        let mut date_id = first;
        while date_id <= last
            invariant
                self.well_formed(),
                last < groups,
                buckets == self.buckets(),
                first <= date_id <= last + 1,
                last < buckets.len(),
                counts@ == seen_frequencies(buckets, first as int, date_id as int, 0),
            decreases last + 1 - date_id,
        {
            let bucket = &self.grouped_queries[date_id];
            assert(bucket@ == buckets[date_id as int]);
            let mut at: usize = 0;
            while at < bucket.len()
                invariant
                    self.well_formed(),
                    buckets == self.buckets(),
                    first <= date_id <= last < buckets.len(),
                    bucket@ == buckets[date_id as int],
                    at <= bucket@.len(),
                    counts@ == seen_frequencies(buckets, first as int, date_id as int, at as int),
                decreases bucket@.len() - at,
            {
                let id = bucket[at];
                let count = match counts.get(&id) {
                    Some(count) => *count,
                    None => 0,
                };
                proof {
                    lemma_seen_bounds(buckets, first as int, date_id as int, at + 1, Some(id));
                    assert(seen(buckets, first as int, date_id as int, at + 1, Some(id)) == count
                        + 1);
                }
                counts.insert(id, count + 1);
                at = at + 1;
                assert(counts@ =~= seen_frequencies(
                    buckets,
                    first as int,
                    date_id as int,
                    at as int,
                ));
            }
            date_id = date_id + 1;
            assert(counts@ =~= seen_frequencies(buckets, first as int, date_id as int, 0));
        }
        counts
    }

    /// What was counted in the groups of `[from, to]` is how often each id
    /// is recorded there.
    proof fn lemma_frequencies(self, from: int, to: int, first: int, last: int)
        requires
            spans(self.dates(), from, to, first, last),
        ensures
            seen_frequencies(self.buckets(), first, last + 1, 0) == frequencies(
                self.records(),
                from,
                to,
            ),
    {
        let n = self.dates().len() as int;
        assert forall|id: u64|
            seen(self.buckets(), first, last + 1, 0, Some(id)) == tally(
                self.records(),
                from,
                to,
                Some(id),
            ) by {
            lemma_tally_flatten(self.dates(), self.buckets(), n, from, to, first, last, Some(id));
        }
        assert(seen_frequencies(self.buckets(), first, last + 1, 0) =~= frequencies(
            self.records(),
            from,
            to,
        ));
    }

    /// Where no minute of `[from, to]` occurs, no id is recorded there.
    proof fn lemma_no_frequencies(self, from: int, to: int)
        requires
            none_within(self.dates(), from, to),
        ensures
            frequencies(self.records(), from, to) == Map::<u64, usize>::empty(),
            ids_within(self.records(), from, to) == Set::<u64>::empty(),
    {
        let n = self.dates().len() as int;
        assert forall|id: u64| tally(self.records(), from, to, Some(id)) == 0 by {
            lemma_tally_flatten_none(self.dates(), self.buckets(), n, from, to, Some(id));
        }
        assert(frequencies(self.records(), from, to) =~= Map::<u64, usize>::empty());
        assert(ids_within(self.records(), from, to) =~= Set::<u64>::empty());
    }

    /// The number of different ids recorded in `[from, to]`.
    pub fn query_distinct_count(&self, from: &Timestamp, to: &Timestamp) -> (count: usize)
        ensures
            count == ids_within(self.records(), from@, to@).len(),
    {
        match self.find_date_range_ids(from, to) {
            Some((from_id, to_id)) => {
                let counts = self.count_queries(from_id, to_id);
                proof {
                    self.lemma_frequencies(from@, to@, from_id as int, to_id as int);
                    assert(counts@.dom() =~= ids_within(self.records(), from@, to@));
                }
                counts.len()
            },
            None => {
                proof {
                    self.lemma_no_frequencies(from@, to@);
                }
                0
            },
        }
    }

    /// The `k` most frequent queries of `[from, to]` with their counts, by
    /// descending count: each a text and the number of records of its id.
    /// Of queries of one count, the one with the greater id comes first.
    /// The records are no more than a `usize` counts, so each count listed
    /// is the number of records.
    pub fn query_k_count(&self, from: &Timestamp, to: &Timestamp, k: usize) -> (answer: Vec<
        (String, usize),
    >)
        ensures
            self.records().len() <= usize::MAX,
            is_top_k(answer@, self.records(), self.texts(), from@, to@, k as int),
    {
        proof {
            use_type_invariant(self);
            lemma_flatten_len(self.dates(), self.buckets(), self.dates().len() as int);
        }
        let mut answer: Vec<(String, usize)> = Vec::new();
        let ghost nothing = Seq::<(usize, u64)>::empty();
        if k == 0 {
            proof {
                assert(is_selection(nothing, frequencies(self.records(), from@, to@), 0));
                assert(renders(answer@, nothing, self.texts()));
            }
            return answer;
        }
        let found = self.find_date_range_ids(from, to);
        let (from_id, to_id) = match found {
            Some(ids) => ids,
            None => {
                proof {
                    self.lemma_no_frequencies(from@, to@);
                    assert(Map::<u64, usize>::empty().dom() =~= Set::<u64>::empty());
                    assert(is_selection(nothing, frequencies(self.records(), from@, to@), k as int));
                    assert(renders(answer@, nothing, self.texts()));
                }
                return answer;
            },
        };
        // Count the queries of the range, then keep the most frequent
        let counts = self.count_queries(from_id, to_id);
        let ranked = select_top(&counts, k);
        proof {
            self.lemma_frequencies(from@, to@, from_id as int, to_id as int);
        }
        let mut at: usize = 0;
        while at < ranked.len()
            invariant
                self.well_formed(),
                at <= ranked@.len(),
                from_id <= to_id < self.buckets().len(),
                counts@ == seen_frequencies(self.buckets(), from_id as int, to_id + 1, 0),
                is_selection(ranked@, counts@, k as int),
                renders(answer@, ranked@.take(at as int), self.texts()),
            decreases ranked@.len() - at,
        {
            let (count, id) = ranked[at];
            proof {
                assert(counts@.contains_key(ranked@[at as int].1));
                let place = lemma_range_tally_witness(
                    self.buckets(),
                    from_id as int,
                    to_id + 1,
                    id,
                );
                assert(self.grouped_queries@[place.0]@[place.1] == id);
            }
            let text = match self.queries.get(&id) {
                Some(text) => text.clone(),
                None => String::new(),
            };
            answer.push((text, count));
            at = at + 1;
        }
        assert(ranked@.take(ranked@.len() as int) == ranked@);
        answer
    }

    /// The number of records in `[from, to]`.
    pub fn query_count(&self, from: &Timestamp, to: &Timestamp) -> (count: usize)
        ensures
            count == tally(self.records(), from@, to@, None),
    {
        proof {
            use_type_invariant(self);
        }
        let ghost n = self.dates().len() as int;
        match self.find_date_range_ids(from, to) {
            Some((from_id, to_id)) => {
                proof {
                    lemma_tally_flatten(
                        self.dates(),
                        self.buckets(),
                        n,
                        from@,
                        to@,
                        from_id as int,
                        to_id as int,
                        None,
                    );
                    lemma_fold_counts(
                        self.segment_tree@,
                        self.buckets(),
                        from_id as int,
                        to_id + 1,
                    );
                }
                self.segment_tree.query(from_id, to_id)
            },
            None => {
                proof {
                    lemma_tally_flatten_none(self.dates(), self.buckets(), n, from@, to@, None);
                }
                0
            },
        }
    }
}

} // verus!
