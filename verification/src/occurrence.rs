//! Counting the records of a log: all those of a range of minutes, or
//! those of one query in it.
//!
//! A record is a minute and a query id. The index keeps the records
//! grouped: the minutes that occur, in order, and for each the ids recorded
//! in it. The lemmas here carry a count over the records to a count over
//! the groups.

use crate::timestamp::Timestamp;
use crate::monoid::fold;
use vstd::prelude::*;

verus! {

/// Whether `id` is any id, or the given one.
pub open spec fn admits(wanted: Option<u64>, id: u64) -> bool {
    wanted matches Some(q) ==> id == q
}

/// Whether a record lies in `[from, to]` and its id is admitted.
pub open spec fn selects(from: int, to: int, wanted: Option<u64>, record: (i64, u64)) -> bool {
    from <= record.0 <= to && admits(wanted, record.1)
}

/// The number of records in `[from, to]`: all of them where `wanted` is
/// `None`, else those of the wanted id.
pub open spec fn tally(records: Seq<(i64, u64)>, from: int, to: int, wanted: Option<u64>) -> nat
    decreases records.len(),
{
    if records.len() == 0 {
        0
    } else {
        tally(records.drop_last(), from, to, wanted) + if selects(
            from,
            to,
            wanted,
            records.last(),
        ) {
            1nat
        } else {
            0nat
        }
    }
}

/// The ids that are recorded in `[from, to]`.
pub open spec fn ids_within(records: Seq<(i64, u64)>, from: int, to: int) -> Set<u64> {
    Set::new(|id: u64| tally(records, from, to, Some(id)) > 0)
}

/// How often each id is recorded in `[from, to]`; an id that is not
/// recorded there has no entry.
pub open spec fn frequencies(records: Seq<(i64, u64)>, from: int, to: int) -> Map<u64, usize> {
    Map::new(
        |id: u64| tally(records, from, to, Some(id)) > 0,
        |id: u64| tally(records, from, to, Some(id)) as usize,
    )
}

/// `a` is not after `b`: by minute, and within a minute by id.
pub open spec fn record_le(a: (i64, u64), b: (i64, u64)) -> bool {
    a.0 < b.0 || (a.0 == b.0 && a.1 <= b.1)
}

/// The records are in ascending order.
pub open spec fn sorted(records: Seq<(i64, u64)>) -> bool {
    forall|i: int, j: int| 0 <= i < j < records.len() ==> record_le(records[i], records[j])
}

/// The records of one minute with the given ids.
pub open spec fn tagged(minute: i64, ids: Seq<u64>) -> Seq<(i64, u64)> {
    Seq::new(ids.len(), |j: int| (minute, ids[j]))
}

/// The records of the first `upto` groups, group after group.
pub open spec fn flatten(dates: Seq<Timestamp>, buckets: Seq<Seq<u64>>, upto: int) -> Seq<
    (i64, u64),
>
    decreases upto,
{
    if upto <= 0 {
        Seq::empty()
    } else {
        flatten(dates, buckets, upto - 1) + tagged(dates[upto - 1].minutes, buckets[upto - 1])
    }
}

/// The number of admitted ids among the first `upto` of `ids`.
pub open spec fn bucket_tally(ids: Seq<u64>, upto: int, wanted: Option<u64>) -> nat
    decreases upto,
{
    if upto <= 0 {
        0
    } else {
        bucket_tally(ids, upto - 1, wanted) + if admits(wanted, ids[upto - 1]) {
            1nat
        } else {
            0nat
        }
    }
}

/// The number of admitted ids in the groups `lo..hi`.
pub open spec fn range_tally(buckets: Seq<Seq<u64>>, lo: int, hi: int, wanted: Option<u64>) -> nat
    decreases hi - lo,
{
    if hi <= lo {
        0
    } else {
        range_tally(buckets, lo, hi - 1, wanted) + bucket_tally(
            buckets[hi - 1],
            buckets[hi - 1].len() as int,
            wanted,
        )
    }
}

/// The groups `first..=last` are those of the minutes in `[from, to]`.
pub open spec fn spans(dates: Seq<Timestamp>, from: int, to: int, first: int, last: int) -> bool {
    &&& 0 <= first <= last < dates.len()
    &&& forall|d: int|
        0 <= d < dates.len() ==> ((from <= (#[trigger] dates[d])@ <= to) <==> first <= d <= last)
}

pub proof fn lemma_tally_concat(
    a: Seq<(i64, u64)>,
    b: Seq<(i64, u64)>,
    from: int,
    to: int,
    wanted: Option<u64>,
)
    ensures
        tally(a + b, from, to, wanted) == tally(a, from, to, wanted) + tally(b, from, to, wanted),
    decreases b.len(),
{
    if b.len() == 0 {
        assert(a + b == a);
    } else {
        assert((a + b).drop_last() == a + b.drop_last());
        lemma_tally_concat(a, b.drop_last(), from, to, wanted);
    }
}

/// No more records are counted than there are, and no more of one id than
/// of all.
pub proof fn lemma_tally_bounds(records: Seq<(i64, u64)>, from: int, to: int, wanted: Option<u64>)
    ensures
        tally(records, from, to, wanted) <= tally(records, from, to, None) <= records.len(),
    decreases records.len(),
{
    if records.len() > 0 {
        lemma_tally_bounds(records.drop_last(), from, to, wanted);
    }
}

pub proof fn lemma_bucket_tally_prefix(ids: Seq<u64>, upto: int, wanted: Option<u64>)
    requires
        0 <= upto <= ids.len(),
    ensures
        bucket_tally(ids.take(upto), upto, wanted) == bucket_tally(ids, upto, wanted),
        bucket_tally(ids, upto, wanted) <= upto,
    decreases upto,
{
    if upto > 0 {
        lemma_bucket_tally_prefix(ids, upto - 1, wanted);
        lemma_bucket_tally_prefix(ids.take(upto), upto - 1, wanted);
        assert(ids.take(upto).take(upto - 1) == ids.take(upto - 1));
    }
}

/// The records of one minute count as the ids of its group, or not at all.
pub proof fn lemma_tally_tagged(
    minute: i64,
    ids: Seq<u64>,
    from: int,
    to: int,
    wanted: Option<u64>,
)
    ensures
        tally(tagged(minute, ids), from, to, wanted) == if from <= minute <= to {
            bucket_tally(ids, ids.len() as int, wanted)
        } else {
            0
        },
    decreases ids.len(),
{
    if ids.len() > 0 {
        let rest = ids.drop_last();
        assert(tagged(minute, ids).drop_last() == tagged(minute, rest));
        lemma_tally_tagged(minute, rest, from, to, wanted);
        lemma_bucket_tally_prefix(ids, ids.len() - 1, wanted);
        assert(ids.take(ids.len() - 1) == rest);
    }
}

/// Where the groups `first..=last` are those of `[from, to]`, the records of
/// the first `upto` groups count as the groups of `first..=last` among them.
pub proof fn lemma_tally_flatten(
    dates: Seq<Timestamp>,
    buckets: Seq<Seq<u64>>,
    upto: int,
    from: int,
    to: int,
    first: int,
    last: int,
    wanted: Option<u64>,
)
    requires
        0 <= upto <= dates.len(),
        spans(dates, from, to, first, last),
    ensures
        tally(flatten(dates, buckets, upto), from, to, wanted) == range_tally(
            buckets,
            first,
            if upto <= last {
                upto
            } else {
                last + 1
            },
            wanted,
        ),
    decreases upto,
{
    if upto > 0 {
        lemma_tally_flatten(dates, buckets, upto - 1, from, to, first, last, wanted);
        lemma_tally_concat(
            flatten(dates, buckets, upto - 1),
            tagged(dates[upto - 1].minutes, buckets[upto - 1]),
            from,
            to,
            wanted,
        );
        lemma_tally_tagged(dates[upto - 1].minutes, buckets[upto - 1], from, to, wanted);
        assert((from <= dates[upto - 1]@ <= to) <==> first <= upto - 1 <= last);
    }
}

/// Where no group is of a minute in `[from, to]`, no record counts.
pub proof fn lemma_tally_flatten_none(
    dates: Seq<Timestamp>,
    buckets: Seq<Seq<u64>>,
    upto: int,
    from: int,
    to: int,
    wanted: Option<u64>,
)
    requires
        0 <= upto <= dates.len(),
        forall|d: int| 0 <= d < dates.len() ==> !(from <= (#[trigger] dates[d])@ <= to),
    ensures
        tally(flatten(dates, buckets, upto), from, to, wanted) == 0,
    decreases upto,
{
    if upto > 0 {
        lemma_tally_flatten_none(dates, buckets, upto - 1, from, to, wanted);
        lemma_tally_concat(
            flatten(dates, buckets, upto - 1),
            tagged(dates[upto - 1].minutes, buckets[upto - 1]),
            from,
            to,
            wanted,
        );
        lemma_tally_tagged(dates[upto - 1].minutes, buckets[upto - 1], from, to, wanted);
        assert(!(from <= dates[upto - 1]@ <= to));
    }
}

/// The groups hold as many records as they have ids.
pub proof fn lemma_flatten_len(dates: Seq<Timestamp>, buckets: Seq<Seq<u64>>, upto: int)
    requires
        0 <= upto,
    ensures
        flatten(dates, buckets, upto).len() == range_tally(buckets, 0, upto, None),
    decreases upto,
{
    if upto > 0 {
        lemma_flatten_len(dates, buckets, upto - 1);
        lemma_bucket_tally_bounds(buckets[upto - 1], buckets[upto - 1].len() as int, None);
    }
}

/// A count over groups is cut where the groups are.
pub proof fn lemma_range_tally_split(
    buckets: Seq<Seq<u64>>,
    lo: int,
    mid: int,
    hi: int,
    wanted: Option<u64>,
)
    requires
        lo <= mid <= hi,
    ensures
        range_tally(buckets, lo, hi, wanted) == range_tally(buckets, lo, mid, wanted)
            + range_tally(buckets, mid, hi, wanted),
    decreases hi - mid,
{
    if mid < hi {
        lemma_range_tally_split(buckets, lo, mid, hi - 1, wanted);
    }
}

/// Where all the groups together hold no more than `usize::MAX` ids, the
/// combination of their sizes is the number of their ids.
pub proof fn lemma_fold_counts(
    counts: Seq<usize>,
    buckets: Seq<Seq<u64>>,
    lo: int,
    hi: int,
)
    requires
        0 <= lo <= hi <= counts.len() == buckets.len(),
        forall|d: int| 0 <= d < counts.len() ==> #[trigger] counts[d] == buckets[d].len(),
        range_tally(buckets, 0, buckets.len() as int, None) <= usize::MAX,
    ensures
        fold(counts, lo, hi) == range_tally(buckets, lo, hi, None),
    decreases hi - lo,
{
    lemma_range_tally_split(buckets, 0, lo, hi, None);
    lemma_range_tally_split(buckets, 0, hi, buckets.len() as int, None);
    if lo < hi {
        lemma_fold_counts(counts, buckets, lo, hi - 1);
        lemma_bucket_tally_bounds(buckets[hi - 1], buckets[hi - 1].len() as int, None);
        assert(counts[hi - 1] == buckets[hi - 1].len());
    }
}

/// The number of admitted ids in the groups `first..d` and among the
/// first `j` ids of group `d`.
pub open spec fn seen(buckets: Seq<Seq<u64>>, first: int, d: int, j: int, wanted: Option<u64>) -> nat {
    range_tally(buckets, first, d, wanted) + bucket_tally(buckets[d], j, wanted)
}

/// How often each id occurs in the groups `first..d` and among the first
/// `j` ids of group `d`.
pub open spec fn seen_frequencies(buckets: Seq<Seq<u64>>, first: int, d: int, j: int) -> Map<
    u64,
    usize,
> {
    Map::new(
        |id: u64| seen(buckets, first, d, j, Some(id)) > 0,
        |id: u64| seen(buckets, first, d, j, Some(id)) as usize,
    )
}

pub proof fn lemma_bucket_tally_bounds(ids: Seq<u64>, upto: int, wanted: Option<u64>)
    requires
        0 <= upto,
    ensures
        bucket_tally(ids, upto, wanted) <= bucket_tally(ids, upto, None) == upto,
    decreases upto,
{
    if upto > 0 {
        lemma_bucket_tally_bounds(ids, upto - 1, wanted);
    }
}

pub proof fn lemma_range_tally_bounds(buckets: Seq<Seq<u64>>, lo: int, hi: int, wanted: Option<u64>)
    ensures
        range_tally(buckets, lo, hi, wanted) <= range_tally(buckets, lo, hi, None),
    decreases hi - lo,
{
    if lo < hi {
        lemma_range_tally_bounds(buckets, lo, hi - 1, wanted);
        lemma_bucket_tally_bounds(buckets[hi - 1], buckets[hi - 1].len() as int, wanted);
    }
}

/// What was seen of one id is no more than all the ids of all the groups.
pub proof fn lemma_seen_bounds(
    buckets: Seq<Seq<u64>>,
    first: int,
    d: int,
    j: int,
    wanted: Option<u64>,
)
    requires
        0 <= first <= d < buckets.len(),
        0 <= j <= buckets[d].len(),
    ensures
        seen(buckets, first, d, j, wanted) <= range_tally(
            buckets,
            0,
            buckets.len() as int,
            None,
        ),
{
    lemma_range_tally_bounds(buckets, first, d, wanted);
    lemma_bucket_tally_bounds(buckets[d], j, wanted);
    lemma_bucket_tally_bounds(buckets[d], buckets[d].len() as int, None);
    lemma_range_tally_split(buckets, 0, first, d + 1, None);
    lemma_range_tally_split(buckets, 0, d + 1, buckets.len() as int, None);
}

/// An id that is counted in the groups `lo..hi` is an id of one of them.
pub proof fn lemma_range_tally_witness(buckets: Seq<Seq<u64>>, lo: int, hi: int, id: u64) -> (at: (
    int,
    int,
))
    requires
        range_tally(buckets, lo, hi, Some(id)) > 0,
    ensures
        lo <= at.0 < hi,
        0 <= at.1 < buckets[at.0].len(),
        buckets[at.0][at.1] == id,
    decreases hi - lo,
{
    if range_tally(buckets, lo, hi - 1, Some(id)) > 0 {
        lemma_range_tally_witness(buckets, lo, hi - 1, id)
    } else {
        let j = lemma_bucket_tally_witness(buckets[hi - 1], buckets[hi - 1].len() as int, id);
        (hi - 1, j)
    }
}

/// An id that is counted among the first `upto` ids is one of them.
pub proof fn lemma_bucket_tally_witness(ids: Seq<u64>, upto: int, id: u64) -> (j: int)
    requires
        bucket_tally(ids, upto, Some(id)) > 0,
    ensures
        0 <= j < upto,
        ids[j] == id,
    decreases upto,
{
    if bucket_tally(ids, upto - 1, Some(id)) > 0 {
        lemma_bucket_tally_witness(ids, upto - 1, id)
    } else {
        upto - 1
    }
}

} // verus!
