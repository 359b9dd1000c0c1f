//! The gap records that belong to a sequence of bins, and how they change
//! when a bin is opened or two bins are merged.

use crate::bin::Bin;
use crate::bin_distance::BinDistance;
use crate::bin_sequence::{
    gap, is_first_min_gap, lemma_merge_at_index, lemma_rank_unique, merge_at, rank, separated,
};
use vstd::prelude::*;

verus! {

/// The record of the gap between the bins at positions `i` and `i + 1`, where
/// `ids` gives the identifier of the bin at each position.
pub open spec fn record_at(ids: Seq<usize>, bins: Seq<Bin>, i: int) -> BinDistance {
    BinDistance {
        distance: gap(bins, i) as i64,
        start: bins[i].left,
        left: ids[i],
        right: ids[i + 1],
    }
}

/// The records of all gaps of a sequence: one for each pair of neighbours.
pub open spec fn records(ids: Seq<usize>, bins: Seq<Bin>) -> Set<BinDistance> {
    Set::new(
        |record: BinDistance|
            exists|i: int| 0 <= i < bins.len() - 1 && record == #[trigger] record_at(ids, bins, i),
    )
}

/// Whether `record` gives the gap at position `p` of `bins`: the distance
/// between the bin at `p` and the next, and the left edge of the bin at `p`.
pub open spec fn is_gap_at(bins: Seq<Bin>, record: BinDistance, p: int) -> bool {
    record.distance == gap(bins, p) && record.start == bins[p].left
}

/// Whether `record` comes before the gap at position `p` of `bins`: its
/// distance is smaller, or the same with a left edge further to the left.
pub open spec fn before_gap_at(bins: Seq<Bin>, record: BinDistance, p: int) -> bool {
    record.distance < gap(bins, p) || (record.distance == gap(bins, p) && record.start
        < bins[p].left)
}

/// Whether one of `chosen` gives the gap at position `p` of `bins`.
pub open spec fn gap_chosen(bins: Seq<Bin>, chosen: Seq<BinDistance>, p: int) -> bool {
    exists|j: int| 0 <= j < chosen.len() && is_gap_at(bins, #[trigger] chosen[j], p)
}

/// Whether `record` gives the gap between two neighbours of `bins`.
pub open spec fn describes_gap(bins: Seq<Bin>, record: BinDistance) -> bool {
    exists|p: int| 0 <= p < bins.len() - 1 && #[trigger] is_gap_at(bins, record, p)
}

/// What becomes of the records when a bin is opened at position `p`: the
/// record of the pair that the new bin parts goes, and a record for each
/// neighbour that the new bin has comes.
pub open spec fn records_after_insert(
    ids: Seq<usize>,
    bins: Seq<Bin>,
    p: int,
    id: usize,
    bin: Bin,
) -> Set<BinDistance> {
    let all = records(ids, bins);
    let parted = if 0 < p < bins.len() {
        all.remove(record_at(ids, bins, p - 1))
    } else {
        all
    };
    let joined = if 0 < p {
        parted.insert(record_at(ids.insert(p, id), bins.insert(p, bin), p - 1))
    } else {
        parted
    };
    if p < bins.len() {
        joined.insert(record_at(ids.insert(p, id), bins.insert(p, bin), p))
    } else {
        joined
    }
}

/// What becomes of the records when the bin at `i` swallows its right
/// neighbour: the record of the pair goes, and the record from the swallowed
/// bin to the bin behind it, if there is one, is replaced by one from the
/// merged bin.
pub open spec fn records_after_merge(ids: Seq<usize>, bins: Seq<Bin>, i: int) -> Set<BinDistance> {
    let rest = records(ids, bins).remove(record_at(ids, bins, i));
    if i + 2 < bins.len() {
        rest.remove(record_at(ids, bins, i + 1)).insert(
            BinDistance {
                distance: gap(bins, i + 1) as i64,
                start: bins[i].left,
                left: ids[i],
                right: ids[i + 2],
            },
        )
    } else {
        rest
    }
}

/// The record of a pair is in the set of records.
pub proof fn lemma_record_listed(ids: Seq<usize>, bins: Seq<Bin>, i: int)
    requires
        0 <= i < bins.len() - 1,
    ensures
        records(ids, bins).contains(record_at(ids, bins, i)),
{
}

/// In separated bins, the records of two different pairs differ.
pub proof fn lemma_records_differ(ids: Seq<usize>, bins: Seq<Bin>, i: int, j: int)
    requires
        separated(bins),
        0 <= i < bins.len() - 1,
        0 <= j < bins.len() - 1,
        i != j,
    ensures
        record_at(ids, bins, i) != record_at(ids, bins, j),
{
    if i < j {
        assert(bins[i].left < bins[j].left);
    } else {
        assert(bins[j].left < bins[i].left);
    }
}

/// Opening a bin changes the records as `records_after_insert` says.
pub proof fn lemma_records_after_insert(
    ids: Seq<usize>,
    bins: Seq<Bin>,
    p: int,
    id: usize,
    bin: Bin,
)
    requires
        ids.len() == bins.len(),
        0 <= p <= bins.len(),
        separated(bins.insert(p, bin)),
    ensures
        records(ids.insert(p, id), bins.insert(p, bin)) == records_after_insert(
            ids,
            bins,
            p,
            id,
            bin,
        ),
{
    let ids2 = ids.insert(p, id);
    let bins2 = bins.insert(p, bin);
    let after = records(ids2, bins2);
    let expected = records_after_insert(ids, bins, p, id, bin);
    let n = bins.len() as int;
    assert(bins2.len() == n + 1);
    assert(ids2.len() == n + 1);
    assert forall|k: int| 0 <= k <= n implies bins2[k] == (if k < p {
        bins[k]
    } else if k == p {
        bin
    } else {
        bins[k - 1]
    }) && ids2[k] == (if k < p {
        ids[k]
    } else if k == p {
        id
    } else {
        ids[k - 1]
    }) by {}
    assert(separated(bins)) by {
        assert forall|a: int, b: int| 0 <= a < b < bins.len() implies bins[a].right
            <= bins[b].left && bins[a].left < bins[b].left by {
            let a2 = if a < p { a } else { a + 1 };
            let b2 = if b < p { b } else { b + 1 };
            assert(bins2[a2].right <= bins2[b2].left && bins2[a2].left < bins2[b2].left);
        }
    }
    assert forall|k: int| 0 <= k < n - 1 && k < p - 1 implies record_at(ids2, bins2, k)
        == record_at(ids, bins, k) by {}
    assert forall|k: int| 0 <= k < n - 1 && k >= p implies record_at(ids2, bins2, k + 1)
        == record_at(ids, bins, k) by {}
    assert forall|record: BinDistance| after.contains(record) implies expected.contains(
        record,
    ) by {
        let k = choose|k: int| 0 <= k < bins2.len() - 1 && record == record_at(ids2, bins2, k);
        if k < p - 1 {
            lemma_record_listed(ids, bins, k);
            if p < n {
                lemma_records_differ(ids, bins, k, p - 1);
            }
        } else if k > p {
            lemma_record_listed(ids, bins, k - 1);
            if 0 < p {
                lemma_records_differ(ids, bins, k - 1, p - 1);
            }
        }
    }
    assert forall|record: BinDistance| expected.contains(record) implies after.contains(
        record,
    ) by {
        if p < n && record == record_at(ids2, bins2, p) {
        } else if 0 < p && record == record_at(ids2, bins2, p - 1) {
        } else {
            assert(records(ids, bins).contains(record));
            let k = choose|k: int| 0 <= k < bins.len() - 1 && record == record_at(ids, bins, k);
            if k < p - 1 {
                assert(record == record_at(ids2, bins2, k));
            } else {
                assert(k >= p);
                assert(record == record_at(ids2, bins2, k + 1));
            }
        }
    }
    assert(after =~= expected);
}

/// Merging two neighbours changes the records as `records_after_merge` says.
pub proof fn lemma_records_after_merge(ids: Seq<usize>, bins: Seq<Bin>, i: int)
    requires
        ids.len() == bins.len(),
        0 <= i < bins.len() - 1,
        separated(bins),
    ensures
        records(ids.remove(i + 1), merge_at(bins, i)) == records_after_merge(ids, bins, i),
{
    let ids2 = ids.remove(i + 1);
    let bins2 = merge_at(bins, i);
    let after = records(ids2, bins2);
    let expected = records_after_merge(ids, bins, i);
    let n = bins.len() as int;
    assert(bins2.len() == n - 1);
    assert(ids2.len() == n - 1);
    assert forall|k: int| 0 <= k < n - 1 implies bins2[k] == (if k < i {
        bins[k]
    } else if k == i {
        bins[i].absorbed(bins[i + 1])
    } else {
        bins[k + 1]
    }) && ids2[k] == (if k <= i {
        ids[k]
    } else {
        ids[k + 1]
    }) by {
        lemma_merge_at_index(bins, i, k);
    }
    assert forall|k: int| 0 <= k < i implies record_at(ids2, bins2, k) == record_at(
        ids,
        bins,
        k,
    ) by {}
    assert forall|k: int| i < k < n - 2 implies record_at(ids2, bins2, k) == record_at(
        ids,
        bins,
        k + 1,
    ) by {}
    let bridge = BinDistance {
        distance: gap(bins, i + 1) as i64,
        start: bins[i].left,
        left: ids[i],
        right: ids[i + 2],
    };
    if i + 2 < n {
        assert(record_at(ids2, bins2, i) == bridge);
    }
    assert forall|record: BinDistance| after.contains(record) implies expected.contains(
        record,
    ) by {
        let k = choose|k: int| 0 <= k < bins2.len() - 1 && record == record_at(ids2, bins2, k);
        if k < i {
            lemma_record_listed(ids, bins, k);
            lemma_records_differ(ids, bins, k, i);
            if i + 2 < n {
                lemma_records_differ(ids, bins, k, i + 1);
            }
        } else if k > i {
            lemma_record_listed(ids, bins, k + 1);
            lemma_records_differ(ids, bins, k + 1, i);
            lemma_records_differ(ids, bins, k + 1, i + 1);
        }
    }
    assert forall|record: BinDistance| expected.contains(record) implies after.contains(
        record,
    ) by {
        if i + 2 < n && record == bridge {
            assert(record == record_at(ids2, bins2, i));
        } else {
            assert(records(ids, bins).contains(record));
            let k = choose|k: int| 0 <= k < bins.len() - 1 && record == record_at(ids, bins, k);
            assert(k != i);
            if k < i {
                assert(record == record_at(ids2, bins2, k));
            } else {
                assert(k != i + 1);
                assert(record == record_at(ids2, bins2, k - 1));
            }
        }
    }
    assert(after =~= expected);
}

/// Bins with the same edges have the same records.
pub proof fn lemma_records_same_edges(ids: Seq<usize>, bins: Seq<Bin>, other: Seq<Bin>)
    requires
        bins.len() == other.len(),
        forall|i: int|
            0 <= i < bins.len() ==> (#[trigger] bins[i]).left == other[i].left && bins[i].right
                == other[i].right,
    ensures
        records(ids, bins) == records(ids, other),
{
    assert forall|k: int| 0 <= k < bins.len() - 1 implies record_at(ids, bins, k) == record_at(
        ids,
        other,
        k,
    ) by {
        assert(bins[k].left == other[k].left);
        assert(bins[k + 1].left == other[k + 1].left);
    }
    assert forall|record: BinDistance| records(ids, bins).contains(record) implies records(
        ids,
        other,
    ).contains(record) by {
        let k = choose|k: int| 0 <= k < bins.len() - 1 && record == record_at(ids, bins, k);
        assert(record == record_at(ids, other, k));
    }
    assert forall|record: BinDistance| records(ids, other).contains(record) implies records(
        ids,
        bins,
    ).contains(record) by {
        let k = choose|k: int| 0 <= k < other.len() - 1 && record == record_at(ids, other, k);
        assert(record == record_at(ids, bins, k));
    }
    assert(records(ids, bins) =~= records(ids, other));
}

/// In separated bins the smallest record is that of the smallest gap, the
/// leftmost of equal ones, and its `start` leads to its position.
pub proof fn lemma_smallest_record(ids: Seq<usize>, bins: Seq<Bin>, smallest: BinDistance)
    requires
        ids.len() == bins.len(),
        separated(bins),
        records(ids, bins).contains(smallest),
        forall|other: BinDistance| #[trigger]
            records(ids, bins).contains(other) ==> smallest.at_most(other),
    ensures
        0 <= rank(bins, smallest.start as int) - 1 < bins.len() - 1,
        smallest == record_at(ids, bins, rank(bins, smallest.start as int) - 1),
        is_first_min_gap(bins, rank(bins, smallest.start as int) - 1),
{
    let i = choose|i: int| 0 <= i < bins.len() - 1 && smallest == record_at(ids, bins, i);
    assert forall|k: int| 0 <= k < i + 1 implies (#[trigger] bins[k]).left
        <= smallest.start by {
        if k < i {
            assert(bins[k].left < bins[i].left);
        }
    }
    assert forall|k: int| i + 1 <= k < bins.len() implies (#[trigger] bins[k]).left
        > smallest.start by {
        assert(bins[i].left < bins[k].left);
    }
    lemma_rank_unique(bins, smallest.start as int, i + 1);
    assert forall|j: int| 0 <= j < bins.len() - 1 implies gap(bins, i) <= #[trigger] gap(
        bins,
        j,
    ) by {
        lemma_record_listed(ids, bins, j);
        assert(smallest.at_most(record_at(ids, bins, j)));
    }
    assert forall|j: int| 0 <= j < i implies gap(bins, i) < #[trigger] gap(bins, j) by {
        lemma_record_listed(ids, bins, j);
        assert(smallest.at_most(record_at(ids, bins, j)));
        assert(bins[j].left < bins[i].left);
    }
}

} // verus!
