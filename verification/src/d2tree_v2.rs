//! A histogram that keeps its bins in an arena behind stable identifiers and
//! the gaps between neighbouring bins in an index ordered by distance, so that
//! the closest pair is found without looking over all gaps.

use crate::adjacency::{
    before_gap_at, describes_gap, gap_chosen, is_gap_at, lemma_record_listed,
    lemma_records_after_insert, lemma_records_after_merge, lemma_records_same_edges,
    lemma_smallest_record, record_at, records, records_after_insert, records_after_merge,
};
use crate::arena::{
    arena_bins, arena_clone, arena_get, arena_insert, arena_new, arena_remove, arena_set,
};
pub use crate::bin::Bin;
use crate::bin_distance::BinDistance;
use crate::bin_sequence::{
    first_min_gap, inserted, inserted_all, lemma_first_min_gap, lemma_first_min_gap_unique,
    lemma_inserted, lemma_merge_at, lemma_pair_within_total, lemma_placed, lemma_rank,
    lemma_rank_unique, lemma_separated_prefix, lemma_shrink, lemma_total_count_nonnegative,
    lemma_total_count_split, lemma_total_weight_prefix, merge_at, placed, rank, separated,
    shrink, slot, sorted_by_left, stand_apart, total_count, total_weight, valid,
};
use crate::distance_index::DistanceIndex;
use crate::median::{count_bins, median_bins, median_of};
use crate::merging::{
    lemma_merged, lemma_stable_order_unique, lemma_stable_sorted, merged, stable_sorted,
};
use crate::order::sort_by_left;
use crate::traits::{DynamicHistogram, EmptyClone, Median, Merge, MergeRef};
use id_vec::IdVec;
use vstd::prelude::*;

verus! {

/// The bins that the identifiers `ids` stand for in `store`, in the order of
/// `ids`.
pub open spec fn listed(store: Map<int, Bin>, ids: Seq<usize>) -> Seq<Bin> {
    Seq::new(ids.len(), |i: int| store[ids[i] as int])
}

/// Whether `id` is the index value of one of `ids`.
spec fn named(ids: Seq<usize>, id: int) -> bool {
    exists|i: int| 0 <= i < ids.len() && #[trigger] ids[i] == id
}

/// An identifier put into the order is named by it, and so is every
/// identifier that was named before.
proof fn lemma_named_after_insert(ids: Seq<usize>, p: int, id: usize, wanted: int)
    requires
        0 <= p <= ids.len(),
        named(ids, wanted) || wanted == id,
    ensures
        named(ids.insert(p, id), wanted),
{
    let longer = ids.insert(p, id);
    if wanted == id {
        assert(longer[p] == wanted);
    } else {
        let i = choose|i: int| 0 <= i < ids.len() && ids[i] == wanted;
        if i < p {
            assert(longer[i] == wanted);
        } else {
            assert(longer[i + 1] == wanted);
        }
    }
}

/// Every identifier but the one taken out of the order is still named by it.
proof fn lemma_named_after_remove(ids: Seq<usize>, p: int, wanted: int)
    requires
        0 <= p < ids.len(),
        named(ids, wanted),
        wanted != ids[p],
    ensures
        named(ids.remove(p), wanted),
{
    let shorter = ids.remove(p);
    let i = choose|i: int| 0 <= i < ids.len() && ids[i] == wanted;
    if i < p {
        assert(shorter[i] == wanted);
    } else {
        assert(shorter[i - 1] == wanted);
    }
}

/// After the bin at position `i` has taken the place of itself and its right
/// neighbour, the arena without the neighbour lists the merged sequence.
proof fn lemma_listed_after_merge(store: Map<int, Bin>, ids: Seq<usize>, i: int, merged: Bin)
    requires
        0 <= i < ids.len() - 1,
        forall|a: int, b: int| 0 <= a < b < ids.len() ==> ids[a] != ids[b],
    ensures
        listed(store.insert(ids[i] as int, merged).remove(ids[i + 1] as int), ids.remove(i + 1))
            == listed(store, ids).update(i, merged).remove(i + 1),
{
    let after = listed(
        store.insert(ids[i] as int, merged).remove(ids[i + 1] as int),
        ids.remove(i + 1),
    );
    let expected = listed(store, ids).update(i, merged).remove(i + 1);
    assert(after.len() == expected.len());
    assert forall|k: int| 0 <= k < after.len() implies after[k] == expected[k] by {
        if k < i {
            assert(ids[k] != ids[i] && ids[k] != ids[i + 1]);
        } else if k > i {
            assert(ids[k + 1] != ids[i] && ids[k + 1] != ids[i + 1]);
        } else {
            assert(ids[i] != ids[i + 1]);
        }
    }
    assert(after =~= expected);
}

/// Builds the record of the gap between two neighbouring bins.
fn gap_record(left_id: usize, left: &Bin, right_id: usize, right: &Bin) -> (record: BinDistance)
    ensures
        record == (BinDistance {
            distance: left.gap_to(*right) as i64,
            start: left.left,
            left: left_id,
            right: right_id,
        }),
{
    BinDistance {
        distance: left.distance_to(right),
        start: left.left,
        left: left_id,
        right: right_id,
    }
}

/// A histogram whose bins live in an arena, with the order of the bins and
/// the gaps between neighbours kept beside it.
#[derive(Debug)]
pub struct Histogram {
    bins: IdVec<Bin>,
    bins_ascending: Vec<usize>,
    distances: DistanceIndex,
    n_bins: usize,
}

impl View for Histogram {
    type V = Seq<Bin>;

    /// The bins in ascending order.
    closed spec fn view(&self) -> Seq<Bin> {
        listed(arena_bins(self.bins), self.bins_ascending@)
    }
}

impl Clone for Histogram {
    /// The copy holds the same bins under the same budget.
    fn clone(&self) -> (copy: Histogram)
        ensures
            copy@ == self@,
            copy.capacity() == self.capacity(),
            copy.linked() == self.linked(),
    {
        Histogram {
            bins: arena_clone(&self.bins),
            bins_ascending: self.bins_ascending.clone(),
            distances: self.distances.clone(),
            n_bins: self.n_bins,
        }
    }
}

impl Histogram {
    /// The largest number of bins that the histogram may hold.
    pub closed spec fn capacity(&self) -> nat {
        self.n_bins as nat
    }

    /// Every identifier in the order stands for a bin in the arena, no
    /// identifier occurs twice, and the arena holds no other bins.
    closed spec fn stored(&self) -> bool {
        &&& forall|i: int|
            0 <= i < self.bins_ascending@.len() ==> arena_bins(self.bins).contains_key(
                #[trigger] self.bins_ascending@[i] as int,
            )
        &&& forall|i: int, j: int|
            0 <= i < j < self.bins_ascending@.len() ==> self.bins_ascending@[i]
                != self.bins_ascending@[j]
        &&& forall|id: int| #[trigger]
            arena_bins(self.bins).contains_key(id) ==> named(self.bins_ascending@, id)
    }

    /// The three parts of the histogram agree: the order names the bins of
    /// the arena, each once and no others, and the index holds exactly one
    /// record for each pair of neighbours.
    pub closed spec fn linked(&self) -> bool {
        &&& self.stored()
        &&& self.distances@ == records(self.bins_ascending@, self@)
    }

    /// Reads the bin at a position of the order.
    fn bin_at(&self, position: usize) -> (bin: Bin)
        requires
            self.stored(),
            position < self.bins_ascending@.len(),
        ensures
            bin == self@[position as int],
    {
        *arena_get(&self.bins, self.bins_ascending[position])
    }

    /// Counts the bins that start at or below `value`.
    fn rank_of(&self, value: i32) -> (position: usize)
        requires
            self.stored(),
            sorted_by_left(self@),
        ensures
            position == rank(self@, value as int),
            position <= self@.len(),
    {
        let mut low: usize = 0;
        let mut high: usize = self.bins_ascending.len();
        while low < high
            invariant
                0 <= low <= high <= self@.len(),
                self@.len() == self.bins_ascending@.len(),
                self.stored(),
                sorted_by_left(self@),
                forall|i: int| 0 <= i < low ==> (#[trigger] self@[i]).left <= value,
                forall|i: int| high <= i < self@.len() ==> (#[trigger] self@[i]).left > value,
            decreases high - low,
        {
            let middle: usize = low + (high - low) / 2;
            let bin = self.bin_at(middle);
            if bin.left <= value {
                assert forall|i: int| 0 <= i < middle + 1 implies (#[trigger] self@[i]).left
                    <= value by {
                    if i < middle {
                        assert(self@[i].left <= self@[middle as int].left);
                    }
                }
                low = middle + 1;
            } else {
                assert forall|i: int| middle <= i < self@.len() implies (#[trigger] self@[i]).left
                    > value by {
                    if i > middle {
                        assert(self@[middle as int].left <= self@[i].left);
                    }
                }
                high = middle;
            }
        }
        proof {
            lemma_rank_unique(self@, value as int, low as int);
        }
        low
    }

    /// Finds the bin that takes an observation of `value`: `Ok` with its
    /// position, or `Err` with the position at which a new bin for `value` has
    /// to be inserted.
    pub fn search_bins(&self, value: i32) -> (found: Result<usize, usize>)
        requires
            self.linked(),
            sorted_by_left(self@),
        ensures
            match found {
                Ok(i) => i < self@.len() && slot(self@, value as int) == Some(i as int),
                Err(p) => p <= self@.len() && slot(self@, value as int) is None && p == rank(
                    self@,
                    value as int,
                ),
            },
    {
        let position = self.rank_of(value);
        if position > 0 {
            let bin = self.bin_at(position - 1);
            if bin.contains(value) {
                return Ok(position - 1);
            }
        }
        Err(position)
    }

    /// Adds an observation to the bin at `position`.
    fn update_bin(&mut self, position: usize, value: i32, count: u64)
        requires
            old(self).linked(),
            valid(old(self)@),
            position < old(self)@.len(),
            slot(old(self)@, value as int) == Some(position as int),
            total_count(old(self)@) + count <= u64::MAX,
        ensures
            final(self).linked(),
            final(self)@ == placed(old(self)@, value, count),
            final(self).n_bins == old(self).n_bins,
    {
        let ghost before = self@;
        proof {
            lemma_total_count_split(self@, position as int);
        }
        let id = self.bins_ascending[position];
        let mut bin = self.bin_at(position);
        bin.observe(value, count);
        arena_set(&mut self.bins, id, bin);
        proof {
            assert(self@ =~= before.update(position as int, bin));
            lemma_records_same_edges(self.bins_ascending@, before, self@);
        }
    }

    /// Opens a bin for an observation at `position` and brings the gap
    /// records up to date.
    fn open_bin(&mut self, position: usize, value: i32, count: u64)
        requires
            old(self).linked(),
            valid(old(self)@),
            separated(old(self)@),
            position == rank(old(self)@, value as int),
            slot(old(self)@, value as int) is None,
            total_count(old(self)@) + count <= u64::MAX,
        ensures
            final(self).linked(),
            final(self)@ == placed(old(self)@, value, count),
            final(self).n_bins == old(self).n_bins,
    {
        let ghost ids = self.bins_ascending@;
        let ghost before = self@;
        proof {
            lemma_rank(before, value as int);
            lemma_placed(before, value, count);
        }
        let length = self.bins_ascending.len();
        let fresh = Bin::singleton(value, count);
        if position > 0 && position < length {
            let left = self.bin_at(position - 1);
            let right = self.bin_at(position);
            let stale = gap_record(
                self.bins_ascending[position - 1],
                &left,
                self.bins_ascending[position],
                &right,
            );
            self.distances.remove_gap(stale);
        }
        let id = arena_insert(&mut self.bins, fresh);
        if position > 0 {
            let left_id = self.bins_ascending[position - 1];
            let left = *arena_get(&self.bins, left_id);
            self.distances.insert_gap(gap_record(left_id, &left, id, &fresh));
        }
        if position < length {
            let right_id = self.bins_ascending[position];
            let right = *arena_get(&self.bins, right_id);
            self.distances.insert_gap(gap_record(id, &fresh, right_id, &right));
        }
        self.bins_ascending.insert(position, id);
        proof {
            let after = before.insert(position as int, fresh);
            assert(self.bins_ascending@ == ids.insert(position as int, id));
            assert forall|wanted: int| #[trigger]
                arena_bins(self.bins).contains_key(wanted) implies named(
                self.bins_ascending@,
                wanted,
            ) by {
                if wanted != id {
                    assert(arena_bins(old(self).bins).contains_key(wanted));
                }
                lemma_named_after_insert(ids, position as int, id, wanted);
            }
            assert(self@ =~= after);
            lemma_records_after_insert(ids, before, position as int, id, fresh);
            assert(self.distances@ == records_after_insert(
                ids,
                before,
                position as int,
                id,
                fresh,
            ));
        }
    }

    /// Merges the bin at `position` with its right neighbour, once the record
    /// of that pair has been taken out of the index.
    fn merge_pair(&mut self, position: usize)
        requires
            old(self).stored(),
            valid(old(self)@),
            separated(old(self)@),
            position < old(self)@.len() - 1,
            old(self).distances@ == records(old(self).bins_ascending@, old(self)@).remove(
                record_at(old(self).bins_ascending@, old(self)@, position as int),
            ),
        ensures
            final(self).linked(),
            final(self)@ == merge_at(old(self)@, position as int),
            final(self).n_bins == old(self).n_bins,
    {
        let ghost ids = self.bins_ascending@;
        let ghost before = self@;
        let ghost store = arena_bins(self.bins);
        let length = self.bins_ascending.len();
        proof {
            assert(before.len() == length);
            lemma_pair_within_total(before, position as int);
        }
        let left_id = self.bins_ascending[position];
        let right_id = self.bins_ascending[position + 1];
        let left = self.bin_at(position);
        let right = self.bin_at(position + 1);
        if length - position > 2 {
            let next_id = self.bins_ascending[position + 2];
            let next = self.bin_at(position + 2);
            self.distances.remove_gap(gap_record(right_id, &right, next_id, &next));
            self.distances.insert_gap(
                BinDistance {
                    distance: right.distance_to(&next),
                    start: left.left,
                    left: left_id,
                    right: next_id,
                },
            );
        }
        let merged = left.absorb(right);
        arena_set(&mut self.bins, left_id, merged);
        arena_remove(&mut self.bins, right_id);
        self.bins_ascending.remove(position + 1);
        proof {
            assert(self.bins_ascending@ == ids.remove(position + 1));
            assert forall|id: int| #[trigger]
                arena_bins(self.bins).contains_key(id) implies named(self.bins_ascending@, id) by {
                assert(store.contains_key(id));
                lemma_named_after_remove(ids, position + 1, id);
            }
            lemma_listed_after_merge(store, ids, position as int, merged);
            lemma_records_after_merge(ids, before, position as int);
            assert(self.distances@ == records_after_merge(ids, before, position as int));
        }
    }

    /// Merges the two neighbouring bins with the smallest gap between them.
    fn merge_closest(&mut self)
        requires
            old(self).linked(),
            valid(old(self)@),
            separated(old(self)@),
            old(self)@.len() >= 2,
        ensures
            final(self).linked(),
            final(self)@ == merge_at(old(self)@, first_min_gap(old(self)@)),
            final(self).n_bins == old(self).n_bins,
    {
        let ghost ids = self.bins_ascending@;
        let ghost before = self@;
        proof {
            lemma_record_listed(ids, before, 0);
        }
        let popped = self.distances.pop_smallest();
        match popped {
            Some(smallest) => {
                proof {
                    lemma_smallest_record(ids, before, smallest);
                }
                let position = self.rank_of(smallest.start) - 1;
                proof {
                    lemma_first_min_gap_unique(before, position as int);
                }
                self.merge_pair(position);
            },
            // more than one bin is held, so there is a record
            None => {},
        }
    }

    /// Builds a histogram that holds the given bins, which stand in ascending
    /// order and apart from each other: stores each bin in a new arena and
    /// records each gap between neighbours once.
    fn from_sorted(bins: &Vec<Bin>, n_bins: usize) -> (histogram: Histogram)
        requires
            separated(bins@),
        ensures
            histogram.linked(),
            histogram@ == bins@,
            histogram.n_bins == n_bins,
    {
        let mut histogram = Histogram {
            bins: arena_new(),
            bins_ascending: Vec::new(),
            distances: DistanceIndex::new(),
            n_bins,
        };
        proof {
            assert(histogram@ =~= bins@.take(0));
            assert(records(histogram.bins_ascending@, histogram@) =~= Set::<BinDistance>::empty());
        }
        let mut i: usize = 0;
        while i < bins.len()
            invariant
                0 <= i <= bins@.len(),
                separated(bins@),
                histogram.linked(),
                histogram.bins_ascending@.len() == i,
                histogram@ == bins@.take(i as int),
                histogram.n_bins == n_bins,
            decreases bins@.len() - i,
        {
            let ghost ids = histogram.bins_ascending@;
            let ghost before = histogram@;
            let ghost store = arena_bins(histogram.bins);
            proof {
                assert(before.insert(i as int, bins@[i as int]) =~= bins@.take(i + 1));
                lemma_separated_prefix(bins@, i + 1);
            }
            let id = arena_insert(&mut histogram.bins, bins[i]);
            if i > 0 {
                let left_id = histogram.bins_ascending[i - 1];
                histogram.distances.insert_gap(gap_record(left_id, &bins[i - 1], id, &bins[i]));
            }
            histogram.bins_ascending.push(id);
            proof {
                assert(histogram.bins_ascending@ =~= ids.insert(i as int, id));
                assert forall|wanted: int| #[trigger]
                    arena_bins(histogram.bins).contains_key(wanted) implies named(
                    histogram.bins_ascending@,
                    wanted,
                ) by {
                    if wanted != id {
                        assert(store.contains_key(wanted));
                    }
                    lemma_named_after_insert(ids, i as int, id, wanted);
                }
                assert(histogram@ =~= bins@.take(i + 1));
                lemma_records_after_insert(ids, before, i as int, id, bins@[i as int]);
                assert(histogram.distances@ == records_after_insert(
                    ids,
                    before,
                    i as int,
                    id,
                    bins@[i as int],
                ));
            }
            i = i + 1;
        }
        proof {
            assert(bins@.take(i as int) =~= bins@);
        }
        histogram
    }

    /// Enforces the budget: merges the two closest neighbours, one pair at a
    /// time, until no more bins are held than the capacity allows.
    fn shrink_to_fit(&mut self)
        requires
            old(self).linked(),
            valid(old(self)@),
            separated(old(self)@),
            old(self).n_bins > 0,
        ensures
            final(self).linked(),
            final(self)@ == shrink(old(self)@, old(self).n_bins as nat),
            final(self).n_bins == old(self).n_bins,
    {
        while self.bins_ascending.len() > self.n_bins
            invariant
                self.linked(),
                valid(self@),
                separated(self@),
                self.n_bins == old(self).n_bins,
                self.n_bins > 0,
                self@.len() == self.bins_ascending@.len(),
                shrink(self@, self.n_bins as nat) == shrink(old(self)@, old(self).n_bins as nat),
            decreases self.bins_ascending@.len(),
        {
            proof {
                lemma_first_min_gap(self@);
                lemma_merge_at(self@, first_min_gap(self@));
            }
            self.merge_closest();
        }
    }

    /// The `n`-th bin in ascending order.
    pub fn bin(&self, n: usize) -> (bin: &Bin)
        requires
            self.linked(),
            n < self@.len(),
        ensures
            *bin == self@[n as int],
    {
        arena_get(&self.bins, self.bins_ascending[n])
    }

    /// The `k` pairs of neighbouring bins with the smallest gaps, closest
    /// first and of equal gaps the leftmost first, or all pairs where there
    /// are fewer. Each record gives the gap between the bins at some position
    /// and the next, and the left edge of the bin at that position.
    pub fn closest_pairs(&self, k: usize) -> (pairs: Vec<BinDistance>)
        requires
            self.linked(),
            separated(self@),
        ensures
            pairs@.len() <= k,
            forall|i: int| 0 <= i < pairs@.len() ==> describes_gap(self@, #[trigger] pairs@[i]),
            forall|i: int, j: int| 0 <= i < j < pairs@.len() ==> pairs@[i].precedes(pairs@[j]),
            forall|p: int|
                0 <= p < self@.len() - 1 ==> #[trigger] gap_chosen(self@, pairs@, p) || (
                pairs@.len() == k && forall|i: int|
                    0 <= i < pairs@.len() ==> before_gap_at(self@, #[trigger] pairs@[i], p)),
    {
        let pairs = self.distances.k_smallest(k);
        proof {
            let ids = self.bins_ascending@;
            assert forall|i: int| 0 <= i < pairs@.len() implies describes_gap(
                self@,
                #[trigger] pairs@[i],
            ) by {
                assert(records(ids, self@).contains(pairs@[i]));
                let p = choose|p: int|
                    0 <= p < self@.len() - 1 && pairs@[i] == record_at(ids, self@, p);
                assert(is_gap_at(self@, pairs@[i], p));
            }
            assert forall|p: int| 0 <= p < self@.len() - 1 implies #[trigger] gap_chosen(
                self@,
                pairs@,
                p,
            ) || (pairs@.len() == k && forall|i: int|
                0 <= i < pairs@.len() ==> before_gap_at(self@, #[trigger] pairs@[i], p)) by {
                let wanted = record_at(ids, self@, p);
                lemma_record_listed(ids, self@, p);
                if pairs@.contains(wanted) {
                    let j = choose|j: int| 0 <= j < pairs@.len() && pairs@[j] == wanted;
                    assert(is_gap_at(self@, pairs@[j], p));
                } else {
                    assert forall|i: int| 0 <= i < pairs@.len() implies before_gap_at(
                        self@,
                        #[trigger] pairs@[i],
                        p,
                    ) by {
                        assert(pairs@[i].precedes(wanted));
                        assert(records(ids, self@).contains(pairs@[i]));
                        let q = choose|q: int|
                            0 <= q < self@.len() - 1 && pairs@[i] == record_at(ids, self@, q);
                        if q < p {
                            assert(self@[q].left < self@[p].left);
                        } else if p < q {
                            assert(self@[p].left < self@[q].left);
                        }
                    }
                }
            }
        }
        pairs
    }

    /// The number of bins that the histogram holds.
    pub fn len(&self) -> (length: usize)
        ensures
            length == self@.len(),
    {
        self.bins_ascending.len()
    }

    /// Copies the bins out in ascending order.
    pub fn bins(&self) -> (bins: Vec<Bin>)
        requires
            self.linked(),
        ensures
            bins@ == self@,
    {
        let mut bins: Vec<Bin> = Vec::new();
        let mut i: usize = 0;
        while i < self.bins_ascending.len()
            invariant
                0 <= i <= self.bins_ascending@.len(),
                self.stored(),
                self@.len() == self.bins_ascending@.len(),
                bins@ == self@.take(i as int),
            decreases self.bins_ascending@.len() - i,
        {
            let bin = self.bin_at(i);
            bins.push(bin);
            i = i + 1;
            assert(bins@ =~= self@.take(i as int));
        }
        assert(self@.take(i as int) =~= self@);
        bins
    }
}

impl DynamicHistogram<i32, u64> for Histogram {
    type Bin = Bin;

    /// The bins are valid, separated and no more than the capacity allows,
    /// and the parts of the histogram agree.
    open spec fn well_formed(&self) -> bool {
        valid(self@) && separated(self@) && self@.len() <= self.capacity() && self.linked()
    }

    open spec fn budget(&self) -> nat {
        self.capacity()
    }

    open spec fn bin_count(&self) -> nat {
        self@.len()
    }

    open spec fn total(&self) -> nat {
        total_count(self@) as nat
    }

    open spec fn weight(count: u64) -> nat {
        count as nat
    }

    open spec fn weights(values: Seq<(i32, u64)>) -> nat {
        total_weight(values) as nat
    }

    open spec fn weight_limit() -> nat {
        u64::MAX as nat
    }

    proof fn lemma_within_budget(&self) {
    }

    fn new(n_bins: usize) -> (histogram: Self)
        ensures
            histogram@ == Seq::<Bin>::empty(),
    {
        let histogram = Histogram {
            bins: arena_new(),
            bins_ascending: Vec::new(),
            distances: DistanceIndex::new(),
            n_bins,
        };
        proof {
            assert(histogram@ =~= Seq::<Bin>::empty());
            assert(records(histogram.bins_ascending@, histogram@) =~= Set::<BinDistance>::empty());
        }
        histogram
    }

    fn insert(&mut self, value: i32, count: u64)
        ensures
            final(self)@ == inserted(old(self)@, old(self).capacity(), value, count),
    {
        proof {
            lemma_total_count_nonnegative(self@);
            lemma_placed(self@, value, count);
            lemma_inserted(self@, self.n_bins as nat, value, count);
            lemma_total_count_nonnegative(inserted(self@, self.n_bins as nat, value, count));
            lemma_shrink(placed(self@, value, count), self.n_bins as nat);
        }
        if self.n_bins == 0 {
            assert(self@ =~= Seq::<Bin>::empty());
            return ;
        }
        let search_result = self.search_bins(value);
        match search_result {
            Ok(found) => {
                self.update_bin(found, value, count);
            },
            Err(insert_at) => {
                self.open_bin(insert_at, value, count);
                self.shrink_to_fit();
            },
        }
    }

    fn insert_iter(&mut self, values: &[(i32, u64)])
        ensures
            final(self)@ == inserted_all(old(self)@, old(self).capacity(), values@),
    {
        let mut i: usize = 0;
        proof {
            lemma_total_count_nonnegative(self@);
            lemma_total_weight_prefix(values@, 0);
            assert(values@.take(0) =~= Seq::<(i32, u64)>::empty());
        }
        while i < values.len()
            invariant
                0 <= i <= values@.len(),
                self.well_formed(),
                self.n_bins == old(self).n_bins,
                self@ == inserted_all(old(self)@, self.n_bins as nat, values@.take(i as int)),
                total_count(self@) == if self.n_bins > 0 {
                    total_count(old(self)@) + total_weight(values@.take(i as int))
                } else {
                    total_count(old(self)@)
                },
                total_count(old(self)@) + total_weight(values@) <= u64::MAX,
            decreases values@.len() - i,
        {
            proof {
                lemma_total_weight_prefix(values@, i as int);
                lemma_total_weight_prefix(values@, i + 1);
                lemma_total_count_nonnegative(self@);
                assert(values@.take(i + 1).drop_last() =~= values@.take(i as int));
                lemma_inserted(self@, self.n_bins as nat, values@[i as int].0, values@[i as int].1);
            }
            let (value, count) = values[i];
            self.insert(value, count);
            i = i + 1;
        }
        proof {
            assert(values@.take(values@.len() as int) =~= values@);
            lemma_total_count_nonnegative(self@);
            lemma_total_weight_prefix(values@, values@.len() as int);
        }
    }

    fn count(&self) -> (count: u64)
        ensures
            count == total_count(self@),
    {
        proof {
            lemma_total_count_nonnegative(self@);
        }
        let bins = self.bins();
        count_bins(bins.as_slice())
    }
}

impl EmptyClone for Histogram {
    /// The clone has the capacity of its origin and no bins.
    open spec fn is_empty_clone_of(&self, origin: &Self) -> bool {
        self@ == Seq::<Bin>::empty() && self.capacity() == origin.capacity()
    }

    fn empty_clone(&self) -> (clone: Self)
        ensures
            clone.well_formed(),
    {
        Histogram::new(self.n_bins)
    }
}

impl Histogram {
    /// Merges `other` into this histogram where that can be done, and tells
    /// whether it was: the weights of both together have to fit in a `u64`, and
    /// the bins of both, brought together in ascending order, have to stand
    /// apart from each other. Otherwise the histogram stays as it is.
    pub fn try_merge_ref(&mut self, other: &Self) -> (merged_in: bool)
        requires
            old(self).well_formed(),
            other.well_formed(),
        ensures
            merged_in == (total_count(old(self)@) + total_count(other@) <= u64::MAX && separated(
                stable_sorted(old(self)@ + other@),
            )),
            merged_in ==> final(self).is_merge_ref_of(old(self), other),
            merged_in && old(self).capacity() > 0 ==> total_count(final(self)@) == total_count(
                old(self)@,
            ) + total_count(other@),
            !merged_in ==> final(self)@ == old(self)@ && final(self).capacity() == old(
                self,
            ).capacity(),
            final(self).well_formed(),
    {
        let held = self.count();
        let added = other.count();
        if added > u64::MAX - held {
            return false;
        }
        let mut all = self.bins();
        let mut others = other.bins();
        all.append(&mut others);
        sort_by_left(&mut all);
        proof {
            lemma_stable_sorted(old(self)@ + other@);
            lemma_stable_order_unique(all@, stable_sorted(old(self)@ + other@));
            lemma_merged(old(self)@, other@, self.n_bins as nat);
            lemma_shrink(all@, self.n_bins as nat);
        }
        if !stand_apart(&all) {
            return false;
        }
        if self.n_bins == 0 {
            *self = Histogram::new(0);
        } else {
            *self = Histogram::from_sorted(&all, self.n_bins);
            self.shrink_to_fit();
        }
        true
    }
}

impl MergeRef for Histogram {
    /// Both are well formed, their weights together fit in a `u64`, and their
    /// bins brought together in ascending order stand apart from each other:
    /// the index tells neighbours apart by their left edges.
    open spec fn can_merge_ref(&self, other: &Self) -> bool {
        &&& valid(self@)
        &&& self.linked()
        &&& valid(other@)
        &&& other.linked()
        &&& total_count(self@) + total_count(other@) <= u64::MAX
        &&& separated(stable_sorted(self@ + other@))
    }

    /// The capacity stays, and the bins are those of both under that budget.
    open spec fn is_merge_ref_of(&self, before: &Self, other: &Self) -> bool {
        self.capacity() == before.capacity() && self@ == merged(
            before@,
            other@,
            before.capacity(),
        )
    }

    fn merge_ref(&mut self, other: &Self)
        ensures
            final(self).well_formed(),
            old(self).capacity() > 0 ==> total_count(final(self)@) == total_count(old(self)@)
                + total_count(other@),
    {
        let mut all = self.bins();
        let mut others = other.bins();
        all.append(&mut others);
        sort_by_left(&mut all);
        proof {
            lemma_stable_sorted(old(self)@ + other@);
            lemma_stable_order_unique(all@, stable_sorted(old(self)@ + other@));
            lemma_merged(old(self)@, other@, self.n_bins as nat);
            lemma_shrink(all@, self.n_bins as nat);
        }
        if self.n_bins == 0 {
            *self = Histogram::new(0);
        } else {
            *self = Histogram::from_sorted(&all, self.n_bins);
            self.shrink_to_fit();
        }
    }
}

impl Merge for Histogram {
    /// Both are well formed, their weights together fit in a `u64`, and their
    /// bins brought together in ascending order stand apart from each other.
    open spec fn can_merge(&self, other: &Self) -> bool {
        self.can_merge_ref(other)
    }

    /// The capacity stays, and the bins are those of both under that budget.
    open spec fn is_merge_of(&self, before: &Self, other: &Self) -> bool {
        self.is_merge_ref_of(before, other)
    }

    fn merge(&mut self, other: Self)
        ensures
            final(self).well_formed(),
            old(self).capacity() > 0 ==> total_count(final(self)@) == total_count(old(self)@)
                + total_count(other@),
    {
        self.merge_ref(&other);
    }
}

impl Median<i32> for Histogram {
    open spec fn can_estimate(&self) -> bool {
        valid(self@) && self.linked()
    }

    open spec fn median_spec(&self) -> Option<i32> {
        median_of(self@)
    }

    fn median(&self) -> (median: Option<i32>) {
        proof {
            lemma_total_count_nonnegative(self@);
        }
        let bins = self.bins();
        median_bins(bins.as_slice())
    }
}

} // verus!
