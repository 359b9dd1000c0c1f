//! A histogram that keeps its bins in a vector and looks over all the gaps
//! each time two bins have to be merged.

pub use crate::bin::Bin;
use crate::bin_sequence::{
    gap, inserted, inserted_all, is_first_min_gap, lemma_first_min_gap_unique, lemma_inserted,
    lemma_merge_at, lemma_pair_within_total, lemma_placed, lemma_rank_unique,
    lemma_total_count_nonnegative, lemma_total_count_split, lemma_total_weight_prefix, rank,
    separated, shrink, slot, sorted_by_left, total_count, total_weight, valid,
};
use crate::merging::{
    lemma_merged, lemma_stable_order_unique, lemma_stable_sorted, merged, stable_sorted,
};
use crate::median::{count_bins, median_bins, median_of};
use crate::order::{position_of_smallest, sort_by_left};
use crate::traits::operations::folds_to;
use crate::traits::{DynamicHistogram, EmptyClone, Median, Merge, MergeIter, MergeRef};
use vstd::prelude::*;

verus! {

/// A histogram whose bins stand in ascending order in one vector.
#[derive(Debug, PartialEq)]
pub struct SimpleVecHistogram {
    bins: Vec<Bin>,
    bins_cap: usize,
}

impl View for SimpleVecHistogram {
    type V = Seq<Bin>;

    /// The bins in ascending order.
    closed spec fn view(&self) -> Seq<Bin> {
        self.bins@
    }
}

impl Clone for SimpleVecHistogram {
    /// The copy holds the same bins under the same budget.
    fn clone(&self) -> (copy: SimpleVecHistogram)
        ensures
            copy@ == self@,
            copy.capacity() == self.capacity(),
    {
        let copy = SimpleVecHistogram { bins: self.bins.clone(), bins_cap: self.bins_cap };
        assert(copy.bins@ =~= self.bins@);
        copy
    }
}

impl SimpleVecHistogram {
    /// The largest number of bins that the histogram may hold.
    pub closed spec fn capacity(&self) -> nat {
        self.bins_cap as nat
    }

    /// Finds the bin that takes an observation of `value`: `Ok` with its
    /// position, or `Err` with the position at which a new bin for `value` has
    /// to be inserted.
    pub fn search_bins(&self, value: i32) -> (found: Result<usize, usize>)
        requires
            sorted_by_left(self@),
        ensures
            match found {
                Ok(i) => i < self@.len() && slot(self@, value as int) == Some(i as int),
                Err(p) => p <= self@.len() && slot(self@, value as int) is None && p == rank(
                    self@,
                    value as int,
                ),
            },
    {
        let mut low: usize = 0;
        let mut high: usize = self.bins.len();
        while low < high
            invariant
                0 <= low <= high <= self.bins@.len(),
                sorted_by_left(self.bins@),
                forall|i: int| 0 <= i < low ==> (#[trigger] self.bins@[i]).left <= value,
                forall|i: int|
                    high <= i < self.bins@.len() ==> (#[trigger] self.bins@[i]).left > value,
            decreases high - low,
        {
            let middle: usize = low + (high - low) / 2;
            if self.bins[middle].left <= value {
                assert forall|i: int| 0 <= i < middle + 1 implies (#[trigger] self.bins@[i]).left
                    <= value by {
                    if i < middle {
                        assert(self.bins@[i].left <= self.bins@[middle as int].left);
                    }
                }
                low = middle + 1;
            } else {
                assert forall|i: int| middle <= i < self.bins@.len() implies (
                #[trigger] self.bins@[i]).left > value by {
                    if i > middle {
                        assert(self.bins@[middle as int].left <= self.bins@[i].left);
                    }
                }
                high = middle;
            }
        }
        proof {
            lemma_rank_unique(self.bins@, value as int, low as int);
        }
        if low > 0 && self.bins[low - 1].contains(value) {
            Ok(low - 1)
        } else {
            Err(low)
        }
    }

    /// The gaps between neighbouring bins, from left to right.
    fn gaps(&self) -> (gaps: Vec<i64>)
        ensures
            gaps@.len() == if self.bins@.len() == 0 {
                0
            } else {
                self.bins@.len() - 1
            },
            forall|i: int| 0 <= i < gaps@.len() ==> #[trigger] gaps@[i] == gap(self.bins@, i),
    {
        let mut gaps: Vec<i64> = Vec::new();
        let mut i: usize = 1;
        while i < self.bins.len()
            invariant
                1 <= i,
                self.bins@.len() > 0 ==> i <= self.bins@.len(),
                self.bins@.len() == 0 ==> i == 1,
                gaps@.len() == i - 1,
                forall|k: int| 0 <= k < gaps@.len() ==> #[trigger] gaps@[k] == gap(self.bins@, k),
            decreases self.bins@.len() - i,
        {
            let distance: i64 = self.bins[i - 1].distance_to(&self.bins[i]);
            gaps.push(distance);
            i = i + 1;
        }
        gaps
    }

    /// Enforces the budget: merges the two closest neighbours, one pair at a
    /// time, until no more bins are held than the capacity allows.
    fn shrink_to_fit(&mut self)
        requires
            valid(old(self).bins@),
        ensures
            final(self).bins@ == shrink(old(self).bins@, old(self).bins_cap as nat),
            final(self).bins_cap == old(self).bins_cap,
    {
        if self.bins_cap == 0 {
            self.bins.clear();
            return ;
        }
        while self.bins.len() > self.bins_cap
            invariant
                valid(self.bins@),
                self.bins_cap == old(self).bins_cap,
                self.bins_cap > 0,
                shrink(self.bins@, self.bins_cap as nat) == shrink(
                    old(self).bins@,
                    old(self).bins_cap as nat,
                ),
            decreases self.bins@.len(),
        {
            let gaps = self.gaps();
            let smallest = position_of_smallest(&gaps);
            match smallest {
                Some(i) => {
                    proof {
                        assert(is_first_min_gap(self.bins@, i as int)) by {
                            assert forall|j: int| 0 <= j < self.bins@.len() - 1 implies gap(
                                self.bins@,
                                i as int,
                            ) <= #[trigger] gap(self.bins@, j) by {
                                assert(gaps@[i as int] <= gaps@[j]);
                            }
                            assert forall|j: int| 0 <= j < i implies gap(self.bins@, i as int)
                                < #[trigger] gap(self.bins@, j) by {
                                assert(gaps@[i as int] < gaps@[j]);
                            }
                        }
                        lemma_first_min_gap_unique(self.bins@, i as int);
                        lemma_merge_at(self.bins@, i as int);
                        lemma_pair_within_total(self.bins@, i as int);
                    }
                    let merged = self.bins[i].absorb(self.bins[i + 1]);
                    self.bins.set(i, merged);
                    self.bins.remove(i + 1);
                },
                // more than one bin is held, so there is a gap
                None => {},
            }
        }
    }

    /// The bins in ascending order.
    pub fn bins(&self) -> (bins: &[Bin])
        ensures
            bins@ == self@,
    {
        self.bins.as_slice()
    }
}

impl DynamicHistogram<i32, u64> for SimpleVecHistogram {
    type Bin = Bin;

    /// The bins are valid and no more than the capacity allows.
    open spec fn well_formed(&self) -> bool {
        valid(self@) && self@.len() <= self.capacity()
    }

    open spec fn budget(&self) -> nat {
        self.capacity()
    }

    open spec fn bin_count(&self) -> nat {
        self@.len()
    }

    open spec fn total(&self) -> nat {
        total_count(self@) as nat
    }

    open spec fn weight(count: u64) -> nat {
        count as nat
    }

    open spec fn weights(values: Seq<(i32, u64)>) -> nat {
        total_weight(values) as nat
    }

    open spec fn weight_limit() -> nat {
        u64::MAX as nat
    }

    proof fn lemma_within_budget(&self) {
    }

    fn new(n_bins: usize) -> (histogram: Self)
        ensures
            histogram@ == Seq::<Bin>::empty(),
            separated(histogram@),
    {
        SimpleVecHistogram { bins: Vec::new(), bins_cap: n_bins }
    }

    fn insert(&mut self, value: i32, count: u64)
        ensures
            final(self)@ == inserted(old(self)@, old(self).capacity(), value, count),
            separated(old(self)@) ==> separated(final(self)@),
    {
        proof {
            lemma_total_count_nonnegative(self.bins@);
            lemma_placed(self.bins@, value, count);
            lemma_inserted(self.bins@, self.bins_cap as nat, value, count);
            lemma_total_count_nonnegative(inserted(self.bins@, self.bins_cap as nat, value, count));
        }
        let search_result = self.search_bins(value);
        match search_result {
            Ok(found) => {
                proof {
                    lemma_total_count_split(self.bins@, found as int);
                }
                let mut bin = self.bins[found];
                bin.observe(value, count);
                self.bins.set(found, bin);
            },
            Err(insert_at) => {
                self.bins.insert(insert_at, Bin::singleton(value, count));
            },
        }
        self.shrink_to_fit();
    }

    fn insert_iter(&mut self, values: &[(i32, u64)])
        ensures
            final(self)@ == inserted_all(old(self)@, old(self).capacity(), values@),
            separated(old(self)@) ==> separated(final(self)@),
    {
        let mut i: usize = 0;
        proof {
            lemma_total_count_nonnegative(self.bins@);
            lemma_total_weight_prefix(values@, 0);
            assert(values@.take(0) =~= Seq::<(i32, u64)>::empty());
        }
        while i < values.len()
            invariant
                0 <= i <= values@.len(),
                self.well_formed(),
                self.bins_cap == old(self).bins_cap,
                self.bins@ == inserted_all(
                    old(self).bins@,
                    self.bins_cap as nat,
                    values@.take(i as int),
                ),
                total_count(self.bins@) == if self.bins_cap > 0 {
                    total_count(old(self).bins@) + total_weight(values@.take(i as int))
                } else {
                    total_count(old(self).bins@)
                },
                total_count(old(self).bins@) + total_weight(values@) <= u64::MAX,
                separated(old(self).bins@) ==> separated(self.bins@),
            decreases values@.len() - i,
        {
            proof {
                lemma_total_weight_prefix(values@, i as int);
                lemma_total_weight_prefix(values@, i + 1);
                lemma_total_count_nonnegative(self.bins@);
                assert(values@.take(i + 1).drop_last() =~= values@.take(i as int));
                lemma_inserted(
                    self.bins@,
                    self.bins_cap as nat,
                    values@[i as int].0,
                    values@[i as int].1,
                );
            }
            let (value, count) = values[i];
            self.insert(value, count);
            i = i + 1;
        }
        proof {
            assert(values@.take(values@.len() as int) =~= values@);
            lemma_total_count_nonnegative(self.bins@);
            lemma_total_weight_prefix(values@, values@.len() as int);
        }
    }

    fn count(&self) -> (count: u64)
        ensures
            count == total_count(self@),
    {
        proof {
            lemma_total_count_nonnegative(self.bins@);
        }
        count_bins(self.bins.as_slice())
    }
}

impl SimpleVecHistogram {
    /// Sorts the bins that a merge has laid end to end and enforces the
    /// budget.
    fn settle(&mut self, Ghost(first): Ghost<Seq<Bin>>, Ghost(second): Ghost<Seq<Bin>>)
        requires
            old(self).bins@ == first + second,
            valid(first),
            valid(second),
            total_count(first) + total_count(second) <= u64::MAX,
        ensures
            final(self).bins@ == merged(first, second, old(self).bins_cap as nat),
            final(self).bins_cap == old(self).bins_cap,
    {
        sort_by_left(&mut self.bins);
        proof {
            lemma_stable_sorted(first + second);
            lemma_stable_order_unique(self.bins@, stable_sorted(first + second));
            lemma_merged(first, second, self.bins_cap as nat);
        }
        self.shrink_to_fit();
    }
}

impl EmptyClone for SimpleVecHistogram {
    /// The clone has the capacity of its origin and no bins.
    open spec fn is_empty_clone_of(&self, origin: &Self) -> bool {
        self@ == Seq::<Bin>::empty() && self.capacity() == origin.capacity()
    }

    fn empty_clone(&self) -> (clone: Self)
        ensures
            clone.well_formed(),
    {
        SimpleVecHistogram::new(self.bins_cap)
    }
}

impl MergeRef for SimpleVecHistogram {
    /// Both hold valid bins and their weights together fit in a `u64`.
    open spec fn can_merge_ref(&self, other: &Self) -> bool {
        valid(self@) && valid(other@) && total_count(self@) + total_count(other@) <= u64::MAX
    }

    /// The capacity stays, and the bins are those of both under that budget.
    open spec fn is_merge_ref_of(&self, before: &Self, other: &Self) -> bool {
        self.capacity() == before.capacity() && self@ == merged(
            before@,
            other@,
            before.capacity(),
        )
    }

    fn merge_ref(&mut self, other: &Self)
        ensures
            final(self).well_formed(),
            old(self).capacity() > 0 ==> total_count(final(self)@) == total_count(old(self)@)
                + total_count(other@),
            separated(stable_sorted(old(self)@ + other@)) ==> separated(final(self)@),
    {
        let mut i: usize = 0;
        while i < other.bins.len()
            invariant
                0 <= i <= other.bins@.len(),
                self.bins_cap == old(self).bins_cap,
                self.bins@ == old(self).bins@ + other.bins@.take(i as int),
            decreases other.bins@.len() - i,
        {
            self.bins.push(other.bins[i]);
            i = i + 1;
            assert(self.bins@ =~= old(self).bins@ + other.bins@.take(i as int));
        }
        proof {
            assert(other.bins@.take(i as int) =~= other.bins@);
            lemma_merged(old(self).bins@, other.bins@, self.bins_cap as nat);
        }
        self.settle(Ghost(old(self).bins@), Ghost(other.bins@));
    }
}

impl Merge for SimpleVecHistogram {
    /// Both hold valid bins and their weights together fit in a `u64`.
    open spec fn can_merge(&self, other: &Self) -> bool {
        valid(self@) && valid(other@) && total_count(self@) + total_count(other@) <= u64::MAX
    }

    /// The capacity stays, and the bins are those of both under that budget.
    open spec fn is_merge_of(&self, before: &Self, other: &Self) -> bool {
        self.capacity() == before.capacity() && self@ == merged(
            before@,
            other@,
            before.capacity(),
        )
    }

    fn merge(&mut self, other: Self)
        ensures
            final(self).well_formed(),
            old(self).capacity() > 0 ==> total_count(final(self)@) == total_count(old(self)@)
                + total_count(other@),
            separated(stable_sorted(old(self)@ + other@)) ==> separated(final(self)@),
    {
        let mut other = other;
        let ghost second = other.bins@;
        self.bins.append(&mut other.bins);
        proof {
            lemma_merged(old(self).bins@, second, self.bins_cap as nat);
        }
        self.settle(Ghost(old(self).bins@), Ghost(second));
    }
}

/// The total weight of the first `n` histograms.
pub open spec fn total_of_first(items: Seq<SimpleVecHistogram>, n: nat) -> int
    recommends
        n <= items.len(),
    decreases n,
{
    if n == 0 {
        0
    } else {
        total_of_first(items, (n - 1) as nat) + total_count(items[n - 1]@)
    }
}

/// The weight of the first histograms is never negative and never more than
/// that of all of them.
pub proof fn lemma_total_of_first_grows(items: Seq<SimpleVecHistogram>, n: nat, m: nat)
    requires
        n <= m <= items.len(),
    ensures
        0 <= total_of_first(items, n) <= total_of_first(items, m),
    decreases m,
{
    if n < m {
        lemma_total_of_first_grows(items, n, (m - 1) as nat);
        lemma_total_count_nonnegative(items[m - 1]@);
    } else if n > 0 {
        lemma_total_of_first_grows(items, (n - 1) as nat, (n - 1) as nat);
        lemma_total_count_nonnegative(items[n - 1]@);
    }
}

/// Folding histograms with valid bins, whose weights all together fit in a
/// `u64`, gives valid bins within the budget of the first histogram at every
/// step, and with a budget above zero the fold holds the weight of all the
/// histograms folded so far.
pub proof fn lemma_fold_keeps_weight(
    items: Seq<SimpleVecHistogram>,
    n: nat,
    acc: SimpleVecHistogram,
)
    requires
        n <= items.len(),
        forall|k: int| 0 <= k < items.len() ==> valid(#[trigger] items[k]@),
        total_of_first(items, items.len()) <= u64::MAX,
        folds_to(items, n, acc),
    ensures
        acc.well_formed(),
        acc.capacity() == items[0].capacity(),
        acc.capacity() > 0 ==> total_count(acc@) == total_of_first(items, n),
        acc.capacity() == 0 ==> total_count(acc@) == 0,
    decreases n,
{
    if n > 0 {
        let before = choose|before: SimpleVecHistogram| #[trigger]
            acc.is_merge_ref_of(&before, &items[n - 1]) && folds_to(
                items,
                (n - 1) as nat,
                before,
            );
        lemma_fold_keeps_weight(items, (n - 1) as nat, before);
        lemma_total_of_first_grows(items, (n - 1) as nat, (n - 1) as nat);
        lemma_total_of_first_grows(items, n, items.len());
        lemma_total_count_nonnegative(items[n - 1]@);
        lemma_merged(before@, items[n - 1]@, before.capacity());
    }
}

/// Histograms with valid bins whose weights all together fit in a `u64` can
/// be folded into one.
pub proof fn lemma_can_merge_all(items: &[SimpleVecHistogram])
    requires
        forall|k: int| 0 <= k < items@.len() ==> valid(#[trigger] items@[k]@),
        total_of_first(items@, items@.len()) <= u64::MAX,
    ensures
        items.can_merge_all(),
{
    assert forall|n: nat, acc: SimpleVecHistogram|
        n < items@.len() && #[trigger] folds_to(items@, n, acc) implies acc.can_merge_ref(
        &items@[n as int],
    ) by {
        lemma_fold_keeps_weight(items@, n, acc);
        lemma_total_of_first_grows(items@, n, n);
        lemma_total_of_first_grows(items@, n + 1, items@.len());
    }
}

impl Median<i32> for SimpleVecHistogram {
    open spec fn can_estimate(&self) -> bool {
        valid(self@)
    }

    open spec fn median_spec(&self) -> Option<i32> {
        median_of(self@)
    }

    fn median(&self) -> (median: Option<i32>) {
        proof {
            lemma_total_count_nonnegative(self.bins@);
        }
        median_bins(self.bins.as_slice())
    }
}

} // verus!
