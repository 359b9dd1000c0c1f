use vstd::prelude::*;

verus! {

/// Base trait for histogram types, independent of how they store their bins.
///
/// `T` is the type of the observed values and `C` the type of their weights.
pub trait DynamicHistogram<T, C>: Sized {
    /// Type of a bin in this histogram.
    type Bin;

    /// The invariant that every operation expects and restores.
    spec fn well_formed(&self) -> bool;

    /// The largest number of bins that the histogram may hold.
    spec fn budget(&self) -> nat;

    /// The number of bins that the histogram holds.
    spec fn bin_count(&self) -> nat;

    /// The total weight that the histogram holds.
    spec fn total(&self) -> nat;

    /// The weight that a count stands for.
    spec fn weight(count: C) -> nat;

    /// The total weight of a run of data points.
    spec fn weights(values: Seq<(T, C)>) -> nat;

    /// The largest total weight that a histogram can hold.
    spec fn weight_limit() -> nat;

    /// A well-formed histogram holds no more bins than its budget allows.
    proof fn lemma_within_budget(&self)
        requires
            self.well_formed(),
        ensures
            self.bin_count() <= self.budget(),
    ;

    /// Instantiate a histogram with the given number of maximum bins.
    fn new(n_bins: usize) -> (histogram: Self)
        ensures
            histogram.well_formed(),
            histogram.budget() == n_bins,
            histogram.bin_count() == 0,
            histogram.total() == 0,
    ;

    /// Insert a new data point into this histogram. A histogram with a budget
    /// of zero bins retains nothing.
    fn insert(&mut self, value: T, count: C)
        requires
            old(self).well_formed(),
            old(self).total() + Self::weight(count) <= Self::weight_limit(),
        ensures
            final(self).well_formed(),
            final(self).budget() == old(self).budget(),
            final(self).bin_count() <= final(self).budget(),
            old(self).budget() > 0 ==> final(self).total() == old(self).total() + Self::weight(
                count,
            ),
            old(self).budget() == 0 ==> final(self).total() == old(self).total(),
    ;

    /// Insert a run of data points, in order.
    fn insert_iter(&mut self, values: &[(T, C)]) where T: Copy, C: Copy
        requires
            old(self).well_formed(),
            old(self).total() + Self::weights(values@) <= Self::weight_limit(),
        ensures
            final(self).well_formed(),
            final(self).budget() == old(self).budget(),
            final(self).bin_count() <= final(self).budget(),
            old(self).budget() > 0 ==> final(self).total() == old(self).total() + Self::weights(
                values@,
            ),
            old(self).budget() == 0 ==> final(self).total() == old(self).total(),
    ;

    /// Count the total number of data points in this histogram (over all bins).
    fn count(&self) -> (count: C)
        requires
            self.well_formed(),
        ensures
            Self::weight(count) == self.total(),
    ;
}

} // verus!
