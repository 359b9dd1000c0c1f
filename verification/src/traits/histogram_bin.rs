use vstd::prelude::*;

verus! {

/// A bin in a dynamic histogram with the value type `V` and count type `C`.
pub trait HistogramBin<V, C> {
    /// The central value of the bin, as a specification.
    spec fn center_spec(&self) -> V;

    /// The number of items in the bin, as a specification.
    spec fn count_spec(&self) -> C;

    /// The sum of all items in the bin, as a specification.
    spec fn sum_spec(&self) -> V;

    /// Whether the bin is one that the accessors can be asked about.
    spec fn readable(&self) -> bool;

    /// Central value of the bin.
    fn center(&self) -> (center: V)
        requires
            self.readable(),
        ensures
            center == self.center_spec(),
    ;

    /// Number of items in the bin.
    fn count(&self) -> (count: C)
        requires
            self.readable(),
        ensures
            count == self.count_spec(),
    ;

    /// Sum of all items in the bin.
    fn sum(&self) -> (sum: V)
        requires
            self.readable(),
        ensures
            sum == self.sum_spec(),
    ;
}

} // verus!
