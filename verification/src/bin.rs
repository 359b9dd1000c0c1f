use crate::traits::HistogramBin;
use vstd::prelude::*;

verus! {

/// One interval of a histogram together with what it has absorbed.
///
/// `left` and `right` bound the interval, `count` is the total weight of the
/// observations in it and `sum` is the sum of `value * weight` over them.
#[derive(Clone, Copy, Debug, PartialEq, Eq, Structural)]
pub struct Bin {
    pub left: i32,
    pub right: i32,
    pub count: u64,
    pub sum: i128,
}

impl Bin {
    /// The interval is not reversed, and the sum is one that `count` units of
    /// weight on `i32` values can produce.
    pub open spec fn well_formed(self) -> bool {
        &&& self.left <= self.right
        &&& i32::MIN * self.count <= self.sum <= i32::MAX * self.count
    }

    /// Whether an observation of `value` belongs to this bin: the interval is
    /// closed on the left and open on the right, except that a bin of a single
    /// point holds that point.
    pub open spec fn holds(self, value: int) -> bool {
        self.left <= value && (value < self.right || (self.left == self.right && value
            == self.left))
    }

    /// The bin that one observation of `value` with weight `count` opens.
    pub open spec fn singleton_spec(value: i32, count: u64) -> Bin {
        Bin { left: value, right: value, count, sum: (value * count) as i128 }
    }

    /// This bin after one more observation of `value` with weight `count`.
    pub open spec fn observed(self, value: i32, count: u64) -> Bin {
        Bin {
            left: self.left,
            right: self.right,
            count: (self.count + count) as u64,
            sum: (self.sum + value * count) as i128,
        }
    }

    /// This bin after it has swallowed `next`, its neighbour to the right.
    pub open spec fn absorbed(self, next: Bin) -> Bin {
        Bin {
            left: self.left,
            right: next.right,
            count: (self.count + next.count) as u64,
            sum: (self.sum + next.sum) as i128,
        }
    }

    /// The distance from the right edge of this bin to the left edge of `next`.
    pub open spec fn gap_to(self, next: Bin) -> int {
        next.left - self.right
    }

    /// A weighted value stays between the two extremes that the weight allows.
    pub proof fn lemma_weighted_value_bounds(value: i32, count: u64)
        ensures
            i32::MIN * count <= value * count <= i32::MAX * count,
    {
        assert(i32::MIN * count <= value * count <= i32::MAX * count) by (nonlinear_arith)
            requires
                i32::MIN <= value <= i32::MAX,
                0 <= count,
        ;
    }

    /// Opens a bin for a single observation.
    pub fn singleton(value: i32, count: u64) -> (bin: Bin)
        ensures
            bin == Bin::singleton_spec(value, count),
            bin.well_formed(),
    {
        proof {
            Bin::lemma_weighted_value_bounds(value, count);
        }
        Bin { left: value, right: value, count, sum: (value as i128) * (count as i128) }
    }

    /// Tells whether an observation of `value` belongs to this bin.
    pub fn contains(&self, value: i32) -> (found: bool)
        ensures
            found == self.holds(value as int),
    {
        self.left <= value && (value < self.right || (self.left == self.right && value
            == self.left))
    }

    /// Adds one observation to this bin.
    pub fn observe(&mut self, value: i32, count: u64)
        requires
            old(self).well_formed(),
            old(self).count + count <= u64::MAX,
        ensures
            *final(self) == old(self).observed(value, count),
            final(self).well_formed(),
    {
        proof {
            Bin::lemma_weighted_value_bounds(value, count);
        }
        self.count = self.count + count;
        self.sum = self.sum + (value as i128) * (count as i128);
    }

    /// Merges `next` into this bin and returns the merged bin.
    pub fn absorb(self, next: Bin) -> (merged: Bin)
        requires
            self.well_formed(),
            next.well_formed(),
            self.left <= next.left,
            self.count + next.count <= u64::MAX,
        ensures
            merged == self.absorbed(next),
            merged.well_formed(),
    {
        Bin {
            left: self.left,
            right: next.right,
            count: self.count + next.count,
            sum: self.sum + next.sum,
        }
    }

    /// Computes the distance from this bin's right edge to the left edge of
    /// `next`.
    pub fn distance_to(&self, next: &Bin) -> (distance: i64)
        ensures
            distance == self.gap_to(*next),
    {
        (next.left as i64) - (self.right as i64)
    }
}

impl HistogramBin<i128, u64> for Bin {
    /// The middle of the interval, rounded down.
    open spec fn center_spec(&self) -> i128 {
        (self.left + (self.right - self.left) / 2) as i128
    }

    open spec fn count_spec(&self) -> u64 {
        self.count
    }

    open spec fn sum_spec(&self) -> i128 {
        self.sum
    }

    /// The interval is not reversed.
    open spec fn readable(&self) -> bool {
        self.left <= self.right
    }

    fn center(&self) -> (center: i128) {
        let width: i128 = (self.right as i128) - (self.left as i128);
        (self.left as i128) + width / 2
    }

    fn count(&self) -> (count: u64) {
        self.count
    }

    fn sum(&self) -> (sum: i128) {
        self.sum
    }
}

} // verus!
