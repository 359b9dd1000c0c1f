//! The median estimate that a sequence of bins gives.

use crate::bin::Bin;
use crate::bin_sequence::{lemma_total_count_prefix, total_count};
use vstd::prelude::*;

verus! {

/// The first position at or after `from` at which twice the weight of the
/// bins up to that position, the bin there counted in, reaches the total
/// weight.
pub open spec fn crossing(bins: Seq<Bin>, from: int) -> int
    decreases bins.len() - from,
{
    if from >= bins.len() - 1 {
        from
    } else if 2 * total_count(bins.take(from + 1)) >= total_count(bins) {
        from
    } else {
        crossing(bins, from + 1)
    }
}

/// The position of the bin in which the running weight first reaches half of
/// the total weight.
pub open spec fn median_position(bins: Seq<Bin>) -> int {
    crossing(bins, 0)
}

/// The median estimate. There is none where the total weight is zero.
/// Otherwise the bin at `median_position` is taken to spread its weight evenly
/// over its interval, and the estimate is the point of that interval at which
/// half of the total weight is reached, rounded down. For a bin of a single
/// point that is the point itself.
pub open spec fn median_of(bins: Seq<Bin>) -> Option<i32> {
    let total = total_count(bins);
    if total <= 0 {
        None
    } else {
        let bin = bins[median_position(bins)];
        let before = total_count(bins.take(median_position(bins)));
        if bin.left == bin.right {
            Some(bin.left)
        } else {
            let width = bin.right - bin.left;
            Some((bin.left + (width * (total - 2 * before)) / (2 * bin.count)) as i32)
        }
    }
}

/// A share of a width is no more than the width.
pub proof fn lemma_share_within_width(width: int, part: int, whole: int)
    requires
        0 <= width,
        0 <= part <= whole,
        0 < whole,
    ensures
        0 <= (width * part) / whole <= width,
{
    assert(0 <= width * part <= width * whole) by (nonlinear_arith)
        requires
            0 <= width,
            0 <= part <= whole,
    ;
    assert((width * part) / whole <= width) by (nonlinear_arith)
        requires
            0 <= width * part <= width * whole,
            0 < whole,
    ;
    assert(0 <= (width * part) / whole) by (nonlinear_arith)
        requires
            0 <= width * part,
            0 < whole,
    ;
}

/// Where there is weight, the median estimate lies in the interval of one of
/// the bins, and that bin holds some of the weight.
pub proof fn lemma_median_within_bin(bins: Seq<Bin>)
    requires
        total_count(bins) > 0,
        forall|i: int| 0 <= i < bins.len() ==> (#[trigger] bins[i]).well_formed(),
    ensures
        0 <= median_position(bins) < bins.len(),
        bins[median_position(bins)].count > 0,
        median_of(bins) matches Some(estimate) && bins[median_position(bins)].left <= estimate
            <= bins[median_position(bins)].right,
{
    lemma_crossing(bins, 0);
    let i = median_position(bins);
    let bin = bins[i];
    assert(bin.well_formed());
    let total = total_count(bins);
    let before = total_count(bins.take(i));
    lemma_share_within_width(bin.right - bin.left, total - 2 * before, 2 * bin.count);
}

/// What holds at the crossing position found from `from`, when the running
/// weight has not reached half of the total before `from`.
pub proof fn lemma_crossing(bins: Seq<Bin>, from: int)
    requires
        total_count(bins) > 0,
        0 <= from,
        from < bins.len() || bins.len() == 0,
        2 * total_count(bins.take(from)) < total_count(bins),
    ensures
        from <= crossing(bins, from) < bins.len(),
        2 * total_count(bins.take(crossing(bins, from))) < total_count(bins),
        total_count(bins) <= 2 * total_count(bins.take(crossing(bins, from) + 1)),
        total_count(bins.take(crossing(bins, from) + 1)) == total_count(
            bins.take(crossing(bins, from)),
        ) + bins[crossing(bins, from)].count,
        bins[crossing(bins, from)].count > 0,
    decreases bins.len() - from,
{
    if bins.len() == 0 {
        assert(total_count(bins) == 0);
    } else {
        assert(bins.take(from + 1).drop_last() =~= bins.take(from));
        if from >= bins.len() - 1 {
            assert(bins.take(from + 1) =~= bins);
        } else if 2 * total_count(bins.take(from + 1)) >= total_count(bins) {
        } else {
            lemma_crossing(bins, from + 1);
        }
    }
}

/// Adds up the weight of all bins.
pub fn count_bins(bins: &[Bin]) -> (count: u64)
    requires
        total_count(bins@) <= u64::MAX,
    ensures
        count == total_count(bins@),
{
    let mut total: u64 = 0;
    let mut i: usize = 0;
    proof {
        assert(bins@.take(0) =~= Seq::<Bin>::empty());
    }
    while i < bins.len()
        invariant
            0 <= i <= bins@.len(),
            total == total_count(bins@.take(i as int)),
            total_count(bins@) <= u64::MAX,
        decreases bins@.len() - i,
    {
        proof {
            lemma_total_count_prefix(bins@, i + 1);
            assert(bins@.take(i + 1).drop_last() =~= bins@.take(i as int));
        }
        total = total + bins[i].count;
        i = i + 1;
    }
    proof {
        assert(bins@.take(bins@.len() as int) =~= bins@);
    }
    total
}

/// Estimates the median of the observations that the bins have absorbed.
pub fn median_bins(bins: &[Bin]) -> (median: Option<i32>)
    requires
        total_count(bins@) <= u64::MAX,
        forall|i: int| 0 <= i < bins@.len() ==> (#[trigger] bins@[i]).well_formed(),
    ensures
        median == median_of(bins@),
{
    let total: u64 = count_bins(bins);
    if total == 0 {
        return None;
    }
    let mut before: u64 = 0;
    let mut i: usize = 0;
    proof {
        assert(bins@.take(0) =~= Seq::<Bin>::empty());
        lemma_crossing(bins@, 0);
    }
    while i < bins.len() - 1 && 2 * ((before as u128) + (bins[i].count as u128)) < (total as u128)
        invariant
            0 <= i < bins@.len(),
            total == total_count(bins@),
            total > 0,
            before == total_count(bins@.take(i as int)),
            2 * before < total,
            crossing(bins@, i as int) == median_position(bins@),
        decreases bins@.len() - i,
    {
        proof {
            lemma_total_count_prefix(bins@, i + 1);
            assert(bins@.take(i + 1).drop_last() =~= bins@.take(i as int));
        }
        before = before + bins[i].count;
        i = i + 1;
    }
    proof {
        assert(bins@.take(i + 1).drop_last() =~= bins@.take(i as int));
        lemma_crossing(bins@, i as int);
        lemma_median_within_bin(bins@);
        assert(median_position(bins@) == i);
    }
    let bin = bins[i];
    if bin.left == bin.right {
        return Some(bin.left);
    }
    let width: u128 = ((bin.right as i64) - (bin.left as i64)) as u128;
    let part: u128 = (total as u128) - 2 * (before as u128);
    let whole: u128 = 2 * (bin.count as u128);
    proof {
        lemma_share_within_width(width as int, part as int, whole as int);
        assert(width * part <= 0xffff_ffff * 0xffff_ffff_ffff_ffff) by (nonlinear_arith)
            requires
                0 <= width <= 0xffff_ffff,
                0 <= part <= 0xffff_ffff_ffff_ffff,
        ;
    }
    let share: u128 = (width * part) / whole;
    Some(((bin.left as i64) + (share as i64)) as i32)
}

} // verus!
