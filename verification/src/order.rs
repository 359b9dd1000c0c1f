//! Ordering operations that the histograms delegate to the `ord_subset` crate.

use crate::bin::Bin;
use crate::bin_sequence::sorted_by_left;
use crate::merging::starts_at;
use ord_subset::OrdSubsetIterExt;
use ord_subset::OrdSubsetSliceExt;
use vstd::prelude::*;

verus! {

/// Whether `k` is the position of the smallest of `values`, the first of
/// several equal ones.
pub open spec fn is_first_smallest(values: Seq<i64>, k: int) -> bool {
    &&& 0 <= k < values.len()
    &&& forall|j: int| 0 <= j < values.len() ==> values[k] <= #[trigger] values[j]
    &&& forall|j: int| 0 <= j < k ==> values[k] < #[trigger] values[j]
}

/// Finds the position of the smallest value with
/// `OrdSubsetIterExt::ord_subset_min_by_key`.
///
/// Trusted: of an empty vector there is no position; otherwise the position
/// is that of a smallest value, and of several equal ones the first, as the
/// crate documents.
#[verifier::external_body]
pub(crate) fn position_of_smallest(values: &Vec<i64>) -> (found: Option<usize>)
    ensures
        found is None <==> values@.len() == 0,
        found matches Some(k) ==> is_first_smallest(values@, k as int),
{
    values.iter().enumerate().ord_subset_min_by_key(|entry| *entry.1).map(|entry| entry.0)
}

/// Sorts bins by their left edge with
/// `OrdSubsetSliceExt::ord_subset_sort_by_key`.
///
/// Trusted: the result is in ascending order of the left edges, and the sort
/// is stable, so the bins that share a left edge are the same ones in the
/// same order as before.
#[verifier::external_body]
pub(crate) fn sort_by_left(bins: &mut Vec<Bin>)
    ensures
        sorted_by_left(final(bins)@),
        forall|left: i32| #[trigger]
            final(bins)@.filter(starts_at(left)) == old(bins)@.filter(starts_at(left)),
{
    bins.ord_subset_sort_by_key(|bin| bin.left);
}

} // verus!
