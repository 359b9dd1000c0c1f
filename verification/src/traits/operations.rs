use vstd::prelude::*;

verus! {

/// Histograms of which an empty copy with the same settings can be made.
pub trait EmptyClone: Sized {
    /// Whether this value is what `empty_clone` makes of `origin`.
    spec fn is_empty_clone_of(&self, origin: &Self) -> bool;

    /// Return an empty clone of the item that has otherwise
    /// identical attributes (e.g. number of maximum bins).
    fn empty_clone(&self) -> (clone: Self)
        ensures
            clone.is_empty_clone_of(self),
    ;
}

/// Histograms into which another one can be merged by reference.
pub trait MergeRef: Sized {
    /// Whether `other` can be merged into this value.
    spec fn can_merge_ref(&self, other: &Self) -> bool;

    /// Whether this value is what merging `other` into `before` gives.
    spec fn is_merge_ref_of(&self, before: &Self, other: &Self) -> bool;

    /// Merge another instance of this type into this histogram.
    fn merge_ref(&mut self, other: &Self)
        requires
            old(self).can_merge_ref(other),
        ensures
            final(self).is_merge_ref_of(old(self), other),
    ;
}

/// Histograms into which another one can be merged, using it up.
pub trait Merge: Sized {
    /// Whether `other` can be merged into this value.
    spec fn can_merge(&self, other: &Self) -> bool;

    /// Whether this value is what merging `other` into `before` gives.
    spec fn is_merge_of(&self, before: &Self, other: &Self) -> bool;

    /// Merge another instance of this type into this histogram.
    fn merge(&mut self, other: Self)
        requires
            old(self).can_merge(&other),
        ensures
            final(self).is_merge_of(old(self), &other),
    ;
}

/// Histograms that can estimate the median of what they have absorbed.
pub trait Median<T> {
    /// Whether the median of this value can be asked for.
    spec fn can_estimate(&self) -> bool;

    /// The estimate of the median, or `None` where there is no data.
    spec fn median_spec(&self) -> Option<T>;

    /// Estimate the median value of the data points in this histogram.
    fn median(&self) -> (median: Option<T>)
        requires
            self.can_estimate(),
        ensures
            median == self.median_spec(),
    ;
}

/// Whether `acc` can be the result of folding the first `n` of `items` into an
/// empty clone of the first item, one `merge_ref` after the other.
pub open spec fn folds_to<H: MergeRef + EmptyClone>(items: Seq<H>, n: nat, acc: H) -> bool
    recommends
        n <= items.len(),
    decreases n,
{
    if n == 0 {
        items.len() > 0 && acc.is_empty_clone_of(&items[0])
    } else {
        exists|before: H|
            #![trigger acc.is_merge_ref_of(&before, &items[n - 1])]
            folds_to(items, (n - 1) as nat, before) && acc.is_merge_ref_of(
                &before,
                &items[n - 1],
            )
    }
}

/// One more `merge_ref` takes a fold of `n - 1` items to a fold of `n`.
pub proof fn lemma_fold_step<H: MergeRef + EmptyClone>(items: Seq<H>, n: nat, before: H, acc: H)
    requires
        0 < n <= items.len(),
        folds_to(items, (n - 1) as nat, before),
        acc.is_merge_ref_of(&before, &items[n - 1]),
    ensures
        folds_to(items, n, acc),
{
}

/// Collections of histograms that can be merged into a single histogram.
pub trait MergeIter<H> {
    /// Whether every merge of the fold is one that can be made.
    spec fn can_merge_all(&self) -> bool;

    /// Whether `merged` is what folding all the histograms gives.
    spec fn is_merge_of_all(&self, merged: Option<H>) -> bool;

    /// Merge all histograms of a collection into one histogram.
    fn merge(self) -> (merged: Option<H>)
        requires
            self.can_merge_all(),
        ensures
            self.is_merge_of_all(merged),
    ;
}

impl<'b, H> MergeIter<H> for &'b [H] where H: MergeRef + EmptyClone {
    /// Each histogram can be merged into whatever the fold has made of those
    /// before it.
    open spec fn can_merge_all(&self) -> bool {
        forall|n: nat, acc: H|
            n < self@.len() && #[trigger] folds_to(self@, n, acc) ==> acc.can_merge_ref(
                &self@[n as int],
            )
    }

    /// Nothing comes of no histograms; otherwise the result is the fold of all
    /// of them into an empty clone of the first.
    open spec fn is_merge_of_all(&self, merged: Option<H>) -> bool {
        match merged {
            None => self@.len() == 0,
            Some(acc) => self@.len() > 0 && folds_to(self@, self@.len(), acc),
        }
    }

    /// Folds the histograms, first to last, into an empty clone of the first.
    fn merge(self) -> (merged: Option<H>) {
        if self.len() == 0 {
            return None;
        }
        let mut agg = self[0].empty_clone();
        let mut i: usize = 0;
        while i < self.len()
            invariant
                0 <= i <= self@.len(),
                self.can_merge_all(),
                folds_to(self@, i as nat, agg),
            decreases self@.len() - i,
        {
            let ghost before = agg;
            assert(before.can_merge_ref(&self@[i as int]));
            agg.merge_ref(&self[i]);
            assert(agg.is_merge_ref_of(&before, &self@[i as int]));
            i = i + 1;
            proof {
                lemma_fold_step(self@, i as nat, before, agg);
            }
        }
        Some(agg)
    }
}

} // verus!
