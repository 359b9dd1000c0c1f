//! Bringing the bins of two histograms together: the stable order by left
//! edge, and the merged sequence under one budget.

use crate::bin::Bin;
use crate::bin_sequence::{
    lemma_insert_at_rank_sorted, lemma_insert_index, lemma_rank, lemma_shrink,
    lemma_total_count_concat, lemma_total_count_insert, rank, separated, shrink, sorted_by_left,
    total_count, valid,
};
use vstd::prelude::*;

verus! {

/// Selects the bins whose left edge is `left`.
pub open spec fn starts_at(left: i32) -> spec_fn(Bin) -> bool {
    |bin: Bin| bin.left == left
}

/// The bins in ascending order of their left edges, those with equal left
/// edges in the order in which they stand in `bins`: each bin in turn goes
/// behind the bins already placed that start at or below its own left edge.
pub open spec fn stable_sorted(bins: Seq<Bin>) -> Seq<Bin>
    decreases bins.len(),
{
    if bins.len() == 0 {
        bins
    } else {
        let rest = stable_sorted(bins.drop_last());
        rest.insert(rank(rest, bins.last().left as int), bins.last())
    }
}

/// The bins of two histograms brought together under one budget: all bins of
/// both, `first`'s before `second`'s where left edges are equal, and then the
/// budget enforced.
pub open spec fn merged(first: Seq<Bin>, second: Seq<Bin>, capacity: nat) -> Seq<Bin> {
    shrink(stable_sorted(first + second), capacity)
}

/// Every bin is well formed.
pub open spec fn all_well_formed(bins: Seq<Bin>) -> bool {
    forall|i: int| 0 <= i < bins.len() ==> (#[trigger] bins[i]).well_formed()
}

/// Putting a bin behind the bins that start at or below its left edge puts
/// it last among the bins that share its left edge, and leaves the bins with
/// any other left edge as they were.
pub proof fn lemma_insert_at_rank_filter(rest: Seq<Bin>, bin: Bin, left: i32)
    ensures
        rest.insert(rank(rest, bin.left as int), bin).filter(starts_at(left)) == if bin.left
            == left {
            rest.filter(starts_at(left)).push(bin)
        } else {
            rest.filter(starts_at(left))
        },
{
    let p = rank(rest, bin.left as int);
    let pred = starts_at(left);
    lemma_rank(rest, bin.left as int);
    let head = rest.subrange(0, p);
    let tail = rest.subrange(p, rest.len() as int);
    assert(rest =~= head + tail);
    assert(rest.insert(p, bin) =~= head.push(bin) + tail);
    Seq::filter_distributes_over_add(head, tail, pred);
    Seq::filter_distributes_over_add(head.push(bin), tail, pred);
    head.lemma_filter_push(bin, pred);
    if pred(bin) {
        assert(tail.all(|x: Bin| !pred(x))) by {
            assert forall|k: int| 0 <= k < tail.len() implies !pred(#[trigger] tail[k]) by {
                assert(rest[p + k].left > bin.left);
            }
        }
        tail.lemma_all_neg_filter_empty(pred);
        assert(tail.filter(pred) =~= Seq::<Bin>::empty());
        assert(head.filter(pred) + tail.filter(pred) =~= head.filter(pred));
        assert(head.filter(pred).push(bin) + tail.filter(pred) =~= head.filter(pred).push(bin));
    }
}

/// Putting a well-formed bin among well-formed bins leaves all well formed.
pub proof fn lemma_insert_all_well_formed(rest: Seq<Bin>, p: int, bin: Bin)
    requires
        all_well_formed(rest),
        bin.well_formed(),
        0 <= p <= rest.len(),
    ensures
        all_well_formed(rest.insert(p, bin)),
{
    let sorted = rest.insert(p, bin);
    assert forall|k: int| 0 <= k < sorted.len() implies (#[trigger] sorted[k]).well_formed() by {
        lemma_insert_index(rest, p, bin, k);
        if k < p {
            assert(rest[k].well_formed());
        } else if k > p {
            assert(rest[k - 1].well_formed());
        }
    }
}

/// Sorting keeps the bins and their number, puts them in ascending order, and
/// leaves those that share a left edge in the order they had.
pub proof fn lemma_stable_sorted(bins: Seq<Bin>)
    ensures
        stable_sorted(bins).len() == bins.len(),
        sorted_by_left(stable_sorted(bins)),
        total_count(stable_sorted(bins)) == total_count(bins),
        all_well_formed(bins) ==> all_well_formed(stable_sorted(bins)),
        forall|left: i32| #[trigger]
            stable_sorted(bins).filter(starts_at(left)) == bins.filter(starts_at(left)),
    decreases bins.len(),
{
    if bins.len() > 0 {
        let init = bins.drop_last();
        let last = bins.last();
        let rest = stable_sorted(init);
        let p = rank(rest, last.left as int);
        lemma_stable_sorted(init);
        lemma_rank(rest, last.left as int);
        lemma_total_count_insert(rest, p, last);
        lemma_insert_at_rank_sorted(rest, last);
        if all_well_formed(bins) {
            assert(all_well_formed(init)) by {
                assert forall|k: int| 0 <= k < init.len() implies (
                #[trigger] init[k]).well_formed() by {
                    assert(bins[k].well_formed());
                }
            }
            assert(last.well_formed());
            lemma_insert_all_well_formed(rest, p, last);
        }
        assert forall|left: i32| #[trigger]
            stable_sorted(bins).filter(starts_at(left)) == bins.filter(starts_at(left)) by {
            lemma_insert_at_rank_filter(rest, last, left);
            assert(bins =~= init.push(last));
            init.lemma_filter_push(last, starts_at(left));
            assert(rest.filter(starts_at(left)) == init.filter(starts_at(left)));
        }
    }
}

/// There is only one way to put bins in ascending order while those that
/// share a left edge keep their order.
pub proof fn lemma_stable_order_unique(a: Seq<Bin>, b: Seq<Bin>)
    requires
        sorted_by_left(a),
        sorted_by_left(b),
        forall|left: i32| #[trigger] a.filter(starts_at(left)) == b.filter(starts_at(left)),
    ensures
        a == b,
    decreases a.len(),
{
    if a.len() == 0 {
        if b.len() > 0 {
            let pred = starts_at(b[0].left);
            b.lemma_filter_contains(pred, 0);
            a.lemma_filter_len(pred);
            assert(a.filter(pred) == b.filter(pred));
            assert(false);
        }
        assert(a =~= b);
    } else {
        let x = a.last();
        let pred = starts_at(x.left);
        a.lemma_filter_contains(pred, a.len() - 1);
        assert(a.filter(pred) == b.filter(pred));
        b.lemma_filter_len(pred);
        assert(b.len() > 0);
        let y = b.last();
        let qred = starts_at(y.left);
        b.lemma_filter_contains(qred, b.len() - 1);
        assert(a.filter(qred) == b.filter(qred));
        b.lemma_filter_contains_rev(pred, x);
        a.lemma_filter_contains_rev(qred, y);
        let j = choose|j: int| 0 <= j < b.len() && b[j] == x;
        let i = choose|i: int| 0 <= i < a.len() && a[i] == y;
        assert(b[j].left <= b[b.len() - 1].left);
        assert(a[i].left <= a[a.len() - 1].left);
        assert(x.left == y.left);
        let a0 = a.drop_last();
        let b0 = b.drop_last();
        assert(a =~= a0.push(x));
        assert(b =~= b0.push(y));
        assert forall|left: i32| #[trigger]
            a0.filter(starts_at(left)) == b0.filter(starts_at(left)) by {
            let r = starts_at(left);
            a0.lemma_filter_push(x, r);
            b0.lemma_filter_push(y, r);
            assert(a.filter(r) == b.filter(r));
            if r(x) {
                assert(a0.filter(r).push(x).drop_last() =~= a0.filter(r));
                assert(b0.filter(r).push(y).drop_last() =~= b0.filter(r));
            }
        }
        a0.lemma_filter_push(x, pred);
        b0.lemma_filter_push(y, pred);
        assert(a0.filter(pred).push(x).last() == x);
        assert(b0.filter(pred).push(y).last() == y);
        assert(x == y);
        assert(sorted_by_left(a0)) by {
            assert forall|i: int, j: int| 0 <= i < j < a0.len() implies a0[i].left
                <= a0[j].left by {
                assert(a[i].left <= a[j].left);
            }
        }
        assert(sorted_by_left(b0)) by {
            assert forall|i: int, j: int| 0 <= i < j < b0.len() implies b0[i].left
                <= b0[j].left by {
                assert(b[i].left <= b[j].left);
            }
        }
        lemma_stable_order_unique(a0, b0);
    }
}

/// Bringing two valid sequences together under one budget gives a valid
/// sequence within the budget, and with a capacity above zero the total weight
/// is the sum of theirs.
pub proof fn lemma_merged(first: Seq<Bin>, second: Seq<Bin>, capacity: nat)
    requires
        valid(first),
        valid(second),
        total_count(first) + total_count(second) <= u64::MAX,
    ensures
        valid(stable_sorted(first + second)),
        valid(merged(first, second, capacity)),
        merged(first, second, capacity).len() <= capacity,
        capacity > 0 ==> total_count(merged(first, second, capacity)) == total_count(first)
            + total_count(second),
        separated(stable_sorted(first + second)) ==> separated(merged(first, second, capacity)),
{
    let all = first + second;
    lemma_total_count_concat(first, second);
    assert(all_well_formed(all)) by {
        assert forall|k: int| 0 <= k < all.len() implies (#[trigger] all[k]).well_formed() by {
            if k < first.len() {
                assert(first[k].well_formed());
            } else {
                assert(second[k - first.len()].well_formed());
            }
        }
    }
    lemma_stable_sorted(all);
    lemma_shrink(stable_sorted(all), capacity);
}

} // verus!
