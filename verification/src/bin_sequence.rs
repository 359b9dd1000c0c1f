//! The mathematical model of a histogram: a sequence of bins in ascending
//! order, and the operations on it that every histogram in this crate
//! implements.

use crate::bin::Bin;
use vstd::prelude::*;

verus! {

/// The total weight held by a sequence of bins.
pub open spec fn total_count(bins: Seq<Bin>) -> int
    decreases bins.len(),
{
    if bins.len() == 0 {
        0
    } else {
        total_count(bins.drop_last()) + bins.last().count
    }
}

/// Left edges never decrease along the sequence.
pub open spec fn sorted_by_left(bins: Seq<Bin>) -> bool {
    forall|i: int, j: int| 0 <= i < j < bins.len() ==> bins[i].left <= bins[j].left
}

/// What every histogram keeps true of its bins: each bin is well formed, the
/// bins are in ascending order of their left edges, and the total weight fits
/// in a `u64`.
pub open spec fn valid(bins: Seq<Bin>) -> bool {
    &&& forall|i: int| 0 <= i < bins.len() ==> (#[trigger] bins[i]).well_formed()
    &&& sorted_by_left(bins)
    &&& total_count(bins) <= u64::MAX
}

/// No two bins overlap and no two start at the same value: every bin ends
/// before or where each later bin starts.
pub open spec fn separated(bins: Seq<Bin>) -> bool {
    forall|i: int, j: int|
        0 <= i < j < bins.len() ==> bins[i].right <= bins[j].left && bins[i].left
            < bins[j].left
}

/// The number of leading bins to step over to get past the last bin whose left
/// edge is at or below `value`. In a sorted sequence this is the number of bins
/// that start at or below `value`.
pub open spec fn rank(bins: Seq<Bin>, value: int) -> int
    decreases bins.len(),
{
    if bins.len() == 0 {
        0
    } else if bins.last().left <= value {
        bins.len() as int
    } else {
        rank(bins.drop_last(), value)
    }
}

/// The position of the bin that takes an observation of `value`, if there is
/// one: the last bin that starts at or below `value`, provided it holds it.
pub open spec fn slot(bins: Seq<Bin>, value: int) -> Option<int> {
    let p = rank(bins, value);
    if p > 0 && bins[p - 1].holds(value) {
        Some(p - 1)
    } else {
        None
    }
}

/// The sequence after an observation has been recorded, before the budget is
/// enforced: the bin that holds the value is updated, or a new single-point bin
/// is opened at its sorted position.
pub open spec fn placed(bins: Seq<Bin>, value: i32, count: u64) -> Seq<Bin> {
    match slot(bins, value as int) {
        Some(i) => bins.update(i, bins[i].observed(value, count)),
        None => bins.insert(rank(bins, value as int), Bin::singleton_spec(value, count)),
    }
}

/// The gap between bin `i` and its right neighbour.
pub open spec fn gap(bins: Seq<Bin>, i: int) -> int {
    bins[i].gap_to(bins[i + 1])
}

/// The position of the smallest gap; of several equal ones, the leftmost.
pub open spec fn first_min_gap(bins: Seq<Bin>) -> int
    decreases bins.len(),
{
    if bins.len() <= 2 {
        0
    } else {
        let k = first_min_gap(bins.drop_last());
        if gap(bins, bins.len() - 2) < gap(bins, k) {
            bins.len() - 2
        } else {
            k
        }
    }
}

/// Whether `k` is the position of the smallest gap, leftmost among equals.
pub open spec fn is_first_min_gap(bins: Seq<Bin>, k: int) -> bool {
    &&& 0 <= k < bins.len() - 1
    &&& forall|j: int| 0 <= j < bins.len() - 1 ==> gap(bins, k) <= #[trigger] gap(bins, j)
    &&& forall|j: int| 0 <= j < k ==> gap(bins, k) < #[trigger] gap(bins, j)
}

/// The sequence after bin `i` has swallowed bin `i + 1`.
pub open spec fn merge_at(bins: Seq<Bin>, i: int) -> Seq<Bin> {
    bins.update(i, bins[i].absorbed(bins[i + 1])).remove(i + 1)
}

/// Budget enforcement: while there are more bins than `capacity`, merge the
/// pair with the smallest gap, one pair at a time, each choice made on the
/// sequence as the previous merge left it. A capacity of zero retains nothing.
pub open spec fn shrink(bins: Seq<Bin>, capacity: nat) -> Seq<Bin>
    decreases bins.len(),
    via shrink_terminates
{
    if capacity == 0 {
        Seq::empty()
    } else if bins.len() <= capacity {
        bins
    } else {
        shrink(merge_at(bins, first_min_gap(bins)), capacity)
    }
}

#[via_fn]
proof fn shrink_terminates(bins: Seq<Bin>, capacity: nat) {
    if capacity != 0 && bins.len() > capacity {
        lemma_first_min_gap(bins);
    }
}

/// The sequence after a whole insertion: the observation is recorded and the
/// budget enforced.
pub open spec fn inserted(bins: Seq<Bin>, capacity: nat, value: i32, count: u64) -> Seq<Bin> {
    shrink(placed(bins, value, count), capacity)
}

/// The total weight of a run of observations.
pub open spec fn total_weight(observations: Seq<(i32, u64)>) -> int
    decreases observations.len(),
{
    if observations.len() == 0 {
        0
    } else {
        total_weight(observations.drop_last()) + observations.last().1
    }
}

/// The sequence after a run of observations has been inserted in order.
pub open spec fn inserted_all(bins: Seq<Bin>, capacity: nat, observations: Seq<(i32, u64)>) -> Seq<
    Bin,
>
    decreases observations.len(),
{
    if observations.len() == 0 {
        bins
    } else {
        inserted(
            inserted_all(bins, capacity, observations.drop_last()),
            capacity,
            observations.last().0,
            observations.last().1,
        )
    }
}

/// The total weight of two sequences laid end to end is the sum of theirs.
pub proof fn lemma_total_count_concat(a: Seq<Bin>, b: Seq<Bin>)
    ensures
        total_count(a + b) == total_count(a) + total_count(b),
    decreases b.len(),
{
    if b.len() == 0 {
        assert(a + b =~= a);
    } else {
        lemma_total_count_concat(a, b.drop_last());
        assert((a + b).drop_last() =~= a + b.drop_last());
        assert((a + b).last() == b.last());
    }
}

/// A total weight is never negative.
pub proof fn lemma_total_count_nonnegative(bins: Seq<Bin>)
    ensures
        0 <= total_count(bins),
    decreases bins.len(),
{
    if bins.len() > 0 {
        lemma_total_count_nonnegative(bins.drop_last());
    }
}

/// The total weight of a single bin is its count.
pub proof fn lemma_total_count_single(bin: Bin)
    ensures
        total_count(seq![bin]) == bin.count,
{
    assert(seq![bin].drop_last() =~= Seq::<Bin>::empty());
    assert(total_count(seq![bin].drop_last()) == 0);
}

/// Splitting a sequence around position `i` splits its total weight.
pub proof fn lemma_total_count_split(bins: Seq<Bin>, i: int)
    requires
        0 <= i < bins.len(),
    ensures
        total_count(bins) == total_count(bins.subrange(0, i)) + bins[i].count + total_count(
            bins.subrange(i + 1, bins.len() as int),
        ),
        0 <= bins[i].count <= total_count(bins),
{
    let head = bins.subrange(0, i);
    let tail = bins.subrange(i + 1, bins.len() as int);
    assert(bins =~= head + seq![bins[i]] + tail);
    lemma_total_count_concat(head + seq![bins[i]], tail);
    lemma_total_count_concat(head, seq![bins[i]]);
    lemma_total_count_single(bins[i]);
    lemma_total_count_nonnegative(head);
    lemma_total_count_nonnegative(tail);
}

/// Two neighbours together hold no more than the total weight.
pub proof fn lemma_pair_within_total(bins: Seq<Bin>, i: int)
    requires
        0 <= i < bins.len() - 1,
    ensures
        bins[i].count + bins[i + 1].count <= total_count(bins),
{
    let tail = bins.subrange(i + 1, bins.len() as int);
    lemma_total_count_split(bins, i);
    lemma_total_count_split(tail, 0);
    lemma_total_count_nonnegative(bins.subrange(0, i));
    lemma_total_count_nonnegative(tail.subrange(1, tail.len() as int));
    assert(tail.subrange(0, 0) =~= Seq::<Bin>::empty());
}

/// Replacing one bin changes the total weight by the difference of the counts.
pub proof fn lemma_total_count_update(bins: Seq<Bin>, i: int, bin: Bin)
    requires
        0 <= i < bins.len(),
    ensures
        total_count(bins.update(i, bin)) == total_count(bins) - bins[i].count + bin.count,
{
    let after = bins.update(i, bin);
    lemma_total_count_split(bins, i);
    lemma_total_count_split(after, i);
    assert(after.subrange(0, i) =~= bins.subrange(0, i));
    assert(after.subrange(i + 1, after.len() as int) =~= bins.subrange(i + 1, bins.len() as int));
}

/// A new bin adds its count to the total weight.
pub proof fn lemma_total_count_insert(bins: Seq<Bin>, i: int, bin: Bin)
    requires
        0 <= i <= bins.len(),
    ensures
        total_count(bins.insert(i, bin)) == total_count(bins) + bin.count,
{
    let head = bins.subrange(0, i);
    let tail = bins.subrange(i, bins.len() as int);
    assert(bins =~= head + tail);
    assert(bins.insert(i, bin) =~= head + seq![bin] + tail);
    lemma_total_count_concat(head, tail);
    lemma_total_count_concat(head + seq![bin], tail);
    lemma_total_count_concat(head, seq![bin]);
    lemma_total_count_single(bin);
}

/// A removed bin takes its count out of the total weight.
pub proof fn lemma_total_count_remove(bins: Seq<Bin>, i: int)
    requires
        0 <= i < bins.len(),
    ensures
        total_count(bins.remove(i)) == total_count(bins) - bins[i].count,
{
    let head = bins.subrange(0, i);
    let tail = bins.subrange(i + 1, bins.len() as int);
    lemma_total_count_split(bins, i);
    assert(bins.remove(i) =~= head + tail);
    lemma_total_count_concat(head, tail);
}

/// The weight of a prefix is never negative and never more than that of the
/// whole.
pub proof fn lemma_total_count_prefix(bins: Seq<Bin>, n: int)
    requires
        0 <= n <= bins.len(),
    ensures
        0 <= total_count(bins.take(n)) <= total_count(bins),
{
    assert(bins =~= bins.take(n) + bins.skip(n));
    lemma_total_count_concat(bins.take(n), bins.skip(n));
    lemma_total_count_nonnegative(bins.take(n));
    lemma_total_count_nonnegative(bins.skip(n));
}

/// The weight of a run of observations is never negative.
pub proof fn lemma_total_weight_nonnegative(observations: Seq<(i32, u64)>)
    ensures
        0 <= total_weight(observations),
    decreases observations.len(),
{
    if observations.len() > 0 {
        lemma_total_weight_nonnegative(observations.drop_last());
    }
}

/// The weight of the first `n` observations is never negative and never more
/// than that of the whole run.
pub proof fn lemma_total_weight_prefix(observations: Seq<(i32, u64)>, n: int)
    requires
        0 <= n <= observations.len(),
    ensures
        0 <= total_weight(observations.take(n)) <= total_weight(observations),
    decreases observations.len(),
{
    lemma_total_weight_nonnegative(observations.take(n));
    if n < observations.len() {
        lemma_total_weight_prefix(observations.drop_last(), n);
        assert(observations.drop_last().take(n) =~= observations.take(n));
    } else {
        assert(observations.take(n) =~= observations);
    }
}

/// Where `rank` points: everything from there on starts above `value`, and in
/// a sorted sequence everything before starts at or below it.
pub proof fn lemma_rank(bins: Seq<Bin>, value: int)
    ensures
        0 <= rank(bins, value) <= bins.len(),
        rank(bins, value) > 0 ==> bins[rank(bins, value) - 1].left <= value,
        forall|i: int| rank(bins, value) <= i < bins.len() ==> (#[trigger] bins[i]).left > value,
        sorted_by_left(bins) ==> forall|i: int|
            0 <= i < rank(bins, value) ==> (#[trigger] bins[i]).left <= value,
    decreases bins.len(),
{
    if bins.len() > 0 && bins.last().left > value {
        let rest = bins.drop_last();
        lemma_rank(rest, value);
        assert forall|i: int| rank(bins, value) <= i < bins.len() implies (#[trigger] bins[i]).left
            > value by {
            if i < rest.len() {
                assert(rest[i].left > value);
            }
        }
        if sorted_by_left(bins) {
            assert(sorted_by_left(rest)) by {
                assert forall|i: int, j: int| 0 <= i < j < rest.len() implies rest[i].left
                    <= rest[j].left by {
                    assert(bins[i].left <= bins[j].left);
                }
            }
            assert forall|i: int| 0 <= i < rank(bins, value) implies (#[trigger] bins[i]).left
                <= value by {
                assert(rest[i].left <= value);
            }
        }
    }
}

/// A position that splits the bins into those that start at or below `value`
/// and those that start above it is the rank of `value`.
pub proof fn lemma_rank_unique(bins: Seq<Bin>, value: int, p: int)
    requires
        0 <= p <= bins.len(),
        forall|i: int| 0 <= i < p ==> (#[trigger] bins[i]).left <= value,
        forall|i: int| p <= i < bins.len() ==> (#[trigger] bins[i]).left > value,
    ensures
        rank(bins, value) == p,
{
    lemma_rank(bins, value);
    let r = rank(bins, value);
    if r < p {
        assert(bins[r].left > value);
    }
    if r > p {
        assert(bins[r - 1].left <= value);
    }
}

/// `first_min_gap` finds the smallest gap, and the leftmost of equal ones.
pub proof fn lemma_first_min_gap(bins: Seq<Bin>)
    requires
        bins.len() >= 2,
    ensures
        is_first_min_gap(bins, first_min_gap(bins)),
    decreases bins.len(),
{
    if bins.len() > 2 {
        let rest = bins.drop_last();
        lemma_first_min_gap(rest);
        let k = first_min_gap(rest);
        let m = first_min_gap(bins);
        assert forall|j: int| 0 <= j < rest.len() - 1 implies gap(rest, j) == gap(bins, j) by {}
        assert(gap(rest, k) == gap(bins, k));
        assert forall|j: int| 0 <= j < bins.len() - 1 implies gap(bins, m) <= #[trigger] gap(
            bins,
            j,
        ) by {
            if j < rest.len() - 1 {
                assert(gap(rest, k) <= gap(rest, j));
            }
        }
        assert forall|j: int| 0 <= j < m implies gap(bins, m) < #[trigger] gap(bins, j) by {
            if j < k {
                assert(gap(rest, k) < gap(rest, j));
            } else {
                assert(gap(rest, k) <= gap(rest, j));
            }
        }
    }
}

/// Only one position is that of the leftmost smallest gap.
pub proof fn lemma_first_min_gap_unique(bins: Seq<Bin>, k: int)
    requires
        is_first_min_gap(bins, k),
    ensures
        first_min_gap(bins) == k,
{
    lemma_first_min_gap(bins);
    let m = first_min_gap(bins);
    assert(gap(bins, k) <= gap(bins, m));
    assert(gap(bins, m) <= gap(bins, k));
}

/// Putting a bin behind the bins that start at or below its left edge keeps
/// a sorted sequence sorted.
pub proof fn lemma_insert_at_rank_sorted(rest: Seq<Bin>, bin: Bin)
    requires
        sorted_by_left(rest),
    ensures
        sorted_by_left(rest.insert(rank(rest, bin.left as int), bin)),
{
    let p = rank(rest, bin.left as int);
    let sorted = rest.insert(p, bin);
    lemma_rank(rest, bin.left as int);
    assert forall|a: int, b: int| 0 <= a < b < sorted.len() implies sorted[a].left
        <= sorted[b].left by {
        lemma_insert_index(rest, p, bin, a);
        lemma_insert_index(rest, p, bin, b);
        if a < p && b > p {
            assert(rest[a].left <= bin.left);
            assert(rest[b - 1].left > bin.left);
        } else if a < p && b < p {
            assert(rest[a].left <= rest[b].left);
        } else if a > p {
            assert(rest[a - 1].left <= rest[b - 1].left);
        } else if a == p {
            assert(rest[b - 1].left > bin.left);
        } else {
            assert(rest[a].left <= bin.left);
        }
    }
}

/// Recording an observation keeps the sequence valid, adds the weight to the
/// total, opens at most one bin, and keeps separated bins separated.
pub proof fn lemma_placed(bins: Seq<Bin>, value: i32, count: u64)
    requires
        valid(bins),
        total_count(bins) + count <= u64::MAX,
    ensures
        valid(placed(bins, value, count)),
        total_count(placed(bins, value, count)) == total_count(bins) + count,
        slot(bins, value as int) is Some ==> placed(bins, value, count).len() == bins.len(),
        slot(bins, value as int) is None ==> placed(bins, value, count).len() == bins.len() + 1,
        separated(bins) ==> separated(placed(bins, value, count)),
{
    let after = placed(bins, value, count);
    let p = rank(bins, value as int);
    lemma_rank(bins, value as int);
    Bin::lemma_weighted_value_bounds(value, count);
    match slot(bins, value as int) {
        Some(i) => {
            lemma_total_count_split(bins, i);
            lemma_total_count_update(bins, i, bins[i].observed(value, count));
            assert(bins[i].well_formed());
            assert forall|k: int| 0 <= k < after.len() implies (
            #[trigger] after[k]).well_formed() by {
                if k != i {
                    assert(bins[k].well_formed());
                }
            }
            assert(sorted_by_left(after)) by {
                assert forall|a: int, b: int| 0 <= a < b < after.len() implies after[a].left
                    <= after[b].left by {
                    assert(bins[a].left <= bins[b].left);
                }
            }
            if separated(bins) {
                assert forall|a: int, b: int| 0 <= a < b < after.len() implies after[a].right
                    <= after[b].left && after[a].left < after[b].left by {
                    assert(bins[a].right <= bins[b].left && bins[a].left < bins[b].left);
                }
            }
        },
        None => {
            let fresh = Bin::singleton_spec(value, count);
            lemma_total_count_insert(bins, p, fresh);
            bins.insert_ensures(p, fresh);
            assert forall|k: int| 0 <= k < after.len() implies (
            #[trigger] after[k]).well_formed() by {
                if k < p {
                    assert(bins[k].well_formed());
                } else if k > p {
                    assert(bins[k - 1].well_formed());
                }
            }
            lemma_insert_at_rank_sorted(bins, fresh);
            if separated(bins) {
                assert forall|a: int, b: int| 0 <= a < b < after.len() implies after[a].right
                    <= after[b].left && after[a].left < after[b].left by {
                    lemma_insert_index(bins, p, fresh, a);
                    lemma_insert_index(bins, p, fresh, b);
                    if b == p {
                        assert(bins[a].left <= value);
                        assert(bins[a].well_formed());
                        if a < p - 1 {
                            assert(bins[a].right <= bins[p - 1].left && bins[a].left < bins[p
                                - 1].left);
                            assert(bins[p - 1].left <= value);
                        } else {
                            assert(!bins[p - 1].holds(value as int));
                        }
                    } else if a == p {
                        assert(bins[b - 1].left > value);
                    } else if b < p {
                        assert(bins[a].right <= bins[b].left && bins[a].left < bins[b].left);
                    } else if a > p {
                        assert(bins[a - 1].right <= bins[b - 1].left && bins[a - 1].left < bins[b
                            - 1].left);
                    } else {
                        assert(bins[a].right <= bins[b - 1].left && bins[a].left < bins[b
                            - 1].left);
                    }
                }
            }
        },
    }
}

/// What stands at each position after an insertion.
pub proof fn lemma_insert_index(bins: Seq<Bin>, p: int, bin: Bin, k: int)
    requires
        0 <= p <= bins.len(),
        0 <= k <= bins.len(),
    ensures
        bins.insert(p, bin).len() == bins.len() + 1,
        k < p ==> bins.insert(p, bin)[k] == bins[k],
        k == p ==> bins.insert(p, bin)[k] == bin,
        k > p ==> bins.insert(p, bin)[k] == bins[k - 1],
{
}

/// What stands at each position after a merge.
pub proof fn lemma_merge_at_index(bins: Seq<Bin>, i: int, k: int)
    requires
        0 <= i < bins.len() - 1,
        0 <= k < bins.len() - 1,
    ensures
        merge_at(bins, i).len() == bins.len() - 1,
        k < i ==> merge_at(bins, i)[k] == bins[k],
        k == i ==> merge_at(bins, i)[k] == bins[i].absorbed(bins[i + 1]),
        k > i ==> merge_at(bins, i)[k] == bins[k + 1],
{
}

/// Merging two neighbours keeps the sequence valid, keeps the total weight,
/// takes one bin away, and keeps separated bins separated.
pub proof fn lemma_merge_at(bins: Seq<Bin>, i: int)
    requires
        valid(bins),
        0 <= i < bins.len() - 1,
    ensures
        valid(merge_at(bins, i)),
        total_count(merge_at(bins, i)) == total_count(bins),
        merge_at(bins, i).len() == bins.len() - 1,
        separated(bins) ==> separated(merge_at(bins, i)),
{
    let merged = bins[i].absorbed(bins[i + 1]);
    let updated = bins.update(i, merged);
    let after = merge_at(bins, i);
    lemma_total_count_split(bins, i);
    lemma_total_count_split(bins, i + 1);
    lemma_total_count_split(bins.subrange(i + 1, bins.len() as int), 0);
    lemma_total_count_nonnegative(bins.subrange(0, i));
    lemma_total_count_nonnegative(bins.subrange(i + 2, bins.len() as int));
    assert(bins.subrange(i + 1, bins.len() as int).subrange(
        1,
        bins.subrange(i + 1, bins.len() as int).len() as int,
    ) =~= bins.subrange(i + 2, bins.len() as int));
    assert(bins.subrange(i + 1, bins.len() as int).subrange(0, 0) =~= Seq::<Bin>::empty());
    assert(bins[i].count + bins[i + 1].count <= total_count(bins));
    lemma_total_count_update(bins, i, merged);
    lemma_total_count_remove(updated, i + 1);
    assert(bins[i].well_formed());
    assert(bins[i + 1].well_formed());
    assert(bins[i].left <= bins[i + 1].left);
    assert(merged.well_formed());
    assert forall|k: int| 0 <= k < after.len() implies (#[trigger] after[k]).well_formed() by {
        lemma_merge_at_index(bins, i, k);
        if k < i {
            assert(bins[k].well_formed());
        } else if k > i {
            assert(bins[k + 1].well_formed());
        }
    }
    assert(sorted_by_left(after)) by {
        assert forall|a: int, b: int| 0 <= a < b < after.len() implies after[a].left
            <= after[b].left by {
            lemma_merge_at_index(bins, i, a);
            lemma_merge_at_index(bins, i, b);
            let a0 = if a <= i { a } else { a + 1 };
            let b0 = if b <= i { b } else { b + 1 };
            assert(bins[a0].left <= bins[b0].left);
        }
    }
    if separated(bins) {
        assert forall|a: int, b: int| 0 <= a < b < after.len() implies after[a].right
            <= after[b].left && after[a].left < after[b].left by {
            lemma_merge_at_index(bins, i, a);
            lemma_merge_at_index(bins, i, b);
            let a0 = if a < i { a } else { a + 1 };
            let b0 = if b <= i { b } else { b + 1 };
            assert(bins[a0].right <= bins[b0].left && bins[a0].left < bins[b0].left);
            if a == i {
                assert(bins[i].right <= bins[b0].left && bins[i].left < bins[b0].left);
            }
        }
    }
}

/// Budget enforcement keeps the sequence valid and separated bins separated,
/// leaves no more bins than the capacity, and with a capacity above zero
/// keeps the total weight.
pub proof fn lemma_shrink(bins: Seq<Bin>, capacity: nat)
    requires
        valid(bins),
    ensures
        valid(shrink(bins, capacity)),
        shrink(bins, capacity).len() <= capacity,
        shrink(bins, capacity).len() <= bins.len(),
        capacity > 0 ==> total_count(shrink(bins, capacity)) == total_count(bins),
        capacity > 0 && bins.len() >= capacity ==> shrink(bins, capacity).len() == capacity,
        bins.len() <= capacity ==> shrink(bins, capacity) == bins,
        separated(bins) ==> separated(shrink(bins, capacity)),
    decreases bins.len(),
{
    if capacity != 0 && bins.len() > capacity {
        lemma_first_min_gap(bins);
        lemma_merge_at(bins, first_min_gap(bins));
        lemma_shrink(merge_at(bins, first_min_gap(bins)), capacity);
    }
}

/// A whole insertion keeps the sequence valid and within budget, keeps
/// separated bins separated, and with a capacity above zero adds the weight
/// of the observation to the total.
pub proof fn lemma_inserted(bins: Seq<Bin>, capacity: nat, value: i32, count: u64)
    requires
        valid(bins),
        total_count(bins) + count <= u64::MAX,
    ensures
        valid(inserted(bins, capacity, value, count)),
        inserted(bins, capacity, value, count).len() <= capacity,
        capacity > 0 ==> total_count(inserted(bins, capacity, value, count)) == total_count(bins)
            + count,
        separated(bins) ==> separated(inserted(bins, capacity, value, count)),
{
    lemma_placed(bins, value, count);
    lemma_shrink(placed(bins, value, count), capacity);
}

/// Tells whether bins in ascending order stand apart from each other, by
/// looking at each pair of neighbours.
pub fn stand_apart(bins: &Vec<Bin>) -> (apart: bool)
    requires
        forall|i: int| 0 <= i < bins@.len() ==> (#[trigger] bins@[i]).well_formed(),
    ensures
        apart == separated(bins@),
{
    if bins.len() < 2 {
        return true;
    }
    let mut i: usize = 1;
    assert(separated(bins@.take(1)));
    while i < bins.len()
        invariant
            1 <= i <= bins@.len(),
            forall|k: int| 0 <= k < bins@.len() ==> (#[trigger] bins@[k]).well_formed(),
            separated(bins@.take(i as int)),
        decreases bins@.len() - i,
    {
        if bins[i - 1].right > bins[i].left || bins[i - 1].left >= bins[i].left {
            return false;
        }
        proof {
            let prefix = bins@.take(i as int);
            let longer = bins@.take(i + 1);
            assert forall|a: int, b: int| 0 <= a < b < longer.len() implies longer[a].right
                <= longer[b].left && longer[a].left < longer[b].left by {
                if b < i {
                    assert(prefix[a].right <= prefix[b].left && prefix[a].left < prefix[b].left);
                } else if a < i - 1 {
                    assert(prefix[a].right <= prefix[i - 1].left && prefix[a].left < prefix[i
                        - 1].left);
                    assert(bins@[i - 1].well_formed());
                }
            }
        }
        i = i + 1;
    }
    assert(bins@.take(i as int) =~= bins@);
    true
}

/// The first bins of separated bins are separated.
pub proof fn lemma_separated_prefix(bins: Seq<Bin>, n: int)
    requires
        separated(bins),
        0 <= n <= bins.len(),
    ensures
        separated(bins.take(n)),
{
    let prefix = bins.take(n);
    assert forall|a: int, b: int| 0 <= a < b < prefix.len() implies prefix[a].right
        <= prefix[b].left && prefix[a].left < prefix[b].left by {
        assert(bins[a].right <= bins[b].left && bins[a].left < bins[b].left);
    }
}

/// Separated bins do not overlap: each ends before or where the next one
/// starts.
pub proof fn lemma_separated_neighbours(bins: Seq<Bin>, i: int)
    requires
        separated(bins),
        0 <= i < bins.len() - 1,
    ensures
        bins[i].right <= bins[i + 1].left,
{
}

/// Of two gaps of equal size the one further to the left is merged first: no
/// gap is smaller than the one chosen, and none to the left of it is as
/// small.
pub proof fn lemma_equal_gaps_leftmost(bins: Seq<Bin>, j: int)
    requires
        0 <= j < bins.len() - 1,
    ensures
        gap(bins, first_min_gap(bins)) <= gap(bins, j),
        gap(bins, first_min_gap(bins)) == gap(bins, j) ==> first_min_gap(bins) <= j,
{
    lemma_first_min_gap(bins);
}

/// An observation that falls inside the interval of a bin, at or above its
/// left edge and below its right edge, opens no bin and changes no other bin:
/// it only adds to the count and the sum of that bin.
pub proof fn lemma_inserted_inside_bin(
    bins: Seq<Bin>,
    capacity: nat,
    i: int,
    value: i32,
    count: u64,
)
    requires
        valid(bins),
        separated(bins),
        bins.len() <= capacity,
        0 <= i < bins.len(),
        bins[i].left <= value < bins[i].right,
    ensures
        inserted(bins, capacity, value, count) == bins.update(i, bins[i].observed(value, count)),
        inserted(bins, capacity, value, count).len() == bins.len(),
{
    assert forall|k: int| 0 <= k < i + 1 implies (#[trigger] bins[k]).left <= value by {
        if k < i {
            assert(bins[k].left < bins[i].left);
        }
    }
    assert forall|k: int| i + 1 <= k < bins.len() implies (#[trigger] bins[k]).left > value by {
        assert(bins[i].right <= bins[k].left);
    }
    lemma_rank_unique(bins, value as int, i + 1);
    assert(slot(bins, value as int) == Some(i));
}

/// A run of insertions keeps the sequence valid and separated bins
/// separated, and with a capacity above zero the total weight grows by the
/// weight of all the observations.
pub proof fn lemma_inserted_all(bins: Seq<Bin>, capacity: nat, observations: Seq<(i32, u64)>)
    requires
        valid(bins),
        total_count(bins) + total_weight(observations) <= u64::MAX,
    ensures
        valid(inserted_all(bins, capacity, observations)),
        observations.len() > 0 || bins.len() <= capacity ==> inserted_all(
            bins,
            capacity,
            observations,
        ).len() <= capacity,
        capacity > 0 ==> total_count(inserted_all(bins, capacity, observations)) == total_count(
            bins,
        ) + total_weight(observations),
        capacity == 0 ==> total_count(inserted_all(bins, capacity, observations)) <= total_count(
            bins,
        ),
        separated(bins) ==> separated(inserted_all(bins, capacity, observations)),
    decreases observations.len(),
{
    if observations.len() > 0 {
        let rest = observations.drop_last();
        let last = observations.last();
        lemma_total_weight_nonnegative(rest);
        lemma_inserted_all(bins, capacity, rest);
        let before = inserted_all(bins, capacity, rest);
        lemma_total_count_nonnegative(bins);
        lemma_inserted(before, capacity, last.0, last.1);
        if capacity == 0 {
            lemma_total_count_nonnegative(before);
        }
    }
}

} // verus!
