//! The index of the gaps between neighbouring bins, ordered by distance.

use crate::bin_distance::BinDistance;
use std::collections::BTreeSet;
use vstd::prelude::*;

verus! {

/// Whether key `a` comes before key `b` or is `b`, comparing part by part.
pub open spec fn key_at_most(a: (i64, i32, usize, usize), b: (i64, i32, usize, usize)) -> bool {
    a.0 < b.0 || (a.0 == b.0 && (a.1 < b.1 || (a.1 == b.1 && (a.2 < b.2 || (a.2 == b.2 && a.3
        <= b.3)))))
}

/// Takes the smallest key out of a set with `BTreeSet::pop_first`.
///
/// Trusted: an empty set gives nothing and stays as it is; otherwise the key
/// returned was in the set, no key of the set comes before it in the order of
/// tuples, and it is the one key that has left the set.
#[verifier::external_body]
fn pop_first_key(keys: &mut BTreeSet<(i64, i32, usize, usize)>) -> (popped: Option<
    (i64, i32, usize, usize),
>)
    ensures
        match popped {
            None => old(keys)@ == Set::<(i64, i32, usize, usize)>::empty() && final(keys)@ == old(
                keys,
            )@,
            Some(key) => {
                &&& old(keys)@.contains(key)
                &&& final(keys)@ == old(keys)@.remove(key)
                &&& forall|other: (i64, i32, usize, usize)| #[trigger]
                    old(keys)@.contains(other) ==> key_at_most(key, other)
            },
        },
{
    keys.pop_first()
}

/// The gap records of a histogram, one for each pair of neighbouring bins,
/// from which the smallest can be taken.
#[derive(Debug)]
pub struct DistanceIndex {
    records: BTreeSet<(i64, i32, usize, usize)>,
}

impl View for DistanceIndex {
    type V = Set<BinDistance>;

    /// The records that the index holds.
    closed spec fn view(&self) -> Set<BinDistance> {
        Set::new(|record: BinDistance| self.records@.contains(record.key()))
    }
}

impl Clone for DistanceIndex {
    /// The copy holds the same records.
    fn clone(&self) -> (copy: DistanceIndex)
        ensures
            copy@ == self@,
    {
        let copy = DistanceIndex { records: self.records.clone() };
        assert(copy@ =~= self@);
        copy
    }
}

impl DistanceIndex {
    /// Makes an index without records.
    pub fn new() -> (index: DistanceIndex)
        ensures
            index@ == Set::<BinDistance>::empty(),
    {
        let index = DistanceIndex { records: BTreeSet::new() };
        assert(index@ =~= Set::<BinDistance>::empty());
        index
    }

    /// Adds the record of a gap.
    pub fn insert_gap(&mut self, record: BinDistance)
        ensures
            final(self)@ == old(self)@.insert(record),
    {
        self.records.insert(record.to_key());
        assert(self@ =~= old(self)@.insert(record));
    }

    /// Takes the record of a gap out of the index and tells whether it was
    /// there.
    pub fn remove_gap(&mut self, record: BinDistance) -> (removed: bool)
        ensures
            final(self)@ == old(self)@.remove(record),
            removed == old(self)@.contains(record),
    {
        let key = record.to_key();
        let removed = self.records.remove(&key);
        assert(self@ =~= old(self)@.remove(record));
        removed
    }

    /// The `k` smallest records in ascending order, or all records where
    /// there are fewer. The index stays as it is.
    pub fn k_smallest(&self, k: usize) -> (smallest: Vec<BinDistance>)
        ensures
            smallest@.len() <= k,
            forall|i: int| 0 <= i < smallest@.len() ==> self@.contains(#[trigger] smallest@[i]),
            forall|i: int, j: int|
                0 <= i < j < smallest@.len() ==> smallest@[i].precedes(smallest@[j]),
            forall|i: int, other: BinDistance|
                0 <= i < smallest@.len() && self@.contains(other) && !smallest@.contains(other)
                    ==> #[trigger] smallest@[i].precedes(other),
            smallest@.len() < k ==> forall|other: BinDistance|
                self@.contains(other) ==> #[trigger] smallest@.contains(other),
    {
        let mut rest = self.clone();
        let mut smallest: Vec<BinDistance> = Vec::new();
        let mut exhausted = false;
        while smallest.len() < k && !exhausted
            invariant
                smallest@.len() <= k,
                forall|i: int|
                    0 <= i < smallest@.len() ==> self@.contains(#[trigger] smallest@[i])
                        && !rest@.contains(smallest@[i]),
                forall|i: int, j: int|
                    0 <= i < j < smallest@.len() ==> smallest@[i].precedes(smallest@[j]),
                forall|other: BinDistance|
                    self@.contains(other) <==> #[trigger] rest@.contains(other)
                        || smallest@.contains(other),
                forall|i: int, other: BinDistance|
                    0 <= i < smallest@.len() && rest@.contains(other)
                        ==> #[trigger] smallest@[i].precedes(other),
                exhausted ==> rest@ == Set::<BinDistance>::empty(),
            decreases k - smallest@.len() + (if exhausted { 0int } else { 1int }),
        {
            let ghost taken = smallest@;
            let ghost left = rest@;
            match rest.pop_smallest() {
                None => {
                    exhausted = true;
                },
                Some(record) => {
                    smallest.push(record);
                    proof {
                        assert forall|other: BinDistance|
                            self@.contains(other) <==> #[trigger] rest@.contains(other)
                                || smallest@.contains(other) by {
                            if taken.contains(other) {
                                let i = choose|i: int| 0 <= i < taken.len() && taken[i] == other;
                                assert(smallest@[i] == other);
                            }
                            if other == record {
                                assert(smallest@[taken.len() as int] == other);
                            }
                            if smallest@.contains(other) {
                                let i = choose|i: int|
                                    0 <= i < smallest@.len() && smallest@[i] == other;
                                if i < taken.len() {
                                    assert(taken[i] == other);
                                }
                            }
                        }
                        assert forall|i: int, other: BinDistance|
                            0 <= i < smallest@.len() && rest@.contains(
                                other,
                            ) implies #[trigger] smallest@[i].precedes(other) by {
                            assert(left.contains(other));
                            if i < taken.len() {
                                assert(taken[i].precedes(other));
                            } else {
                                assert(record.at_most(other));
                            }
                        }
                        assert forall|i: int, j: int|
                            0 <= i < j < smallest@.len() implies smallest@[i].precedes(
                            smallest@[j],
                        ) by {
                            if j < taken.len() {
                                assert(taken[i].precedes(taken[j]));
                            } else {
                                assert(taken[i].precedes(record));
                            }
                        }
                    }
                },
            }
        }
        proof {
            assert forall|i: int, other: BinDistance|
                0 <= i < smallest@.len() && self@.contains(other) && !smallest@.contains(
                    other,
                ) implies #[trigger] smallest@[i].precedes(other) by {
                assert(rest@.contains(other));
            }
            if smallest@.len() < k {
                assert forall|other: BinDistance| self@.contains(other) implies #[trigger]
                    smallest@.contains(other) by {
                    assert(!rest@.contains(other));
                }
            }
        }
        smallest
    }

    /// Takes the smallest record out of the index, if there is any.
    pub fn pop_smallest(&mut self) -> (popped: Option<BinDistance>)
        ensures
            match popped {
                None => old(self)@ == Set::<BinDistance>::empty() && final(self)@ == old(self)@,
                Some(record) => {
                    &&& old(self)@.contains(record)
                    &&& final(self)@ == old(self)@.remove(record)
                    &&& forall|other: BinDistance| #[trigger]
                        old(self)@.contains(other) ==> record.at_most(other)
                },
            },
    {
        match pop_first_key(&mut self.records) {
            None => {
                assert(old(self)@ =~= Set::<BinDistance>::empty());
                None
            },
            Some(key) => {
                let record = BinDistance::from_key(key);
                assert(self@ =~= old(self)@.remove(record));
                assert forall|other: BinDistance| #[trigger]
                    old(self)@.contains(other) implies record.at_most(other) by {
                    assert(old(self).records@.contains(other.key()));
                    assert(key_at_most(key, other.key()));
                }
                Some(record)
            },
        }
    }
}

} // verus!
