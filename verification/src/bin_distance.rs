//! The record of the gap between two neighbouring bins.

use std::cmp::Ordering;
use vstd::prelude::*;

verus! {

/// The gap between two bins that stand next to each other.
///
/// `distance` is the gap itself, `start` is the left edge of the bin on the
/// left, and `left` and `right` are the identifiers of the two bins. Records
/// are ordered by these four in turn, so that of two equal gaps the one
/// further to the left comes first.
#[derive(Clone, Copy, Debug, PartialEq, Eq, Structural, Ord)]
pub struct BinDistance {
    pub distance: i64,
    pub start: i32,
    pub left: usize,
    pub right: usize,
}

impl BinDistance {
    /// The four parts of the record in the order in which they are compared.
    pub open spec fn key(self) -> (i64, i32, usize, usize) {
        (self.distance, self.start, self.left, self.right)
    }

    /// Whether this record comes strictly before `other`.
    pub open spec fn precedes(self, other: BinDistance) -> bool {
        self.distance < other.distance || (self.distance == other.distance && (self.start
            < other.start || (self.start == other.start && (self.left < other.left || (self.left
            == other.left && self.right < other.right)))))
    }

    /// Whether this record comes before `other` or is `other`.
    pub open spec fn at_most(self, other: BinDistance) -> bool {
        self.precedes(other) || self == other
    }

    /// The four parts of the record in the order in which they are compared.
    pub fn to_key(&self) -> (key: (i64, i32, usize, usize))
        ensures
            key == self.key(),
    {
        (self.distance, self.start, self.left, self.right)
    }

    /// The record with the given four parts.
    pub fn from_key(key: (i64, i32, usize, usize)) -> (record: BinDistance)
        ensures
            record.key() == key,
    {
        BinDistance { distance: key.0, start: key.1, left: key.2, right: key.3 }
    }
}

impl PartialOrd for BinDistance {
    fn partial_cmp(&self, other: &Self) -> (order: Option<Ordering>) {
        if self.distance != other.distance {
            if self.distance < other.distance {
                Some(Ordering::Less)
            } else {
                Some(Ordering::Greater)
            }
        } else if self.start != other.start {
            if self.start < other.start {
                Some(Ordering::Less)
            } else {
                Some(Ordering::Greater)
            }
        } else if self.left != other.left {
            if self.left < other.left {
                Some(Ordering::Less)
            } else {
                Some(Ordering::Greater)
            }
        } else if self.right != other.right {
            if self.right < other.right {
                Some(Ordering::Less)
            } else {
                Some(Ordering::Greater)
            }
        } else {
            Some(Ordering::Equal)
        }
    }
}

impl vstd::std_specs::cmp::PartialOrdSpecImpl for BinDistance {
    open spec fn obeys_partial_cmp_spec() -> bool {
        true
    }

    open spec fn partial_cmp_spec(&self, other: &Self) -> Option<Ordering> {
        if self.precedes(*other) {
            Some(Ordering::Less)
        } else if *self == *other {
            Some(Ordering::Equal)
        } else {
            Some(Ordering::Greater)
        }
    }
}

} // verus!
