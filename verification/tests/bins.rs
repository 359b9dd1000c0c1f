use dynamic_histogram::bin_sequence::stand_apart;
use dynamic_histogram::distance_index::DistanceIndex;
use dynamic_histogram::{Bin, BinDistance};
use std::cmp::Ordering;

fn record(distance: i64, start: i32, left: usize, right: usize) -> BinDistance {
    BinDistance { distance, start, left, right }
}

#[test]
fn bin_singleton() {
    assert_eq!(
        Bin::singleton(55, 2),
        Bin { left: 55, right: 55, count: 2, sum: 110 }
    );
    assert_eq!(
        Bin::singleton(-3, 4),
        Bin { left: -3, right: -3, count: 4, sum: -12 }
    );
    assert_eq!(
        Bin::singleton(i32::MIN, u64::MAX),
        Bin {
            left: i32::MIN,
            right: i32::MIN,
            count: u64::MAX,
            sum: (i32::MIN as i128) * (u64::MAX as i128)
        }
    );
}

#[test]
fn bin_contains_is_open_on_the_right() {
    let b = Bin { left: 10, right: 20, count: 1, sum: 10 };
    assert!(b.contains(10));
    assert!(b.contains(19));
    assert!(!b.contains(20));
    assert!(!b.contains(9));
    let point = Bin::singleton(5, 1);
    assert!(point.contains(5));
    assert!(!point.contains(4));
    assert!(!point.contains(6));
}

#[test]
fn bin_observe_adds_weight_and_weighted_value() {
    let mut b = Bin { left: 50, right: 55, count: 3, sum: 160 };
    b.observe(52, 1);
    assert_eq!(b, Bin { left: 50, right: 55, count: 4, sum: 212 });
    b.observe(-1, 2);
    assert_eq!(b, Bin { left: 50, right: 55, count: 6, sum: 210 });
}

#[test]
fn bin_absorb_takes_right_edge_and_adds_up() {
    let left = Bin::singleton(50, 1);
    let right = Bin::singleton(55, 2);
    assert_eq!(
        left.absorb(right),
        Bin { left: 50, right: 55, count: 3, sum: 160 }
    );
}

#[test]
fn bin_distance_to_next() {
    let a = Bin { left: 10, right: 20, count: 1, sum: 10 };
    let b = Bin { left: 25, right: 30, count: 1, sum: 25 };
    assert_eq!(a.distance_to(&b), 5);
    assert_eq!(b.distance_to(&a), -20);
    let low = Bin::singleton(i32::MIN, 1);
    let high = Bin::singleton(i32::MAX, 1);
    assert_eq!(low.distance_to(&high), 4294967295);
    assert_eq!(high.distance_to(&low), -4294967295);
}

#[test]
fn records_are_ordered_by_distance_first() {
    assert_eq!(
        record(1, 9, 9, 9).partial_cmp(&record(2, 0, 0, 0)),
        Some(Ordering::Less)
    );
    assert_eq!(
        record(2, 0, 0, 0).partial_cmp(&record(1, 9, 9, 9)),
        Some(Ordering::Greater)
    );
    assert!(record(-5, 0, 0, 0) < record(0, 0, 0, 0));
}

#[test]
fn records_of_equal_distance_are_ordered_from_left_to_right() {
    assert!(record(5, 10, 7, 8) < record(5, 40, 1, 2));
    assert!(record(5, 40, 1, 2) > record(5, 10, 7, 8));
    assert!(record(5, 10, 1, 8) < record(5, 10, 2, 0));
    assert!(record(5, 10, 1, 2) < record(5, 10, 1, 3));
    assert_eq!(
        record(5, 10, 1, 2).partial_cmp(&record(5, 10, 1, 2)),
        Some(Ordering::Equal)
    );
    assert_eq!(record(5, 10, 1, 2), record(5, 10, 1, 2));
    assert_ne!(record(5, 10, 1, 2), record(5, 10, 1, 3));
}

#[test]
fn record_order_agrees_with_derived_order() {
    let all = [
        record(-1, 5, 0, 1),
        record(0, -7, 3, 2),
        record(0, -7, 3, 4),
        record(0, 2, 0, 0),
        record(3, 0, 1, 0),
    ];
    for a in all.iter() {
        for b in all.iter() {
            assert_eq!(a.partial_cmp(b), Some(a.cmp(b)));
            assert_eq!(a.partial_cmp(b), a.to_key().partial_cmp(&b.to_key()));
        }
    }
}

#[test]
fn record_key_round_trip() {
    let r = record(3, -4, 5, 6);
    assert_eq!(r.to_key(), (3, -4, 5, 6));
    assert_eq!(BinDistance::from_key((3, -4, 5, 6)), r);
}

#[test]
fn index_pops_smallest_first() {
    let mut index = DistanceIndex::new();
    assert_eq!(index.pop_smallest(), None);
    index.insert_gap(record(10, 0, 0, 1));
    index.insert_gap(record(5, 40, 3, 4));
    index.insert_gap(record(5, 10, 1, 2));
    index.insert_gap(record(25, 15, 2, 3));
    assert_eq!(index.pop_smallest(), Some(record(5, 10, 1, 2)));
    assert_eq!(index.pop_smallest(), Some(record(5, 40, 3, 4)));
    assert_eq!(index.pop_smallest(), Some(record(10, 0, 0, 1)));
    assert_eq!(index.pop_smallest(), Some(record(25, 15, 2, 3)));
    assert_eq!(index.pop_smallest(), None);
}

#[test]
fn index_removes_exact_record() {
    let mut index = DistanceIndex::new();
    index.insert_gap(record(10, 0, 0, 1));
    index.insert_gap(record(5, 10, 1, 2));
    assert!(!index.remove_gap(record(5, 10, 1, 3)));
    assert!(index.remove_gap(record(5, 10, 1, 2)));
    assert!(!index.remove_gap(record(5, 10, 1, 2)));
    assert_eq!(index.pop_smallest(), Some(record(10, 0, 0, 1)));
}

#[test]
fn index_k_smallest_leaves_index_alone() {
    let mut index = DistanceIndex::new();
    index.insert_gap(record(10, 0, 0, 1));
    index.insert_gap(record(5, 40, 3, 4));
    index.insert_gap(record(5, 10, 1, 2));
    assert_eq!(index.k_smallest(0), vec![]);
    assert_eq!(
        index.k_smallest(2),
        vec![record(5, 10, 1, 2), record(5, 40, 3, 4)]
    );
    assert_eq!(
        index.k_smallest(7),
        vec![record(5, 10, 1, 2), record(5, 40, 3, 4), record(10, 0, 0, 1)]
    );
    assert_eq!(index.pop_smallest(), Some(record(5, 10, 1, 2)));
    let copy = index.clone();
    assert_eq!(index.pop_smallest(), Some(record(5, 40, 3, 4)));
    assert_eq!(copy.k_smallest(1), vec![record(5, 40, 3, 4)]);
}

#[test]
fn stand_apart_looks_at_neighbours() {
    let b = |left: i32, right: i32| Bin { left, right, count: 1, sum: left as i128 };
    assert!(stand_apart(&vec![]));
    assert!(stand_apart(&vec![b(1, 5)]));
    assert!(stand_apart(&vec![b(1, 5), b(5, 5), b(6, 9)]));
    assert!(!stand_apart(&vec![b(1, 5), b(4, 9)]));
    assert!(!stand_apart(&vec![b(5, 5), b(5, 5)]));
    assert!(!stand_apart(&vec![b(1, 2), b(3, 4), b(3, 8)]));
}
