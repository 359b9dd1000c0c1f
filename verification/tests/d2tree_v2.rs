// Values are fixed point with one decimal digit: 5.5 is written 55.

use dynamic_histogram::traits::{DynamicHistogram, EmptyClone, Median, Merge, MergeRef};
use dynamic_histogram::{Bin, Histogram, SimpleVecHistogram};

#[test]
fn d2tree_v2_insert() {
    // fill with the maximum bin number
    let mut h = Histogram::new(5);
    let samples = &[(10_i32, 1_u64), (20, 1), (30, 1), (40, 1), (50, 1)];
    h.insert_iter(samples);

    // checks merging the closest two bins
    h.insert(55, 2);
    {
        let bin = h.bin(4);
        assert_eq!(bin.left, 50);
        assert_eq!(bin.right, 55);
        assert_eq!(bin.count, 3);
        assert_eq!(bin.sum, 160);
    }

    // checks inserting into an existing bin
    h.insert(52, 1);
    {
        let bin = h.bin(4);
        assert_eq!(bin.left, 50);
        assert_eq!(bin.right, 55);
        assert_eq!(bin.count, 4);
        assert_eq!(bin.sum, 212);
    }
}

fn bin(left: i32, right: i32, count: u64, sum: i128) -> Bin {
    Bin { left, right, count, sum }
}

#[test]
fn indexed_fills_single_point_bins() {
    let mut h = Histogram::new(5);
    let samples = &[(10_i32, 1_u64), (20, 1), (30, 1), (40, 1), (50, 1)];
    h.insert_iter(samples);
    assert_eq!(h.len(), 5);
    for (n, s) in samples.iter().enumerate() {
        assert_eq!(*h.bin(n), bin(s.0, s.0, 1, s.0 as i128));
    }
}

#[test]
fn indexed_new_is_empty() {
    let h = Histogram::new(4);
    assert_eq!(h.len(), 0);
    assert_eq!(h.count(), 0);
    assert_eq!(h.bins(), vec![]);
}

#[test]
fn indexed_count_is_sum_of_weights() {
    let mut h = Histogram::new(3);
    let samples = [(7, 2_u64), (-3, 5), (7, 1), (100, 4), (55, 9), (-40, 0), (8, 3)];
    let mut expected = 0_u64;
    for (value, weight) in samples.iter() {
        h.insert(*value, *weight);
        expected += *weight;
        assert_eq!(h.count(), expected);
        assert!(h.len() <= 3);
    }
    assert_eq!(h.count(), 24);
}

#[test]
fn indexed_bins_stay_sorted_and_apart() {
    let mut h = Histogram::new(4);
    let samples = [(50, 1_u64), (10, 1), (30, 1), (20, 1), (40, 1), (25, 1), (-5, 1), (26, 1)];
    for (value, weight) in samples.iter() {
        h.insert(*value, *weight);
        let bins = h.bins();
        for b in bins.iter() {
            assert!(b.left <= b.right);
        }
        for pair in bins.windows(2) {
            assert!(pair[0].right <= pair[1].left);
            assert!(pair[0].left < pair[1].left);
        }
    }
}

#[test]
fn indexed_insert_inside_bin_only_updates_it() {
    let mut h = Histogram::new(2);
    h.insert_iter(&[(10, 1), (20, 1), (40, 1)]);
    assert_eq!(h.bins(), vec![bin(10, 20, 2, 30), bin(40, 40, 1, 40)]);
    h.insert(15, 3);
    assert_eq!(h.bins(), vec![bin(10, 20, 5, 75), bin(40, 40, 1, 40)]);
    h.insert(10, 1);
    assert_eq!(h.bins(), vec![bin(10, 20, 6, 85), bin(40, 40, 1, 40)]);
}

#[test]
fn indexed_equal_gaps_merge_leftmost_pair() {
    let mut h = Histogram::new(3);
    h.insert_iter(&[(10, 1), (20, 1), (30, 1), (40, 1)]);
    assert_eq!(
        h.bins(),
        vec![bin(10, 20, 2, 30), bin(30, 30, 1, 30), bin(40, 40, 1, 40)]
    );
    h.insert(50, 1);
    assert_eq!(
        h.bins(),
        vec![bin(10, 30, 3, 60), bin(40, 40, 1, 40), bin(50, 50, 1, 50)]
    );
}

#[test]
fn indexed_equal_gaps_inserted_right_to_left() {
    // the bins are opened from right to left, so the identifiers do not follow
    // the order of the bins; the leftmost pair is merged all the same
    let mut h = Histogram::new(3);
    h.insert_iter(&[(40, 1), (30, 1), (20, 1), (10, 1)]);
    assert_eq!(
        h.bins(),
        vec![bin(10, 20, 2, 30), bin(30, 30, 1, 30), bin(40, 40, 1, 40)]
    );
}

#[test]
fn indexed_smallest_gap_is_found_anywhere() {
    let mut h = Histogram::new(4);
    h.insert_iter(&[(0, 1), (100, 1), (200, 1), (290, 1), (400, 1)]);
    assert_eq!(
        h.bins(),
        vec![
            bin(0, 0, 1, 0),
            bin(100, 100, 1, 100),
            bin(200, 290, 2, 490),
            bin(400, 400, 1, 400)
        ]
    );
    h.insert(395, 2);
    assert_eq!(
        h.bins(),
        vec![
            bin(0, 0, 1, 0),
            bin(100, 100, 1, 100),
            bin(200, 290, 2, 490),
            bin(395, 400, 3, 1190)
        ]
    );
}

#[test]
fn indexed_agrees_with_simple_histogram() {
    let samples = [
        (50, 1_u64), (10, 2), (30, 1), (20, 4), (40, 1), (25, 1), (-5, 3), (26, 1), (60, 1),
        (70, 1), (80, 1), (75, 5), (75, 5), (-100, 2), (0, 0), (33, 1), (34, 1), (35, 1),
    ];
    for capacity in 0..7 {
        let mut indexed = Histogram::new(capacity);
        let mut simple = SimpleVecHistogram::new(capacity);
        for (value, weight) in samples.iter() {
            indexed.insert(*value, *weight);
            simple.insert(*value, *weight);
            assert_eq!(indexed.bins().as_slice(), simple.bins());
        }
        assert_eq!(indexed.count(), simple.count());
        assert_eq!(indexed.median(), simple.median());
    }
}

#[test]
fn indexed_same_input_gives_same_bins() {
    let samples = [(10, 1_u64), (20, 1), (30, 1), (40, 1), (50, 1), (60, 1), (35, 2)];
    let mut first = Histogram::new(3);
    first.insert_iter(&samples);
    let mut second = Histogram::new(3);
    second.insert_iter(&samples);
    assert_eq!(first.bins(), second.bins());
}

#[test]
fn indexed_capacity_zero_retains_nothing() {
    let mut h = Histogram::new(0);
    h.insert(5, 1);
    h.insert_iter(&[(1, 1), (2, 2)]);
    assert_eq!(h.len(), 0);
    assert_eq!(h.count(), 0);
    assert_eq!(h.median(), None);
}

#[test]
fn indexed_capacity_one_keeps_one_bin() {
    let mut h = Histogram::new(1);
    h.insert_iter(&[(30, 1), (-10, 2), (50, 3)]);
    assert_eq!(h.bins(), vec![bin(-10, 50, 6, 160)]);
}

#[test]
fn indexed_extreme_values_and_weights() {
    let mut h = Histogram::new(1);
    h.insert(i32::MAX, u64::MAX - 1);
    h.insert(i32::MIN, 1);
    let expected_sum = (i32::MIN as i128) + (i32::MAX as i128) * ((u64::MAX - 1) as i128);
    assert_eq!(h.bins(), vec![bin(i32::MIN, i32::MAX, u64::MAX, expected_sum)]);
    assert_eq!(h.count(), u64::MAX);
}

#[test]
fn indexed_search_bins_finds_bin_or_position() {
    let mut h = Histogram::new(3);
    h.insert_iter(&[(10, 1), (20, 1), (30, 1), (33, 1)]);
    assert_eq!(h.search_bins(20), Ok(1));
    assert_eq!(h.search_bins(31), Ok(2));
    assert_eq!(h.search_bins(33), Err(3));
    assert_eq!(h.search_bins(25), Err(2));
    assert_eq!(h.search_bins(5), Err(0));
}

#[test]
fn indexed_closest_pairs_come_in_order() {
    let mut h = Histogram::new(5);
    h.insert_iter(&[(0, 1), (10, 1), (15, 1), (40, 1), (45, 1)]);
    // gaps: 10 after 0, 5 after 10, 25 after 15, 5 after 40
    let pairs = h.closest_pairs(3);
    assert_eq!(pairs.len(), 3);
    assert_eq!((pairs[0].distance, pairs[0].start), (5, 10));
    assert_eq!((pairs[1].distance, pairs[1].start), (5, 40));
    assert_eq!((pairs[2].distance, pairs[2].start), (10, 0));
    assert_eq!(h.closest_pairs(10).len(), 4);
    assert_eq!(h.closest_pairs(0).len(), 0);
    // asking does not change the histogram
    assert_eq!(h.len(), 5);
    h.insert(100, 1);
    assert_eq!(*h.bin(1), bin(10, 15, 2, 25));
}

#[test]
fn indexed_clone_is_independent() {
    let mut h = Histogram::new(2);
    h.insert_iter(&[(10, 1), (20, 1)]);
    let copy = h.clone();
    h.insert(12, 1);
    assert_eq!(copy.bins(), vec![bin(10, 10, 1, 10), bin(20, 20, 1, 20)]);
    assert_eq!(h.bins(), vec![bin(10, 12, 2, 22), bin(20, 20, 1, 20)]);
}

#[test]
fn indexed_empty_clone_keeps_capacity() {
    let mut h = Histogram::new(2);
    h.insert_iter(&[(10, 1), (20, 1)]);
    let mut fresh = h.empty_clone();
    assert_eq!(fresh.len(), 0);
    fresh.insert_iter(&[(1, 1), (2, 1), (4, 1)]);
    assert_eq!(fresh.len(), 2);
}

#[test]
fn indexed_median() {
    let mut h = Histogram::new(2);
    assert_eq!(h.median(), None);
    h.insert_iter(&[(0, 1), (100, 2), (120, 2)]);
    assert_eq!(h.bins(), vec![bin(0, 0, 1, 0), bin(100, 120, 4, 440)]);
    assert_eq!(h.median(), Some(107));
}

fn merge_both_ways(capacity: usize, first: &[(i32, u64)], second: &[(i32, u64)]) {
    {
        let mut indexed = Histogram::new(capacity);
        indexed.insert_iter(&first);
        let mut other = Histogram::new(capacity);
        other.insert_iter(&second);
        let mut simple = SimpleVecHistogram::new(capacity);
        simple.insert_iter(&first);
        let mut simple_other = SimpleVecHistogram::new(capacity);
        simple_other.insert_iter(&second);

        let before = indexed.count() + other.count();
        assert!(indexed.try_merge_ref(&other));
        simple.merge_ref(&simple_other);
        assert_eq!(indexed.bins().as_slice(), simple.bins());
        assert_eq!(indexed.count(), before);
        assert!(indexed.len() <= capacity);

        // the merged histogram goes on working
        indexed.insert(17, 1);
        simple.insert(17, 1);
        assert_eq!(indexed.bins().as_slice(), simple.bins());
    }
}

#[test]
fn indexed_merge_agrees_with_simple_histogram() {
    // with four bins or more each histogram keeps its single points, and the
    // bins of the two alternate
    for capacity in 4..9 {
        merge_both_ways(
            capacity,
            &[(10, 1), (20, 1), (30, 1), (100, 4)],
            &[(15, 2), (25, 2), (60, 1), (61, 1)],
        );
    }
    // with fewer bins each histogram merges its own, and the two lie side by
    // side
    for capacity in 1..4 {
        merge_both_ways(
            capacity,
            &[(10, 1), (20, 1), (30, 1), (100, 4)],
            &[(215, 2), (225, 2), (260, 1), (261, 1)],
        );
    }
}

#[test]
fn indexed_merge_ref_and_merge() {
    let mut a = Histogram::new(3);
    a.insert_iter(&[(10, 1), (20, 1), (30, 1)]);
    let mut b = Histogram::new(3);
    b.insert_iter(&[(15, 2), (25, 2)]);
    let mut by_value = a.clone();
    a.merge_ref(&b);
    assert_eq!(
        a.bins(),
        vec![bin(10, 20, 4, 60), bin(25, 25, 2, 50), bin(30, 30, 1, 30)]
    );
    assert_eq!(a.count(), 7);
    by_value.merge(b);
    assert_eq!(by_value.bins(), a.bins());
}

#[test]
fn indexed_try_merge_turns_overlap_away() {
    let mut a = Histogram::new(2);
    a.insert_iter(&[(1, 1), (5, 1), (50, 1)]);
    assert_eq!(a.bins(), vec![bin(1, 5, 2, 6), bin(50, 50, 1, 50)]);
    let mut inside = Histogram::new(2);
    inside.insert_iter(&[(2, 1), (3, 1)]);
    assert!(!a.try_merge_ref(&inside));
    assert_eq!(a.bins(), vec![bin(1, 5, 2, 6), bin(50, 50, 1, 50)]);
    let mut same_start = Histogram::new(2);
    same_start.insert(50, 1);
    assert!(!a.try_merge_ref(&same_start));
    assert_eq!(a.bins(), vec![bin(1, 5, 2, 6), bin(50, 50, 1, 50)]);
    let mut apart = Histogram::new(2);
    apart.insert(7, 1);
    assert!(a.try_merge_ref(&apart));
    assert_eq!(a.bins(), vec![bin(1, 7, 3, 13), bin(50, 50, 1, 50)]);
}

#[test]
fn indexed_try_merge_turns_too_much_weight_away() {
    let mut a = Histogram::new(2);
    a.insert(1, u64::MAX);
    let mut b = Histogram::new(2);
    b.insert(2, 1);
    assert!(!a.try_merge_ref(&b));
    assert_eq!(a.bins(), vec![bin(1, 1, u64::MAX, u64::MAX as i128)]);
}

#[test]
fn indexed_merge_into_capacity_zero_retains_nothing() {
    let mut a = Histogram::new(0);
    let mut b = Histogram::new(3);
    b.insert_iter(&[(1, 1), (2, 1)]);
    assert!(a.try_merge_ref(&b));
    assert_eq!(a.len(), 0);
    assert_eq!(a.count(), 0);
}
