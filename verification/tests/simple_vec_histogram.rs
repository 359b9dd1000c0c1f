// Values are fixed point with one decimal digit: 5.5 is written 55.

use dynamic_histogram::traits::{DynamicHistogram, Merge};
use dynamic_histogram::{Bin, SimpleVecHistogram};

#[test]
fn simple_vec_histogram_insert() {
    // fill with the maximum bin number
    let mut h = SimpleVecHistogram::new(5);
    let samples = &[(10_i32, 1_u64), (20, 1), (30, 1), (40, 1), (50, 1)];
    h.insert_iter(samples);

    for (bin, s) in h.bins().iter().zip(samples.iter()) {
        assert_eq!(s.0, bin.left);
        assert_eq!(s.0, bin.right);
    }
    // checks merging the closest two bins
    h.insert(55, 2);
    assert_eq!(
        h.bins()[4],
        Bin {
            left: 50,
            right: 55,
            count: 3,
            sum: 160,
        }
    );
    // checks inserting into an existing bin
    h.insert(52, 1);
    assert_eq!(
        h.bins()[4],
        Bin {
            left: 50,
            right: 55,
            count: 4,
            sum: 212,
        }
    );
}

#[test]
fn merge() {
    // fill with the maximum bin number
    let samples1 = &[(10, 1), (20, 1), (30, 1), (40, 1), (50, 1)];
    let samples2 = &[(11, 1), (21, 1), (31, 1), (41, 1), (51, 1)];

    let mut h = SimpleVecHistogram::new(5);
    h.insert_iter(samples1);
    println!("{:?}", h);

    let mut h2 = SimpleVecHistogram::new(5);
    h2.insert_iter(samples2);
    println!("{:?}", h2);

    h.merge(h2);
    println!("{:?}", h);
    assert_eq!(h.bins().len(), 5);
    assert_eq!(
        h.bins()[2],
        Bin {
            left: 30,
            right: 31,
            count: 2,
            sum: 61,
        }
    );
    assert_eq!(
        h.bins()[4],
        Bin {
            left: 50,
            right: 51,
            count: 2,
            sum: 101,
        }
    );
}

fn bin(left: i32, right: i32, count: u64, sum: i128) -> Bin {
    Bin { left, right, count, sum }
}

#[test]
fn simple_new_is_empty() {
    let h = SimpleVecHistogram::new(4);
    assert_eq!(h.bins().len(), 0);
    assert_eq!(h.count(), 0);
}

#[test]
fn simple_count_is_sum_of_weights() {
    let mut h = SimpleVecHistogram::new(3);
    let samples = [(7, 2_u64), (-3, 5), (7, 1), (100, 4), (55, 9), (-40, 0), (8, 3)];
    let mut expected = 0_u64;
    for (value, weight) in samples.iter() {
        h.insert(*value, *weight);
        expected += *weight;
        assert_eq!(h.count(), expected);
        assert!(h.bins().len() <= 3);
    }
    assert_eq!(h.count(), 24);
}

#[test]
fn simple_bins_stay_sorted_and_apart() {
    let mut h = SimpleVecHistogram::new(4);
    let samples = [(50, 1_u64), (10, 1), (30, 1), (20, 1), (40, 1), (25, 1), (-5, 1), (26, 1)];
    for (value, weight) in samples.iter() {
        h.insert(*value, *weight);
        let bins = h.bins();
        for b in bins.iter() {
            assert!(b.left <= b.right);
        }
        for pair in bins.windows(2) {
            assert!(pair[0].right <= pair[1].left);
            assert!(pair[0].left < pair[1].left);
        }
    }
}

#[test]
fn simple_insert_inside_bin_only_updates_it() {
    let mut h = SimpleVecHistogram::new(2);
    h.insert_iter(&[(10, 1), (20, 1), (40, 1)]);
    assert_eq!(h.bins(), &[bin(10, 20, 2, 30), bin(40, 40, 1, 40)][..]);
    h.insert(15, 3);
    assert_eq!(h.bins(), &[bin(10, 20, 5, 75), bin(40, 40, 1, 40)][..]);
    // the left edge belongs to the bin
    h.insert(10, 1);
    assert_eq!(h.bins(), &[bin(10, 20, 6, 85), bin(40, 40, 1, 40)][..]);
}

#[test]
fn simple_right_edge_opens_a_new_bin() {
    let mut h = SimpleVecHistogram::new(3);
    h.insert_iter(&[(10, 1), (20, 1), (40, 1), (90, 1)]);
    assert_eq!(
        h.bins(),
        &[bin(10, 20, 2, 30), bin(40, 40, 1, 40), bin(90, 90, 1, 90)][..]
    );
    // 20 is the right edge of the first bin and is not inside it
    h.insert(20, 1);
    assert_eq!(
        h.bins(),
        &[bin(10, 20, 3, 50), bin(40, 40, 1, 40), bin(90, 90, 1, 90)][..]
    );
}

#[test]
fn simple_single_point_bin_takes_its_own_value() {
    let mut h = SimpleVecHistogram::new(3);
    h.insert(5, 1);
    h.insert(5, 2);
    assert_eq!(h.bins(), &[bin(5, 5, 3, 15)][..]);
}

#[test]
fn simple_equal_gaps_merge_leftmost_pair() {
    let mut h = SimpleVecHistogram::new(3);
    h.insert_iter(&[(10, 1), (20, 1), (30, 1), (40, 1)]);
    assert_eq!(
        h.bins(),
        &[bin(10, 20, 2, 30), bin(30, 30, 1, 30), bin(40, 40, 1, 40)][..]
    );
    h.insert(50, 1);
    assert_eq!(
        h.bins(),
        &[bin(10, 30, 3, 60), bin(40, 40, 1, 40), bin(50, 50, 1, 50)][..]
    );
}

#[test]
fn simple_smallest_gap_is_found_anywhere() {
    let mut h = SimpleVecHistogram::new(4);
    h.insert_iter(&[(0, 1), (100, 1), (200, 1), (290, 1), (400, 1)]);
    assert_eq!(
        h.bins(),
        &[
            bin(0, 0, 1, 0),
            bin(100, 100, 1, 100),
            bin(200, 290, 2, 490),
            bin(400, 400, 1, 400)
        ][..]
    );
    h.insert(395, 2);
    assert_eq!(
        h.bins(),
        &[
            bin(0, 0, 1, 0),
            bin(100, 100, 1, 100),
            bin(200, 290, 2, 490),
            bin(395, 400, 3, 1190)
        ][..]
    );
}

#[test]
fn simple_same_input_gives_same_bins() {
    let samples = [(10, 1_u64), (20, 1), (30, 1), (40, 1), (50, 1), (60, 1), (35, 2)];
    let mut first = SimpleVecHistogram::new(3);
    first.insert_iter(&samples);
    let mut second = SimpleVecHistogram::new(3);
    second.insert_iter(&samples);
    assert_eq!(first, second);
}

#[test]
fn simple_capacity_zero_retains_nothing() {
    let mut h = SimpleVecHistogram::new(0);
    h.insert(5, 1);
    h.insert_iter(&[(1, 1), (2, 2)]);
    assert_eq!(h.bins().len(), 0);
    assert_eq!(h.count(), 0);
}

#[test]
fn simple_capacity_one_keeps_one_bin() {
    let mut h = SimpleVecHistogram::new(1);
    h.insert_iter(&[(30, 1), (-10, 2), (50, 3)]);
    assert_eq!(h.bins(), &[bin(-10, 50, 6, 160)][..]);
}

#[test]
fn simple_extreme_values_and_weights() {
    let mut h = SimpleVecHistogram::new(1);
    h.insert(i32::MIN, 1);
    h.insert(i32::MAX, u64::MAX - 1);
    let expected_sum = (i32::MIN as i128) + (i32::MAX as i128) * ((u64::MAX - 1) as i128);
    assert_eq!(h.bins(), &[bin(i32::MIN, i32::MAX, u64::MAX, expected_sum)][..]);
    assert_eq!(h.count(), u64::MAX);
}

#[test]
fn simple_zero_weight_opens_a_bin() {
    let mut h = SimpleVecHistogram::new(2);
    h.insert(7, 0);
    assert_eq!(h.bins(), &[bin(7, 7, 0, 0)][..]);
    assert_eq!(h.count(), 0);
}

#[test]
fn simple_search_bins_finds_bin_or_position() {
    let mut h = SimpleVecHistogram::new(3);
    h.insert_iter(&[(10, 1), (20, 1), (30, 1), (33, 1)]);
    // bins: [10,10] [20,20] [30,33]
    assert_eq!(h.search_bins(20), Ok(1));
    assert_eq!(h.search_bins(31), Ok(2));
    assert_eq!(h.search_bins(30), Ok(2));
    assert_eq!(h.search_bins(33), Err(3));
    assert_eq!(h.search_bins(25), Err(2));
    assert_eq!(h.search_bins(5), Err(0));
    assert_eq!(h.search_bins(40), Err(3));
    let empty = SimpleVecHistogram::new(3);
    assert_eq!(empty.search_bins(1), Err(0));
}

#[test]
fn simple_clone_is_independent() {
    let mut h = SimpleVecHistogram::new(2);
    h.insert_iter(&[(10, 1), (20, 1)]);
    let copy = h.clone();
    h.insert(12, 1);
    assert_eq!(copy.bins(), &[bin(10, 10, 1, 10), bin(20, 20, 1, 20)][..]);
    assert_eq!(h.bins(), &[bin(10, 12, 2, 22), bin(20, 20, 1, 20)][..]);
}
