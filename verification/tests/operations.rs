use dynamic_histogram::median::{count_bins, median_bins};
use dynamic_histogram::traits::{
    DynamicHistogram, EmptyClone, HistogramBin, Median, Merge, MergeIter, MergeRef,
};
use dynamic_histogram::{Bin, SimpleVecHistogram};

fn bin(left: i32, right: i32, count: u64, sum: i128) -> Bin {
    Bin { left, right, count, sum }
}

fn filled(capacity: usize, samples: &[(i32, u64)]) -> SimpleVecHistogram {
    let mut h = SimpleVecHistogram::new(capacity);
    h.insert_iter(samples);
    h
}

#[test]
fn merge_ref_keeps_total_weight() {
    let mut a = filled(3, &[(10, 1), (20, 1), (30, 1)]);
    let b = filled(3, &[(15, 2), (25, 2)]);
    let before = a.count() + b.count();
    a.merge_ref(&b);
    assert_eq!(a.count(), before);
    assert_eq!(a.count(), 7);
    assert_eq!(
        a.bins(),
        &[bin(10, 20, 4, 60), bin(25, 25, 2, 50), bin(30, 30, 1, 30)][..]
    );
    // the other histogram is left as it was
    assert_eq!(b.bins(), &[bin(15, 15, 2, 30), bin(25, 25, 2, 50)][..]);
}

#[test]
fn merge_and_merge_ref_agree() {
    let mut by_ref = filled(4, &[(1, 1), (50, 2), (90, 1), (200, 7)]);
    let mut by_value = by_ref.clone();
    let other = filled(4, &[(2, 1), (51, 2), (60, 1), (300, 1)]);
    by_ref.merge_ref(&other);
    by_value.merge(other);
    assert_eq!(by_ref, by_value);
    assert!(by_ref.bins().len() <= 4);
}

#[test]
fn merge_puts_bins_of_first_before_equal_bins_of_second() {
    let mut a = filled(4, &[(10, 1), (20, 1)]);
    let b = filled(4, &[(10, 5), (20, 7)]);
    a.merge_ref(&b);
    assert_eq!(
        a.bins(),
        &[bin(10, 10, 1, 10), bin(10, 10, 5, 50), bin(20, 20, 1, 20), bin(20, 20, 7, 140)][..]
    );
}

#[test]
fn merge_sorts_bins_that_come_unsorted() {
    let mut a = filled(5, &[(100, 1), (200, 1)]);
    let b = filled(5, &[(1, 1), (150, 1), (300, 1)]);
    a.merge_ref(&b);
    assert_eq!(
        a.bins(),
        &[
            bin(1, 1, 1, 1),
            bin(100, 100, 1, 100),
            bin(150, 150, 1, 150),
            bin(200, 200, 1, 200),
            bin(300, 300, 1, 300)
        ][..]
    );
}

#[test]
fn merge_of_overlapping_histograms_keeps_both_bins() {
    let mut a = filled(1, &[(1, 1), (5, 1)]);
    let b = filled(1, &[(2, 1), (3, 1)]);
    assert_eq!(a.bins(), &[bin(1, 5, 2, 6)][..]);
    assert_eq!(b.bins(), &[bin(2, 3, 2, 5)][..]);
    let mut wide = SimpleVecHistogram::new(2);
    wide.merge_ref(&a);
    wide.merge_ref(&b);
    assert_eq!(wide.bins(), &[bin(1, 5, 2, 6), bin(2, 3, 2, 5)][..]);
    assert_eq!(wide.count(), 4);
    // under a budget of one bin the two are merged like any neighbours
    a.merge_ref(&b);
    assert_eq!(a.bins(), &[bin(1, 3, 4, 11)][..]);
}

#[test]
fn merge_into_capacity_zero_retains_nothing() {
    let mut a = SimpleVecHistogram::new(0);
    let b = filled(3, &[(1, 1), (2, 1)]);
    a.merge_ref(&b);
    assert_eq!(a.bins().len(), 0);
    assert_eq!(a.count(), 0);
}

#[test]
fn empty_clone_keeps_capacity() {
    let h = filled(2, &[(10, 1), (20, 1)]);
    let mut fresh = h.empty_clone();
    assert_eq!(fresh.bins().len(), 0);
    fresh.insert_iter(&[(1, 1), (2, 1), (4, 1)]);
    assert_eq!(fresh.bins(), &[bin(1, 2, 2, 3), bin(4, 4, 1, 4)][..]);
}

#[test]
fn merge_iter_folds_all_histograms() {
    let parts = vec![
        filled(3, &[(10, 1), (20, 1)]),
        filled(3, &[(15, 2)]),
        filled(3, &[(40, 1), (100, 3)]),
    ];
    let all: Option<SimpleVecHistogram> = parts.as_slice().merge();
    let all = all.unwrap();
    assert_eq!(all.count(), 8);
    // 10 15 20 40 100 under three bins: 10..15, then 10..20, leave 40 and 100
    assert_eq!(
        all.bins(),
        &[bin(10, 20, 4, 60), bin(40, 40, 1, 40), bin(100, 100, 3, 300)][..]
    );
    let mut by_hand = parts[0].empty_clone();
    by_hand.merge_ref(&parts[0]);
    by_hand.merge_ref(&parts[1]);
    by_hand.merge_ref(&parts[2]);
    assert_eq!(all, by_hand);
}

#[test]
fn merge_iter_of_nothing_is_none() {
    let parts: Vec<SimpleVecHistogram> = vec![];
    let all: Option<SimpleVecHistogram> = parts.as_slice().merge();
    assert!(all.is_none());
}

#[test]
fn median_of_empty_histogram_is_none() {
    let h = SimpleVecHistogram::new(3);
    assert_eq!(h.median(), None);
    let weightless = filled(3, &[(10, 0), (20, 0)]);
    assert_eq!(weightless.median(), None);
}

#[test]
fn median_of_single_point_bin_is_the_point() {
    let h = filled(5, &[(10, 1), (20, 1), (30, 1)]);
    assert_eq!(h.median(), Some(20));
    let one = filled(5, &[(-7, 3)]);
    assert_eq!(one.median(), Some(-7));
}

#[test]
fn median_is_interpolated_inside_a_bin() {
    // one bin from 10 to 20 with weight 4: half of the weight is reached in
    // the middle
    let h = filled(1, &[(10, 1), (20, 3)]);
    assert_eq!(h.bins(), &[bin(10, 20, 4, 70)][..]);
    assert_eq!(h.median(), Some(15));
    // weight 1 before a bin from 100 to 120 with weight 4: the target 2.5 lies
    // 1.5 into the bin, 100 + 20 * 1.5 / 4 = 107.5
    let h = filled(2, &[(0, 1), (100, 2), (120, 2)]);
    assert_eq!(h.median(), Some(107));
    // first bin reaches exactly half of the weight: its right edge
    let h = filled(2, &[(0, 2), (10, 2), (30, 4)]);
    assert_eq!(h.bins(), &[bin(0, 10, 4, 20), bin(30, 30, 4, 120)][..]);
    assert_eq!(h.median(), Some(10));
}

#[test]
fn median_skips_bins_without_weight() {
    let h = filled(3, &[(10, 0), (20, 1)]);
    assert_eq!(h.median(), Some(20));
}

#[test]
fn median_with_negative_values_and_full_range() {
    let h = filled(1, &[(i32::MIN, 1), (i32::MAX, 1)]);
    // left + (right - left) * 2 / 4, rounded down
    assert_eq!(h.median(), Some(-1));
    let h = filled(1, &[(-30, 1), (-10, 1)]);
    assert_eq!(h.median(), Some(-20));
}

#[test]
fn count_bins_adds_up_weights() {
    assert_eq!(count_bins(&[]), 0);
    assert_eq!(count_bins(&[bin(1, 2, 3, 4), bin(5, 6, 7, 40)]), 10);
}

#[test]
fn median_bins_on_plain_bins() {
    assert_eq!(median_bins(&[]), None);
    assert_eq!(median_bins(&[bin(0, 0, 1, 0), bin(100, 120, 4, 440)]), Some(107));
    assert_eq!(median_bins(&[bin(10, 20, 4, 70)]), Some(15));
}

#[test]
fn bin_accessors() {
    let b = bin(10, 21, 3, 45);
    assert_eq!(HistogramBin::center(&b), 15);
    assert_eq!(HistogramBin::count(&b), 3);
    assert_eq!(HistogramBin::sum(&b), 45);
    let negative = bin(-21, -10, 1, -15);
    assert_eq!(HistogramBin::center(&negative), -16);
    let wide = bin(i32::MIN, i32::MAX, 1, 0);
    assert_eq!(HistogramBin::center(&wide), -1);
}
