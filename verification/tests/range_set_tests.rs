use audio_fetch::range_set::{Range, RangeSet};

#[test]
fn add_then_subtract_yields_empty() {
    let mut s = RangeSet::new();
    s.add_range(&Range::new(100, 50));
    s.subtract_range(&Range::new(100, 50));
    assert!(s.is_empty());
}

#[test]
fn add_two_then_intersect_complement_is_empty() {
    let mut s = RangeSet::new();
    s.add_range(&Range::new(10, 20));
    s.add_range(&Range::new(100, 40));
    // The complement of the two ranges within a generous window.
    let mut complement = RangeSet::new();
    complement.add_range(&Range::new(0, 1000));
    complement.subtract_range(&Range::new(10, 20));
    complement.subtract_range(&Range::new(100, 40));
    let both = s.intersection(&complement);
    assert!(both.is_empty());
}

#[test]
fn adjacent_ranges_merge_into_one() {
    let mut s = RangeSet::new();
    s.add_range(&Range::new(0, 100));
    s.add_range(&Range::new(100, 50));
    assert_eq!(s.num_ranges(), 1);
    assert_eq!(s.get_range(0), Range::new(0, 150));
}

#[test]
fn overlapping_ranges_merge_into_one() {
    let mut s = RangeSet::new();
    s.add_range(&Range::new(0, 100));
    s.add_range(&Range::new(50, 100));
    assert_eq!(s.num_ranges(), 1);
    assert_eq!(s.get_range(0), Range::new(0, 150));
}

#[test]
fn disjoint_ranges_stay_separate_and_sorted() {
    let mut s = RangeSet::new();
    s.add_range(&Range::new(200, 10));
    s.add_range(&Range::new(0, 10));
    assert_eq!(s.num_ranges(), 2);
    assert_eq!(s.get_range(0), Range::new(0, 10));
    assert_eq!(s.get_range(1), Range::new(200, 10));
}

#[test]
fn subtract_splits_a_range() {
    let mut s = RangeSet::new();
    s.add_range(&Range::new(0, 100));
    s.subtract_range(&Range::new(40, 20));
    assert_eq!(s.num_ranges(), 2);
    assert_eq!(s.get_range(0), Range::new(0, 40));
    assert_eq!(s.get_range(1), Range::new(60, 40));
}

#[test]
fn subtract_range_set_removes_all_listed_bytes() {
    let mut s = RangeSet::new();
    s.add_range(&Range::new(0, 100));
    let mut other = RangeSet::new();
    other.add_range(&Range::new(0, 10));
    other.add_range(&Range::new(90, 10));
    s.subtract_range_set(&other);
    assert_eq!(s.num_ranges(), 1);
    assert_eq!(s.get_range(0), Range::new(10, 80));
}

#[test]
fn intersection_keeps_common_bytes() {
    let mut a = RangeSet::new();
    a.add_range(&Range::new(0, 100));
    let mut b = RangeSet::new();
    b.add_range(&Range::new(50, 100));
    let both = a.intersection(&b);
    assert_eq!(both.num_ranges(), 1);
    assert_eq!(both.get_range(0), Range::new(50, 50));
}

#[test]
fn minus_keeps_uncovered_bytes() {
    let mut a = RangeSet::new();
    a.add_range(&Range::new(0, 100));
    let mut b = RangeSet::new();
    b.add_range(&Range::new(20, 30));
    let diff = a.minus(&b);
    assert_eq!(diff.num_ranges(), 2);
    assert_eq!(diff.get_range(0), Range::new(0, 20));
    assert_eq!(diff.get_range(1), Range::new(50, 50));
    // `a` itself is unchanged.
    assert_eq!(a.num_ranges(), 1);
}

#[test]
fn contained_length_counts_bytes_from_a_value() {
    let mut s = RangeSet::new();
    s.add_range(&Range::new(10, 10));
    s.add_range(&Range::new(40, 10));
    assert_eq!(s.len(), 20);
    assert_eq!(s.contained_length_from_value(0), 20);
    assert_eq!(s.contained_length_from_value(15), 15);
    assert_eq!(s.contained_length_from_value(40), 10);
    assert_eq!(s.contained_length_from_value(100), 0);
}

#[test]
fn empty_set_reports_empty() {
    let s = RangeSet::new();
    assert!(s.is_empty());
    assert_eq!(s.num_ranges(), 0);
    assert_eq!(s.len(), 0);
}
