//! Behavioral tests for the range-set algebra.

use std::cmp::Ordering;
use rangeset::Bound::{Excluded, Included, Unbounded};
use rangeset::{LinearRangeAdder, PositionalBound, Range, RangeSet};

fn rs(items: Vec<Range>) -> RangeSet {
    RangeSet::from_unsorted(items)
}

#[test]
fn adder() {
    let mut adder = LinearRangeAdder::new();
    adder.add(Range::new(Unbounded, Excluded(20)));
    adder.add(Range::new(Unbounded, Excluded(4)));
    adder.add(Range::new(Included(10), Unbounded));
    adder.add(Range::new(Included(50), Unbounded));
    let fin = adder.finalize();

    assert_eq!(RangeSet::unbound(), fin);

    let mut adder = LinearRangeAdder::new();
    adder.add(Range::new(Unbounded, Excluded(1)));
    adder.add(Range::new(Excluded(4), Unbounded));
    let fin = adder.finalize();

    assert_eq!(
        fin.items,
        vec![
            Range::new(Unbounded, Excluded(1)),
            Range::new(Excluded(4), Unbounded),
        ]
    );
}

#[test]
fn position_bounds() {
    let cases: Vec<(PositionalBound, PositionalBound, Ordering)> = vec![
        (
            PositionalBound::Start(Included(1)),
            PositionalBound::End(Included(1)),
            Ordering::Less,
        ),
        (
            PositionalBound::Start(Included(2)),
            PositionalBound::End(Included(1)),
            Ordering::Greater,
        ),
        (
            PositionalBound::Start(Included(1)),
            PositionalBound::End(Excluded(1)),
            Ordering::Equal,
        ),
        (
            PositionalBound::Start(Excluded(1)),
            PositionalBound::End(Included(1)),
            Ordering::Greater,
        ),
        (
            PositionalBound::Start(Excluded(0)),
            PositionalBound::End(Included(1)),
            Ordering::Less,
        ),
        (
            PositionalBound::Start(Excluded(4)),
            PositionalBound::End(Excluded(1)),
            Ordering::Greater,
        ),
        (
            PositionalBound::Start(Included(1)),
            PositionalBound::Start(Included(1)),
            Ordering::Equal,
        ),
        (
            PositionalBound::Start(Included(1)),
            PositionalBound::Start(Included(2)),
            Ordering::Less,
        ),
        (
            PositionalBound::Start(Included(1)),
            PositionalBound::Start(Excluded(1)),
            Ordering::Less,
        ),
        (
            PositionalBound::Start(Included(1)),
            PositionalBound::Start(Excluded(2)),
            Ordering::Less,
        ),
        (
            PositionalBound::Start(Excluded(1)),
            PositionalBound::Start(Excluded(2)),
            Ordering::Less,
        ),
        (
            PositionalBound::Start(Excluded(1)),
            PositionalBound::Start(Included(2)),
            Ordering::Less,
        ),
        (
            PositionalBound::Start(Unbounded),
            PositionalBound::Start(Unbounded),
            Ordering::Equal,
        ),
    ];
    for (left, right, expected) in cases {
        assert_eq!(
            left.cmp(&right),
            expected,
            "Failed to assert that {:?} <=> {:?} = {:?}",
            left,
            right,
            expected
        );
        assert_eq!(
            right.cmp(&left),
            expected.reverse(),
            "Failed to assert that {:?} <=> {:?} = {:?}",
            right,
            left,
            expected.reverse()
        );
    }

    assert_eq!(
        PositionalBound::Start(Unbounded) < PositionalBound::Start(Unbounded),
        false
    );

    assert_ne!(PositionalBound::Start(Excluded(1)), 1);

    assert!(PositionalBound::Start(Excluded(4)) < 5);
    assert!(PositionalBound::End(Included(4)) < 5);
}

#[test]
fn contains() {
    let r = rs(vec![Range::new(Included(4), Unbounded)]);

    assert!(r.contains(&4));

    let r = rs(vec![
        Range::new(Included(0), Excluded(3)),
        Range::new(Included(4), Excluded(5)),
    ]);
    assert!(r.contains(&4));
    // Overshoot the first, undershoot the last
    assert!(!r.contains(&3));

    assert!(!Range::new(Included(0), Excluded(3)).contains(&3));
    assert!(Range::new(Included(0), Excluded(3)).contains(&0));
}

#[test]
fn add() {
    let mut range = rs(vec![Range::new(Included(4), Excluded(8))]);
    range.add(Range::unbound());
    assert_eq!(range, RangeSet::unbound());
    range.add(Range::new(Included(5), Excluded(1234)));
    assert_eq!(range, RangeSet::unbound());

    let mut range = RangeSet::new();
    range.add(Range::new(Included(4), Excluded(10)));
    assert_eq!(rs(vec![Range::new(Included(4), Excluded(10))]), range);

    let mut range = rs(vec![Range::new(Included(20), Excluded(54))]);
    range.add(Range::new(Included(3), Excluded(10)));

    assert_eq!(
        rs(vec![
            Range::new(Included(3), Excluded(10)),
            Range::new(Included(20), Excluded(54)),
        ]),
        range
    );

    let mut range = rs(vec![Range::new(Included(5), Unbounded)]);
    range.add(Range::new(Included(1), Excluded(3)));
    assert_eq!(
        rs(vec![
            Range::new(Included(1), Excluded(3)),
            Range::new(Included(5), Unbounded),
        ]),
        range
    );

    let mut range = rs(vec![Range::new(Included(5), Unbounded)]);
    range.add(Range::new(Included(1), Unbounded));
    assert_eq!(rs(vec![Range::new(Included(1), Unbounded)]), range);
}

#[test]
fn union() {
    let mut left = RangeSet::new();
    let mut right = RangeSet::new();

    assert_eq!(RangeSet::empty(), left);
    let new = left.union(&right);
    assert_eq!(left, new);
    assert_eq!(right, new);

    left.add(Range::new(Unbounded, Included(4)));
    let new = left.union(&right);

    assert_eq!(left, new);
    let new_2 = right.union(&left);
    assert_eq!(new, new_2);

    right.add(Range::new(Included(4), Unbounded));
    let new = left.union(&right);
    assert_eq!(new, RangeSet::unbound());
    let new_2 = right.union(&left);
    assert_eq!(new, new_2);

    let mut left = RangeSet::new();
    let mut right = RangeSet::new();

    left.add(Range::new(Included(1), Included(3)));
    left.add(Range::new(Included(4), Included(6)));
    right.add(Range::new(Included(2), Included(5)));

    let new = left.union(&right);
    let new_2 = right.union(&left);
    assert_eq!(new, new_2);

    let mut expected = RangeSet::new();
    expected.add(Range::new(Included(1), Included(6)));
    assert_eq!(expected, new);
}

#[test]
fn invert() {
    let test: RangeSet = RangeSet::unbound();
    assert_eq!(test.invert(), RangeSet::empty());
    assert_eq!(test.invert().invert(), test);

    let mut test = RangeSet::empty();
    test.add(Range::new(Unbounded, Excluded(4)));

    let mut expected = RangeSet::empty();
    expected.add(Range::new(Included(4), Unbounded));

    assert!(!test.contains(&4));
    assert_eq!(test.invert(), expected);
    assert!(test.invert().contains(&4));
}

#[test]
fn intersection() {
    let left: RangeSet = RangeSet::unbound();
    let right: RangeSet = rs(vec![Range::new(Unbounded, Unbounded)]);

    let intersection = left.intersection(&right);
    assert_eq!(left, intersection);

    let left: RangeSet = rs(vec![Range::new(Included(4), Excluded(10))]);
    let right: RangeSet = rs(vec![Range::new(Included(20), Excluded(50))]);
    let intersection = left.intersection(&right);
    assert_eq!(RangeSet::empty(), intersection);
}

#[test]
fn difference() {
    let left: RangeSet = RangeSet::unbound();
    let right: RangeSet = RangeSet::empty();

    let diff = left.invert().union(&right).invert();
    assert_eq!(RangeSet::unbound(), diff);

    let left: RangeSet = RangeSet::unbound();
    let right: RangeSet = rs(vec![Range::new(Included(1), Included(4))]);

    let expected: RangeSet = rs(vec![
        Range::new(Unbounded, Excluded(1)),
        Range::new(Excluded(4), Unbounded),
    ]);
    assert_eq!(expected, left.difference(&right));

    let left: RangeSet = rs(vec![
        Range::new(Unbounded, Excluded(5)),
        Range::new(Included(8), Unbounded),
    ]);
    let right: RangeSet = rs(vec![Range::new(Included(3), Excluded(10))]);

    let expected = rs(vec![
        Range::new(Unbounded, Excluded(3)),
        Range::new(Included(10), Unbounded),
    ]);
    assert_eq!(expected, left.difference(&right));
}

#[test]
fn is_disjoint() {
    let left: RangeSet = RangeSet::new();
    let right: RangeSet = RangeSet::new();

    assert!(left.is_disjoint(&right));
    assert!(right.is_disjoint(&left));

    let left: RangeSet = rs(vec![Range::new(Unbounded, Unbounded)]);

    assert!(left.is_disjoint(&right));
    assert!(right.is_disjoint(&left));

    let left: RangeSet = rs(vec![Range::new(Unbounded, Unbounded)]);
    let right: RangeSet = rs(vec![Range::new(Unbounded, Unbounded)]);

    assert!(!left.is_disjoint(&right));
    assert!(!right.is_disjoint(&left));

    let left: RangeSet = rs(vec![
        Range::new(Included(1), Excluded(5)),
        Range::new(Included(6), Excluded(20)),
    ]);
    let right: RangeSet = rs(vec![Range::new(Included(7), Excluded(10))]);

    assert!(!left.is_disjoint(&right));
    assert!(!right.is_disjoint(&left));

    let left: RangeSet = rs(vec![
        Range::new(Included(1), Excluded(3)),
        Range::new(Included(8), Excluded(20)),
    ]);
    let right: RangeSet = rs(vec![
        Range::new(Included(3), Excluded(6)),
        Range::new(Included(54), Unbounded),
    ]);

    assert!(left.is_disjoint(&right));
    assert!(right.is_disjoint(&left));
}

#[test]
fn is_overlapping() {
    let left: RangeSet = RangeSet::new();
    let right: RangeSet = RangeSet::new();

    assert!(!left.is_overlapping(&right));
    assert!(!right.is_overlapping(&left));

    let left: RangeSet = rs(vec![Range::new(Unbounded, Unbounded)]);

    assert!(!left.is_overlapping(&right));
    assert!(!right.is_overlapping(&left));

    let left: RangeSet = rs(vec![Range::new(Unbounded, Unbounded)]);
    let right: RangeSet = rs(vec![Range::new(Unbounded, Unbounded)]);

    assert!(left.is_overlapping(&right));
    assert!(right.is_overlapping(&left));

    let left: RangeSet = rs(vec![
        Range::new(Included(1), Excluded(5)),
        Range::new(Included(6), Excluded(20)),
    ]);
    let right: RangeSet = rs(vec![Range::new(Included(7), Excluded(10))]);

    assert!(right.is_overlapping(&left));
    assert!(left.is_overlapping(&right));

    let left: RangeSet = rs(vec![
        Range::new(Included(1), Excluded(3)),
        Range::new(Included(8), Excluded(20)),
    ]);
    let right: RangeSet = rs(vec![
        Range::new(Included(3), Excluded(6)),
        Range::new(Included(54), Unbounded),
    ]);

    assert!(!left.is_overlapping(&right));
    assert!(!right.is_overlapping(&left));
}
