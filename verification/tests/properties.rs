//! Scenario tests for the documented algebraic properties and edge cases.

use std::cmp::Ordering;
use rangeset::Bound::{Excluded, Included, Unbounded};
use rangeset::{Bound, BoundExt, Range, RangeSet};

fn rs(items: Vec<Range>) -> RangeSet {
    RangeSet::from_unsorted(items)
}

#[test]
fn normalization_idempotent() {
    let raw = vec![
        Range::new(Included(20), Excluded(30)),
        Range::new(Included(1), Included(5)),
        Range::new(Included(4), Excluded(9)),
        Range::new(Excluded(40), Unbounded),
    ];
    let once = RangeSet::from_unsorted(raw);
    let again = RangeSet::from_unsorted(once.items().clone());
    assert_eq!(once, again);
}

#[test]
fn union_identity_absorption() {
    let a = rs(vec![
        Range::new(Included(1), Excluded(5)),
        Range::new(Included(9), Included(12)),
    ]);
    assert_eq!(a.union(&RangeSet::empty()), a);
    assert_eq!(RangeSet::empty().union(&a), a);
    assert_eq!(a.union(&RangeSet::unbound()), RangeSet::unbound());
    assert_eq!(RangeSet::unbound().union(&a), RangeSet::unbound());
}

#[test]
fn union_commutative_associative() {
    let a = rs(vec![Range::new(Included(1), Excluded(5))]);
    let b = rs(vec![Range::new(Included(3), Excluded(9))]);
    let c = rs(vec![Range::new(Included(20), Unbounded)]);
    assert_eq!(a.union(&b), b.union(&a));
    assert_eq!(a.union(&b).union(&c), a.union(&b.union(&c)));
}

#[test]
fn double_inversion() {
    let a = rs(vec![
        Range::new(Excluded(0), Included(7)),
        Range::new(Included(10), Excluded(20)),
        Range::new(Excluded(54), Unbounded),
    ]);
    assert_eq!(a.invert().invert(), a);

    let b = rs(vec![Range::new(Unbounded, Excluded(3))]);
    assert_eq!(b.invert().invert(), b);
}

#[test]
fn invert_boundary_cases() {
    assert_eq!(RangeSet::empty().invert(), RangeSet::unbound());
    assert_eq!(RangeSet::unbound().invert(), RangeSet::empty());
}

#[test]
fn de_morgan_consistency() {
    let a = rs(vec![
        Range::new(Included(4), Excluded(10)),
        Range::new(Included(20), Excluded(30)),
    ]);
    let b = rs(vec![
        Range::new(Unbounded, Excluded(5)),
        Range::new(Included(25), Excluded(34)),
    ]);
    // The intersection equals the De Morgan composition...
    let composed = a.invert().union(&b.invert()).invert();
    assert_eq!(a.intersection(&b), composed);
    // ... and both equal the independently reasoned expected value.
    let expected = rs(vec![
        Range::new(Included(4), Excluded(5)),
        Range::new(Included(25), Excluded(30)),
    ]);
    assert_eq!(a.intersection(&b), expected);
}

#[test]
fn containment_boundary_semantics() {
    let half_open = Range::new(Included(4), Excluded(8));
    assert!(half_open.contains(&4));
    assert!(!half_open.contains(&8));

    let open_start = Range::new(Excluded(4), Unbounded);
    assert!(!open_start.contains(&4));
    assert!(open_start.contains(&5));
}

#[test]
fn add_then_unbound_fills_domain() {
    let mut set = RangeSet::empty();
    set.add(Range::new(Included(4), Excluded(8)));
    set.add(Range::unbound());
    assert_eq!(set, RangeSet::unbound());
    assert!(set.is_unbound());
}

#[test]
fn add_disjoint_keeps_gap() {
    let mut set = rs(vec![Range::new(Included(20), Excluded(54))]);
    set.add(Range::new(Included(3), Excluded(10)));
    let expected = rs(vec![
        Range::new(Included(3), Excluded(10)),
        Range::new(Included(20), Excluded(54)),
    ]);
    assert_eq!(set, expected);
    assert_eq!(set.items().len(), 2);
}

#[test]
fn touching_inclusive_union_is_unbound() {
    let low = rs(vec![Range::new(Unbounded, Included(4))]);
    let high = rs(vec![Range::new(Included(4), Unbounded)]);
    assert_eq!(low.union(&high), RangeSet::unbound());
}

#[test]
fn difference_is_asymmetric() {
    let a = rs(vec![Range::new(Included(15), Excluded(34))]);
    let b = rs(vec![Range::new(Included(3), Excluded(20))]);
    assert_eq!(
        a.difference(&b),
        rs(vec![Range::new(Included(20), Excluded(34))])
    );
    assert_eq!(
        b.difference(&a),
        rs(vec![Range::new(Included(3), Excluded(15))])
    );
}

#[test]
fn disjoint_overlap_duality() {
    let cases = vec![
        (
            rs(vec![Range::new(Included(1), Excluded(5))]),
            rs(vec![Range::new(Included(4), Excluded(9))]),
        ),
        (
            rs(vec![Range::new(Included(1), Excluded(5))]),
            rs(vec![Range::new(Included(6), Excluded(9))]),
        ),
        (
            rs(vec![
                Range::new(Unbounded, Excluded(0)),
                Range::new(Included(10), Excluded(20)),
            ]),
            rs(vec![Range::new(Included(0), Included(9))]),
        ),
        (
            rs(vec![Range::new(Excluded(3), Included(8))]),
            rs(vec![Range::new(Included(8), Excluded(12))]),
        ),
    ];
    for (a, b) in cases {
        assert!(!a.is_empty() && !a.is_unbound());
        assert!(!b.is_empty() && !b.is_unbound());
        assert_eq!(a.is_disjoint(&b), !a.is_overlapping(&b));
        assert_eq!(b.is_disjoint(&a), !b.is_overlapping(&a));
    }
}

#[test]
fn staggered_overlap_detected() {
    // Ranges that overlap in the middle of each other, scanned from both
    // sides.
    let a = rs(vec![Range::new(Included(10), Excluded(20))]);
    let b = rs(vec![Range::new(Included(5), Excluded(15))]);
    assert!(!a.is_disjoint(&b));
    assert!(!b.is_disjoint(&a));
    assert!(a.is_overlapping(&b));
    assert!(b.is_overlapping(&a));
}

#[test]
fn exclusive_boundaries_leave_single_value_gap() {
    // (-inf, 1) and (1, +inf) leave exactly the value 1 uncovered.
    let set = rs(vec![
        Range::new(Unbounded, Excluded(1)),
        Range::new(Excluded(1), Unbounded),
    ]);
    assert_eq!(set.items().len(), 2);
    assert!(!set.contains(&1));
    assert!(set.contains(&0));
    assert!(set.contains(&2));
    let hole = set.invert();
    assert_eq!(hole, rs(vec![Range::new(Included(1), Included(1))]));
    assert!(hole.contains(&1));
}

#[test]
fn touching_exclusive_inclusive_merges() {
    // (-inf, 1) touches [1, +inf): together they cover everything.
    let set = rs(vec![
        Range::new(Unbounded, Excluded(1)),
        Range::new(Included(1), Unbounded),
    ]);
    assert_eq!(set, RangeSet::unbound());
}

#[test]
fn bound_ext_invert() {
    assert_eq!(Excluded(1), Included(1).invert());
    assert_eq!(Included(1), Excluded(1).invert());
    assert_eq!(Unbounded, Unbounded.invert());
    assert_eq!(Included(7), Included(7).as_ref());
}

#[test]
fn range_accessors() {
    let r = Range::new(Included(3), Excluded(9));
    assert_eq!(r.start(), Included(3));
    assert_eq!(r.end(), Excluded(9));
    assert_eq!(r.into_inner(), (Included(3), Excluded(9)));
    assert!(!r.is_unbound());
    assert!(Range::unbound().is_unbound());
    assert_eq!(
        r.start_pos().cmp(&r.end_pos()),
        Ordering::Less,
        "a nonempty range starts below its end"
    );
}

#[test]
fn empty_and_unbound_queries() {
    assert!(RangeSet::empty().is_empty());
    assert!(RangeSet::with_capacity(8).is_empty());
    assert!(!RangeSet::unbound().is_empty());
    assert!(RangeSet::unbound().is_unbound());
    assert!(!RangeSet::empty().is_unbound());
    let one: RangeSet = rs(vec![Range::new(Included(0), Included(0))]);
    assert!(!one.is_unbound());
    assert!(one.contains(&0));
    assert!(!one.contains(&1));
    assert!(!one.contains(&-1));
}

#[test]
fn extreme_values() {
    let set = rs(vec![
        Range::new(Included(i64::MIN), Included(i64::MIN)),
        Range::new(Included(i64::MAX), Unbounded),
    ]);
    assert!(set.contains(&i64::MIN));
    assert!(set.contains(&i64::MAX));
    assert!(!set.contains(&0));
    let inv = set.invert();
    assert!(!inv.contains(&i64::MIN));
    assert!(!inv.contains(&i64::MAX));
    assert!(inv.contains(&0));
    assert_eq!(inv.invert(), set);
}

#[test]
fn from_unsorted_merges_overlaps() {
    let set = rs(vec![
        Range::new(Included(10), Excluded(20)),
        Range::new(Included(1), Excluded(5)),
        Range::new(Included(4), Excluded(11)),
    ]);
    assert_eq!(set, rs(vec![Range::new(Included(1), Excluded(20))]));
    assert_eq!(set.items().len(), 1);
}

#[test]
fn bound_values(){
    let b: Bound = Included(5);
    assert_eq!(b, Included(5));
    assert_ne!(b, Excluded(5));
}

#[test]
fn conversions_and_defaults() {
    let r: Range = Range::from((3, 7));
    assert_eq!(r, Range::new(Included(3), Excluded(7)));
    assert!(r.contains(&3));
    assert!(!r.contains(&7));
    assert!(RangeSet::default().is_empty());
}
