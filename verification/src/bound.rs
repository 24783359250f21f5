//! Interval boundaries and the role-sensitive boundary comparator.
//!
//! The whole algebra is modeled on an integer line of *positions*: a value
//! `v` sits at position `3*v`, the gap just below it at `3*v - 1`, and the
//! gap just above it at `3*v + 1`.  A boundary acting as a lower endpoint
//! admits every position from [`low_pos`] upward; acting as an upper endpoint
//! it admits every position up to [`high_pos`].  All comparator functions are
//! specified, and proved, against these two position maps.

use vstd::prelude::*;
use core::cmp::Ordering;

verus! {

/// One endpoint of a range: unbounded, or a value that is itself included
/// in or excluded from the range.
#[derive(Clone, Copy, PartialEq, Eq, Structural, Debug)]
pub enum Bound {
    Included(i64),
    Excluded(i64),
    Unbounded,
}

/// The least position on the line: the gap just below `i64::MIN`.
pub open spec fn pos_min() -> int {
    3 * (i64::MIN as int) - 1
}

/// The greatest position on the line: the gap just above `i64::MAX`.
pub open spec fn pos_max() -> int {
    3 * (i64::MAX as int) + 1
}

/// The position of the scalar value `x` itself.
pub open spec fn value_pos(x: i64) -> int {
    3 * (x as int)
}

/// First position admitted by `b` when it acts as a lower endpoint.
pub open spec fn low_pos(b: Bound) -> int {
    match b {
        Bound::Included(v) => 3 * (v as int),
        Bound::Excluded(v) => 3 * (v as int) + 1,
        Bound::Unbounded => pos_min(),
    }
}

/// Last position admitted by `b` when it acts as an upper endpoint.
pub open spec fn high_pos(b: Bound) -> int {
    match b {
        Bound::Included(v) => 3 * (v as int),
        Bound::Excluded(v) => 3 * (v as int) - 1,
        Bound::Unbounded => pos_max(),
    }
}

/// Swapping `Included` and `Excluded` mirrors a boundary to the other side
/// of the cut it denotes; `Unbounded` is its own mirror image.
pub open spec fn bound_invert(b: Bound) -> Bound {
    match b {
        Bound::Included(v) => Bound::Excluded(v),
        Bound::Excluded(v) => Bound::Included(v),
        Bound::Unbounded => Bound::Unbounded,
    }
}

/// A lower endpoint stays within the line.
pub proof fn lemma_low_pos_in_line(b: Bound)
    ensures
        pos_min() <= low_pos(b) <= pos_max(),
{
}

/// Two distinct lower endpoints occupy distinct positions.
pub proof fn lemma_low_pos_injective(a: Bound, b: Bound)
    requires
        low_pos(a) == low_pos(b),
    ensures
        a == b,
{
}

/// Two distinct upper endpoints occupy distinct positions.
pub proof fn lemma_high_pos_injective(a: Bound, b: Bound)
    requires
        high_pos(a) == high_pos(b),
    ensures
        a == b,
{
}

/// Inverting an upper endpoint yields the lower endpoint that starts
/// immediately after it, and symmetrically for lower endpoints.
pub proof fn lemma_invert_positions(b: Bound)
    ensures
        b != Bound::Unbounded ==> low_pos(bound_invert(b)) == high_pos(b) + 1,
        b != Bound::Unbounded ==> high_pos(bound_invert(b)) == low_pos(b) - 1,
        bound_invert(bound_invert(b)) == b,
{
}

/// Whether lower endpoint `a` starts at or before lower endpoint `b`.
pub fn low_le(a: &Bound, b: &Bound) -> (r: bool)
    ensures
        r == (low_pos(*a) <= low_pos(*b)),
{
    match (a, b) {
        (Bound::Unbounded, _) => true,
        (_, Bound::Unbounded) => false,
        (Bound::Included(x), Bound::Included(y)) => *x <= *y,
        (Bound::Included(x), Bound::Excluded(y)) => *x <= *y,
        (Bound::Excluded(x), Bound::Included(y)) => *x < *y,
        (Bound::Excluded(x), Bound::Excluded(y)) => *x <= *y,
    }
}

/// Whether lower endpoint `a` starts strictly before lower endpoint `b`.
pub fn low_lt(a: &Bound, b: &Bound) -> (r: bool)
    ensures
        r == (low_pos(*a) < low_pos(*b)),
{
    match (a, b) {
        (_, Bound::Unbounded) => false,
        (Bound::Unbounded, _) => true,
        (Bound::Included(x), Bound::Included(y)) => *x < *y,
        (Bound::Included(x), Bound::Excluded(y)) => *x <= *y,
        (Bound::Excluded(x), Bound::Included(y)) => *x < *y,
        (Bound::Excluded(x), Bound::Excluded(y)) => *x < *y,
    }
}

/// Whether upper endpoint `a` ends strictly before upper endpoint `b`.
pub fn high_lt(a: &Bound, b: &Bound) -> (r: bool)
    ensures
        r == (high_pos(*a) < high_pos(*b)),
{
    match (a, b) {
        (Bound::Unbounded, _) => false,
        (_, Bound::Unbounded) => true,
        (Bound::Included(x), Bound::Included(y)) => *x < *y,
        (Bound::Included(x), Bound::Excluded(y)) => *x < *y,
        (Bound::Excluded(x), Bound::Included(y)) => *x <= *y,
        (Bound::Excluded(x), Bound::Excluded(y)) => *x < *y,
    }
}

/// Whether a nonempty gap separates an interval ending at `e` from one
/// starting at `s`: at least one position lies strictly between them.
pub fn gap_between(e: &Bound, s: &Bound) -> (r: bool)
    ensures
        r == (high_pos(*e) + 2 <= low_pos(*s)),
{
    match (e, s) {
        (Bound::Unbounded, _) => false,
        (_, Bound::Unbounded) => false,
        (Bound::Included(a), Bound::Included(b)) => *a < *b,
        (Bound::Included(a), Bound::Excluded(b)) => *a < *b,
        (Bound::Excluded(a), Bound::Included(b)) => *a < *b,
        (Bound::Excluded(a), Bound::Excluded(b)) => *a <= *b,
    }
}

/// Whether an interval starting at `s` reaches into one ending at `e`,
/// that is, the two admit a common position.
pub fn starts_within(s: &Bound, e: &Bound) -> (r: bool)
    ensures
        r == (low_pos(*s) <= high_pos(*e)),
{
    match (s, e) {
        (Bound::Unbounded, _) => true,
        (_, Bound::Unbounded) => true,
        (Bound::Included(a), Bound::Included(b)) => *a <= *b,
        (Bound::Included(a), Bound::Excluded(b)) => *a < *b,
        (Bound::Excluded(a), Bound::Included(b)) => *a < *b,
        (Bound::Excluded(a), Bound::Excluded(b)) => *a < *b,
    }
}

/// Whether lower endpoint `b` admits the value `x`.
pub fn low_admits(b: &Bound, x: &i64) -> (r: bool)
    ensures
        r == (low_pos(*b) <= value_pos(*x)),
{
    match b {
        Bound::Unbounded => true,
        Bound::Included(v) => *v <= *x,
        Bound::Excluded(v) => *v < *x,
    }
}

/// Whether upper endpoint `b` admits the value `x`.
pub fn high_admits(b: &Bound, x: &i64) -> (r: bool)
    ensures
        r == (high_pos(*b) >= value_pos(*x)),
{
    match b {
        Bound::Unbounded => true,
        Bound::Included(v) => *v >= *x,
        Bound::Excluded(v) => *v > *x,
    }
}

/// Extension methods on [`Bound`]: mirroring a boundary and copying it out
/// from behind a reference.
pub trait BoundExt {
    /// The mirrored boundary, as a specification value.
    spec fn inverted(self) -> Bound;

    /// The boundary itself, as a specification value.
    spec fn as_bound(self) -> Bound;

    /// Mirror this boundary: an included cut becomes excluded and vice
    /// versa, while `Unbounded` stays `Unbounded`.
    fn invert(self) -> (r: Bound)
        ensures
            r == self.inverted(),
    ;

    /// Copy the boundary out from behind a reference.
    fn as_ref(&self) -> (r: Bound)
        ensures
            r == self.as_bound(),
    ;
}

impl BoundExt for Bound {
    open spec fn inverted(self) -> Bound {
        bound_invert(self)
    }

    open spec fn as_bound(self) -> Bound {
        self
    }

    fn invert(self) -> (r: Bound)
        ensures
            r == self.inverted(),
    {
        match self {
            Bound::Included(v) => Bound::Excluded(v),
            Bound::Excluded(v) => Bound::Included(v),
            Bound::Unbounded => Bound::Unbounded,
        }
    }

    fn as_ref(&self) -> (r: Bound)
        ensures
            r == self.as_bound(),
    {
        match self {
            Bound::Included(v) => Bound::Included(*v),
            Bound::Excluded(v) => Bound::Excluded(*v),
            Bound::Unbounded => Bound::Unbounded,
        }
    }
}

/// A boundary together with the role it plays in its interval: `Start` for
/// a lower endpoint, `End` for an upper one.  The role decides how equal
/// values with different inclusivity are ordered, which is what makes a
/// total order over boundaries possible at all.
#[derive(Clone, Copy, Debug)]
pub enum PositionalBound {
    Start(Bound),
    End(Bound),
}

/// The total order on role-tagged boundaries.
///
/// Boundaries of the same role are ordered exactly by their position on the
/// line.  Across roles the order additionally separates the two ways a start
/// can sit right next to an end at the same value: an included start meets
/// an excluded end at the same value head-on (`Equal`), while an excluded
/// start lies strictly above an included end at the same value.
pub open spec fn pb_cmp_spec(a: PositionalBound, b: PositionalBound) -> Ordering {
    match (a, b) {
        (PositionalBound::Start(x), PositionalBound::Start(y)) => {
            if low_pos(x) < low_pos(y) {
                Ordering::Less
            } else if low_pos(x) == low_pos(y) {
                Ordering::Equal
            } else {
                Ordering::Greater
            }
        },
        (PositionalBound::End(x), PositionalBound::End(y)) => {
            if high_pos(x) < high_pos(y) {
                Ordering::Less
            } else if high_pos(x) == high_pos(y) {
                Ordering::Equal
            } else {
                Ordering::Greater
            }
        },
        (PositionalBound::Start(x), PositionalBound::End(y)) => {
            if low_pos(x) <= high_pos(y) {
                Ordering::Less
            } else if x matches Bound::Included(v) && y == Bound::Excluded(v) {
                Ordering::Equal
            } else {
                Ordering::Greater
            }
        },
        (PositionalBound::End(x), PositionalBound::Start(y)) => {
            if high_pos(x) >= low_pos(y) {
                Ordering::Greater
            } else if x matches Bound::Excluded(v) && y == Bound::Included(v) {
                Ordering::Equal
            } else {
                Ordering::Less
            }
        },
    }
}

/// The order on a role-tagged boundary against a scalar value: a boundary
/// never equals a value, it always falls on one or the other side of it.
pub open spec fn pb_value_cmp_spec(a: PositionalBound, x: i64) -> Ordering {
    match a {
        PositionalBound::Start(b) => {
            if low_pos(b) <= value_pos(x) {
                Ordering::Less
            } else {
                Ordering::Greater
            }
        },
        PositionalBound::End(b) => {
            if high_pos(b) >= value_pos(x) {
                Ordering::Greater
            } else {
                Ordering::Less
            }
        },
    }
}

impl PositionalBound {
    /// The boundary stripped of its role.
    pub open spec fn as_bound(self) -> Bound {
        match self {
            PositionalBound::Start(b) => b,
            PositionalBound::End(b) => b,
        }
    }

    /// Total comparison of two role-tagged boundaries.
    pub fn cmp(&self, other: &PositionalBound) -> (r: Ordering)
        ensures
            r == pb_cmp_spec(*self, *other),
    {
        match (self, other) {
            (PositionalBound::Start(x), PositionalBound::Start(y)) => {
                if low_lt(x, y) {
                    Ordering::Less
                } else if low_le(x, y) {
                    Ordering::Equal
                } else {
                    Ordering::Greater
                }
            },
            (PositionalBound::End(x), PositionalBound::End(y)) => {
                if high_lt(x, y) {
                    Ordering::Less
                } else if high_lt(y, x) {
                    Ordering::Greater
                } else {
                    Ordering::Equal
                }
            },
            (PositionalBound::Start(x), PositionalBound::End(y)) => {
                if starts_within(x, y) {
                    Ordering::Less
                } else {
                    match (x, y) {
                        (Bound::Included(v), Bound::Excluded(w)) if *v == *w => Ordering::Equal,
                        _ => Ordering::Greater,
                    }
                }
            },
            (PositionalBound::End(x), PositionalBound::Start(y)) => {
                if starts_within(y, x) {
                    Ordering::Greater
                } else {
                    match (x, y) {
                        (Bound::Excluded(v), Bound::Included(w)) if *v == *w => Ordering::Equal,
                        _ => Ordering::Less,
                    }
                }
            },
        }
    }
}

impl PartialEq for PositionalBound {
    /// Role-tagged boundaries are equal when role and boundary both agree.
    fn eq(&self, other: &PositionalBound) -> (r: bool)
        ensures
            r == (*self == *other),
    {
        match (self, other) {
            (PositionalBound::Start(x), PositionalBound::Start(y)) => x == y,
            (PositionalBound::End(x), PositionalBound::End(y)) => x == y,
            _ => false,
        }
    }
}

impl vstd::std_specs::cmp::PartialEqSpecImpl for PositionalBound {
    open spec fn obeys_eq_spec() -> bool {
        true
    }

    open spec fn eq_spec(&self, other: &PositionalBound) -> bool {
        *self == *other
    }
}

impl Eq for PositionalBound {}

impl PartialOrd for PositionalBound {
    fn partial_cmp(&self, other: &PositionalBound) -> (r: Option<Ordering>)
        ensures
            r == Some(pb_cmp_spec(*self, *other)),
    {
        Some(self.cmp(other))
    }
}

impl vstd::std_specs::cmp::PartialOrdSpecImpl for PositionalBound {
    open spec fn obeys_partial_cmp_spec() -> bool {
        true
    }

    open spec fn partial_cmp_spec(&self, other: &PositionalBound) -> Option<Ordering> {
        Some(pb_cmp_spec(*self, *other))
    }
}

impl PartialEq<i64> for PositionalBound {
    /// A boundary always falls between scalar values, never on one.
    fn eq(&self, _other: &i64) -> (r: bool)
        ensures
            r == false,
    {
        false
    }
}

impl vstd::std_specs::cmp::PartialEqSpecImpl<i64> for PositionalBound {
    open spec fn obeys_eq_spec() -> bool {
        true
    }

    open spec fn eq_spec(&self, _other: &i64) -> bool {
        false
    }
}

impl PartialOrd<i64> for PositionalBound {
    fn partial_cmp(&self, other: &i64) -> (r: Option<Ordering>)
        ensures
            r == Some(pb_value_cmp_spec(*self, *other)),
    {
        let r = match self {
            PositionalBound::Start(b) => {
                if low_admits(b, other) {
                    Ordering::Less
                } else {
                    Ordering::Greater
                }
            },
            PositionalBound::End(b) => {
                if high_admits(b, other) {
                    Ordering::Greater
                } else {
                    Ordering::Less
                }
            },
        };
        Some(r)
    }
}

impl vstd::std_specs::cmp::PartialOrdSpecImpl<i64> for PositionalBound {
    open spec fn obeys_partial_cmp_spec() -> bool {
        true
    }

    open spec fn partial_cmp_spec(&self, other: &i64) -> Option<Ordering> {
        Some(pb_value_cmp_spec(*self, *other))
    }
}

} // verus!
