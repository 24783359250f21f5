//! A single contiguous region between a lower and an upper boundary.

use vstd::prelude::*;
use crate::bound::{Bound, low_pos, high_pos, value_pos, low_admits, high_admits, pos_min, pos_max};

verus! {

/// A range between points A and B, each given as a [`Bound`].
#[derive(Clone, Copy, PartialEq, Eq, Structural, Debug)]
pub struct Range {
    pub start: Bound,
    pub end: Bound,
}

/// The range covering the whole domain.
pub open spec fn full_range() -> Range {
    Range { start: Bound::Unbounded, end: Bound::Unbounded }
}

/// First position covered by `r`.
pub open spec fn rng_low(r: Range) -> int {
    low_pos(r.start)
}

/// Last position covered by `r`.
pub open spec fn rng_high(r: Range) -> int {
    high_pos(r.end)
}

/// A range is well formed when it covers at least one position.
pub open spec fn rng_nonempty(r: Range) -> bool {
    rng_low(r) <= rng_high(r)
}

/// Whether position `p` lies within `r`.
pub open spec fn in_rng(r: Range, p: int) -> bool {
    rng_low(r) <= p <= rng_high(r)
}

/// Every covered position lies on the line.
pub proof fn lemma_in_rng_in_line(r: Range, p: int)
    requires
        in_rng(r, p),
    ensures
        pos_min() <= p <= pos_max(),
{
}

impl From<(i64, i64)> for Range {
    /// A pair `(a, b)` denotes the half-open range `[a, b)`.
    fn from(value: (i64, i64)) -> (r: Range)
        ensures
            r == (Range { start: Bound::Included(value.0), end: Bound::Excluded(value.1) }),
    {
        Range { start: Bound::Included(value.0), end: Bound::Excluded(value.1) }
    }
}

impl vstd::std_specs::convert::FromSpecImpl<(i64, i64)> for Range {
    open spec fn obeys_from_spec() -> bool {
        true
    }

    open spec fn from_spec(value: (i64, i64)) -> Range {
        Range { start: Bound::Included(value.0), end: Bound::Excluded(value.1) }
    }
}

impl Range {
    /// Create a new range from the two given bounds.
    ///
    /// The pair is not validated here: a range whose lower bound lies above
    /// its upper bound covers nothing, and the set operations require their
    /// inputs to be nonempty instead.
    pub fn new(from: Bound, to: Bound) -> (r: Range)
        ensures
            r == (Range { start: from, end: to }),
    {
        Range { start: from, end: to }
    }

    /// Create a new infinite range.
    pub fn unbound() -> (r: Range)
        ensures
            r == full_range(),
    {
        Range { start: Bound::Unbounded, end: Bound::Unbounded }
    }

    /// The starting boundary of the range.
    pub fn start(&self) -> (r: Bound)
        ensures
            r == self.start,
    {
        self.start
    }

    /// The starting boundary of the range, tagged with its lower role.
    pub fn start_pos(&self) -> (r: crate::bound::PositionalBound)
        ensures
            r == crate::bound::PositionalBound::Start(self.start),
    {
        crate::bound::PositionalBound::Start(self.start)
    }

    /// The ending boundary of the range.
    pub fn end(&self) -> (r: Bound)
        ensures
            r == self.end,
    {
        self.end
    }

    /// The ending boundary of the range, tagged with its upper role.
    pub fn end_pos(&self) -> (r: crate::bound::PositionalBound)
        ensures
            r == crate::bound::PositionalBound::End(self.end),
    {
        crate::bound::PositionalBound::End(self.end)
    }

    /// Returns `true` if this range is unbounded on both sides.
    pub fn is_unbound(&self) -> (r: bool)
        ensures
            r == (*self == full_range()),
    {
        matches!(self.start, Bound::Unbounded) && matches!(self.end, Bound::Unbounded)
    }

    /// Returns `true` if the given value falls within this range.
    pub fn contains(&self, item: &i64) -> (r: bool)
        ensures
            r == in_rng(*self, value_pos(*item)),
    {
        low_admits(&self.start, item) && high_admits(&self.end, item)
    }

    /// Returns the internal `start` and `end` boundaries.
    pub fn into_inner(self) -> (r: (Bound, Bound))
        ensures
            r == (self.start, self.end),
    {
        (self.start, self.end)
    }
}

} // verus!
