//! The normalizing merger: a stateful linear-scan reducer.
//!
//! Ranges are fed in non-decreasing lower-boundary order; touching or
//! overlapping ranges are coalesced into the pending range, and a nonempty
//! gap flushes the pending range to the output.  The result of
//! [`LinearRangeAdder::finalize`] is a well-formed [`RangeSet`] covering
//! exactly the union of the positions of the ranges fed in.

use vstd::prelude::*;
use crate::bound::{Bound, pos_min, pos_max, gap_between, high_lt};
use crate::range::{Range, rng_low, rng_high, rng_nonempty, in_rng, lemma_in_rng_in_line};
use crate::model::{covered, seq_wf, lemma_covered_push};
use crate::set::RangeSet;

verus! {

/// Accumulates sorted ranges into a normalized sequence.
#[derive(Debug)]
pub struct LinearRangeAdder {
    pub items: Vec<Range>,
    pub last: Option<Range>,
}

impl Default for LinearRangeAdder {
    /// The default merger is freshly created, with nothing accumulated.
    fn default() -> (r: LinearRangeAdder)
        ensures
            r.wf(),
            !r.saturated(),
            r.low_mark() == pos_min(),
            forall|p: int| !r.coverage(p),
    {
        LinearRangeAdder::with_capacity(4)
    }
}

impl LinearRangeAdder {
    /// Internal consistency: the flushed output is well formed, and the
    /// pending range, if any, is nonempty and lies beyond the output's last
    /// gap.  Without a pending range nothing has been flushed yet.
    pub open spec fn wf(self) -> bool {
        &&& seq_wf(self.items@)
        &&& match self.last {
            Some(v) => rng_nonempty(v) && (self.items@.len() > 0 ==> rng_high(
                self.items@.last(),
            ) + 2 <= rng_low(v)),
            None => self.items@.len() == 0,
        }
    }

    /// The least lower position the next fed range may have.
    pub open spec fn low_mark(self) -> int {
        match self.last {
            Some(v) => rng_low(v),
            None => pos_min(),
        }
    }

    /// The positions accumulated so far, output and pending together.
    pub open spec fn coverage(self, p: int) -> bool {
        covered(self.items@, p) || (match self.last {
            Some(v) => in_rng(v, p),
            None => false,
        })
    }

    /// Once the pending range is unbounded above, no further input can
    /// extend the accumulated positions.
    pub open spec fn saturated(self) -> bool {
        match self.last {
            Some(v) => v.end == Bound::Unbounded,
            None => false,
        }
    }

    /// Create a fresh merger.
    pub fn new() -> (r: LinearRangeAdder)
        ensures
            r.wf(),
            !r.saturated(),
            r.low_mark() == pos_min(),
            forall|p: int| !r.coverage(p),
    {
        LinearRangeAdder { items: Vec::new(), last: None }
    }

    /// Create a fresh merger whose output buffer has the given capacity.
    pub fn with_capacity(cap: usize) -> (r: LinearRangeAdder)
        ensures
            r.wf(),
            !r.saturated(),
            r.low_mark() == pos_min(),
            forall|p: int| !r.coverage(p),
    {
        LinearRangeAdder { items: Vec::with_capacity(cap), last: None }
    }

    /// Feed the next range.
    ///
    /// The range must be nonempty and must not start below the pending
    /// range.  Returns `true` once the pending range is unbounded above, at
    /// which point callers may stop feeding: every further sorted range is
    /// already covered, and a saturated merger ignores further input.
    pub fn add(&mut self, range: Range) -> (r: bool)
        requires
            old(self).wf(),
            rng_nonempty(range),
            old(self).low_mark() <= rng_low(range),
        ensures
            final(self).wf(),
            r == final(self).saturated(),
            old(self).low_mark() <= final(self).low_mark(),
            final(self).low_mark() <= rng_low(range),
            forall|p: int|
                #[trigger] final(self).coverage(p) == (old(self).coverage(p) || in_rng(range, p)),
            old(self).saturated() ==> *final(self) == *old(self),
    {
        match self.last {
            None => {
                self.last = Some(range);
                proof {
                    assert forall|p: int|
                        #[trigger] self.coverage(p) == (old(self).coverage(p) || in_rng(
                            range,
                            p,
                        )) by {}
                }
                matches!(range.end, Bound::Unbounded)
            },
            Some(v) => {
                if matches!(v.end, Bound::Unbounded) {
                    // Saturated: the pending range reaches the top of the
                    // line and the new range starts above its lower end.
                    proof {
                        assert forall|p: int| in_rng(range, p) implies in_rng(v, p) by {
                            lemma_in_rng_in_line(range, p);
                        }
                    }
                    return true;
                }
                if gap_between(&v.end, &range.start) {
                    // A nonempty gap: flush the pending range.
                    self.items.push(v);
                    self.last = Some(range);
                    proof {
                        assert forall|p: int|
                            #[trigger] self.coverage(p) == (old(self).coverage(p) || in_rng(
                                range,
                                p,
                            )) by {
                            lemma_covered_push(old(self).items@, v, p);
                        }
                        assert(self.items@.last() == v);
                        assert forall|i: int| 0 <= i < self.items@.len() - 1 implies rng_high(
                            #[trigger] self.items@[i],
                        ) + 2 <= rng_low(self.items@[i + 1]) by {
                            if i < old(self).items@.len() - 1 {
                                assert(old(self).items@[i] == self.items@[i]);
                                assert(old(self).items@[i + 1] == self.items@[i + 1]);
                                assert(rng_high(old(self).items@[i]) + 2 <= rng_low(
                                    old(self).items@[i + 1],
                                ));
                            } else {
                                assert(self.items@[i] == old(self).items@.last());
                            }
                        }
                    }
                } else {
                    // Touching or overlapping: widen the pending range if
                    // the new upper bound reaches farther.
                    let merged = if high_lt(&v.end, &range.end) {
                        Range { start: v.start, end: range.end }
                    } else {
                        v
                    };
                    self.last = Some(merged);
                    proof {
                        assert forall|p: int|
                            #[trigger] self.coverage(p) == (old(self).coverage(p) || in_rng(
                                range,
                                p,
                            )) by {}
                    }
                }
                match &self.last {
                    Some(w) => matches!(w.end, Bound::Unbounded),
                    None => false,
                }
            },
        }
    }

    /// Flush the pending range and hand over the accumulated set.
    pub fn finalize(self) -> (r: RangeSet)
        requires
            self.wf(),
        ensures
            seq_wf(r@),
            forall|p: int| #[trigger] covered(r@, p) == self.coverage(p),
    {
        let LinearRangeAdder { mut items, last } = self;
        match last {
            Some(v) => {
                items.push(v);
                proof {
                    assert forall|p: int|
                        #[trigger] covered(items@, p) == self.coverage(p) by {
                        lemma_covered_push(self.items@, v, p);
                    }
                    assert(items@.last() == v);
                    assert forall|i: int| 0 <= i < items@.len() - 1 implies rng_high(
                        #[trigger] items@[i],
                    ) + 2 <= rng_low(items@[i + 1]) by {
                        if i < self.items@.len() - 1 {
                            assert(self.items@[i] == items@[i]);
                            assert(self.items@[i + 1] == items@[i + 1]);
                            assert(rng_high(self.items@[i]) + 2 <= rng_low(self.items@[i + 1]));
                        } else {
                            assert(items@[i] == self.items@.last());
                        }
                    }
                }
            },
            None => {},
        }
        RangeSet { items }
    }

    /// A saturated merger already covers every position from its low mark
    /// to the top of the line.
    pub proof fn lemma_saturated_covers(self, p: int)
        requires
            self.wf(),
            self.saturated(),
            self.low_mark() <= p <= pos_max(),
        ensures
            self.coverage(p),
    {
    }
}

} // verus!
