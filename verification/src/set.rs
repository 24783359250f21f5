//! The ordered set of normalized, disjoint ranges and its operations.

use vstd::prelude::*;
use crate::bound::{
    Bound, BoundExt, pos_min, pos_max, low_pos, high_pos, low_le, low_lt, low_admits, high_admits,
    starts_within, value_pos, lemma_low_pos_in_line, lemma_invert_positions,
};
use crate::range::{Range, full_range, rng_low, rng_high, rng_nonempty, in_rng, lemma_in_rng_in_line};
use crate::model::{
    covered, seq_wf, sets_intersect, union_post, normalize_post, complement_post, lemma_wf_ordered,
    lemma_covered_in_line, lemma_covered_take_step, lemma_covered_split, lemma_covered_push,
    lemma_covered_remove, lemma_full_coverage, lemma_full_wf, lemma_none_cover,
    lemma_covered_singleton, lemma_wf_push,
};
use crate::internal::LinearRangeAdder;

verus! {

/// A set of ranges: a sorted sequence of nonempty, pairwise disjoint,
/// maximally coalesced ranges.  The sequence is the unique normalized
/// representation of the positions it covers.
#[derive(Debug)]
pub struct RangeSet {
    pub items: Vec<Range>,
}

impl View for RangeSet {
    type V = Seq<Range>;

    open spec fn view(&self) -> Seq<Range> {
        self.items@
    }
}

impl Default for RangeSet {
    /// The default set is empty.
    fn default() -> (r: RangeSet)
        ensures
            r@ == Seq::<Range>::empty(),
            r.wf(),
    {
        RangeSet::with_capacity(5)
    }
}

impl RangeSet {
    /// The normalization invariant, as a predicate on the abstract state.
    pub open spec fn wf(self) -> bool {
        seq_wf(self@)
    }

    /// Whether this set covers the position `p` of the line.
    pub open spec fn covers(self, p: int) -> bool {
        covered(self@, p)
    }

    /// Create a new, empty set.
    pub fn new() -> (r: RangeSet)
        ensures
            r@ == Seq::<Range>::empty(),
            r.wf(),
    {
        Self::with_capacity(5)
    }

    /// Create a new, empty set.
    pub fn empty() -> (r: RangeSet)
        ensures
            r@ == Seq::<Range>::empty(),
            r.wf(),
    {
        Self::with_capacity(0)
    }

    /// Create the set covering the whole domain.
    pub fn unbound() -> (r: RangeSet)
        ensures
            r@ == seq![full_range()],
            r.wf(),
    {
        let mut items: Vec<Range> = Vec::with_capacity(1);
        items.push(Range::unbound());
        proof {
            assert(items@ =~= seq![full_range()]);
            lemma_full_wf();
        }
        RangeSet { items }
    }

    /// Create a new, empty set backed by the given capacity.
    pub fn with_capacity(data: usize) -> (r: RangeSet)
        ensures
            r@ == Seq::<Range>::empty(),
            r.wf(),
    {
        RangeSet { items: Vec::with_capacity(data) }
    }

    /// Whether this is the empty set.
    pub fn is_empty(&self) -> (r: bool)
        ensures
            r == (self@.len() == 0),
    {
        self.items.len() == 0
    }

    /// Whether this set is the full-domain set.
    pub fn is_unbound(&self) -> (r: bool)
        ensures
            r == (self@ == seq![full_range()]),
    {
        let r = self.items.len() == 1 && self.items[0].is_unbound();
        proof {
            if r {
                assert(self@ =~= seq![full_range()]);
            }
            if self@ == seq![full_range()] {
                assert(self@[0] == full_range());
            }
        }
        r
    }

    /// The normalized ranges making up this set, in ascending order.
    pub fn items(&self) -> (r: &Vec<Range>)
        ensures
            r@ == self@,
    {
        &self.items
    }

    /// Whether `other` falls within one of the ranges of this set.
    #[verifier::loop_isolation(false)]
    pub fn contains(&self, other: &i64) -> (r: bool)
        requires
            self.wf(),
        ensures
            r == self.covers(value_pos(*other)),
    {
        let ghost q = value_pos(*other);
        let n = self.items.len();
        let mut idx: usize = 0;
        while idx < n
            invariant
                self.wf(),
                n == self@.len(),
                idx <= n,
                forall|j: int| 0 <= j < idx ==> !in_rng(#[trigger] self@[j], q),
            decreases n - idx,
        {
            let rg = self.items[idx];
            proof {
                assert(rg == self@[idx as int]);
            }
            if low_admits(&rg.start, other) {
                if high_admits(&rg.end, other) {
                    proof {
                        assert(in_rng(self@[idx as int], q));
                    }
                    return true;
                }
                proof {
                    assert(!in_rng(self@[idx as int], q));
                }
            } else {
                // This range already starts above the value; every later
                // range starts higher still.
                proof {
                    assert(!in_rng(self@[idx as int], q));
                    assert forall|j: int| 0 <= j < n implies !in_rng(#[trigger] self@[j], q) by {
                        if j > idx {
                            lemma_wf_ordered(self@, idx as int, j);
                        }
                    }
                    lemma_none_cover(self@, q);
                }
                return false;
            }
            idx += 1;
        }
        proof {
            lemma_none_cover(self@, q);
        }
        false
    }

    /// Add a new range to this set.
    ///
    /// The set is re-normalized: the result covers the old positions plus
    /// those of `range`, as a sorted, disjoint, maximally coalesced
    /// sequence.  The range must be nonempty.
    #[verifier::loop_isolation(false)]
    pub fn add(&mut self, range: Range)
        requires
            old(self).wf(),
            rng_nonempty(range),
        ensures
            final(self).wf(),
            forall|p: int|
                #[trigger] final(self).covers(p) == (old(self).covers(p) || in_rng(range, p)),
    {
        // If the set is already unbounded, adding changes nothing.
        if self.is_unbound() {
            proof {
                assert forall|p: int|
                    #[trigger] self.covers(p) == (old(self).covers(p) || in_rng(range, p)) by {
                    lemma_full_coverage(p);
                    if in_rng(range, p) {
                        lemma_in_rng_in_line(range, p);
                    }
                }
            }
            return ;
        }
        // If the given range is unbounded, the whole set becomes unbounded.
        if range.is_unbound() {
            self.items.clear();
            self.items.push(range);
            proof {
                assert(self@ =~= seq![full_range()]);
                lemma_full_wf();
                assert forall|p: int|
                    #[trigger] self.covers(p) == (old(self).covers(p) || in_rng(range, p)) by {
                    lemma_full_coverage(p);
                    if old(self).covers(p) {
                        lemma_covered_in_line(old(self)@, p);
                    }
                }
            }
            return ;
        }
        // If the set is empty, the range becomes its sole member.
        if self.is_empty() {
            self.items.push(range);
            proof {
                assert forall|p: int|
                    #[trigger] self.covers(p) == (old(self).covers(p) || in_rng(range, p)) by {
                    lemma_covered_push(old(self)@, range, p);
                }
            }
            return ;
        }
        // General case: merge with the singleton set holding the range.
        let ghost src = self@;
        let mut single: Vec<Range> = Vec::with_capacity(1);
        single.push(range);
        let other = RangeSet { items: single };
        proof {
            assert(other@ =~= seq![range]);
            assert(seq![range][0] == range);
        }
        let merged = self.union(&other);
        self.items = merged.items;
        proof {
            assert forall|p: int|
                #[trigger] self.covers(p) == (covered(src, p) || in_rng(range, p)) by {
                lemma_covered_singleton(range, p);
            }
        }
    }

    /// Create the union of this set and the given set.
    ///
    /// The result covers exactly the positions covered by either operand,
    /// again as the unique normalized sequence.  Neither operand is
    /// changed.
    #[verifier::loop_isolation(false)]
    pub fn union(&self, other: &RangeSet) -> (r: RangeSet)
        requires
            self.wf(),
            other.wf(),
        ensures
            union_post(self@, other@, r@),
    {
        if other.is_empty() {
            let r = self.duplicate();
            proof {
                assert forall|p: int|
                    #[trigger] covered(r@, p) == (covered(self@, p) || covered(other@, p)) by {
                    lemma_none_cover(other@, p);
                }
            }
            return r;
        }
        if self.is_empty() {
            let r = other.duplicate();
            proof {
                assert forall|p: int|
                    #[trigger] covered(r@, p) == (covered(self@, p) || covered(other@, p)) by {
                    lemma_none_cover(self@, p);
                }
            }
            return r;
        }
        let ghost sa = self@;
        let ghost sb = other@;
        let na = self.items.len();
        let nb = other.items.len();
        let mut adder = LinearRangeAdder::new();
        let mut i: usize = 0;
        let mut j: usize = 0;
        let mut done = false;
        while (i < na || j < nb) && !done
            invariant
                i <= na,
                j <= nb,
                adder.wf(),
                forall|k: int| i <= k < na ==> adder.low_mark() <= rng_low(#[trigger] sa[k]),
                forall|k: int| j <= k < nb ==> adder.low_mark() <= rng_low(#[trigger] sb[k]),
                !done ==> (forall|p: int|
                    #[trigger] adder.coverage(p) == (covered(sa.take(i as int), p) || covered(
                        sb.take(j as int),
                        p,
                    ))),
                done ==> (forall|p: int|
                    #[trigger] adder.coverage(p) == (covered(sa, p) || covered(sb, p))),
            decreases (na - i) + (nb - j) + (if done { 0int } else { 1int }),
        {
            let take_left = if i < na {
                if j < nb {
                    low_le(&self.items[i].start, &other.items[j].start)
                } else {
                    true
                }
            } else {
                false
            };
            if take_left {
                let item = self.items[i];
                let sat = adder.add(item);
                proof {
                    assert forall|k: int| i + 1 <= k < na implies adder.low_mark() <= rng_low(
                        #[trigger] sa[k],
                    ) by {
                        lemma_wf_ordered(sa, i as int, k);
                    }
                    assert forall|k: int| j <= k < nb implies adder.low_mark() <= rng_low(
                        #[trigger] sb[k],
                    ) by {
                        if k > j {
                            lemma_wf_ordered(sb, j as int, k);
                        }
                    }
                }
                if sat {
                    done = true;
                    proof {
                        assert forall|p: int|
                            #[trigger] adder.coverage(p) == (covered(sa.take(i as int + 1), p)
                            || covered(sb.take(j as int), p)) by {
                            lemma_covered_take_step(sa, i as int, p);
                        }
                        lemma_union_scan_absorbs(adder, sa, sb, i as int + 1, j as int);
                    }
                } else {
                    proof {
                        assert forall|p: int|
                            #[trigger] adder.coverage(p) == (covered(sa.take(i as int + 1), p)
                            || covered(sb.take(j as int), p)) by {
                            lemma_covered_take_step(sa, i as int, p);
                        }
                    }
                }
                i += 1;
            } else {
                let item = other.items[j];
                let sat = adder.add(item);
                proof {
                    assert forall|k: int| j + 1 <= k < nb implies adder.low_mark() <= rng_low(
                        #[trigger] sb[k],
                    ) by {
                        lemma_wf_ordered(sb, j as int, k);
                    }
                    assert forall|k: int| i <= k < na implies adder.low_mark() <= rng_low(
                        #[trigger] sa[k],
                    ) by {
                        if k > i {
                            lemma_wf_ordered(sa, i as int, k);
                        }
                    }
                }
                if sat {
                    done = true;
                    proof {
                        assert forall|p: int|
                            #[trigger] adder.coverage(p) == (covered(sa.take(i as int), p)
                            || covered(sb.take(j as int + 1), p)) by {
                            lemma_covered_take_step(sb, j as int, p);
                        }
                        lemma_union_scan_absorbs(adder, sa, sb, i as int, j as int + 1);
                    }
                } else {
                    proof {
                        assert forall|p: int|
                            #[trigger] adder.coverage(p) == (covered(sa.take(i as int), p)
                            || covered(sb.take(j as int + 1), p)) by {
                            lemma_covered_take_step(sb, j as int, p);
                        }
                    }
                }
                j += 1;
            }
        }
        proof {
            if !done {
                assert(sa.take(na as int) =~= sa);
                assert(sb.take(nb as int) =~= sb);
            }
        }
        let fin = adder.finalize();
        fin
    }


    /// Invert this set: the result covers exactly the positions of the
    /// line that this set leaves uncovered.
    ///
    /// The complement of a sorted, disjoint sequence is produced in one
    /// pass, already normalized.
    #[verifier::loop_isolation(false)]
    pub fn invert(&self) -> (r: RangeSet)
        requires
            self.wf(),
        ensures
            complement_post(self@, r@),
    {
        // The empty set inverts to the full set and vice versa.
        if self.is_empty() {
            let r = Self::unbound();
            proof {
                lemma_complement_of_empty(self@);
            }
            return r;
        }
        if self.is_unbound() {
            let r = Self::empty();
            proof {
                lemma_complement_of_full(self@);
            }
            return r;
        }
        self.invert_scan()
    }

    /// The complement pass over a nonempty set that is not the full set.
    fn invert_scan(&self) -> (r: RangeSet)
        requires
            self.wf(),
            self@.len() > 0,
            self@ != seq![full_range()],
        ensures
            complement_post(self@, r@),
    {
        let ghost s = self@;
        let n = self.items.len();
        let out: Vec<Range> = Vec::new();
        let first = self.items[0];
        if matches!(first.start, Bound::Unbounded) {
            // The set starts at the bottom of the line, so the complement
            // starts just beyond the first range.  A first range unbounded
            // on both sides is the full set, handled by the caller.
            proof {
                if first.end == Bound::Unbounded {
                    if n > 1 {
                        assert(rng_high(s[0]) + 2 <= rng_low(s[1]));
                        lemma_low_pos_in_line(s[1].start);
                        assert(false);
                    } else {
                        assert(s =~= seq![full_range()]);
                        assert(false);
                    }
                }
            }
            let lo = first.end.invert();
            proof {
                lemma_invert_init_unb(s, lo, out@);
            }
            self.invert_from(1, lo, out)
        } else {
            proof {
                lemma_invert_init_low(s, out@);
            }
            self.invert_from(0, Bound::Unbounded, out)
        }
    }

    /// Walk the remaining ranges, emitting the complement range that ends
    /// at each one and opening the next just beyond it.
    fn invert_from(&self, start_idx: usize, lo: Bound, out: Vec<Range>) -> (r: RangeSet)
        requires
            self.wf(),
            start_idx <= self@.len(),
            seq_wf(out@),
            pos_min() <= low_pos(lo) <= pos_max(),
            out@.len() > 0 ==> rng_high(out@.last()) + 2 <= low_pos(lo),
            forall|k: int|
                start_idx <= k < self@.len() ==> low_pos(lo) < rng_low(#[trigger] self@[k]),
            forall|p: int|
                #[trigger] covered(out@, p) == (pos_min() <= p < low_pos(lo) && !covered(
                    self@,
                    p,
                )),
            forall|p: int|
                low_pos(lo) <= p ==> !(#[trigger] covered(self@.take(start_idx as int), p)),
        ensures
            complement_post(self@, r@),
    {
        let ghost s = self@;
        let n = self.items.len();
        let mut out = out;
        let mut cur_start = lo;
        let mut i = start_idx;
        while i < n
            invariant
                self.wf(),
                s == self@,
                n == s.len(),
                i <= n,
                seq_wf(out@),
                pos_min() <= low_pos(cur_start) <= pos_max(),
                out@.len() > 0 ==> rng_high(out@.last()) + 2 <= low_pos(cur_start),
                forall|k: int| i <= k < n ==> low_pos(cur_start) < rng_low(#[trigger] s[k]),
                forall|p: int|
                    #[trigger] covered(out@, p) == (pos_min() <= p < low_pos(cur_start)
                    && !covered(s, p)),
                forall|p: int|
                    low_pos(cur_start) <= p ==> !(#[trigger] covered(s.take(i as int), p)),
            decreases n - i,
        {
            let item = self.items[i];
            let ghost old_out = out@;
            let ghost old_cur = cur_start;
            let comp = Range { start: cur_start, end: item.start.invert() };
            proof {
                assert(item == s[i as int]);
                if item.start == Bound::Unbounded {
                    lemma_low_pos_in_line(cur_start);
                    assert(false);
                }
                lemma_invert_step(s, i as int, old_out, old_cur, comp);
            }
            out.push(comp);
            if matches!(item.end, Bound::Unbounded) {
                // The set reaches the top of the line: the complement is
                // complete.
                proof {
                    lemma_invert_last(s, i as int, out@);
                }
                let r = RangeSet { items: out };
                return r;
            }
            cur_start = item.end.invert();
            proof {
                lemma_invert_advance(s, i as int, old_cur, out@, cur_start);
            }
            i += 1;
        }
        // Close the final complement range at the top of the line.
        let ghost old_out = out@;
        let tail = Range { start: cur_start, end: Bound::Unbounded };
        proof {
            assert(s.take(n as int) =~= s);
            assert forall|p: int| low_pos(cur_start) <= p implies !(#[trigger] covered(
                s,
                p,
            )) by {
                assert(covered(s.take(n as int), p) == covered(s, p));
            }
            lemma_invert_tail(s, old_out, cur_start, tail);
        }
        out.push(tail);
        RangeSet { items: out }
    }

    /// The intersection of this set and the given set: the positions both
    /// cover, by De Morgan's law over the two primitives.
    pub fn intersection(&self, rhs: &RangeSet) -> (r: RangeSet)
        requires
            self.wf(),
            rhs.wf(),
        ensures
            r.wf(),
            forall|p: int|
                #[trigger] covered(r@, p) == (covered(self@, p) && covered(rhs@, p)),
    {
        let left = self.invert();
        let right = rhs.invert();
        let inter = left.union(&right);
        let r = inter.invert();
        proof {
            assert forall|p: int|
                #[trigger] covered(r@, p) == (covered(self@, p) && covered(rhs@, p)) by {
                if covered(self@, p) {
                    lemma_covered_in_line(self@, p);
                }
                if covered(rhs@, p) {
                    lemma_covered_in_line(rhs@, p);
                }
            }
        }
        r
    }

    /// The difference of this set with the given set: the positions this
    /// set covers and the other does not.  Asymmetric.
    pub fn difference(&self, rhs: &RangeSet) -> (r: RangeSet)
        requires
            self.wf(),
            rhs.wf(),
        ensures
            r.wf(),
            forall|p: int|
                #[trigger] covered(r@, p) == (covered(self@, p) && !covered(rhs@, p)),
    {
        let left = self.invert();
        let mid = left.union(rhs);
        let r = mid.invert();
        proof {
            assert forall|p: int|
                #[trigger] covered(r@, p) == (covered(self@, p) && !covered(rhs@, p)) by {
                if covered(self@, p) {
                    lemma_covered_in_line(self@, p);
                }
            }
        }
        r
    }

    /// Whether this set and the given set share no position.
    #[verifier::loop_isolation(false)]
    pub fn is_disjoint(&self, rhs: &RangeSet) -> (r: bool)
        requires
            self.wf(),
            rhs.wf(),
        ensures
            r == !sets_intersect(self@, rhs@),
    {
        if self.is_empty() || rhs.is_empty() {
            proof {
                if sets_intersect(self@, rhs@) {
                    let p = choose|p: int| covered(self@, p) && #[trigger] covered(rhs@, p);
                    lemma_none_cover(self@, p);
                    lemma_none_cover(rhs@, p);
                }
            }
            return true;
        }
        if self.is_unbound() || rhs.is_unbound() {
            proof {
                lemma_full_intersects(self@, rhs@);
            }
            return false;
        }
        !self.scan_shared(rhs)
    }

    /// Whether this set and the given set share a position.
    #[verifier::loop_isolation(false)]
    pub fn is_overlapping(&self, rhs: &RangeSet) -> (r: bool)
        requires
            self.wf(),
            rhs.wf(),
        ensures
            r == sets_intersect(self@, rhs@),
    {
        if self.is_empty() || rhs.is_empty() {
            proof {
                if sets_intersect(self@, rhs@) {
                    let p = choose|p: int| covered(self@, p) && #[trigger] covered(rhs@, p);
                    lemma_none_cover(self@, p);
                    lemma_none_cover(rhs@, p);
                }
            }
            return false;
        }
        if self.is_unbound() || rhs.is_unbound() {
            proof {
                lemma_full_intersects(self@, rhs@);
            }
            return true;
        }
        self.scan_shared(rhs)
    }

    /// The two-pointer scan shared by the disjointness and overlap tests:
    /// walks both sorted sequences and reports whether any two ranges
    /// admit a common position.
    #[verifier::loop_isolation(false)]
    fn scan_shared(&self, rhs: &RangeSet) -> (r: bool)
        requires
            self.wf(),
            rhs.wf(),
        ensures
            r == sets_intersect(self@, rhs@),
    {
        let ghost sa = self@;
        let ghost sb = rhs@;
        let na = self.items.len();
        let nb = rhs.items.len();
        let mut i: usize = 0;
        let mut j: usize = 0;
        while i < na && j < nb
            invariant
                i <= na,
                j <= nb,
                forall|p: int| !(#[trigger] covered(sa.take(i as int), p) && covered(sb, p)),
                forall|p: int| !(covered(sa, p) && #[trigger] covered(sb.take(j as int), p)),
            decreases (na - i) + (nb - j),
        {
            let l = self.items[i];
            let rg = rhs.items[j];
            proof {
                assert(l == sa[i as int]);
                assert(rg == sb[j as int]);
            }
            if starts_within(&rg.start, &l.end) && starts_within(&l.start, &rg.end) {
                // The two ranges admit a common position: the larger of
                // the two lower ends lies in both.
                proof {
                    let p = if rng_low(l) >= rng_low(rg) {
                        rng_low(l)
                    } else {
                        rng_low(rg)
                    };
                    assert(in_rng(sa[i as int], p));
                    assert(in_rng(sb[j as int], p));
                    assert(covered(sa, p));
                    assert(covered(sb, p));
                }
                return true;
            }
            if !starts_within(&rg.start, &l.end) {
                // Every range of `rhs` from `j` on starts above `l`.
                proof {
                    lemma_scan_drop(sa, sb, i as int, j as int);
                }
                i += 1;
            } else {
                // Then `l` starts above `rg`'s end: every range of `self`
                // from `i` on starts above `rg`.
                proof {
                    lemma_scan_drop(sb, sa, j as int, i as int);
                }
                j += 1;
            }
        }
        proof {
            if i == na {
                assert(sa.take(na as int) =~= sa);
            } else {
                assert(sb.take(nb as int) =~= sb);
            }
            if sets_intersect(sa, sb) {
                let p = choose|p: int| covered(sa, p) && #[trigger] covered(sb, p);
                assert(false);
            }
        }
        false
    }

    /// Build a set from an arbitrary collection of nonempty ranges: the
    /// ranges are sorted by lower boundary and merged in one pass.  The
    /// result is the unique normalized set covering exactly the positions
    /// of the input ranges.
    #[verifier::loop_isolation(false)]
    pub fn from_unsorted(ranges: Vec<Range>) -> (r: RangeSet)
        requires
            forall|k: int| 0 <= k < ranges@.len() ==> rng_nonempty(#[trigger] ranges@[k]),
        ensures
            normalize_post(ranges@, r@),
    {
        let ghost src = ranges@;
        let sorted = sort_by_low(ranges);
        let ghost ss = sorted@;
        let n = sorted.len();
        let mut adder = LinearRangeAdder::with_capacity(n);
        let mut i: usize = 0;
        let mut done = false;
        while i < n && !done
            invariant
                i <= n,
                adder.wf(),
                forall|k: int| i <= k < n ==> adder.low_mark() <= rng_low(#[trigger] ss[k]),
                !done ==> (forall|p: int|
                    #[trigger] adder.coverage(p) == covered(ss.take(i as int), p)),
                done ==> (forall|p: int| #[trigger] adder.coverage(p) == covered(ss, p)),
            decreases n - i,
        {
            let item = sorted[i];
            proof {
                assert(item == ss[i as int]);
            }
            let sat = adder.add(item);
            proof {
                assert forall|k: int| i + 1 <= k < n implies adder.low_mark() <= rng_low(
                    #[trigger] ss[k],
                ) by {}
            }
            if sat {
                done = true;
                proof {
                    assert forall|p: int|
                        #[trigger] adder.coverage(p) == covered(ss, p) by {
                        lemma_covered_take_step(ss, i as int, p);
                        lemma_covered_split(ss, i as int + 1, p);
                        if covered(ss.skip(i as int + 1), p) {
                            let k = choose|k: int|
                                0 <= k < ss.skip(i as int + 1).len() && #[trigger] in_rng(
                                    ss.skip(i as int + 1)[k],
                                    p,
                                );
                            assert(ss.skip(i as int + 1)[k] == ss[i + 1 + k]);
                            lemma_in_rng_in_line(ss[i + 1 + k], p);
                            adder.lemma_saturated_covers(p);
                        }
                        if covered(ss, p) && !covered(ss.take(i as int + 1), p) {
                            assert(covered(ss.skip(i as int + 1), p));
                        }
                    }
                }
            } else {
                proof {
                    assert forall|p: int|
                        #[trigger] adder.coverage(p) == covered(ss.take(i as int + 1), p) by {
                        lemma_covered_take_step(ss, i as int, p);
                    }
                }
            }
            i += 1;
        }
        proof {
            if !done {
                assert(ss.take(n as int) =~= ss);
            }
        }
        let fin = adder.finalize();
        fin
    }

    /// A structural copy.
    #[verifier::loop_isolation(false)]
    fn duplicate(&self) -> (r: RangeSet)
        ensures
            r@ == self@,
    {
        let n = self.items.len();
        let mut items: Vec<Range> = Vec::with_capacity(n);
        let mut i: usize = 0;
        while i < n
            invariant
                n == self@.len(),
                i <= n,
                items@ == self@.take(i as int),
            decreases n - i,
        {
            items.push(self.items[i]);
            proof {
                assert(items@ =~= self@.take(i as int + 1));
            }
            i += 1;
        }
        proof {
            assert(self@.take(n as int) =~= self@);
        }
        RangeSet { items }
    }
}

/// Once the shared merger is saturated, the positions of every range not
/// yet fed from either operand are already accumulated, because sorted
/// feeding keeps their lower ends at or above the merger's low mark.
proof fn lemma_union_scan_absorbs(
    adder: LinearRangeAdder,
    sa: Seq<Range>,
    sb: Seq<Range>,
    i: int,
    j: int,
)
    requires
        adder.wf(),
        adder.saturated(),
        0 <= i <= sa.len(),
        0 <= j <= sb.len(),
        forall|k: int| i <= k < sa.len() ==> adder.low_mark() <= rng_low(#[trigger] sa[k]),
        forall|k: int| j <= k < sb.len() ==> adder.low_mark() <= rng_low(#[trigger] sb[k]),
        forall|p: int|
            #[trigger] adder.coverage(p) == (covered(sa.take(i), p) || covered(sb.take(j), p)),
    ensures
        forall|p: int| #[trigger] adder.coverage(p) == (covered(sa, p) || covered(sb, p)),
{
    assert forall|p: int| #[trigger] adder.coverage(p) == (covered(sa, p) || covered(sb, p)) by {
        lemma_covered_split(sa, i, p);
        lemma_covered_split(sb, j, p);
        if covered(sa.skip(i), p) {
            let k = choose|k: int|
                0 <= k < sa.skip(i).len() && #[trigger] in_rng(sa.skip(i)[k], p);
            assert(sa.skip(i)[k] == sa[i + k]);
            lemma_in_rng_in_line(sa[i + k], p);
            adder.lemma_saturated_covers(p);
        }
        if covered(sb.skip(j), p) {
            let k = choose|k: int|
                0 <= k < sb.skip(j).len() && #[trigger] in_rng(sb.skip(j)[k], p);
            assert(sb.skip(j)[k] == sb[j + k]);
            lemma_in_rng_in_line(sb[j + k], p);
            adder.lemma_saturated_covers(p);
        }
    }
}

/// The complement of the empty set is the full set.
proof fn lemma_complement_of_empty(s: Seq<Range>)
    requires
        s.len() == 0,
    ensures
        complement_post(s, seq![full_range()]),
{
    lemma_full_wf();
    assert forall|p: int|
        #[trigger] covered(seq![full_range()], p) == (pos_min() <= p <= pos_max() && !covered(
            s,
            p,
        )) by {
        lemma_full_coverage(p);
        lemma_none_cover(s, p);
    }
}

/// The complement of the full set is the empty set.
proof fn lemma_complement_of_full(s: Seq<Range>)
    requires
        s == seq![full_range()],
    ensures
        complement_post(s, Seq::<Range>::empty()),
{
    lemma_full_wf();
    assert forall|p: int|
        #[trigger] covered(Seq::<Range>::empty(), p) == (pos_min() <= p <= pos_max() && !covered(
            s,
            p,
        )) by {
        lemma_full_coverage(p);
        lemma_none_cover(Seq::<Range>::empty(), p);
    }
}

/// Scan invariants at entry when the set leaves the bottom of the line
/// uncovered.
proof fn lemma_invert_init_low(s: Seq<Range>, out: Seq<Range>)
    requires
        seq_wf(s),
        s.len() > 0,
        s[0].start != Bound::Unbounded,
        out.len() == 0,
    ensures
        forall|p: int|
            #[trigger] covered(out, p) == (pos_min() <= p < low_pos(Bound::Unbounded)
            && !covered(s, p)),
        forall|p: int|
            low_pos(Bound::Unbounded) <= p ==> !(#[trigger] covered(s.take(0), p)),
        forall|k: int| 0 <= k < s.len() ==> low_pos(Bound::Unbounded) < rng_low(#[trigger] s[k]),
    {
    assert forall|p: int|
        #[trigger] covered(out, p) == (pos_min() <= p < low_pos(Bound::Unbounded)
        && !covered(s, p)) by {
        lemma_none_cover(out, p);
    }
    assert forall|p: int| low_pos(Bound::Unbounded) <= p implies !(#[trigger] covered(
        s.take(0),
        p,
    )) by {
        lemma_none_cover(s.take(0), p);
    }
    assert forall|k: int| 0 <= k < s.len() implies low_pos(Bound::Unbounded) < rng_low(
        #[trigger] s[k],
    ) by {
        if k > 0 {
            lemma_wf_ordered(s, 0, k);
        }
    }
}

/// Scan invariants at entry when the first range starts at the bottom of
/// the line: the complement begins just beyond it.
proof fn lemma_invert_init_unb(s: Seq<Range>, lo: Bound, out: Seq<Range>)
    requires
        seq_wf(s),
        s.len() > 0,
        s[0].start == Bound::Unbounded,
        s[0].end != Bound::Unbounded,
        lo == crate::bound::bound_invert(s[0].end),
        out.len() == 0,
    ensures
        low_pos(lo) == rng_high(s[0]) + 1,
        pos_min() <= low_pos(lo) <= pos_max(),
        forall|p: int|
            #[trigger] covered(out, p) == (pos_min() <= p < low_pos(lo) && !covered(s, p)),
        forall|p: int| low_pos(lo) <= p ==> !(#[trigger] covered(s.take(1), p)),
        forall|k: int| 1 <= k < s.len() ==> low_pos(lo) < rng_low(#[trigger] s[k]),
{
    lemma_invert_positions(s[0].end);
    assert forall|p: int|
        #[trigger] covered(out, p) == (pos_min() <= p < low_pos(lo) && !covered(s, p)) by {
        lemma_none_cover(out, p);
        if pos_min() <= p < low_pos(lo) {
            assert(in_rng(s[0], p));
        }
    }
    assert forall|p: int| low_pos(lo) <= p implies !(#[trigger] covered(s.take(1), p)) by {
        if covered(s.take(1), p) {
            let k = choose|k: int| 0 <= k < s.take(1).len() && #[trigger] in_rng(s.take(1)[k], p);
            assert(s.take(1)[k] == s[0]);
            assert(false);
        }
    }
    assert forall|k: int| 1 <= k < s.len() implies low_pos(lo) < rng_low(#[trigger] s[k]) by {
        if k > 1 {
            lemma_wf_ordered(s, 1, k);
        }
        assert(rng_high(s[0]) + 2 <= rng_low(s[1]));
    }
}

/// One step of the complement pass: pushing the complement range that
/// closes at the next source range keeps the output well formed and
/// extends its coverage to everything uncovered below that range.
proof fn lemma_invert_step(s: Seq<Range>, i: int, out: Seq<Range>, lo: Bound, comp: Range)
    requires
        seq_wf(s),
        0 <= i < s.len(),
        s[i].start != Bound::Unbounded,
        comp == (Range { start: lo, end: crate::bound::bound_invert(s[i].start) }),
        pos_min() <= low_pos(lo) <= pos_max(),
        seq_wf(out),
        out.len() > 0 ==> rng_high(out.last()) + 2 <= low_pos(lo),
        forall|k: int| i <= k < s.len() ==> low_pos(lo) < rng_low(#[trigger] s[k]),
        forall|p: int|
            #[trigger] covered(out, p) == (pos_min() <= p < low_pos(lo) && !covered(s, p)),
        forall|p: int| low_pos(lo) <= p ==> !(#[trigger] covered(s.take(i), p)),
    ensures
        seq_wf(out.push(comp)),
        rng_high(comp) == rng_low(s[i]) - 1,
        forall|p: int|
            #[trigger] covered(out.push(comp), p) == (pos_min() <= p <= rng_low(s[i]) - 1
            && !covered(s, p)),
{
    lemma_invert_positions(s[i].start);
    lemma_wf_push(out, comp);
    // Positions between the frontier and the next range are uncovered by
    // the whole set.
    assert forall|p: int|
        low_pos(lo) <= p < rng_low(s[i]) implies !(#[trigger] covered(s, p)) by {
        lemma_covered_split(s, i, p);
        if covered(s.skip(i), p) {
            let k = choose|k: int| 0 <= k < s.skip(i).len() && #[trigger] in_rng(s.skip(i)[k], p);
            assert(s.skip(i)[k] == s[i + k]);
            if k > 0 {
                lemma_wf_ordered(s, i, i + k);
            }
            assert(false);
        }
    }
    assert forall|p: int|
        #[trigger] covered(out.push(comp), p) == (pos_min() <= p <= rng_low(s[i]) - 1
        && !covered(s, p)) by {
        lemma_covered_push(out, comp, p);
    }
}

/// After the early exit: a source range unbounded above covers the rest
/// of the line, so the output is already the whole complement.
proof fn lemma_invert_last(s: Seq<Range>, i: int, out: Seq<Range>)
    requires
        seq_wf(s),
        0 <= i < s.len(),
        s[i].end == Bound::Unbounded,
        forall|p: int|
            #[trigger] covered(out, p) == (pos_min() <= p <= rng_low(s[i]) - 1 && !covered(s, p)),
    ensures
        forall|p: int|
            #[trigger] covered(out, p) == (pos_min() <= p <= pos_max() && !covered(s, p)),
{
    assert forall|p: int|
        #[trigger] covered(out, p) == (pos_min() <= p <= pos_max() && !covered(s, p)) by {
        if p > rng_low(s[i]) - 1 && pos_min() <= p <= pos_max() {
            assert(in_rng(s[i], p));
        }
    }
}

/// Advancing the frontier past a consumed source range re-establishes the
/// scan invariants at the next position.
proof fn lemma_invert_advance(s: Seq<Range>, i: int, lo1: Bound, out: Seq<Range>, lo2: Bound)
    requires
        seq_wf(s),
        0 <= i < s.len(),
        s[i].end != Bound::Unbounded,
        lo2 == crate::bound::bound_invert(s[i].end),
        low_pos(lo1) < rng_low(s[i]),
        forall|p: int|
            #[trigger] covered(out, p) == (pos_min() <= p <= rng_low(s[i]) - 1 && !covered(s, p)),
        out.len() > 0,
        rng_high(out.last()) == rng_low(s[i]) - 1,
        forall|p: int| low_pos(lo1) <= p ==> !(#[trigger] covered(s.take(i), p)),
    ensures
        low_pos(lo2) == rng_high(s[i]) + 1,
        pos_min() <= low_pos(lo2) <= pos_max(),
        rng_high(out.last()) + 2 <= low_pos(lo2),
        forall|k: int| i + 1 <= k < s.len() ==> low_pos(lo2) < rng_low(#[trigger] s[k]),
        forall|p: int|
            #[trigger] covered(out, p) == (pos_min() <= p < low_pos(lo2) && !covered(s, p)),
        forall|p: int| low_pos(lo2) <= p ==> !(#[trigger] covered(s.take(i + 1), p)),
{
    lemma_invert_positions(s[i].end);
    assert(rng_nonempty(s[i]));
    assert forall|p: int|
        #[trigger] covered(out, p) == (pos_min() <= p < low_pos(lo2) && !covered(s, p)) by {
        if rng_low(s[i]) <= p < low_pos(lo2) {
            assert(in_rng(s[i], p));
        }
    }
    assert forall|p: int| low_pos(lo2) <= p implies !(#[trigger] covered(s.take(i + 1), p)) by {
        lemma_covered_take_step(s, i, p);
    }
    assert forall|k: int| i + 1 <= k < s.len() implies low_pos(lo2) < rng_low(
        #[trigger] s[k],
    ) by {
        if k > i + 1 {
            lemma_wf_ordered(s, i + 1, k);
        }
        assert(rng_high(s[i]) + 2 <= rng_low(s[i + 1]));
    }
}

/// Closing the complement with a final range unbounded above completes
/// the coverage of the line.
proof fn lemma_invert_tail(s: Seq<Range>, out: Seq<Range>, lo: Bound, tail: Range)
    requires
        tail == (Range { start: lo, end: Bound::Unbounded }),
        pos_min() <= low_pos(lo) <= pos_max(),
        seq_wf(out),
        out.len() > 0 ==> rng_high(out.last()) + 2 <= low_pos(lo),
        forall|p: int|
            #[trigger] covered(out, p) == (pos_min() <= p < low_pos(lo) && !covered(s, p)),
        forall|p: int| low_pos(lo) <= p ==> !(#[trigger] covered(s, p)),
    ensures
        seq_wf(out.push(tail)),
        forall|p: int|
            #[trigger] covered(out.push(tail), p) == (pos_min() <= p <= pos_max() && !covered(
                s,
                p,
            )),
{
    lemma_wf_push(out, tail);
    assert forall|p: int|
        #[trigger] covered(out.push(tail), p) == (pos_min() <= p <= pos_max() && !covered(
            s,
            p,
        )) by {
        lemma_covered_push(out, tail, p);
    }
}

impl PartialEq for RangeSet {
    /// Structural equality of the normalized sequences.  By canonicity,
    /// two well-formed sets are equal exactly when they cover the same
    /// positions.
    #[verifier::loop_isolation(false)]
    fn eq(&self, other: &RangeSet) -> (r: bool) {
        if self.items.len() != other.items.len() {
            return false;
        }
        let n = self.items.len();
        let mut i: usize = 0;
        while i < n
            invariant
                n == self@.len(),
                n == other@.len(),
                i <= n,
                forall|k: int| 0 <= k < i ==> self@[k] == other@[k],
            decreases n - i,
        {
            let a = self.items[i];
            let b = other.items[i];
            if !(a == b) {
                return false;
            }
            i += 1;
        }
        proof {
            assert(self@ =~= other@);
        }
        true
    }
}

impl vstd::std_specs::cmp::PartialEqSpecImpl for RangeSet {
    open spec fn obeys_eq_spec() -> bool {
        true
    }

    open spec fn eq_spec(&self, other: &RangeSet) -> bool {
        self@ == other@
    }
}

impl Eq for RangeSet {}

/// A nonempty set shares a position with the full set.
proof fn lemma_full_intersects(a: Seq<Range>, b: Seq<Range>)
    requires
        seq_wf(a),
        seq_wf(b),
        a.len() > 0,
        b.len() > 0,
        a == seq![full_range()] || b == seq![full_range()],
    ensures
        sets_intersect(a, b),
{
    let p = rng_low(b[0]);
    assert(rng_nonempty(b[0]));
    assert(in_rng(b[0], p));
    assert(covered(b, p));
    lemma_covered_in_line(b, p);
    if a == seq![full_range()] {
        assert(in_rng(a[0], p));
        assert(covered(a, p));
    } else {
        let q = rng_low(a[0]);
        assert(rng_nonempty(a[0]));
        assert(in_rng(a[0], q));
        assert(covered(a, q));
        lemma_covered_in_line(a, q);
        assert(in_rng(b[0], q));
        assert(covered(b, q));
    }
}

/// When the front range of `b` from position `j` on starts above the end
/// of `a`'s range at `i`, that range of `a` shares no position with `b`.
proof fn lemma_scan_drop(a: Seq<Range>, b: Seq<Range>, i: int, j: int)
    requires
        seq_wf(a),
        seq_wf(b),
        0 <= i < a.len(),
        0 <= j < b.len(),
        rng_high(a[i]) < rng_low(b[j]),
        forall|p: int| !(covered(a, p) && #[trigger] covered(b.take(j), p)),
    ensures
        forall|p: int| !(#[trigger] covered(a.take(i + 1), p) && covered(b, p)) || covered(
            a.take(i),
            p,
        ),
{
    assert forall|p: int|
        !(#[trigger] covered(a.take(i + 1), p) && covered(b, p)) || covered(a.take(i), p) by {
        lemma_covered_take_step(a, i, p);
        if covered(a.take(i + 1), p) && covered(b, p) && !covered(a.take(i), p) {
            assert(in_rng(a[i], p));
            assert(covered(a, p));
            lemma_covered_split(b, j, p);
            if covered(b.skip(j), p) {
                let k = choose|k: int|
                    0 <= k < b.skip(j).len() && #[trigger] in_rng(b.skip(j)[k], p);
                assert(b.skip(j)[k] == b[j + k]);
                if k > 0 {
                    lemma_wf_ordered(b, j, j + k);
                }
                assert(false);
            }
            assert(false);
        }
    }
}

/// Sort ranges by their lower boundary, preserving the covered positions
/// and the nonemptiness of every range.  A simple selection sort: the
/// range with the least lower position is moved to the output first.
#[verifier::loop_isolation(false)]
fn sort_by_low(ranges: Vec<Range>) -> (r: Vec<Range>)
    requires
        forall|k: int| 0 <= k < ranges@.len() ==> rng_nonempty(#[trigger] ranges@[k]),
    ensures
        forall|k: int| 0 <= k < r@.len() ==> rng_nonempty(#[trigger] r@[k]),
        forall|k1: int, k2: int|
            0 <= k1 < k2 < r@.len() ==> rng_low(#[trigger] r@[k1]) <= rng_low(#[trigger] r@[k2]),
        forall|p: int| #[trigger] covered(r@, p) == covered(ranges@, p),
{
    let ghost src = ranges@;
    let mut rem = ranges;
    let mut out: Vec<Range> = Vec::new();
    while rem.len() > 0
        invariant
            forall|k: int| 0 <= k < out@.len() ==> rng_nonempty(#[trigger] out@[k]),
            forall|k: int| 0 <= k < rem@.len() ==> rng_nonempty(#[trigger] rem@[k]),
            forall|k1: int, k2: int|
                0 <= k1 < k2 < out@.len() ==> rng_low(#[trigger] out@[k1]) <= rng_low(
                    #[trigger] out@[k2],
                ),
            forall|k: int, m: int|
                0 <= k < out@.len() && 0 <= m < rem@.len() ==> rng_low(#[trigger] out@[k])
                    <= rng_low(#[trigger] rem@[m]),
            forall|p: int| (covered(out@, p) || covered(rem@, p)) == #[trigger] covered(src, p),
        decreases rem.len(),
    {
        // Select the range with the least lower position.
        let mut m: usize = 0;
        let mut t: usize = 1;
        while t < rem.len()
            invariant
                rem@.len() > 0,
                m < t,
                t <= rem@.len(),
                forall|k: int| 0 <= k < t ==> rng_low(rem@[m as int]) <= rng_low(#[trigger] rem@[k]),
            decreases rem.len() - t,
        {
            if low_lt(&rem[t].start, &rem[m].start) {
                m = t;
            }
            t += 1;
        }
        let ghost old_rem = rem@;
        let ghost old_out = out@;
        let x = rem.remove(m);
        out.push(x);
        proof {
            assert(x == old_rem[m as int]);
            assert forall|k: int| 0 <= k < rem@.len() implies rng_nonempty(
                #[trigger] rem@[k],
            ) by {
                if k < m {
                    assert(rem@[k] == old_rem[k]);
                } else {
                    assert(rem@[k] == old_rem[k + 1]);
                }
            }
            assert forall|k: int, m2: int|
                0 <= k < out@.len() && 0 <= m2 < rem@.len() implies rng_low(#[trigger] out@[k])
                    <= rng_low(#[trigger] rem@[m2]) by {
                if m2 < m {
                    assert(rem@[m2] == old_rem[m2]);
                } else {
                    assert(rem@[m2] == old_rem[m2 + 1]);
                }
                if k < old_out.len() {
                    assert(out@[k] == old_out[k]);
                } else {
                    assert(out@[k] == x);
                }
            }
            assert forall|k1: int, k2: int|
                0 <= k1 < k2 < out@.len() implies rng_low(#[trigger] out@[k1]) <= rng_low(
                    #[trigger] out@[k2],
                ) by {
                assert(out@[k1] == old_out[k1]);
                if k2 < old_out.len() {
                    assert(out@[k2] == old_out[k2]);
                } else {
                    assert(out@[k2] == x);
                }
            }
            assert forall|p: int|
                (covered(out@, p) || covered(rem@, p)) == #[trigger] covered(src, p) by {
                lemma_covered_push(old_out, x, p);
                lemma_covered_remove(old_rem, m as int, p);
            }
        }
    }
    proof {
        assert forall|p: int| #[trigger] covered(out@, p) == covered(src, p) by {
            lemma_none_cover(rem@, p);
        }
    }
    out
}

} // verus!
