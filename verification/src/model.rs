//! The mathematical model of normalized range sequences.
//!
//! A sequence of ranges *covers* a set of positions on the line described in
//! [`crate::bound`].  A sequence is *well formed* when its ranges are
//! nonempty, sorted, and separated by nonempty gaps.  The central theorem of
//! this module is canonicity: two well-formed sequences covering the same
//! positions are structurally equal, so every operation whose contract pins
//! the covered positions of a well-formed result pins the result itself.

use vstd::prelude::*;
use crate::bound::{pos_min, pos_max};
use crate::range::{Range, rng_low, rng_high, rng_nonempty, in_rng, full_range};

verus! {

/// Whether some range of `s` covers position `p`.
pub open spec fn covered(s: Seq<Range>, p: int) -> bool {
    exists|i: int| 0 <= i < s.len() && #[trigger] in_rng(s[i], p)
}

/// Well-formedness of a normalized sequence: every range nonempty, and
/// consecutive ranges separated by at least one uncovered position.
pub open spec fn seq_wf(s: Seq<Range>) -> bool {
    &&& forall|i: int| 0 <= i < s.len() ==> rng_nonempty(#[trigger] s[i])
    &&& forall|i: int| 0 <= i < s.len() - 1 ==> rng_high(#[trigger] s[i]) + 2 <= rng_low(s[i + 1])
}

/// Whether the two sequences cover a common position.
pub open spec fn sets_intersect(a: Seq<Range>, b: Seq<Range>) -> bool {
    exists|p: int| covered(a, p) && #[trigger] covered(b, p)
}

/// What a merge of two normalized sequences must produce: a well-formed
/// sequence covering exactly the union of the positions covered by both.
pub open spec fn union_post(a: Seq<Range>, b: Seq<Range>, r: Seq<Range>) -> bool {
    seq_wf(r) && forall|p: int| #[trigger] covered(r, p) == (covered(a, p) || covered(b, p))
}

/// What normalizing a collection of ranges must produce: a well-formed
/// sequence covering exactly the positions covered by some input range.
pub open spec fn normalize_post(src: Seq<Range>, r: Seq<Range>) -> bool {
    seq_wf(r) && forall|p: int| #[trigger] covered(r, p) == covered(src, p)
}

/// What complementing a normalized sequence must produce: a well-formed
/// sequence covering exactly the positions of the line that `src` leaves
/// uncovered.
pub open spec fn complement_post(src: Seq<Range>, r: Seq<Range>) -> bool {
    seq_wf(r) && forall|p: int|
        #[trigger] covered(r, p) == (pos_min() <= p <= pos_max() && !covered(src, p))
}

/// In a well-formed sequence, any later range lies entirely above any
/// earlier one, with a gap in between.
pub proof fn lemma_wf_ordered(s: Seq<Range>, i: int, j: int)
    requires
        seq_wf(s),
        0 <= i < j < s.len(),
    ensures
        rng_high(s[i]) + 2 <= rng_low(s[j]),
        rng_low(s[i]) < rng_low(s[j]),
    decreases j - i,
{
    if j == i + 1 {
        assert(rng_high(s[i]) + 2 <= rng_low(s[i + 1]));
        assert(rng_nonempty(s[i]));
    } else {
        lemma_wf_ordered(s, i, j - 1);
        assert(rng_high(s[j - 1]) + 2 <= rng_low(s[j]));
        assert(rng_nonempty(s[j - 1]));
    }
}

/// Covered positions lie on the line.
pub proof fn lemma_covered_in_line(s: Seq<Range>, p: int)
    requires
        covered(s, p),
    ensures
        pos_min() <= p <= pos_max(),
{
    let i = choose|i: int| 0 <= i < s.len() && #[trigger] in_rng(s[i], p);
    crate::range::lemma_in_rng_in_line(s[i], p);
}

/// A suffix of a well-formed sequence is well formed.
pub proof fn lemma_wf_skip(s: Seq<Range>, k: int)
    requires
        seq_wf(s),
        0 <= k <= s.len(),
    ensures
        seq_wf(s.skip(k)),
{
    let t = s.skip(k);
    assert forall|i: int| 0 <= i < t.len() implies rng_nonempty(#[trigger] t[i]) by {
        assert(t[i] == s[k + i]);
    }
    assert forall|i: int| 0 <= i < t.len() - 1 implies rng_high(#[trigger] t[i]) + 2 <= rng_low(
        t[i + 1],
    ) by {
        assert(t[i] == s[k + i]);
        assert(t[i + 1] == s[k + i + 1]);
        assert(rng_high(s[k + i]) + 2 <= rng_low(s[k + i + 1]));
    }
}

/// Coverage of a one-longer prefix adds exactly the positions of the next
/// range.
pub proof fn lemma_covered_take_step(s: Seq<Range>, i: int, p: int)
    requires
        0 <= i < s.len(),
    ensures
        covered(s.take(i + 1), p) == (covered(s.take(i), p) || in_rng(s[i], p)),
{
    let t0 = s.take(i);
    let t1 = s.take(i + 1);
    if covered(t1, p) {
        let k = choose|k: int| 0 <= k < t1.len() && #[trigger] in_rng(t1[k], p);
        if k < i {
            assert(t0[k] == s[k]);
            assert(in_rng(t0[k], p));
            assert(covered(t0, p));
        } else {
            assert(t1[k] == s[i]);
        }
    }
    if covered(t0, p) {
        let k = choose|k: int| 0 <= k < t0.len() && #[trigger] in_rng(t0[k], p);
        assert(t1[k] == s[k]);
        assert(in_rng(t1[k], p));
        assert(covered(t1, p));
    }
    if in_rng(s[i], p) {
        assert(t1[i] == s[i]);
        assert(in_rng(t1[i], p));
        assert(covered(t1, p));
    }
}

/// Appending one range adds exactly its positions to the coverage.
pub proof fn lemma_covered_push(s: Seq<Range>, x: Range, p: int)
    ensures
        covered(s.push(x), p) == (covered(s, p) || in_rng(x, p)),
{
    let t = s.push(x);
    if covered(t, p) {
        let k = choose|k: int| 0 <= k < t.len() && #[trigger] in_rng(t[k], p);
        if k < s.len() {
            assert(t[k] == s[k]);
            assert(in_rng(s[k], p));
            assert(covered(s, p));
        } else {
            assert(t[k] == x);
        }
    }
    if covered(s, p) {
        let k = choose|k: int| 0 <= k < s.len() && #[trigger] in_rng(s[k], p);
        assert(t[k] == s[k]);
        assert(in_rng(t[k], p));
        assert(covered(t, p));
    }
    if in_rng(x, p) {
        assert(t[s.len() as int] == x);
        assert(in_rng(t[s.len() as int], p));
        assert(covered(t, p));
    }
}

/// Removing one range removes exactly its positions, as far as no other
/// range covers them.
pub proof fn lemma_covered_remove(s: Seq<Range>, j: int, p: int)
    requires
        0 <= j < s.len(),
    ensures
        covered(s, p) == (covered(s.remove(j), p) || in_rng(s[j], p)),
{
    let t = s.remove(j);
    if covered(s, p) {
        let k = choose|k: int| 0 <= k < s.len() && #[trigger] in_rng(s[k], p);
        if k < j {
            assert(t[k] == s[k]);
            assert(in_rng(t[k], p));
            assert(covered(t, p));
        } else if k > j {
            assert(t[k - 1] == s[k]);
            assert(in_rng(t[k - 1], p));
            assert(covered(t, p));
        }
    }
    if covered(t, p) {
        let k = choose|k: int| 0 <= k < t.len() && #[trigger] in_rng(t[k], p);
        if k < j {
            assert(t[k] == s[k]);
            assert(in_rng(s[k], p));
        } else {
            assert(t[k] == s[k + 1]);
            assert(in_rng(s[k + 1], p));
        }
        assert(covered(s, p));
    }
    if in_rng(s[j], p) {
        assert(covered(s, p));
    }
}

/// Splitting a sequence splits its coverage.
pub proof fn lemma_covered_split(s: Seq<Range>, k: int, p: int)
    requires
        0 <= k <= s.len(),
    ensures
        covered(s, p) == (covered(s.take(k), p) || covered(s.skip(k), p)),
{
    let t = s.take(k);
    let u = s.skip(k);
    if covered(s, p) {
        let i = choose|i: int| 0 <= i < s.len() && #[trigger] in_rng(s[i], p);
        if i < k {
            assert(t[i] == s[i]);
            assert(in_rng(t[i], p));
            assert(covered(t, p));
        } else {
            assert(u[i - k] == s[i]);
            assert(in_rng(u[i - k], p));
            assert(covered(u, p));
        }
    }
    if covered(t, p) {
        let i = choose|i: int| 0 <= i < t.len() && #[trigger] in_rng(t[i], p);
        assert(t[i] == s[i]);
        assert(covered(s, p));
    }
    if covered(u, p) {
        let i = choose|i: int| 0 <= i < u.len() && #[trigger] in_rng(u[i], p);
        assert(u[i] == s[k + i]);
        assert(in_rng(s[k + i], p));
        assert(covered(s, p));
    }
}

/// In a well-formed sequence the tail covers exactly the covered positions
/// beyond the first gap.
pub proof fn lemma_tail_coverage(s: Seq<Range>, p: int)
    requires
        seq_wf(s),
        s.len() > 0,
    ensures
        covered(s.skip(1), p) == (covered(s, p) && p >= rng_high(s[0]) + 2),
{
    let t = s.skip(1);
    if covered(t, p) {
        let i = choose|i: int| 0 <= i < t.len() && #[trigger] in_rng(t[i], p);
        assert(t[i] == s[i + 1]);
        assert(in_rng(s[i + 1], p));
        assert(covered(s, p));
        lemma_wf_ordered(s, 0, i + 1);
        assert(p >= rng_low(s[i + 1]));
    }
    if covered(s, p) && p >= rng_high(s[0]) + 2 {
        let i = choose|i: int| 0 <= i < s.len() && #[trigger] in_rng(s[i], p);
        assert(i != 0);
        assert(t[i - 1] == s[i]);
        assert(in_rng(t[i - 1], p));
        assert(covered(t, p));
    }
}

/// A covered position lies at or above the first range's lower end.
pub proof fn lemma_first_low(s: Seq<Range>, p: int)
    requires
        seq_wf(s),
        covered(s, p),
    ensures
        s.len() > 0,
        rng_low(s[0]) <= p,
{
    let i = choose|i: int| 0 <= i < s.len() && #[trigger] in_rng(s[i], p);
    if i > 0 {
        lemma_wf_ordered(s, 0, i);
    }
}

/// The position just above the first range is uncovered: the first range
/// ends there and the gap keeps every later range out.
pub proof fn lemma_first_gap_uncovered(s: Seq<Range>)
    requires
        seq_wf(s),
        s.len() > 0,
    ensures
        !covered(s, rng_high(s[0]) + 1),
{
    if covered(s, rng_high(s[0]) + 1) {
        let i = choose|i: int| 0 <= i < s.len() && #[trigger] in_rng(s[i], rng_high(s[0]) + 1);
        if i > 0 {
            lemma_wf_ordered(s, 0, i);
        }
        assert(false);
    }
}

/// Two well-formed sequences, both nonempty and covering the same
/// positions, begin with the same range.
proof fn lemma_first_range_determined(a: Seq<Range>, b: Seq<Range>)
    requires
        seq_wf(a),
        seq_wf(b),
        forall|p: int| #[trigger] covered(a, p) == covered(b, p),
        a.len() > 0,
        b.len() > 0,
    ensures
        a[0] == b[0],
{
    let la = rng_low(a[0]);
    let lb = rng_low(b[0]);
    // The least covered position determines the first lower bound.
    assert(rng_nonempty(a[0]));
    assert(in_rng(a[0], la));
    assert(covered(a, la));
    lemma_first_low(b, la);
    assert(rng_nonempty(b[0]));
    assert(in_rng(b[0], lb));
    assert(covered(b, lb));
    lemma_first_low(a, lb);
    crate::bound::lemma_low_pos_injective(a[0].start, b[0].start);
    // The first uncovered position above it determines the first upper
    // bound.
    let ha = rng_high(a[0]);
    let hb = rng_high(b[0]);
    if ha < hb {
        assert(in_rng(b[0], ha + 1));
        assert(covered(b, ha + 1));
        lemma_first_gap_uncovered(a);
        assert(false);
    }
    if hb < ha {
        assert(in_rng(a[0], hb + 1));
        assert(covered(a, hb + 1));
        lemma_first_gap_uncovered(b);
        assert(false);
    }
    crate::bound::lemma_high_pos_injective(a[0].end, b[0].end);
}

/// Appending a nonempty range beyond the last gap keeps a sequence well
/// formed.
pub proof fn lemma_wf_push(s: Seq<Range>, x: Range)
    requires
        seq_wf(s),
        rng_nonempty(x),
        s.len() > 0 ==> rng_high(s.last()) + 2 <= rng_low(x),
    ensures
        seq_wf(s.push(x)),
{
    let t = s.push(x);
    assert forall|i: int| 0 <= i < t.len() implies rng_nonempty(#[trigger] t[i]) by {
        if i < s.len() {
            assert(t[i] == s[i]);
        } else {
            assert(t[i] == x);
        }
    }
    assert forall|i: int| 0 <= i < t.len() - 1 implies rng_high(#[trigger] t[i]) + 2 <= rng_low(
        t[i + 1],
    ) by {
        if i < s.len() - 1 {
            assert(t[i] == s[i]);
            assert(t[i + 1] == s[i + 1]);
            assert(rng_high(s[i]) + 2 <= rng_low(s[i + 1]));
        } else {
            assert(t[i] == s.last());
            assert(t[i + 1] == x);
        }
    }
}

/// A one-range sequence covers exactly that range's positions.
pub proof fn lemma_covered_singleton(x: Range, p: int)
    ensures
        covered(seq![x], p) == in_rng(x, p),
{
    if in_rng(x, p) {
        assert(in_rng(seq![x][0], p));
    }
    if covered(seq![x], p) {
        let k = choose|k: int| 0 <= k < seq![x].len() && #[trigger] in_rng(seq![x][k], p);
        assert(seq![x][k] == x);
    }
}

/// If no individual range covers `p`, the sequence does not cover `p`.
pub proof fn lemma_none_cover(s: Seq<Range>, p: int)
    requires
        forall|j: int| 0 <= j < s.len() ==> !in_rng(#[trigger] s[j], p),
    ensures
        !covered(s, p),
{
    if covered(s, p) {
        let j = choose|j: int| 0 <= j < s.len() && #[trigger] in_rng(s[j], p);
        assert(false);
    }
}

/// Canonicity: two well-formed sequences covering the same positions are
/// the same sequence.  This is what makes the coverage contracts of the set
/// operations exact, and it is the engine behind the algebraic laws.
proof fn lemma_tails_same_coverage(a: Seq<Range>, b: Seq<Range>)
    requires
        seq_wf(a),
        seq_wf(b),
        forall|p: int| #[trigger] covered(a, p) == covered(b, p),
        a.len() > 0,
        b.len() > 0,
        rng_high(a[0]) == rng_high(b[0]),
    ensures
        forall|p: int| #[trigger] covered(a.skip(1), p) == covered(b.skip(1), p),
{
    assert forall|p: int| #[trigger] covered(a.skip(1), p) == covered(b.skip(1), p) by {
        lemma_tail_coverage(a, p);
        lemma_tail_coverage(b, p);
    }
}

proof fn lemma_head_tail_eq(a: Seq<Range>, b: Seq<Range>)
    requires
        a.len() > 0,
        b.len() > 0,
        a[0] == b[0],
        a.skip(1) == b.skip(1),
    ensures
        a == b,
{
    assert(a.skip(1).len() == a.len() - 1);
    assert(b.skip(1).len() == b.len() - 1);
    assert(a.len() == b.len());
    assert forall|i: int| 0 <= i < a.len() implies a[i] == b[i] by {
        if i > 0 {
            assert(a.skip(1)[i - 1] == a[i]);
            assert(b.skip(1)[i - 1] == b[i]);
        }
    }
    assert(a =~= b);
}

pub proof fn lemma_unique_normal_form(a: Seq<Range>, b: Seq<Range>)
    requires
        seq_wf(a),
        seq_wf(b),
        forall|p: int| #[trigger] covered(a, p) == covered(b, p),
    ensures
        a == b,
    decreases a.len(),
{
    if a.len() == 0 {
        if b.len() > 0 {
            assert(rng_nonempty(b[0]));
            assert(in_rng(b[0], rng_low(b[0])));
            assert(covered(b, rng_low(b[0])));
            assert(covered(a, rng_low(b[0])));
            assert(false);
        }
        assert(a =~= b);
    } else if b.len() == 0 {
        assert(rng_nonempty(a[0]));
        assert(in_rng(a[0], rng_low(a[0])));
        assert(covered(a, rng_low(a[0])));
        assert(covered(b, rng_low(a[0])));
        assert(false);
    } else {
        lemma_first_range_determined(a, b);
        // The tails cover the same positions, so they are equal too.
        lemma_wf_skip(a, 1);
        lemma_wf_skip(b, 1);
        lemma_tails_same_coverage(a, b);
        lemma_unique_normal_form(a.skip(1), b.skip(1));
        lemma_head_tail_eq(a, b);
    }
}

/// The full range covers the whole line.
pub proof fn lemma_full_coverage(p: int)
    ensures
        covered(seq![full_range()], p) == (pos_min() <= p <= pos_max()),
{
    if pos_min() <= p <= pos_max() {
        assert(in_rng(seq![full_range()][0], p));
    }
}

/// The full-domain sequence is well formed.
pub proof fn lemma_full_wf()
    ensures
        seq_wf(seq![full_range()]),
        seq_wf(Seq::<Range>::empty()),
{
    assert(rng_nonempty(seq![full_range()][0]));
}

} // verus!
