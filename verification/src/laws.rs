//! The algebraic laws of the range-set algebra.
//!
//! Each law is stated over the coverage contracts of the operations: a
//! premise like [`union_post`] holds of any result the corresponding
//! operation may return, so the law applies to every such result.  The
//! proofs all run through the canonicity theorem
//! [`lemma_unique_normal_form`]: a well-formed sequence is determined by
//! the positions it covers.

use vstd::prelude::*;
use crate::range::{Range, full_range};
use crate::model::{
    covered, seq_wf, union_post, normalize_post, complement_post, sets_intersect,
    lemma_unique_normal_form, lemma_covered_in_line, lemma_none_cover, lemma_full_coverage,
    lemma_full_wf,
};

verus! {

/// Normalization is idempotent: re-normalizing the ranges of a normalized
/// set yields the identical set.
pub proof fn lemma_normalize_idempotent(v: Seq<Range>, r1: Seq<Range>, r2: Seq<Range>)
    requires
        normalize_post(v, r1),
        normalize_post(r1, r2),
    ensures
        r2 == r1,
{
    lemma_unique_normal_form(r2, r1);
}

/// The empty set is a unit for union.
pub proof fn lemma_union_empty_identity(a: Seq<Range>, u: Seq<Range>)
    requires
        seq_wf(a),
        union_post(a, Seq::<Range>::empty(), u),
    ensures
        u == a,
{
    assert forall|p: int| #[trigger] covered(u, p) == covered(a, p) by {
        lemma_none_cover(Seq::<Range>::empty(), p);
    }
    lemma_unique_normal_form(u, a);
}

/// The full set absorbs any union.
pub proof fn lemma_union_unbound_absorbs(a: Seq<Range>, u: Seq<Range>)
    requires
        seq_wf(a),
        union_post(a, seq![full_range()], u),
    ensures
        u == seq![full_range()],
{
    lemma_full_wf();
    assert forall|p: int| #[trigger] covered(u, p) == covered(seq![full_range()], p) by {
        lemma_full_coverage(p);
        if covered(a, p) {
            lemma_covered_in_line(a, p);
        }
    }
    lemma_unique_normal_form(u, seq![full_range()]);
}

/// Union is commutative: merging in either order yields the same set.
pub proof fn lemma_union_commutative(a: Seq<Range>, b: Seq<Range>, u1: Seq<Range>, u2: Seq<Range>)
    requires
        union_post(a, b, u1),
        union_post(b, a, u2),
    ensures
        u1 == u2,
{
    lemma_unique_normal_form(u1, u2);
}

/// Union is associative: however the three merges are grouped, the result
/// is the same set.
pub proof fn lemma_union_associative(
    a: Seq<Range>,
    b: Seq<Range>,
    c: Seq<Range>,
    ab: Seq<Range>,
    bc: Seq<Range>,
    l: Seq<Range>,
    r: Seq<Range>,
)
    requires
        union_post(a, b, ab),
        union_post(ab, c, l),
        union_post(b, c, bc),
        union_post(a, bc, r),
    ensures
        l == r,
{
    lemma_unique_normal_form(l, r);
}

/// Double inversion is the identity on normalized sets.
pub proof fn lemma_double_invert(s: Seq<Range>, r1: Seq<Range>, r2: Seq<Range>)
    requires
        seq_wf(s),
        complement_post(s, r1),
        complement_post(r1, r2),
    ensures
        r2 == s,
{
    assert forall|p: int| #[trigger] covered(r2, p) == covered(s, p) by {
        if covered(s, p) {
            lemma_covered_in_line(s, p);
        }
    }
    lemma_unique_normal_form(r2, s);
}

/// The empty set inverts to the full set.
pub proof fn lemma_invert_empty(r: Seq<Range>)
    requires
        complement_post(Seq::<Range>::empty(), r),
    ensures
        r == seq![full_range()],
{
    lemma_full_wf();
    assert forall|p: int| #[trigger] covered(r, p) == covered(seq![full_range()], p) by {
        lemma_full_coverage(p);
        lemma_none_cover(Seq::<Range>::empty(), p);
    }
    lemma_unique_normal_form(r, seq![full_range()]);
}

/// The full set inverts to the empty set.
pub proof fn lemma_invert_unbound(r: Seq<Range>)
    requires
        complement_post(seq![full_range()], r),
    ensures
        r == Seq::<Range>::empty(),
{
    lemma_full_wf();
    assert forall|p: int| #[trigger] covered(r, p) == covered(Seq::<Range>::empty(), p) by {
        lemma_full_coverage(p);
        lemma_none_cover(Seq::<Range>::empty(), p);
    }
    lemma_unique_normal_form(r, Seq::<Range>::empty());
}

/// De Morgan consistency: complementing the union of the two complements
/// covers exactly the positions common to both operands, so the composed
/// pipeline computes the intersection.
pub proof fn lemma_de_morgan(
    a: Seq<Range>,
    b: Seq<Range>,
    ia: Seq<Range>,
    ib: Seq<Range>,
    u: Seq<Range>,
    r: Seq<Range>,
)
    requires
        complement_post(a, ia),
        complement_post(b, ib),
        union_post(ia, ib, u),
        complement_post(u, r),
    ensures
        forall|p: int| #[trigger] covered(r, p) == (covered(a, p) && covered(b, p)),
{
    assert forall|p: int| #[trigger] covered(r, p) == (covered(a, p) && covered(b, p)) by {
        if covered(a, p) {
            lemma_covered_in_line(a, p);
        }
        if covered(b, p) {
            lemma_covered_in_line(b, p);
        }
    }
}

/// Disjointness and overlap are exact opposites: results meeting the two
/// tests' contracts always negate one another, for any two well-formed
/// sets.
pub proof fn lemma_disjoint_overlap_duality(a: Seq<Range>, b: Seq<Range>, d: bool, o: bool)
    requires
        seq_wf(a),
        seq_wf(b),
        d == !sets_intersect(a, b),
        o == sets_intersect(a, b),
    ensures
        d == !o,
{
}

} // verus!
