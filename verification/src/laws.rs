//! The library's general laws, stated and proved once for all inputs.

use vstd::prelude::*;

use crate::linalg::{lemma_rc_bound, mat_at, mat_wf, RatMat};
use crate::rational::{
    lemma_q_eq_trans, lemma_q_ops_wf, q_eq, q_le, q_lt, q_sub, q_wf, qs, rat_wf, seq_wf, Q, Rat,
};
use crate::sspumv::{
    lemma_horner_t_wf, piece_of, piece_of_rec, spl_wf, spline_val, NdSpline,
};

verus! {

proof fn lemma_piece_of_rec_props(breaks: Seq<Q>, x: Q, top: int)
    requires
        top < breaks.len(),
    ensures
        0 <= piece_of_rec(breaks, x, top),
        piece_of_rec(breaks, x, top) <= top || piece_of_rec(breaks, x, top) == 0,
        piece_of_rec(breaks, x, top) > 0 ==> q_le(breaks[piece_of_rec(breaks, x, top)], x),
        forall|j: int| piece_of_rec(breaks, x, top) < j <= top ==> !q_le(breaks[j], x),
    decreases top,
{
    if top > 0 && !q_le(breaks[top], x) {
        lemma_piece_of_rec_props(breaks, x, top - 1);
    }
}

/// The evaluator's piece search brackets the query: the chosen piece's left
/// breakpoint is at or below the query unless the query lies left of every
/// interior breakpoint (clamping to the first piece), and the query lies
/// strictly left of the next breakpoint unless it lies at or beyond the last
/// interior breakpoint (clamping to the last piece, which extrapolates).
pub proof fn lemma_piece_of_brackets(breaks: Seq<Q>, x: Q)
    requires
        breaks.len() >= 2,
    ensures
        0 <= piece_of(breaks, x) <= breaks.len() - 2,
        piece_of(breaks, x) > 0 ==> q_le(breaks[piece_of(breaks, x)], x),
        piece_of(breaks, x) < breaks.len() - 2 ==> q_lt(x, breaks[piece_of(breaks, x) + 1]),
{
    lemma_piece_of_rec_props(breaks, x, breaks.len() - 2);
    let k = piece_of(breaks, x);
    if k < breaks.len() - 2 {
        assert(!q_le(breaks[k + 1], x));
    }
}

/// The spline value of a well-formed spline is a well-formed rational.
pub proof fn lemma_spline_val_wf(s: NdSpline, ch: int, x: Q)
    requires
        spl_wf(s),
        0 <= ch < s.ndim,
        q_wf(x),
    ensures
        q_wf(spline_val(s, ch, x)),
{
    let bq = qs(s.breaks@);
    lemma_piece_of_rec_props(bq, x, bq.len() - 2);
    let k = piece_of(bq, x);
    assert(rat_wf(s.breaks@[k]));
    lemma_q_ops_wf(x, s.breaks@[k]@);
    lemma_horner_t_wf(s, ch, k, q_sub(x, s.breaks@[k]@), s.order - 1);
}

/// Evaluation is deterministic: any two results of evaluating one spline at
/// one sequence of query sites agree entry by entry. This holds because each
/// entry is pinned, up to rational equality, to the spline's exact value
/// there.
pub proof fn lemma_evaluate_deterministic(s: NdSpline, xi: Seq<Rat>, m1: RatMat, m2: RatMat)
    requires
        spl_wf(s),
        seq_wf(xi),
        mat_wf(m1),
        mat_wf(m2),
        m1.rows == s.ndim,
        m1.cols == xi.len(),
        m2.rows == s.ndim,
        m2.cols == xi.len(),
        forall|ch: int, j: int|
            0 <= ch < s.ndim && 0 <= j < xi.len() ==> q_eq(
                #[trigger] mat_at(m1, ch, j),
                spline_val(s, ch, xi[j]@),
            ),
        forall|ch: int, j: int|
            0 <= ch < s.ndim && 0 <= j < xi.len() ==> q_eq(
                #[trigger] mat_at(m2, ch, j),
                spline_val(s, ch, xi[j]@),
            ),
    ensures
        forall|ch: int, j: int|
            0 <= ch < s.ndim && 0 <= j < xi.len() ==> q_eq(
                #[trigger] mat_at(m1, ch, j),
                mat_at(m2, ch, j),
            ),
{
    assert forall|ch: int, j: int| 0 <= ch < s.ndim && 0 <= j < xi.len() implies q_eq(
        #[trigger] mat_at(m1, ch, j),
        mat_at(m2, ch, j),
    ) by {
        lemma_rc_bound(ch, j, m1.rows as int, m1.cols as int);
        lemma_spline_val_wf(s, ch, xi[j]@);
        lemma_q_eq_trans(mat_at(m1, ch, j), spline_val(s, ch, xi[j]@), mat_at(m2, ch, j));
    }
}

} // verus!
