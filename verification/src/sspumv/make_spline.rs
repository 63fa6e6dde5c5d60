//! Spline construction: the penalized least-squares system and its
//! piecewise-cubic coefficients.
//!
//! The values are first laid out as one row per channel. For two sites the
//! fit is the exact linear interpolant. Otherwise the classical smoothing
//! construction runs: solve `(6(1-p)·QᵀW⁻¹Q + p·R) u = diff(dy/dx)` for the
//! scaled interior second derivatives, with natural boundary conditions, and
//! derive the four coefficients of each piece. The solve is certified: the
//! solver re-multiplies and checks the system before returning.

use vstd::prelude::*;

use crate::arrayfuncs::{
    arr_wf, block_of, dims_prod, lemma_dims_prod_nonneg, lemma_dims_prod_split, lemma_grid_bound,
    lemma_grid_lex, outer_of, range_prod, RatArray,
};
use crate::linalg::{dot_k, lemma_dot_k_wf, lemma_rc_bound, mat_at, mat_wf, solve, RatMat};
use crate::rational::{
    lemma_q_add_cong, lemma_q_div_cong, lemma_q_div_cong_num, lemma_q_eq_trans, lemma_q_mul_cong,
    lemma_q_neg_cong, lemma_q_ops_wf, lemma_q_sub_cong, q_add, q_div, q_eq, q_fits, q_int, q_lt,
    q_mul, q_neg, q_sub, q_wf, qs, rat_wf, seq_wf, Q, Rat,
};
use crate::sspumv::validate_data::{axis_ok, sites_ok, smooth_ok, weights_ok};
use crate::sspumv::{
    chan_at, channels_of, css_wf, make_post, resolved_axis, two_point_coeffs, CubicSmoothingSpline,
    NdSpline,
};
use crate::CsapsError;

verus! {

/// Lays the values out as one row per channel: entry `(pre * blk + q, j)` of
/// the result is the value of channel `(pre, q)` at position `j` along `ax`.
#[verifier::loop_isolation(false)]
pub(crate) fn to_2d(y: &RatArray, ax: usize) -> (r: RatMat)
    requires
        arr_wf(*y),
        ax < y.shape@.len(),
        y.shape@[ax as int] >= 1,
    ensures
        mat_wf(r),
        r.rows as int == channels_of(y.shape@, ax as int),
        r.cols == y.shape@[ax as int],
        forall|pre: int, q: int, j: int|
            0 <= pre < outer_of(y.shape@, ax as int) && 0 <= q < block_of(y.shape@, ax as int) && 0
                <= j < y.shape@[ax as int] ==> #[trigger] mat_at(
                r,
                pre * block_of(y.shape@, ax as int) + q,
                j,
            ) == chan_at(*y, ax as int, pre, q, j),
{
    let alen = y.shape[ax];
    let total = y.data.len();
    let ghost outer_g = outer_of(y.shape@, ax as int);
    let ghost blk_g = block_of(y.shape@, ax as int);
    proof {
        lemma_dims_prod_split(y.shape@, ax as int);
        lemma_dims_prod_nonneg(y.shape@.take(ax as int));
        lemma_dims_prod_nonneg(y.shape@.skip(ax as int + 1));
    }
    if total == 0 {
        let r = RatMat { rows: 0, cols: alen, data: Vec::new() };
        proof {
            assert(outer_g == 0 || blk_g == 0) by (nonlinear_arith)
                requires
                    outer_g * (y.shape@[ax as int] * blk_g) == 0,
                    outer_g >= 0,
                    blk_g >= 0,
                    y.shape@[ax as int] >= 1,
            ;
            assert(outer_g * blk_g == 0) by (nonlinear_arith)
                requires
                    outer_g == 0 || blk_g == 0,
            ;
        }
        return r;
    }
    proof {
        assert(outer_g >= 1 && blk_g >= 1) by (nonlinear_arith)
            requires
                outer_g >= 0,
                blk_g >= 0,
                y.shape@[ax as int] >= 0,
                outer_g * (y.shape@[ax as int] * blk_g) > 0,
        ;
    }
    let ndims = y.shape.len();
    let outer = range_prod(&y.shape, 0, ax);
    let blk = range_prod(&y.shape, ax + 1, ndims);
    proof {
        assert(y.shape@.subrange(0, ax as int) =~= y.shape@.take(ax as int));
        assert(y.shape@.subrange(ax as int + 1, y.shape@.len() as int) =~= y.shape@.skip(
            ax as int + 1,
        ));
        assert(alen as int * blk_g >= 0) by (nonlinear_arith)
            requires
                alen as int >= 0,
                blk_g >= 0,
        ;
        assert(alen as int * blk_g <= total as int) by (nonlinear_arith)
            requires
                total as int == outer_g * (alen as int * blk_g),
                outer_g >= 1,
                alen as int * blk_g >= 0,
        ;
    }
    let ab = alen * blk;
    let mut out: Vec<Rat> = Vec::new();
    let mut pre: usize = 0;
    while pre < outer
        invariant
            arr_wf(*y),
            ax < y.shape@.len(),
            alen == y.shape@[ax as int],
            alen >= 1,
            outer == outer_g,
            blk == blk_g,
            outer_g >= 1,
            blk_g >= 1,
            total == y.data@.len(),
            total as int == outer_g * (alen as int * blk_g),
            ab as int == alen as int * blk_g,
            0 <= pre <= outer,
            out@.len() == pre * (blk_g * alen as int),
            seq_wf(out@),
            forall|p2: int, q2: int, j2: int|
                0 <= p2 < pre && 0 <= q2 < blk_g && 0 <= j2 < alen ==> (#[trigger] out@[p2 * (blk_g
                    * alen as int) + q2 * alen as int + j2])@ == chan_at(*y, ax as int, p2, q2, j2),
        decreases outer - pre,
    {
        let mut q: usize = 0;
        while q < blk
            invariant
                arr_wf(*y),
                ax < y.shape@.len(),
                alen == y.shape@[ax as int],
                alen >= 1,
                outer == outer_g,
                blk == blk_g,
                outer_g >= 1,
                blk_g >= 1,
                total == y.data@.len(),
                total as int == outer_g * (alen as int * blk_g),
                ab as int == alen as int * blk_g,
                pre < outer,
                0 <= q <= blk,
                out@.len() == pre * (blk_g * alen as int) + q * alen as int,
                seq_wf(out@),
                forall|p2: int, q2: int, j2: int|
                    0 <= p2 < pre && 0 <= q2 < blk_g && 0 <= j2 < alen ==> (#[trigger] out@[p2 * (
                    blk_g * alen as int) + q2 * alen as int + j2])@ == chan_at(
                        *y,
                        ax as int,
                        p2,
                        q2,
                        j2,
                    ),
                forall|q2: int, j2: int|
                    0 <= q2 < q && 0 <= j2 < alen ==> (#[trigger] out@[pre * (blk_g * alen as int)
                        + q2 * alen as int + j2])@ == chan_at(*y, ax as int, pre as int, q2, j2),
            decreases blk - q,
        {
            let mut j: usize = 0;
            while j < alen
                invariant
                    arr_wf(*y),
                    ax < y.shape@.len(),
                    alen == y.shape@[ax as int],
                    alen >= 1,
                    outer == outer_g,
                    blk == blk_g,
                    outer_g >= 1,
                    blk_g >= 1,
                    total == y.data@.len(),
                    total as int == outer_g * (alen as int * blk_g),
                    ab as int == alen as int * blk_g,
                    pre < outer,
                    q < blk,
                    0 <= j <= alen,
                    out@.len() == pre * (blk_g * alen as int) + q * alen as int + j,
                    seq_wf(out@),
                    forall|p2: int, q2: int, j2: int|
                        0 <= p2 < pre && 0 <= q2 < blk_g && 0 <= j2 < alen ==> (
                        #[trigger] out@[p2 * (blk_g * alen as int) + q2 * alen as int + j2])@
                            == chan_at(*y, ax as int, p2, q2, j2),
                    forall|q2: int, j2: int|
                        (0 <= q2 < q && 0 <= j2 < alen) || (q2 == q && 0 <= j2 < j) ==> (
                        #[trigger] out@[pre * (blk_g * alen as int) + q2 * alen as int + j2])@
                            == chan_at(*y, ax as int, pre as int, q2, j2),
                decreases alen - j,
            {
                proof {
                    lemma_grid_bound(pre as int, j as int, q as int, outer_g, alen as int, blk_g);
                    assert(pre as int * (alen as int * blk_g) >= 0 && j as int * blk_g >= 0)
                        by (nonlinear_arith)
                        requires
                            pre >= 0,
                            j >= 0,
                            alen as int * blk_g >= 0,
                            blk_g >= 0,
                    ;
                }
                let idx = pre * ab + j * blk + q;
                let v = y.data[idx];
                let ghost out0 = out@;
                out.push(v);
                proof {
                    lemma_grid_bound(pre as int, q as int, j as int, outer_g, blk_g, alen as int);
                    assert(out@[out0.len() as int] == v);
                    assert(v@ == chan_at(*y, ax as int, pre as int, q as int, j as int));
                    assert forall|q2: int, j2: int|
                        (0 <= q2 < q && 0 <= j2 < alen) || (q2 == q as int && 0 <= j2 < j
                            + 1) implies (#[trigger] out@[pre * (blk_g * alen as int) + q2
                        * alen as int + j2])@ == chan_at(*y, ax as int, pre as int, q2, j2) by {
                        if q2 == q as int && j2 == j as int {
                            assert(pre * (blk_g * alen as int) + q2 * alen as int + j2
                                == out0.len());
                        } else {
                            lemma_grid_lex(
                                pre as int,
                                q2,
                                j2,
                                pre as int,
                                q as int,
                                j as int,
                                blk_g,
                                alen as int,
                            );
                            lemma_grid_bound(pre as int, q2, j2, outer_g, blk_g, alen as int);
                            let t = pre * (blk_g * alen as int) + q2 * alen as int + j2;
                            assert(out@[t] == out0[t]);
                            assert((out0[t])@ == chan_at(*y, ax as int, pre as int, q2, j2));
                        }
                    }
                    assert forall|p2: int, q2: int, j2: int|
                        0 <= p2 < pre && 0 <= q2 < blk_g && 0 <= j2 < alen implies (
                    #[trigger] out@[p2 * (blk_g * alen as int) + q2 * alen as int + j2])@
                        == chan_at(*y, ax as int, p2, q2, j2) by {
                        lemma_grid_lex(
                            p2,
                            q2,
                            j2,
                            pre as int,
                            q as int,
                            j as int,
                            blk_g,
                            alen as int,
                        );
                        lemma_grid_bound(p2, q2, j2, outer_g, blk_g, alen as int);
                        let t = p2 * (blk_g * alen as int) + q2 * alen as int + j2;
                        assert(out@[t] == out0[t]);
                        assert((out0[t])@ == chan_at(*y, ax as int, p2, q2, j2));
                    }
                }
                j = j + 1;
            }
            proof {
                assert((q + 1) * alen as int == q * alen as int + alen as int) by (nonlinear_arith);
            }
            q = q + 1;
        }
        proof {
            assert((pre + 1) * (blk_g * alen as int) == pre * (blk_g * alen as int) + blk_g
                * alen as int) by (nonlinear_arith);
        }
        pre = pre + 1;
    }
    proof {
        assert(outer_g * blk_g <= total as int) by (nonlinear_arith)
            requires
                total as int == outer_g * (alen as int * blk_g),
                alen >= 1,
                outer_g >= 0,
                blk_g >= 0,
        ;
        assert(out@.len() == (outer_g * blk_g) * alen as int) by (nonlinear_arith)
            requires
                out@.len() == outer_g * (blk_g * alen as int),
        ;
    }
    let rows = outer * blk;
    let r = RatMat { rows, cols: alen, data: out };
    proof {
        assert forall|pre2: int, q2: int, j2: int|
            0 <= pre2 < outer_g && 0 <= q2 < blk_g && 0 <= j2 < alen implies #[trigger] mat_at(
            r,
            pre2 * blk_g + q2,
            j2,
        ) == chan_at(*y, ax as int, pre2, q2, j2) by {
            assert((pre2 * blk_g + q2) * alen as int + j2 == pre2 * (blk_g * alen as int) + q2
                * alen as int + j2) by (nonlinear_arith);
        }
    }
    r
}

/// Adjacent differences of a one-dimensional sequence of sites.
pub(crate) fn vec_diff(x: &Vec<Rat>) -> (r: Option<Vec<Rat>>)
    requires
        seq_wf(x@),
        x@.len() >= 1,
    ensures
        r matches Some(h) ==> {
            &&& h@.len() == x@.len() - 1
            &&& seq_wf(h@)
            &&& forall|i: int|
                0 <= i < x@.len() - 1 ==> q_eq((#[trigger] h@[i])@, q_sub(x@[i + 1]@, x@[i]@))
        },
        (forall|i: int|
            0 <= i < x@.len() - 1 ==> #[trigger] q_fits(q_sub(x@[i + 1]@, x@[i]@))) ==> r is Some,
        r is None ==> exists|i: int|
            0 <= i < x@.len() - 1 && !(#[trigger] q_fits(q_sub(x@[i + 1]@, x@[i]@))),
{
    let mut h: Vec<Rat> = Vec::new();
    let mut i: usize = 0;
    while i < x.len() - 1
        invariant
            seq_wf(x@),
            x@.len() >= 1,
            0 <= i <= x@.len() - 1,
            h@.len() == i,
            seq_wf(h@),
            forall|t: int| 0 <= t < i ==> q_eq((#[trigger] h@[t])@, q_sub(x@[t + 1]@, x@[t]@)),
        decreases x@.len() - 1 - i,
    {
        let d = match x[i + 1].sub(x[i]) {
            Some(d) => d,
            None => {
                proof {
                    assert(!q_fits(q_sub(x@[i as int + 1]@, x@[i as int]@)));
                }
                return None;
            },
        };
        h.push(d);
        i = i + 1;
    }
    Some(h)
}

impl CubicSmoothingSpline {
    /// Fits the spline on validated data and caches it on the builder.
    #[verifier::rlimit(100)]
    pub(crate) fn make_spline(self) -> (r: Result<CubicSmoothingSpline, CsapsError>)
        requires
            css_wf(self),
            sites_ok(self.x@),
            axis_ok(self.y.shape@, self.axis, self.x@.len() as int),
            weights_ok(self.weights, self.x@.len() as int),
            smooth_ok(self.smooth),
        ensures
            r matches Ok(s1) ==> make_post(self, s1),
            r matches Err(e) ==> e is SingularSystem || e is NumericOverflow,
            self.x@.len() == 2 && r is Err ==> (r matches Err(e) && e is NumericOverflow),
    {
        let n = self.x.len();
        let nd = self.y.shape.len();
        let ax = match self.axis {
            Some(a) => a,
            None => nd - 1,
        };
        let y2d = to_2d(&self.y, ax);
        let nch = y2d.rows;
        let h = match vec_diff(&self.x) {
            Some(h) => h,
            None => {
                return Err(CsapsError::NumericOverflow);
            },
        };
        // numeric safety net: every spacing must be positive before division;
        // on strictly increasing sites the exact spacings provably are, so
        // the check cannot fire
        proof {
            lemma_spacings_positive(self.x@, h@);
        }
        let zero = Rat::from_int(0);
        let mut i: usize = 0;
        while i < h.len()
            invariant
                seq_wf(h@),
                rat_wf(zero),
                zero@ == q_int(0),
                0 <= i <= h@.len(),
                forall|t: int| 0 <= t < h@.len() ==> q_lt(q_int(0), (#[trigger] h@[t])@),
            decreases h@.len() - i,
        {
            if !zero.lt(h[i]) {
                return Err(CsapsError::DegenerateSpacing);
            }
            i = i + 1;
        }
        proof {
            assert forall|t: int| 0 <= t < qs(h@).len() implies q_wf(#[trigger] qs(h@)[t]) && q_lt(
                q_int(0),
                qs(h@)[t],
            ) by {
                assert(qs(h@)[t] == h@[t]@);
                assert(rat_wf(h@[t]));
            }
        }
        if n == 2 {
            let (coeffs, smooth) = match make_linear(&y2d, &h) {
                Some(v) => v,
                None => {
                    return Err(CsapsError::NumericOverflow);
                },
            };
            let ghost s0 = self;
            let ghost y2g = y2d;
            let breaks = copy_sites(&self.x);
            let spline = NdSpline::new(2, breaks, coeffs);
            let out = CubicSmoothingSpline {
                x: self.x,
                y: self.y,
                axis: Some(ax),
                weights: self.weights,
                smooth: Some(smooth),
                spline: Some(spline),
            };
            proof {
                let ax_i = ax as int;
                let blk = block_of(s0.y.shape@, ax_i);
                let outer = outer_of(s0.y.shape@, ax_i);
                let dxs = q_sub(s0.x@[1]@, s0.x@[0]@);
                let sp = out.spline.unwrap();
                assert forall|pre: int, q: int| 0 <= pre < outer && 0 <= q < blk implies q_eq(
                    #[trigger] mat_at(sp.coeffs, pre * blk + q, 0),
                    q_div(
                        q_sub(chan_at(s0.y, ax_i, pre, q, 1), chan_at(s0.y, ax_i, pre, q, 0)),
                        dxs,
                    ),
                ) && q_eq(mat_at(sp.coeffs, pre * blk + q, 1), chan_at(s0.y, ax_i, pre, q, 0)) by {
                    lemma_rc_bound(pre, q, outer, blk);
                    let c = pre * blk + q;
                    assert(mat_at(y2g, c, 0) == chan_at(s0.y, ax_i, pre, q, 0));
                    assert(mat_at(y2g, c, 1) == chan_at(s0.y, ax_i, pre, q, 1));
                    let ns = q_sub(mat_at(y2g, c, 1), mat_at(y2g, c, 0));
                    assert(q_eq(mat_at(sp.coeffs, c, 0), q_div(ns, h@[0]@)));
                    // switch the divisor to the sites' exact spacing
                    lemma_rc_bound(c, 1, y2g.rows as int, y2g.cols as int);
                    lemma_rc_bound(c, 0, y2g.rows as int, y2g.cols as int);
                    lemma_q_ops_wf(mat_at(y2g, c, 1), mat_at(y2g, c, 0));
                    lemma_q_ops_wf(s0.x@[1]@, s0.x@[0]@);
                    assert(q_lt(s0.x@[0]@, s0.x@[1]@)) by {
                        assert(qs(s0.x@)[0] == s0.x@[0]@ && qs(s0.x@)[1] == s0.x@[1]@);
                    }
                    assert(h@[0]@.n > 0);
                    assert(dxs.n > 0);
                    lemma_q_div_cong(ns, h@[0]@, ns, dxs);
                    lemma_q_ops_wf(ns, h@[0]@);
                    lemma_q_ops_wf(ns, dxs);
                    lemma_q_eq_trans(mat_at(sp.coeffs, c, 0), q_div(ns, h@[0]@), q_div(ns, dxs));
                }
                assert(make_post(s0, out));
            }
            Ok(out)
        } else {
            let wv = match &self.weights {
                Some(w) => copy_sites(w),
                None => ones(n),
            };
            let mut t: usize = 0;
            while t < wv.len()
                invariant
                    seq_wf(wv@),
                    self.x@.len() != 2,
                    0 <= t <= wv@.len(),
                    forall|t2: int| 0 <= t2 < t ==> (#[trigger] wv@[t2])@.n != 0,
                decreases wv@.len() - t,
            {
                if wv[t].is_zero() {
                    return Err(CsapsError::SingularSystem);
                }
                t = t + 1;
            }
            proof {
                assert forall|t2: int| 0 <= t2 < qs(wv@).len() implies q_wf(
                    #[trigger] qs(wv@)[t2],
                ) && qs(wv@)[t2].n != 0 by {
                    assert(qs(wv@)[t2] == wv@[t2]@);
                    assert(rat_wf(wv@[t2]));
                }
            }
            let p = match &self.smooth {
                Some(p) => *p,
                None => match default_smooth(&h, &wv) {
                    Some(p) => p,
                    None => {
                        return Err(CsapsError::NumericOverflow);
                    },
                },
            };
            let a = match build_system(&h, &wv, p) {
                Some(a) => a,
                None => {
                    return Err(CsapsError::NumericOverflow);
                },
            };
            let b = match build_rhs(&h, &y2d) {
                Some(b) => b,
                None => {
                    return Err(CsapsError::NumericOverflow);
                },
            };
            let ghost y2g = y2d;
            let u = match solve(&a, &b) {
                Some(u) => u,
                None => {
                    return Err(CsapsError::SingularSystem);
                },
            };
            let coeffs = match make_cubic_coeffs(&h, &wv, p, &y2d, &u) {
                Some(m) => m,
                None => {
                    return Err(CsapsError::NumericOverflow);
                },
            };
            let ghost s0 = self;
            let breaks = copy_sites(&self.x);
            proof {
                vstd::arithmetic::div_mod::lemma_div_multiples_vanish(
                    coeffs.cols as int / 4,
                    4,
                );
                assert(coeffs.cols as int == 4 * (n as int - 1));
                assert(coeffs.cols as int / 4 == n as int - 1) by {
                    vstd::arithmetic::div_mod::lemma_div_multiples_vanish(n as int - 1, 4);
                }
            }
            let spline = NdSpline::new(4, breaks, coeffs);
            let out = CubicSmoothingSpline {
                x: self.x,
                y: self.y,
                axis: Some(ax),
                weights: self.weights,
                smooth: Some(p),
                spline: Some(spline),
            };
            proof {
                let ni = n as int;
                let hvv = qs(h@);
                let wvv = qs(wv@);
                // the spacings are the sites' exact differences, well formed
                assert forall|t: int| 0 <= t < ni - 1 implies q_wf(#[trigger] hvv[t]) && q_eq(
                    hvv[t],
                    q_sub(s0.x@[t + 1]@, s0.x@[t]@),
                ) by {
                    assert(hvv[t] == h@[t]@);
                    assert(rat_wf(h@[t]));
                }
                // the curvature matrix solves the penalized system exactly
                assert forall|i2: int, c2: int|
                    0 <= i2 < ni - 2 && 0 <= c2 < y2g.rows implies q_eq(
                    #[trigger] dot_k(a, i2, u, c2, ni - 2),
                    rhs_at(y2g, hvv, i2, c2),
                ) by {
                    lemma_dot_k_wf(a, i2, u, c2, ni - 2);
                    lemma_rhs_at_wf(y2g, hvv, i2, c2);
                    lemma_rc_bound(i2, c2, b.rows as int, b.cols as int);
                    lemma_q_eq_trans(
                        dot_k(a, i2, u, c2, ni - 2),
                        mat_at(b, i2, c2),
                        rhs_at(y2g, hvv, i2, c2),
                    );
                }
                let axl = resolved_axis(s0.y.shape@.len() as int, s0.axis);
                let nchl = channels_of(s0.y.shape@, axl);
                assert(out.spline.unwrap().coeffs == coeffs);
                assert(out.smooth.unwrap() == p);
                assert(mat_wf(y2g) && y2g.rows as int == nchl && y2g.cols as int == ni);
                assert(forall|pre: int, q: int, j: int|
                    0 <= pre < outer_of(s0.y.shape@, axl) && 0 <= q < block_of(s0.y.shape@, axl)
                        && 0 <= j < ni ==> #[trigger] mat_at(
                        y2g,
                        pre * block_of(s0.y.shape@, axl) + q,
                        j,
                    ) == chan_at(s0.y, axl, pre, q, j));
                assert(hvv.len() == ni - 1 && wvv.len() == ni);
                assert forall|k: int| 0 <= k < ni implies q_wf(#[trigger] wvv[k]) && wvv[k].n
                    != 0 by {
                    assert(wvv[k] == wv@[k]@);
                }
                assert(s0.weights is None ==> forall|k: int|
                    0 <= k < ni ==> q_eq(#[trigger] wvv[k], q_int(1)));
                assert(s0.weights matches Some(w) ==> wvv == qs(w@));
                assert(s0.smooth is None ==> q_eq(p@, smooth_default_at(hvv, wvv)));
                assert(mat_wf(a) && a.rows as int == ni - 2 && a.cols as int == ni - 2);
                assert(mat_wf(u) && u.rows as int == ni - 2 && u.cols as int == nchl);
                assert(forall|i2: int, j2: int|
                    0 <= i2 < ni - 2 && 0 <= j2 < ni - 2 ==> q_eq(
                        #[trigger] mat_at(a, i2, j2),
                        sys_at(hvv, wvv, p@, i2, j2),
                    ));
                assert(cubic_fit_ok(s0, y2g, a, u, hvv, wvv, p@, coeffs));
                assert(cubic_fit_ok(
                    s0,
                    y2g,
                    a,
                    u,
                    hvv,
                    wvv,
                    out.smooth.unwrap()@,
                    out.spline.unwrap().coeffs,
                ));
                assert(make_post(s0, out));
            }
            Ok(out)
        }
    }
}

/// The exact linear fit for two sites: per channel, slope and intercept; the
/// smoothing parameter is fixed at one.
fn make_linear(y2d: &RatMat, h: &Vec<Rat>) -> (r: Option<(RatMat, Rat)>)
    requires
        mat_wf(*y2d),
        y2d.cols == 2,
        seq_wf(h@),
        h@.len() == 1,
        q_lt(q_int(0), h@[0]@),
    ensures
        r matches Some(v) ==> {
            let m = v.0;
            &&& mat_wf(m)
            &&& m.rows == y2d.rows
            &&& m.cols == 2
            &&& rat_wf(v.1)
            &&& q_eq(v.1@, q_int(1))
            &&& forall|c: int|
                0 <= c < y2d.rows ==> q_eq(
                    #[trigger] mat_at(m, c, 0),
                    q_div(q_sub(mat_at(*y2d, c, 1), mat_at(*y2d, c, 0)), h@[0]@),
                ) && q_eq(mat_at(m, c, 1), mat_at(*y2d, c, 0))
        },
{
    let dx = h[0];
    let mut data: Vec<Rat> = Vec::new();
    let mut c: usize = 0;
    while c < y2d.rows
        invariant
            mat_wf(*y2d),
            y2d.cols == 2,
            seq_wf(h@),
            h@.len() == 1,
            q_lt(q_int(0), h@[0]@),
            dx == h@[0],
            0 <= c <= y2d.rows,
            data@.len() == c * 2,
            seq_wf(data@),
            forall|c2: int|
                0 <= c2 < c ==> q_eq(
                    (#[trigger] data@[c2 * 2])@,
                    q_div(q_sub(mat_at(*y2d, c2, 1), mat_at(*y2d, c2, 0)), h@[0]@),
                ) && q_eq(data@[c2 * 2 + 1]@, mat_at(*y2d, c2, 0)),
        decreases y2d.rows - c,
    {
        proof {
            lemma_rc_bound(c as int, 1, y2d.rows as int, 2);
        }
        let y0 = y2d.get(c, 0);
        let y1 = y2d.get(c, 1);
        let num = match y1.sub(y0) {
            Some(v) => v,
            None => {
                return None;
            },
        };
        let slope = match num.div(dx) {
            Some(v) => v,
            None => {
                return None;
            },
        };
        proof {
            let ns = q_sub(mat_at(*y2d, c as int, 1), mat_at(*y2d, c as int, 0));
            lemma_q_ops_wf(mat_at(*y2d, c as int, 1), mat_at(*y2d, c as int, 0));
            assert(dx@.n > 0);
            lemma_q_div_cong(num@, dx@, ns, dx@);
            lemma_q_ops_wf(num@, dx@);
            lemma_q_ops_wf(ns, dx@);
            lemma_q_eq_trans(slope@, q_div(num@, dx@), q_div(ns, dx@));
        }
        let ghost data0 = data@;
        data.push(slope);
        data.push(y0);
        proof {
            assert((c + 1) * 2 == c * 2 + 2) by (nonlinear_arith);
            assert(data@[data0.len() as int] == slope);
            assert(data@[data0.len() as int + 1] == y0);
            assert forall|c2: int|
                0 <= c2 < c + 1 implies q_eq(
                (#[trigger] data@[c2 * 2])@,
                q_div(q_sub(mat_at(*y2d, c2, 1), mat_at(*y2d, c2, 0)), h@[0]@),
            ) && q_eq(data@[c2 * 2 + 1]@, mat_at(*y2d, c2, 0)) by {
                assert(c2 * 2 >= 0 && c2 * 2 + 1 < (c + 1) * 2) by (nonlinear_arith)
                    requires
                        0 <= c2 < c + 1,
                ;
                if c2 < c {
                    assert(c2 * 2 + 1 < c as int * 2) by (nonlinear_arith)
                        requires
                            c2 < c,
                            c2 >= 0,
                    ;
                    assert(data@[c2 * 2] == data0[c2 * 2]);
                    assert(data@[c2 * 2 + 1] == data0[c2 * 2 + 1]);
                    assert(q_eq(
                        (data0[c2 * 2])@,
                        q_div(q_sub(mat_at(*y2d, c2, 1), mat_at(*y2d, c2, 0)), h@[0]@),
                    ) && q_eq(data0[c2 * 2 + 1]@, mat_at(*y2d, c2, 0)));
                } else {
                    assert(c2 * 2 == data0.len());
                }
            }
        }
        c = c + 1;
    }
    let m = RatMat { rows: y2d.rows, cols: 2, data };
    let one = Rat::from_int(1);
    proof {
        assert(y2d.rows as int * 2 <= y2d.rows * y2d.cols);
        assert forall|c2: int| 0 <= c2 < y2d.rows implies q_eq(
            #[trigger] mat_at(m, c2, 0),
            q_div(q_sub(mat_at(*y2d, c2, 1), mat_at(*y2d, c2, 0)), h@[0]@),
        ) && q_eq(mat_at(m, c2, 1), mat_at(*y2d, c2, 0)) by {
            assert(c2 * m.cols + 0 == c2 * 2 && c2 * m.cols + 1 == c2 * 2 + 1);
        }
    }
    Some((m, one))
}


/// The reciprocal of a spacing.
pub open spec fn q_inv(h: Q) -> Q {
    q_div(q_int(1), h)
}

/// Entry `(i, k)` of the divided-difference operator over the spacings `hq`.
pub open spec fn qmat_at(hq: Seq<Q>, i: int, k: int) -> Q {
    if k == i {
        q_inv(hq[i])
    } else if k == i + 1 {
        q_neg(q_add(q_inv(hq[i]), q_inv(hq[i + 1])))
    } else if k == i + 2 {
        q_inv(hq[i + 1])
    } else {
        q_int(0)
    }
}

/// Entry `(i, j)` of the tridiagonal curvature matrix `R`.
pub open spec fn r_at(hq: Seq<Q>, i: int, j: int) -> Q {
    if j == i {
        q_mul(q_int(2), q_add(hq[i], hq[i + 1]))
    } else if j + 1 == i {
        hq[i]
    } else if j == i + 1 {
        hq[i + 1]
    } else {
        q_int(0)
    }
}

/// The first `k` terms of entry `(i, j)` of `Q·W⁻¹·Qᵀ`.
pub open spec fn qtw_at(hq: Seq<Q>, wq: Seq<Q>, i: int, j: int, k: int) -> Q
    decreases k,
{
    if k <= 0 {
        q_int(0)
    } else {
        q_add(
            qtw_at(hq, wq, i, j, k - 1),
            q_div(q_mul(qmat_at(hq, i, k - 1), qmat_at(hq, j, k - 1)), wq[k - 1]),
        )
    }
}

/// The weight of the data-fidelity term: `6(1-p)`.
pub open spec fn fid_weight(p: Q) -> Q {
    q_mul(q_int(6), q_sub(q_int(1), p))
}

/// Entry `(i, j)` of the penalized system `6(1-p)·Q·W⁻¹·Qᵀ + p·R`.
pub open spec fn sys_at(hq: Seq<Q>, wq: Seq<Q>, p: Q, i: int, j: int) -> Q {
    q_add(q_mul(fid_weight(p), qtw_at(hq, wq, i, j, wq.len() as int)), q_mul(p, r_at(hq, i, j)))
}

/// The divided difference of channel `c` over the piece `i`.
pub open spec fn dydx_at(y2d: RatMat, hq: Seq<Q>, c: int, i: int) -> Q {
    q_div(q_sub(mat_at(y2d, c, i + 1), mat_at(y2d, c, i)), hq[i])
}

/// Entry `(i, c)` of the right-hand side: second divided differences.
pub open spec fn rhs_at(y2d: RatMat, hq: Seq<Q>, i: int, c: int) -> Q {
    q_sub(dydx_at(y2d, hq, c, i + 1), dydx_at(y2d, hq, c, i))
}

/// Positive spacings with well-formed views.
pub open spec fn spacings_ok(hq: Seq<Q>) -> bool {
    forall|t: int| 0 <= t < hq.len() ==> q_wf(#[trigger] hq[t]) && q_lt(q_int(0), hq[t])
}

/// Well-formed, nonzero weights.
pub open spec fn weights_usable(wq: Seq<Q>) -> bool {
    forall|t: int| 0 <= t < wq.len() ==> q_wf(#[trigger] wq[t]) && wq[t].n != 0
}

proof fn lemma_qmat_wf(hq: Seq<Q>, i: int, k: int)
    requires
        spacings_ok(hq),
        0 <= i,
        i + 1 < hq.len(),
    ensures
        q_wf(qmat_at(hq, i, k)),
{
    lemma_q_ops_wf(q_int(1), hq[i]);
    lemma_q_ops_wf(q_int(1), hq[i + 1]);
    lemma_q_ops_wf(q_inv(hq[i]), q_inv(hq[i + 1]));
    lemma_q_ops_wf(q_add(q_inv(hq[i]), q_inv(hq[i + 1])), q_int(1));
}

proof fn lemma_qtw_wf(hq: Seq<Q>, wq: Seq<Q>, i: int, j: int, k: int)
    requires
        spacings_ok(hq),
        weights_usable(wq),
        0 <= i,
        0 <= j,
        i + 1 < hq.len(),
        j + 1 < hq.len(),
        k <= wq.len(),
    ensures
        q_wf(qtw_at(hq, wq, i, j, k)),
    decreases k,
{
    if k <= 0 {
    } else {
        lemma_qtw_wf(hq, wq, i, j, k - 1);
        lemma_qmat_wf(hq, i, k - 1);
        lemma_qmat_wf(hq, j, k - 1);
        lemma_q_ops_wf(qmat_at(hq, i, k - 1), qmat_at(hq, j, k - 1));
        lemma_q_ops_wf(q_mul(qmat_at(hq, i, k - 1), qmat_at(hq, j, k - 1)), wq[k - 1]);
        lemma_q_ops_wf(
            qtw_at(hq, wq, i, j, k - 1),
            q_div(q_mul(qmat_at(hq, i, k - 1), qmat_at(hq, j, k - 1)), wq[k - 1]),
        );
    }
}

proof fn lemma_r_at_wf(hq: Seq<Q>, i: int, j: int)
    requires
        spacings_ok(hq),
        0 <= i,
        0 <= j,
        i + 1 < hq.len(),
        j + 1 < hq.len(),
    ensures
        q_wf(r_at(hq, i, j)),
{
    lemma_q_ops_wf(hq[i], hq[i + 1]);
    lemma_q_ops_wf(q_int(2), q_add(hq[i], hq[i + 1]));
}

proof fn lemma_fid_weight_wf(p: Q)
    requires
        q_wf(p),
    ensures
        q_wf(fid_weight(p)),
{
    lemma_q_ops_wf(q_int(1), p);
    lemma_q_ops_wf(q_int(6), q_sub(q_int(1), p));
}


/// The curvature vector with natural boundaries: zero at both ends, the
/// solved interior values between.
pub open spec fn ufull_at(u: RatMat, c: int, i: int, n: int) -> Q {
    if i == 0 || i == n - 1 {
        q_int(0)
    } else {
        mat_at(u, i - 1, c)
    }
}

/// First differences of the padded curvatures over each piece.
pub open spec fn d1_at(u: RatMat, hq: Seq<Q>, c: int, i: int, n: int) -> Q {
    q_div(q_sub(ufull_at(u, c, i + 1, n), ufull_at(u, c, i, n)), hq[i])
}

/// Second differences of the padded curvatures, padded again.
pub open spec fn d2_at(u: RatMat, hq: Seq<Q>, c: int, i: int, n: int) -> Q {
    if i == 0 {
        d1_at(u, hq, c, 0, n)
    } else if i < n - 1 {
        q_sub(d1_at(u, hq, c, i, n), d1_at(u, hq, c, i - 1, n))
    } else {
        q_neg(d1_at(u, hq, c, n - 2, n))
    }
}

/// The smoothed value of channel `c` at site `i`.
pub open spec fn yi_at(
    u: RatMat,
    y2d: RatMat,
    hq: Seq<Q>,
    wq: Seq<Q>,
    p: Q,
    c: int,
    i: int,
    n: int,
) -> Q {
    q_sub(mat_at(y2d, c, i), q_div(q_mul(fid_weight(p), d2_at(u, hq, c, i, n)), wq[i]))
}

/// The scaled curvature at site `i`.
pub open spec fn c3_at(u: RatMat, p: Q, c: int, i: int, n: int) -> Q {
    q_mul(p, ufull_at(u, c, i, n))
}

/// The cubic coefficient of piece `i`.
pub open spec fn coef_a_at(u: RatMat, hq: Seq<Q>, p: Q, c: int, i: int, n: int) -> Q {
    q_div(q_sub(c3_at(u, p, c, i + 1, n), c3_at(u, p, c, i, n)), hq[i])
}

/// The quadratic coefficient of piece `i`.
pub open spec fn coef_b_at(u: RatMat, p: Q, c: int, i: int, n: int) -> Q {
    q_mul(q_int(3), c3_at(u, p, c, i, n))
}

/// The linear coefficient of piece `i`.
pub open spec fn coef_c_at(
    u: RatMat,
    y2d: RatMat,
    hq: Seq<Q>,
    wq: Seq<Q>,
    p: Q,
    c: int,
    i: int,
    n: int,
) -> Q {
    q_sub(
        q_div(
            q_sub(yi_at(u, y2d, hq, wq, p, c, i + 1, n), yi_at(u, y2d, hq, wq, p, c, i, n)),
            hq[i],
        ),
        q_mul(hq[i], q_add(q_mul(q_int(2), c3_at(u, p, c, i, n)), c3_at(u, p, c, i + 1, n))),
    )
}

/// The constant coefficient of piece `i`.
pub open spec fn coef_d_at(
    u: RatMat,
    y2d: RatMat,
    hq: Seq<Q>,
    wq: Seq<Q>,
    p: Q,
    c: int,
    i: int,
    n: int,
) -> Q {
    yi_at(u, y2d, hq, wq, p, c, i, n)
}

proof fn lemma_ufull_wf(u: RatMat, c: int, i: int, n: int)
    requires
        mat_wf(u),
        u.rows == n - 2,
        0 <= c < u.cols,
        0 <= i <= n - 1,
        n >= 3,
    ensures
        q_wf(ufull_at(u, c, i, n)),
{
    if i != 0 && i != n - 1 {
        lemma_rc_bound(i - 1, c, u.rows as int, u.cols as int);
    }
}

proof fn lemma_d1_wf(u: RatMat, hq: Seq<Q>, c: int, i: int, n: int)
    requires
        mat_wf(u),
        u.rows == n - 2,
        0 <= c < u.cols,
        spacings_ok(hq),
        hq.len() == n - 1,
        0 <= i <= n - 2,
        n >= 3,
    ensures
        q_wf(d1_at(u, hq, c, i, n)),
{
    lemma_ufull_wf(u, c, i, n);
    lemma_ufull_wf(u, c, i + 1, n);
    lemma_q_ops_wf(ufull_at(u, c, i + 1, n), ufull_at(u, c, i, n));
    lemma_q_ops_wf(q_sub(ufull_at(u, c, i + 1, n), ufull_at(u, c, i, n)), hq[i]);
}

proof fn lemma_d2_wf(u: RatMat, hq: Seq<Q>, c: int, i: int, n: int)
    requires
        mat_wf(u),
        u.rows == n - 2,
        0 <= c < u.cols,
        spacings_ok(hq),
        hq.len() == n - 1,
        0 <= i <= n - 1,
        n >= 3,
    ensures
        q_wf(d2_at(u, hq, c, i, n)),
{
    if i == 0 {
        lemma_d1_wf(u, hq, c, 0, n);
    } else if i < n - 1 {
        lemma_d1_wf(u, hq, c, i, n);
        lemma_d1_wf(u, hq, c, i - 1, n);
        lemma_q_ops_wf(d1_at(u, hq, c, i, n), d1_at(u, hq, c, i - 1, n));
    } else {
        lemma_d1_wf(u, hq, c, n - 2, n);
        lemma_q_ops_wf(d1_at(u, hq, c, n - 2, n), q_int(1));
    }
}

proof fn lemma_yi_wf(u: RatMat, y2d: RatMat, hq: Seq<Q>, wq: Seq<Q>, p: Q, c: int, i: int, n: int)
    requires
        mat_wf(u),
        u.rows == n - 2,
        0 <= c < u.cols,
        mat_wf(y2d),
        y2d.cols == n,
        c < y2d.rows,
        spacings_ok(hq),
        weights_usable(wq),
        hq.len() == n - 1,
        wq.len() == n,
        q_wf(p),
        0 <= i <= n - 1,
        n >= 3,
    ensures
        q_wf(yi_at(u, y2d, hq, wq, p, c, i, n)),
{
    lemma_d2_wf(u, hq, c, i, n);
    lemma_fid_weight_wf(p);
    lemma_q_ops_wf(fid_weight(p), d2_at(u, hq, c, i, n));
    lemma_q_ops_wf(q_mul(fid_weight(p), d2_at(u, hq, c, i, n)), wq[i]);
    lemma_rc_bound(c, i, y2d.rows as int, y2d.cols as int);
    lemma_q_ops_wf(mat_at(y2d, c, i), q_div(q_mul(fid_weight(p), d2_at(u, hq, c, i, n)), wq[i]));
}

proof fn lemma_c3_wf(u: RatMat, p: Q, c: int, i: int, n: int)
    requires
        mat_wf(u),
        u.rows == n - 2,
        0 <= c < u.cols,
        q_wf(p),
        0 <= i <= n - 1,
        n >= 3,
    ensures
        q_wf(c3_at(u, p, c, i, n)),
{
    lemma_ufull_wf(u, c, i, n);
    lemma_q_ops_wf(p, ufull_at(u, c, i, n));
}


/// The witnessed content of a cubic fit: a channel layout of the data, the
/// exact spacings and the weights in force, a system matrix matching the
/// penalized formulas, a curvature matrix that solves it against the second
/// divided differences, and coefficients equal to their closed forms over
/// those curvatures.
pub open spec fn cubic_fit_ok(
    s0: CubicSmoothingSpline,
    y2m: RatMat,
    am: RatMat,
    um: RatMat,
    hv: Seq<Q>,
    wv: Seq<Q>,
    p: Q,
    cm: RatMat,
) -> bool {
    let n = s0.x@.len() as int;
    let ax = resolved_axis(s0.y.shape@.len() as int, s0.axis);
    let nch = channels_of(s0.y.shape@, ax);
    let blk = block_of(s0.y.shape@, ax);
    let outer = outer_of(s0.y.shape@, ax);
    &&& mat_wf(y2m)
    &&& y2m.rows as int == nch
    &&& y2m.cols as int == n
    &&& (forall|pre: int, q: int, j: int|
        0 <= pre < outer && 0 <= q < blk && 0 <= j < n ==> #[trigger] mat_at(y2m, pre * blk + q, j)
            == chan_at(s0.y, ax, pre, q, j))
    &&& hv.len() == n - 1
    &&& (forall|i: int|
        0 <= i < n - 1 ==> q_wf(#[trigger] hv[i]) && q_eq(hv[i], q_sub(s0.x@[i + 1]@, s0.x@[i]@)))
    &&& wv.len() == n
    &&& (forall|k: int| 0 <= k < n ==> q_wf(#[trigger] wv[k]) && wv[k].n != 0)
    &&& (s0.weights matches Some(w) ==> wv == qs(w@))
    &&& (s0.weights is None ==> forall|k: int| 0 <= k < n ==> q_eq(#[trigger] wv[k], q_int(1)))
    &&& (s0.smooth is None ==> q_eq(p, smooth_default_at(hv, wv)))
    &&& mat_wf(am)
    &&& am.rows as int == n - 2
    &&& am.cols as int == n - 2
    &&& (forall|i: int, j: int|
        0 <= i < n - 2 && 0 <= j < n - 2 ==> q_eq(#[trigger] mat_at(am, i, j), sys_at(hv, wv, p, i, j)))
    &&& mat_wf(um)
    &&& um.rows as int == n - 2
    &&& um.cols as int == nch
    &&& (forall|i: int, c: int|
        0 <= i < n - 2 && 0 <= c < nch ==> q_eq(
            #[trigger] dot_k(am, i, um, c, n - 2),
            rhs_at(y2m, hv, i, c),
        ))
    &&& (forall|c: int, i: int|
        0 <= c < nch && 0 <= i < n - 1 ==> q_eq(
            #[trigger] mat_at(cm, c, i),
            coef_a_at(um, hv, p, c, i, n),
        ) && q_eq(mat_at(cm, c, (n - 1) + i), coef_b_at(um, p, c, i, n)) && q_eq(
            mat_at(cm, c, 2 * (n - 1) + i),
            coef_c_at(um, y2m, hv, wv, p, c, i, n),
        ) && q_eq(mat_at(cm, c, 3 * (n - 1) + i), coef_d_at(um, y2m, hv, wv, p, c, i, n)))
}

proof fn lemma_rhs_at_wf(y2d: RatMat, hq: Seq<Q>, i: int, c: int)
    requires
        mat_wf(y2d),
        spacings_ok(hq),
        y2d.cols == hq.len() + 1,
        0 <= c < y2d.rows,
        0 <= i < hq.len() - 1,
    ensures
        q_wf(rhs_at(y2d, hq, i, c)),
{
    lemma_rc_bound(c, i, y2d.rows as int, y2d.cols as int);
    lemma_rc_bound(c, i + 1, y2d.rows as int, y2d.cols as int);
    lemma_rc_bound(c, i + 2, y2d.rows as int, y2d.cols as int);
    lemma_q_ops_wf(mat_at(y2d, c, i + 1), mat_at(y2d, c, i));
    lemma_q_ops_wf(mat_at(y2d, c, i + 2), mat_at(y2d, c, i + 1));
    lemma_q_ops_wf(q_sub(mat_at(y2d, c, i + 1), mat_at(y2d, c, i)), hq[i]);
    lemma_q_ops_wf(q_sub(mat_at(y2d, c, i + 2), mat_at(y2d, c, i + 1)), hq[i + 1]);
    lemma_q_ops_wf(dydx_at(y2d, hq, c, i + 1), dydx_at(y2d, hq, c, i));
}

/// Uniform unit weights for when none are given.
fn ones(n: usize) -> (r: Vec<Rat>)
    ensures
        r@.len() == n,
        seq_wf(r@),
        forall|i: int| 0 <= i < n ==> q_eq((#[trigger] r@[i])@, q_int(1)),
{
    let one = Rat::from_int(1);
    let mut out: Vec<Rat> = Vec::new();
    let mut i: usize = 0;
    while i < n
        invariant
            0 <= i <= n,
            out@.len() == i,
            seq_wf(out@),
            rat_wf(one),
            one@ == q_int(1),
            forall|t: int| 0 <= t < i ==> q_eq((#[trigger] out@[t])@, q_int(1)),
        decreases n - i,
    {
        out.push(one);
        i = i + 1;
    }
    out
}

/// Entry `(i, k)` of the divided-difference operator: `1/h[i]` at `k == i`,
/// `-(1/h[i] + 1/h[i+1])` at `k == i + 1`, `1/h[i+1]` at `k == i + 2`, zero
/// elsewhere. `None` when the arithmetic leaves the representable range.
fn qmat(h: &Vec<Rat>, i: usize, k: usize) -> (r: Option<Rat>)
    requires
        seq_wf(h@),
        i + 1 < h@.len(),
        spacings_ok(qs(h@)),
    ensures
        r matches Some(v) ==> rat_wf(v) && q_eq(v@, qmat_at(qs(h@), i as int, k as int)),
{
    let hl = h.len();
    let ghost hq = qs(h@);
    let one = Rat::from_int(1);
    let zero = Rat::from_int(0);
    if k == i {
        one.div(h[i])
    } else if k == i + 1 {
        let a = match one.div(h[i]) {
            Some(v) => v,
            None => {
                return None;
            },
        };
        let b = match one.div(h[i + 1]) {
            Some(v) => v,
            None => {
                return None;
            },
        };
        match a.add(b) {
            Some(v) => {
                proof {
                    lemma_q_ops_wf(q_int(1), hq[i as int]);
                    lemma_q_ops_wf(q_int(1), hq[i as int + 1]);
                    lemma_q_add_cong(a@, b@, q_inv(hq[i as int]), q_inv(hq[i as int + 1]));
                    lemma_q_ops_wf(a@, b@);
                    lemma_q_ops_wf(q_inv(hq[i as int]), q_inv(hq[i as int + 1]));
                    lemma_q_eq_trans(
                        v@,
                        q_add(a@, b@),
                        q_add(q_inv(hq[i as int]), q_inv(hq[i as int + 1])),
                    );
                    lemma_q_neg_cong(v@, q_add(q_inv(hq[i as int]), q_inv(hq[i as int + 1])));
                }
                Some(v.neg())
            },
            None => None,
        }
    } else if k == i + 2 {
        one.div(h[i + 1])
    } else {
        Some(zero)
    }
}

/// The penalized system matrix `6(1-p)·QᵀW⁻¹Q + p·R` over the interior
/// breakpoints, entry for entry. `None` when the arithmetic leaves the
/// representable range.
#[verifier::loop_isolation(false)]
#[verifier::rlimit(30)]
fn build_system(h: &Vec<Rat>, w: &Vec<Rat>, p: Rat) -> (r: Option<RatMat>)
    requires
        seq_wf(h@),
        seq_wf(w@),
        spacings_ok(qs(h@)),
        weights_usable(qs(w@)),
        h@.len() >= 2,
        w@.len() == h@.len() + 1,
        rat_wf(p),
    ensures
        r matches Some(m) ==> mat_wf(m) && m.rows == h@.len() - 1 && m.cols == h@.len() - 1
            && forall|i: int, j: int|
            0 <= i < h@.len() - 1 && 0 <= j < h@.len() - 1 ==> q_eq(
                #[trigger] mat_at(m, i, j),
                sys_at(qs(h@), qs(w@), p@, i, j),
            ),
{
    let ghost hq = qs(h@);
    let ghost wq = qs(w@);
    let n = w.len();
    let nm2 = n - 2;
    let one = Rat::from_int(1);
    let two = Rat::from_int(2);
    let six = Rat::from_int(6);
    let zero = Rat::from_int(0);
    let omp = match one.sub(p) {
        Some(v) => v,
        None => {
            return None;
        },
    };
    let s6 = match six.mul(omp) {
        Some(v) => v,
        None => {
            return None;
        },
    };
    proof {
        // the exec fidelity weight matches its specification
        lemma_q_ops_wf(q_int(1), p@);
        lemma_q_mul_cong(six@, omp@, q_int(6), q_sub(q_int(1), p@));
        lemma_q_ops_wf(six@, omp@);
        lemma_fid_weight_wf(p@);
        lemma_q_eq_trans(s6@, q_mul(six@, omp@), fid_weight(p@));
    }
    let mut a = match RatMat::zeros(nm2, nm2) {
        Some(m) => m,
        None => {
            return None;
        },
    };
    let mut i: usize = 0;
    while i < nm2
        invariant
            mat_wf(a),
            a.rows == nm2,
            a.cols == nm2,
            rat_wf(s6),
            q_eq(s6@, fid_weight(p@)),
            rat_wf(zero),
            rat_wf(two),
            zero@ == q_int(0),
            two@ == q_int(2),
            0 <= i <= nm2,
            forall|i2: int, j2: int|
                0 <= i2 < i && 0 <= j2 < nm2 ==> q_eq(
                    #[trigger] mat_at(a, i2, j2),
                    sys_at(hq, wq, p@, i2, j2),
                ),
        decreases nm2 - i,
    {
        let mut jj: usize = 0;
        while jj < nm2
            invariant
                mat_wf(a),
                a.rows == nm2,
                a.cols == nm2,
                rat_wf(s6),
                q_eq(s6@, fid_weight(p@)),
                rat_wf(zero),
                rat_wf(two),
                zero@ == q_int(0),
                two@ == q_int(2),
                i < nm2,
                0 <= jj <= nm2,
                forall|i2: int, j2: int|
                    0 <= i2 < i && 0 <= j2 < nm2 ==> q_eq(
                        #[trigger] mat_at(a, i2, j2),
                        sys_at(hq, wq, p@, i2, j2),
                    ),
                forall|j2: int|
                    0 <= j2 < jj ==> q_eq(
                        #[trigger] mat_at(a, i as int, j2),
                        sys_at(hq, wq, p@, i as int, j2),
                    ),
            decreases nm2 - jj,
        {
            // the tridiagonal curvature matrix R
            let r_ij = if jj == i {
                let su = match h[i].add(h[i + 1]) {
                    Some(v) => v,
                    None => {
                        return None;
                    },
                };
                let d = match two.mul(su) {
                    Some(v) => v,
                    None => {
                        return None;
                    },
                };
                proof {
                    lemma_q_ops_wf(hq[i as int], hq[i as int + 1]);
                    lemma_q_mul_cong(two@, su@, q_int(2), q_add(hq[i as int], hq[i as int + 1]));
                    lemma_q_ops_wf(two@, su@);
                    lemma_r_at_wf(hq, i as int, jj as int);
                    lemma_q_eq_trans(d@, q_mul(two@, su@), r_at(hq, i as int, jj as int));
                }
                d
            } else if jj + 1 == i {
                h[i]
            } else if jj == i + 1 {
                h[i + 1]
            } else {
                zero
            };
            proof {
                lemma_r_at_wf(hq, i as int, jj as int);
                assert(q_eq(r_ij@, r_at(hq, i as int, jj as int)));
            }
            // entry (i, jj) of Q W^-1 Q^T, summed over the data sites
            let mut acc = zero;
            let mut k: usize = 0;
            while k < n
                invariant
                    i < nm2,
                    jj < nm2,
                    rat_wf(acc),
                    q_eq(acc@, qtw_at(hq, wq, i as int, jj as int, k as int)),
                    0 <= k <= n,
                decreases n - k,
            {
                let qik = match qmat(h, i, k) {
                    Some(v) => v,
                    None => {
                        return None;
                    },
                };
                let qjk = match qmat(h, jj, k) {
                    Some(v) => v,
                    None => {
                        return None;
                    },
                };
                let num = match qik.mul(qjk) {
                    Some(v) => v,
                    None => {
                        return None;
                    },
                };
                let term = match num.div(w[k]) {
                    Some(v) => v,
                    None => {
                        return None;
                    },
                };
                let acc2 = match acc.add(term) {
                    Some(v) => v,
                    None => {
                        return None;
                    },
                };
                proof {
                    let qi = qmat_at(hq, i as int, k as int);
                    let qj = qmat_at(hq, jj as int, k as int);
                    let ts = q_div(q_mul(qi, qj), wq[k as int]);
                    let prev = qtw_at(hq, wq, i as int, jj as int, k as int);
                    let next = qtw_at(hq, wq, i as int, jj as int, k + 1);
                    lemma_qmat_wf(hq, i as int, k as int);
                    lemma_qmat_wf(hq, jj as int, k as int);
                    lemma_q_mul_cong(qik@, qjk@, qi, qj);
                    lemma_q_ops_wf(qik@, qjk@);
                    lemma_q_ops_wf(qi, qj);
                    lemma_q_eq_trans(num@, q_mul(qik@, qjk@), q_mul(qi, qj));
                    lemma_q_div_cong_num(num@, q_mul(qi, qj), wq[k as int]);
                    lemma_q_ops_wf(num@, wq[k as int]);
                    lemma_q_ops_wf(q_mul(qi, qj), wq[k as int]);
                    lemma_q_eq_trans(term@, q_div(num@, wq[k as int]), ts);
                    lemma_qtw_wf(hq, wq, i as int, jj as int, k as int);
                    lemma_q_add_cong(acc@, term@, prev, ts);
                    lemma_q_ops_wf(acc@, term@);
                    lemma_q_ops_wf(prev, ts);
                    lemma_q_eq_trans(acc2@, q_add(acc@, term@), next);
                }
                acc = acc2;
                k = k + 1;
            }
            let lhs = match s6.mul(acc) {
                Some(v) => v,
                None => {
                    return None;
                },
            };
            let rhs = match p.mul(r_ij) {
                Some(v) => v,
                None => {
                    return None;
                },
            };
            let entry = match lhs.add(rhs) {
                Some(v) => v,
                None => {
                    return None;
                },
            };
            proof {
                let qtws = qtw_at(hq, wq, i as int, jj as int, n as int);
                let rs = r_at(hq, i as int, jj as int);
                lemma_qtw_wf(hq, wq, i as int, jj as int, n as int);
                lemma_fid_weight_wf(p@);
                lemma_r_at_wf(hq, i as int, jj as int);
                lemma_q_mul_cong(s6@, acc@, fid_weight(p@), qtws);
                lemma_q_ops_wf(s6@, acc@);
                lemma_q_ops_wf(fid_weight(p@), qtws);
                lemma_q_eq_trans(lhs@, q_mul(s6@, acc@), q_mul(fid_weight(p@), qtws));
                lemma_q_mul_cong(p@, r_ij@, p@, rs);
                lemma_q_ops_wf(p@, r_ij@);
                lemma_q_ops_wf(p@, rs);
                lemma_q_eq_trans(rhs@, q_mul(p@, r_ij@), q_mul(p@, rs));
                lemma_q_add_cong(lhs@, rhs@, q_mul(fid_weight(p@), qtws), q_mul(p@, rs));
                lemma_q_ops_wf(lhs@, rhs@);
                lemma_q_ops_wf(q_mul(fid_weight(p@), qtws), q_mul(p@, rs));
                lemma_q_eq_trans(
                    entry@,
                    q_add(lhs@, rhs@),
                    sys_at(hq, wq, p@, i as int, jj as int),
                );
            }
            let ghost a0 = a;
            a.put(i, jj, entry);
            proof {
                crate::sspumv::lemma_put_preserves(a0, a, i as int, jj as int, entry);
            }
            jj = jj + 1;
        }
        i = i + 1;
    }
    Some(a)
}

/// The right-hand side: second divided differences of each channel.
#[verifier::loop_isolation(false)]
fn build_rhs(h: &Vec<Rat>, y2d: &RatMat) -> (r: Option<RatMat>)
    requires
        seq_wf(h@),
        mat_wf(*y2d),
        spacings_ok(qs(h@)),
        h@.len() >= 2,
        y2d.cols == h@.len() + 1,
    ensures
        r matches Some(m) ==> mat_wf(m) && m.rows == h@.len() - 1 && m.cols == y2d.rows
            && forall|i: int, c: int|
            0 <= i < h@.len() - 1 && 0 <= c < y2d.rows ==> q_eq(
                #[trigger] mat_at(m, i, c),
                rhs_at(*y2d, qs(h@), i, c),
            ),
{
    let n = y2d.cols;
    let nm2 = n - 2;
    let nch = y2d.rows;
    let mut b = match RatMat::zeros(nm2, nch) {
        Some(m) => m,
        None => {
            return None;
        },
    };
    let ghost hq = qs(h@);
    let mut i: usize = 0;
    while i < nm2
        invariant
            mat_wf(b),
            b.rows == nm2,
            b.cols == nch,
            0 <= i <= nm2,
            forall|i2: int, c2: int|
                0 <= i2 < i && 0 <= c2 < nch ==> q_eq(
                    #[trigger] mat_at(b, i2, c2),
                    rhs_at(*y2d, hq, i2, c2),
                ),
        decreases nm2 - i,
    {
        let mut c: usize = 0;
        while c < nch
            invariant
                mat_wf(b),
                b.rows == nm2,
                b.cols == nch,
                i < nm2,
                0 <= c <= nch,
                forall|i2: int, c2: int|
                    0 <= i2 < i && 0 <= c2 < nch ==> q_eq(
                        #[trigger] mat_at(b, i2, c2),
                        rhs_at(*y2d, hq, i2, c2),
                    ),
                forall|c2: int|
                    0 <= c2 < c ==> q_eq(
                        #[trigger] mat_at(b, i as int, c2),
                        rhs_at(*y2d, hq, i as int, c2),
                    ),
            decreases nch - c,
        {
            let d0 = match dydx(y2d, h, c, i) {
                Some(v) => v,
                None => {
                    return None;
                },
            };
            let d1 = match dydx(y2d, h, c, i + 1) {
                Some(v) => v,
                None => {
                    return None;
                },
            };
            let entry = match d1.sub(d0) {
                Some(v) => v,
                None => {
                    return None;
                },
            };
            proof {
                let da = dydx_at(*y2d, hq, c as int, i as int);
                let db = dydx_at(*y2d, hq, c as int, i + 1);
                lemma_rc_bound(c as int, i + 2, y2d.rows as int, y2d.cols as int);
                lemma_rc_bound(c as int, i + 1, y2d.rows as int, y2d.cols as int);
                lemma_rc_bound(c as int, i as int, y2d.rows as int, y2d.cols as int);
                lemma_q_ops_wf(mat_at(*y2d, c as int, i + 1), mat_at(*y2d, c as int, i as int));
                lemma_q_ops_wf(mat_at(*y2d, c as int, i + 2), mat_at(*y2d, c as int, i + 1));
                lemma_q_ops_wf(
                    q_sub(mat_at(*y2d, c as int, i + 1), mat_at(*y2d, c as int, i as int)),
                    hq[i as int],
                );
                lemma_q_ops_wf(
                    q_sub(mat_at(*y2d, c as int, i + 2), mat_at(*y2d, c as int, i + 1)),
                    hq[i + 1],
                );
                lemma_q_sub_cong(d1@, d0@, db, da);
                lemma_q_ops_wf(d1@, d0@);
                lemma_q_ops_wf(db, da);
                lemma_q_eq_trans(entry@, q_sub(d1@, d0@), q_sub(db, da));
            }
            let ghost b0 = b;
            b.put(i, c, entry);
            proof {
                crate::sspumv::lemma_put_preserves(b0, b, i as int, c as int, entry);
            }
            c = c + 1;
        }
        i = i + 1;
    }
    Some(b)
}

/// The divided difference of channel `c` over the piece `i`.
fn dydx(y2d: &RatMat, h: &Vec<Rat>, c: usize, i: usize) -> (r: Option<Rat>)
    requires
        mat_wf(*y2d),
        seq_wf(h@),
        spacings_ok(qs(h@)),
        y2d.cols == h@.len() + 1,
        c < y2d.rows,
        i < h@.len(),
    ensures
        r matches Some(v) ==> rat_wf(v) && q_eq(v@, dydx_at(*y2d, qs(h@), c as int, i as int)),
{
    let num = match y2d.get(c, i + 1).sub(y2d.get(c, i)) {
        Some(v) => v,
        None => {
            return None;
        },
    };
    let r = num.div(h[i]);
    proof {
        if r is Some {
            let hq = qs(h@);
            let ns = q_sub(mat_at(*y2d, c as int, i + 1), mat_at(*y2d, c as int, i as int));
            lemma_rc_bound(c as int, i + 1, y2d.rows as int, y2d.cols as int);
            lemma_rc_bound(c as int, i as int, y2d.rows as int, y2d.cols as int);
            lemma_q_ops_wf(mat_at(*y2d, c as int, i + 1), mat_at(*y2d, c as int, i as int));
            lemma_q_div_cong_num(num@, ns, hq[i as int]);
            lemma_q_ops_wf(num@, hq[i as int]);
            lemma_q_ops_wf(ns, hq[i as int]);
            lemma_q_eq_trans(
                r.unwrap()@,
                q_div(num@, hq[i as int]),
                q_div(ns, hq[i as int]),
            );
        }
    }
    r
}

/// The fixed default smoothing parameter:
/// `1 / (1 + trace(R) / (6 · trace(QᵀW⁻¹Q)))`.
#[verifier::loop_isolation(false)]
/// The trace of the curvature matrix `R` over the first `t` interior rows.
pub open spec fn trace_r_at(hq: Seq<Q>, t: int) -> Q
    decreases t,
{
    if t <= 0 {
        q_int(0)
    } else {
        q_add(trace_r_at(hq, t - 1), r_at(hq, t - 1, t - 1))
    }
}

/// The trace of `Q·W⁻¹·Qᵀ` over the first `t` interior rows.
pub open spec fn trace_qtw_at(hq: Seq<Q>, wq: Seq<Q>, t: int) -> Q
    decreases t,
{
    if t <= 0 {
        q_int(0)
    } else {
        q_add(trace_qtw_at(hq, wq, t - 1), qtw_at(hq, wq, t - 1, t - 1, wq.len() as int))
    }
}

/// The fixed default smoothing parameter:
/// `1 / (1 + trace(R) / (6 · trace(QᵀW⁻¹Q)))`.
pub open spec fn smooth_default_at(hq: Seq<Q>, wq: Seq<Q>) -> Q {
    q_div(
        q_int(1),
        q_add(
            q_int(1),
            q_div(
                trace_r_at(hq, wq.len() - 2),
                q_mul(q_int(6), trace_qtw_at(hq, wq, wq.len() - 2)),
            ),
        ),
    )
}

proof fn lemma_trace_r_wf(hq: Seq<Q>, t: int)
    requires
        spacings_ok(hq),
        t <= hq.len() - 1,
    ensures
        q_wf(trace_r_at(hq, t)),
    decreases t,
{
    if t > 0 {
        lemma_trace_r_wf(hq, t - 1);
        lemma_r_at_wf(hq, t - 1, t - 1);
        lemma_q_ops_wf(trace_r_at(hq, t - 1), r_at(hq, t - 1, t - 1));
    }
}

proof fn lemma_trace_qtw_wf(hq: Seq<Q>, wq: Seq<Q>, t: int)
    requires
        spacings_ok(hq),
        weights_usable(wq),
        t <= hq.len() - 1,
        wq.len() == hq.len() + 1,
    ensures
        q_wf(trace_qtw_at(hq, wq, t)),
    decreases t,
{
    if t > 0 {
        lemma_trace_qtw_wf(hq, wq, t - 1);
        lemma_qtw_wf(hq, wq, t - 1, t - 1, wq.len() as int);
        lemma_q_ops_wf(
            trace_qtw_at(hq, wq, t - 1),
            qtw_at(hq, wq, t - 1, t - 1, wq.len() as int),
        );
    }
}

/// The fixed default smoothing parameter, computed exactly.
#[verifier::loop_isolation(false)]
#[verifier::rlimit(30)]
fn default_smooth(h: &Vec<Rat>, w: &Vec<Rat>) -> (r: Option<Rat>)
    requires
        seq_wf(h@),
        seq_wf(w@),
        spacings_ok(qs(h@)),
        weights_usable(qs(w@)),
        h@.len() >= 2,
        w@.len() == h@.len() + 1,
    ensures
        r matches Some(v) ==> rat_wf(v) && q_eq(v@, smooth_default_at(qs(h@), qs(w@))),
{
    let ghost hq = qs(h@);
    let ghost wq = qs(w@);
    let n = w.len();
    let nm2 = n - 2;
    let one = Rat::from_int(1);
    let two = Rat::from_int(2);
    let six = Rat::from_int(6);
    let zero = Rat::from_int(0);
    let mut tr_r = zero;
    let mut tr_q = zero;
    let mut i: usize = 0;
    while i < nm2
        invariant
            rat_wf(tr_r),
            rat_wf(tr_q),
            q_eq(tr_r@, trace_r_at(hq, i as int)),
            q_eq(tr_q@, trace_qtw_at(hq, wq, i as int)),
            0 <= i <= nm2,
        decreases nm2 - i,
    {
        let s = match h[i].add(h[i + 1]) {
            Some(v) => v,
            None => {
                return None;
            },
        };
        let d = match two.mul(s) {
            Some(v) => v,
            None => {
                return None;
            },
        };
        let tr_r2 = match tr_r.add(d) {
            Some(v) => v,
            None => {
                return None;
            },
        };
        proof {
            let ii = i as int;
            lemma_q_ops_wf(hq[ii], hq[ii + 1]);
            lemma_q_mul_cong(two@, s@, q_int(2), q_add(hq[ii], hq[ii + 1]));
            lemma_q_ops_wf(two@, s@);
            lemma_r_at_wf(hq, ii, ii);
            lemma_q_eq_trans(d@, q_mul(two@, s@), r_at(hq, ii, ii));
            lemma_trace_r_wf(hq, ii);
            lemma_q_add_cong(tr_r@, d@, trace_r_at(hq, ii), r_at(hq, ii, ii));
            lemma_q_ops_wf(tr_r@, d@);
            lemma_q_ops_wf(trace_r_at(hq, ii), r_at(hq, ii, ii));
            lemma_q_eq_trans(tr_r2@, q_add(tr_r@, d@), trace_r_at(hq, ii + 1));
        }
        tr_r = tr_r2;
        let mut acc = zero;
        let mut k: usize = 0;
        while k < n
            invariant
                i < nm2,
                rat_wf(acc),
                q_eq(acc@, qtw_at(hq, wq, i as int, i as int, k as int)),
                0 <= k <= n,
            decreases n - k,
        {
            let qik = match qmat(h, i, k) {
                Some(v) => v,
                None => {
                    return None;
                },
            };
            let num = match qik.mul(qik) {
                Some(v) => v,
                None => {
                    return None;
                },
            };
            let term = match num.div(w[k]) {
                Some(v) => v,
                None => {
                    return None;
                },
            };
            let acc2 = match acc.add(term) {
                Some(v) => v,
                None => {
                    return None;
                },
            };
            proof {
                let ii = i as int;
                let kk = k as int;
                let qi = qmat_at(hq, ii, kk);
                let ts = q_div(q_mul(qi, qi), wq[kk]);
                let prev = qtw_at(hq, wq, ii, ii, kk);
                let next = qtw_at(hq, wq, ii, ii, kk + 1);
                lemma_qmat_wf(hq, ii, kk);
                lemma_q_mul_cong(qik@, qik@, qi, qi);
                lemma_q_ops_wf(qik@, qik@);
                lemma_q_ops_wf(qi, qi);
                lemma_q_eq_trans(num@, q_mul(qik@, qik@), q_mul(qi, qi));
                lemma_q_div_cong_num(num@, q_mul(qi, qi), wq[kk]);
                lemma_q_ops_wf(num@, wq[kk]);
                lemma_q_ops_wf(q_mul(qi, qi), wq[kk]);
                lemma_q_eq_trans(term@, q_div(num@, wq[kk]), ts);
                lemma_qtw_wf(hq, wq, ii, ii, kk);
                lemma_q_add_cong(acc@, term@, prev, ts);
                lemma_q_ops_wf(acc@, term@);
                lemma_q_ops_wf(prev, ts);
                lemma_q_eq_trans(acc2@, q_add(acc@, term@), next);
            }
            acc = acc2;
            k = k + 1;
        }
        let tr_q2 = match tr_q.add(acc) {
            Some(v) => v,
            None => {
                return None;
            },
        };
        proof {
            let ii = i as int;
            lemma_trace_qtw_wf(hq, wq, ii);
            lemma_qtw_wf(hq, wq, ii, ii, n as int);
            lemma_q_add_cong(tr_q@, acc@, trace_qtw_at(hq, wq, ii), qtw_at(hq, wq, ii, ii, n as int));
            lemma_q_ops_wf(tr_q@, acc@);
            lemma_q_ops_wf(trace_qtw_at(hq, wq, ii), qtw_at(hq, wq, ii, ii, n as int));
            lemma_q_eq_trans(tr_q2@, q_add(tr_q@, acc@), trace_qtw_at(hq, wq, ii + 1));
        }
        tr_q = tr_q2;
        i = i + 1;
    }
    let den = match six.mul(tr_q) {
        Some(v) => v,
        None => {
            return None;
        },
    };
    let ratio = match tr_r.div(den) {
        Some(v) => v,
        None => {
            return None;
        },
    };
    let dsum = match one.add(ratio) {
        Some(v) => v,
        None => {
            return None;
        },
    };
    let r = one.div(dsum);
    proof {
        if r is Some {
            let trr = trace_r_at(hq, n as int - 2);
            let trq = trace_qtw_at(hq, wq, n as int - 2);
            let dens = q_mul(q_int(6), trq);
            let ratios = q_div(trr, dens);
            let dsums = q_add(q_int(1), ratios);
            lemma_trace_r_wf(hq, n as int - 2);
            lemma_trace_qtw_wf(hq, wq, n as int - 2);
            lemma_q_mul_cong(six@, tr_q@, q_int(6), trq);
            lemma_q_ops_wf(six@, tr_q@);
            lemma_q_ops_wf(q_int(6), trq);
            lemma_q_eq_trans(den@, q_mul(six@, tr_q@), dens);
            crate::rational::lemma_q_div_cong_all(tr_r@, den@, trr, dens);
            lemma_q_ops_wf(tr_r@, den@);
            lemma_q_ops_wf(trr, dens);
            lemma_q_eq_trans(ratio@, q_div(tr_r@, den@), ratios);
            lemma_q_add_cong(one@, ratio@, q_int(1), ratios);
            lemma_q_ops_wf(one@, ratio@);
            lemma_q_ops_wf(q_int(1), ratios);
            lemma_q_eq_trans(dsum@, q_add(one@, ratio@), dsums);
            crate::rational::lemma_q_div_cong_all(one@, dsum@, q_int(1), dsums);
            lemma_q_ops_wf(one@, dsum@);
            lemma_q_ops_wf(q_int(1), dsums);
            lemma_q_eq_trans(
                r.unwrap()@,
                q_div(one@, dsum@),
                smooth_default_at(hq, wq),
            );
        }
    }
    r
}

/// The piecewise-cubic coefficients from the solved interior curvatures:
/// natural boundary conditions, then the four descending-power groups, each
/// entry pinned to its closed form over the curvatures, spacings, weights and
/// smoothing parameter.
#[verifier::loop_isolation(false)]
#[verifier::rlimit(60)]
fn make_cubic_coeffs(h: &Vec<Rat>, w: &Vec<Rat>, p: Rat, y2d: &RatMat, u: &RatMat) -> (r: Option<
    RatMat,
>)
    requires
        seq_wf(h@),
        seq_wf(w@),
        spacings_ok(qs(h@)),
        weights_usable(qs(w@)),
        rat_wf(p),
        mat_wf(*y2d),
        mat_wf(*u),
        h@.len() >= 2,
        w@.len() == h@.len() + 1,
        y2d.cols == h@.len() + 1,
        u.rows == h@.len() - 1,
        u.cols == y2d.rows,
    ensures
        r matches Some(m) ==> {
            let n = y2d.cols as int;
            let hq = qs(h@);
            let wq = qs(w@);
            &&& mat_wf(m)
            &&& m.rows == y2d.rows
            &&& m.cols as int == 4 * (n - 1)
            &&& forall|c: int, i: int|
                0 <= c < y2d.rows && 0 <= i < n - 1 ==> q_eq(
                    #[trigger] mat_at(m, c, i),
                    coef_a_at(*u, hq, p@, c, i, n),
                ) && q_eq(mat_at(m, c, (n - 1) + i), coef_b_at(*u, p@, c, i, n)) && q_eq(
                    mat_at(m, c, 2 * (n - 1) + i),
                    coef_c_at(*u, *y2d, hq, wq, p@, c, i, n),
                ) && q_eq(mat_at(m, c, 3 * (n - 1) + i), coef_d_at(*u, *y2d, hq, wq, p@, c, i, n))
        },
{
    let ghost hq = qs(h@);
    let ghost wq = qs(w@);
    let ghost ni = y2d.cols as int;
    let n = y2d.cols;
    let nm1 = n - 1;
    let nch = y2d.rows;
    let one = Rat::from_int(1);
    let two = Rat::from_int(2);
    let three = Rat::from_int(3);
    let six = Rat::from_int(6);
    let zero = Rat::from_int(0);
    let omp = match one.sub(p) {
        Some(v) => v,
        None => {
            return None;
        },
    };
    let s6 = match six.mul(omp) {
        Some(v) => v,
        None => {
            return None;
        },
    };
    proof {
        lemma_q_ops_wf(q_int(1), p@);
        lemma_q_mul_cong(six@, omp@, q_int(6), q_sub(q_int(1), p@));
        lemma_q_ops_wf(six@, omp@);
        lemma_fid_weight_wf(p@);
        lemma_q_eq_trans(s6@, q_mul(six@, omp@), fid_weight(p@));
        assert(nm1 as int * 4 == 4 * (ni - 1));
        assert(nm1 as int * 4 <= u128::MAX as int) by (nonlinear_arith)
            requires
                0 <= nm1 as int <= 0xFFFF_FFFF_FFFF_FFFFu64 as int,
                u128::MAX as int == 0xFFFF_FFFF_FFFF_FFFF_FFFF_FFFF_FFFF_FFFFu128 as int,
        ;
    }
    let wide = (nm1 as u128) * 4;
    if wide > usize::MAX as u128 {
        return None;
    }
    let cols = nm1 * 4;
    let mut m = match RatMat::zeros(nch, cols) {
        Some(m) => m,
        None => {
            return None;
        },
    };
    let mut c: usize = 0;
    while c < nch
        invariant
            mat_wf(m),
            m.rows == nch,
            m.cols == cols,
            0 <= c <= nch,
            forall|c2: int, i2: int|
                0 <= c2 < c && 0 <= i2 < nm1 ==> q_eq(
                    #[trigger] mat_at(m, c2, i2),
                    coef_a_at(*u, hq, p@, c2, i2, ni),
                ) && q_eq(mat_at(m, c2, (ni - 1) + i2), coef_b_at(*u, p@, c2, i2, ni)) && q_eq(
                    mat_at(m, c2, 2 * (ni - 1) + i2),
                    coef_c_at(*u, *y2d, hq, wq, p@, c2, i2, ni),
                ) && q_eq(
                    mat_at(m, c2, 3 * (ni - 1) + i2),
                    coef_d_at(*u, *y2d, hq, wq, p@, c2, i2, ni),
                ),
        decreases nch - c,
    {
        // curvatures with natural boundaries
        let mut ufull: Vec<Rat> = Vec::new();
        let mut i: usize = 0;
        while i < n
            invariant
                c < nch,
                0 <= i <= n,
                ufull@.len() == i,
                seq_wf(ufull@),
                forall|t: int| 0 <= t < i ==> (#[trigger] ufull@[t])@ == ufull_at(*u, c as int, t, ni),
            decreases n - i,
        {
            if i == 0 || i == n - 1 {
                ufull.push(zero);
            } else {
                ufull.push(u.get(i - 1, c));
            }
            i = i + 1;
        }
        // first differences of the curvatures over each piece
        let mut d1: Vec<Rat> = Vec::new();
        let mut i2: usize = 0;
        while i2 < nm1
            invariant
                c < nch,
                ufull@.len() == n,
                seq_wf(ufull@),
                forall|t: int| 0 <= t < n ==> (#[trigger] ufull@[t])@ == ufull_at(*u, c as int, t, ni),
                0 <= i2 <= nm1,
                d1@.len() == i2,
                seq_wf(d1@),
                forall|t: int|
                    0 <= t < i2 ==> q_eq((#[trigger] d1@[t])@, d1_at(*u, hq, c as int, t, ni)),
            decreases nm1 - i2,
        {
            let num = match ufull[i2 + 1].sub(ufull[i2]) {
                Some(v) => v,
                None => {
                    return None;
                },
            };
            let v = match num.div(h[i2]) {
                Some(v) => v,
                None => {
                    return None;
                },
            };
            proof {
                let us = q_sub(ufull_at(*u, c as int, i2 + 1, ni), ufull_at(*u, c as int, i2 as int, ni));
                lemma_ufull_wf(*u, c as int, i2 + 1, ni);
                lemma_ufull_wf(*u, c as int, i2 as int, ni);
                lemma_q_ops_wf(ufull_at(*u, c as int, i2 + 1, ni), ufull_at(*u, c as int, i2 as int, ni));
                lemma_q_div_cong_num(num@, us, hq[i2 as int]);
                lemma_q_ops_wf(num@, hq[i2 as int]);
                lemma_q_ops_wf(us, hq[i2 as int]);
                lemma_q_eq_trans(v@, q_div(num@, hq[i2 as int]), d1_at(*u, hq, c as int, i2 as int, ni));
            }
            d1.push(v);
            i2 = i2 + 1;
        }
        // second differences, padded with the natural boundary
        let mut d2: Vec<Rat> = Vec::new();
        let mut i3: usize = 0;
        while i3 < n
            invariant
                c < nch,
                d1@.len() == nm1,
                seq_wf(d1@),
                forall|t: int|
                    0 <= t < nm1 ==> q_eq((#[trigger] d1@[t])@, d1_at(*u, hq, c as int, t, ni)),
                0 <= i3 <= n,
                d2@.len() == i3,
                seq_wf(d2@),
                forall|t: int|
                    0 <= t < i3 ==> q_eq((#[trigger] d2@[t])@, d2_at(*u, hq, c as int, t, ni)),
            decreases n - i3,
        {
            if i3 == 0 {
                d2.push(d1[0]);
            } else if i3 < nm1 {
                let v = match d1[i3].sub(d1[i3 - 1]) {
                    Some(v) => v,
                    None => {
                        return None;
                    },
                };
                proof {
                    lemma_d1_wf(*u, hq, c as int, i3 as int, ni);
                    lemma_d1_wf(*u, hq, c as int, i3 - 1, ni);
                    lemma_q_sub_cong(
                        d1@[i3 as int]@,
                        d1@[i3 - 1]@,
                        d1_at(*u, hq, c as int, i3 as int, ni),
                        d1_at(*u, hq, c as int, i3 - 1, ni),
                    );
                    lemma_q_ops_wf(d1@[i3 as int]@, d1@[i3 - 1]@);
                    lemma_q_ops_wf(
                        d1_at(*u, hq, c as int, i3 as int, ni),
                        d1_at(*u, hq, c as int, i3 - 1, ni),
                    );
                    lemma_q_eq_trans(
                        v@,
                        q_sub(d1@[i3 as int]@, d1@[i3 - 1]@),
                        d2_at(*u, hq, c as int, i3 as int, ni),
                    );
                }
                d2.push(v);
            } else {
                let v = d1[nm1 - 1].neg();
                proof {
                    lemma_d1_wf(*u, hq, c as int, ni - 2, ni);
                    lemma_q_neg_cong(d1@[nm1 - 1]@, d1_at(*u, hq, c as int, ni - 2, ni));
                }
                d2.push(v);
            }
            i3 = i3 + 1;
        }
        // smoothed values at the sites
        let mut yi: Vec<Rat> = Vec::new();
        let mut i4: usize = 0;
        while i4 < n
            invariant
                c < nch,
                d2@.len() == n,
                seq_wf(d2@),
                forall|t: int|
                    0 <= t < n ==> q_eq((#[trigger] d2@[t])@, d2_at(*u, hq, c as int, t, ni)),
                rat_wf(s6),
                q_eq(s6@, fid_weight(p@)),
                0 <= i4 <= n,
                yi@.len() == i4,
                seq_wf(yi@),
                forall|t: int|
                    0 <= t < i4 ==> q_eq(
                        (#[trigger] yi@[t])@,
                        yi_at(*u, *y2d, hq, wq, p@, c as int, t, ni),
                    ),
            decreases n - i4,
        {
            let t1 = match s6.mul(d2[i4]) {
                Some(v) => v,
                None => {
                    return None;
                },
            };
            let t2 = match t1.div(w[i4]) {
                Some(v) => v,
                None => {
                    return None;
                },
            };
            let v = match y2d.get(c, i4).sub(t2) {
                Some(v) => v,
                None => {
                    return None;
                },
            };
            proof {
                let d2s = d2_at(*u, hq, c as int, i4 as int, ni);
                let prod = q_mul(fid_weight(p@), d2s);
                let quot = q_div(prod, wq[i4 as int]);
                lemma_d2_wf(*u, hq, c as int, i4 as int, ni);
                lemma_fid_weight_wf(p@);
                lemma_q_mul_cong(s6@, d2[i4 as int]@, fid_weight(p@), d2s);
                lemma_q_ops_wf(s6@, d2[i4 as int]@);
                lemma_q_ops_wf(fid_weight(p@), d2s);
                lemma_q_eq_trans(t1@, q_mul(s6@, d2[i4 as int]@), prod);
                lemma_q_div_cong_num(t1@, prod, wq[i4 as int]);
                lemma_q_ops_wf(t1@, wq[i4 as int]);
                lemma_q_ops_wf(prod, wq[i4 as int]);
                lemma_q_eq_trans(t2@, q_div(t1@, wq[i4 as int]), quot);
                lemma_rc_bound(c as int, i4 as int, y2d.rows as int, y2d.cols as int);
                lemma_q_sub_cong(mat_at(*y2d, c as int, i4 as int), t2@, mat_at(*y2d, c as int, i4 as int), quot);
                lemma_q_ops_wf(mat_at(*y2d, c as int, i4 as int), t2@);
                lemma_q_ops_wf(mat_at(*y2d, c as int, i4 as int), quot);
                lemma_q_eq_trans(
                    v@,
                    q_sub(mat_at(*y2d, c as int, i4 as int), t2@),
                    yi_at(*u, *y2d, hq, wq, p@, c as int, i4 as int, ni),
                );
            }
            yi.push(v);
            i4 = i4 + 1;
        }
        // scaled curvatures
        let mut c3: Vec<Rat> = Vec::new();
        let mut i5: usize = 0;
        while i5 < n
            invariant
                c < nch,
                ufull@.len() == n,
                seq_wf(ufull@),
                forall|t: int| 0 <= t < n ==> (#[trigger] ufull@[t])@ == ufull_at(*u, c as int, t, ni),
                0 <= i5 <= n,
                c3@.len() == i5,
                seq_wf(c3@),
                forall|t: int|
                    0 <= t < i5 ==> q_eq((#[trigger] c3@[t])@, c3_at(*u, p@, c as int, t, ni)),
            decreases n - i5,
        {
            let v = match p.mul(ufull[i5]) {
                Some(v) => v,
                None => {
                    return None;
                },
            };
            c3.push(v);
            i5 = i5 + 1;
        }
        // the four coefficient groups of each piece
        let mut i6: usize = 0;
        while i6 < nm1
            invariant
                c < nch,
                yi@.len() == n,
                seq_wf(yi@),
                forall|t: int|
                    0 <= t < n ==> q_eq(
                        (#[trigger] yi@[t])@,
                        yi_at(*u, *y2d, hq, wq, p@, c as int, t, ni),
                    ),
                c3@.len() == n,
                seq_wf(c3@),
                forall|t: int|
                    0 <= t < n ==> q_eq((#[trigger] c3@[t])@, c3_at(*u, p@, c as int, t, ni)),
                mat_wf(m),
                m.rows == nch,
                m.cols == cols,
                0 <= i6 <= nm1,
                forall|c2: int, i2: int|
                    0 <= c2 < c && 0 <= i2 < nm1 ==> q_eq(
                        #[trigger] mat_at(m, c2, i2),
                        coef_a_at(*u, hq, p@, c2, i2, ni),
                    ) && q_eq(mat_at(m, c2, (ni - 1) + i2), coef_b_at(*u, p@, c2, i2, ni)) && q_eq(
                        mat_at(m, c2, 2 * (ni - 1) + i2),
                        coef_c_at(*u, *y2d, hq, wq, p@, c2, i2, ni),
                    ) && q_eq(
                        mat_at(m, c2, 3 * (ni - 1) + i2),
                        coef_d_at(*u, *y2d, hq, wq, p@, c2, i2, ni),
                    ),
                forall|i2: int|
                    0 <= i2 < i6 ==> q_eq(
                        #[trigger] mat_at(m, c as int, i2),
                        coef_a_at(*u, hq, p@, c as int, i2, ni),
                    ) && q_eq(mat_at(m, c as int, (ni - 1) + i2), coef_b_at(*u, p@, c as int, i2, ni))
                        && q_eq(
                        mat_at(m, c as int, 2 * (ni - 1) + i2),
                        coef_c_at(*u, *y2d, hq, wq, p@, c as int, i2, ni),
                    ) && q_eq(
                        mat_at(m, c as int, 3 * (ni - 1) + i2),
                        coef_d_at(*u, *y2d, hq, wq, p@, c as int, i2, ni),
                    ),
            decreases nm1 - i6,
        {
            proof {
                lemma_rc_bound(3, i6 as int, 4, nm1 as int);
                assert(3 * nm1 as int + i6 < nm1 as int * 4) by (nonlinear_arith)
                    requires
                        0 <= i6 < nm1 as int,
                ;
                assert(2 * nm1 as int + i6 < nm1 as int * 4 && nm1 as int + i6 < nm1 as int * 4)
                    by (nonlinear_arith)
                    requires
                        0 <= i6 < nm1 as int,
                ;
            }
            let ca_num = match c3[i6 + 1].sub(c3[i6]) {
                Some(v) => v,
                None => {
                    return None;
                },
            };
            let ca = match ca_num.div(h[i6]) {
                Some(v) => v,
                None => {
                    return None;
                },
            };
            let cb = match three.mul(c3[i6]) {
                Some(v) => v,
                None => {
                    return None;
                },
            };
            let cc_base_num = match yi[i6 + 1].sub(yi[i6]) {
                Some(v) => v,
                None => {
                    return None;
                },
            };
            let cc_base = match cc_base_num.div(h[i6]) {
                Some(v) => v,
                None => {
                    return None;
                },
            };
            let curv = match two.mul(c3[i6]) {
                Some(v) => v,
                None => {
                    return None;
                },
            };
            let curv2 = match curv.add(c3[i6 + 1]) {
                Some(v) => v,
                None => {
                    return None;
                },
            };
            let hc = match h[i6].mul(curv2) {
                Some(v) => v,
                None => {
                    return None;
                },
            };
            let cc = match cc_base.sub(hc) {
                Some(v) => v,
                None => {
                    return None;
                },
            };
            let cd = yi[i6];
            proof {
                let ci = c as int;
                let ii = i6 as int;
                let c3a = c3_at(*u, p@, ci, ii, ni);
                let c3b = c3_at(*u, p@, ci, ii + 1, ni);
                let yia = yi_at(*u, *y2d, hq, wq, p@, ci, ii, ni);
                let yib = yi_at(*u, *y2d, hq, wq, p@, ci, ii + 1, ni);
                lemma_c3_wf(*u, p@, ci, ii, ni);
                lemma_c3_wf(*u, p@, ci, ii + 1, ni);
                lemma_yi_wf(*u, *y2d, hq, wq, p@, ci, ii, ni);
                lemma_yi_wf(*u, *y2d, hq, wq, p@, ci, ii + 1, ni);
                // leading coefficient
                lemma_q_sub_cong(c3@[ii + 1]@, c3@[ii]@, c3b, c3a);
                lemma_q_ops_wf(c3@[ii + 1]@, c3@[ii]@);
                lemma_q_ops_wf(c3b, c3a);
                lemma_q_eq_trans(ca_num@, q_sub(c3@[ii + 1]@, c3@[ii]@), q_sub(c3b, c3a));
                lemma_q_div_cong_num(ca_num@, q_sub(c3b, c3a), hq[ii]);
                lemma_q_ops_wf(ca_num@, hq[ii]);
                lemma_q_ops_wf(q_sub(c3b, c3a), hq[ii]);
                lemma_q_eq_trans(ca@, q_div(ca_num@, hq[ii]), coef_a_at(*u, hq, p@, ci, ii, ni));
                // quadratic coefficient
                lemma_q_mul_cong(three@, c3@[ii]@, q_int(3), c3a);
                lemma_q_ops_wf(three@, c3@[ii]@);
                lemma_q_ops_wf(q_int(3), c3a);
                lemma_q_eq_trans(cb@, q_mul(three@, c3@[ii]@), coef_b_at(*u, p@, ci, ii, ni));
                // linear coefficient
                lemma_q_sub_cong(yi@[ii + 1]@, yi@[ii]@, yib, yia);
                lemma_q_ops_wf(yi@[ii + 1]@, yi@[ii]@);
                lemma_q_ops_wf(yib, yia);
                lemma_q_eq_trans(cc_base_num@, q_sub(yi@[ii + 1]@, yi@[ii]@), q_sub(yib, yia));
                lemma_q_div_cong_num(cc_base_num@, q_sub(yib, yia), hq[ii]);
                lemma_q_ops_wf(cc_base_num@, hq[ii]);
                lemma_q_ops_wf(q_sub(yib, yia), hq[ii]);
                let t1s = q_div(q_sub(yib, yia), hq[ii]);
                lemma_q_eq_trans(cc_base@, q_div(cc_base_num@, hq[ii]), t1s);
                lemma_q_mul_cong(two@, c3@[ii]@, q_int(2), c3a);
                lemma_q_ops_wf(two@, c3@[ii]@);
                lemma_q_ops_wf(q_int(2), c3a);
                lemma_q_eq_trans(curv@, q_mul(two@, c3@[ii]@), q_mul(q_int(2), c3a));
                lemma_q_add_cong(curv@, c3@[ii + 1]@, q_mul(q_int(2), c3a), c3b);
                lemma_q_ops_wf(curv@, c3@[ii + 1]@);
                lemma_q_ops_wf(q_mul(q_int(2), c3a), c3b);
                let t2s = q_add(q_mul(q_int(2), c3a), c3b);
                lemma_q_eq_trans(curv2@, q_add(curv@, c3@[ii + 1]@), t2s);
                lemma_q_mul_cong(hq[ii], curv2@, hq[ii], t2s);
                lemma_q_ops_wf(hq[ii], curv2@);
                lemma_q_ops_wf(hq[ii], t2s);
                lemma_q_eq_trans(hc@, q_mul(hq[ii], curv2@), q_mul(hq[ii], t2s));
                lemma_q_sub_cong(cc_base@, hc@, t1s, q_mul(hq[ii], t2s));
                lemma_q_ops_wf(cc_base@, hc@);
                lemma_q_ops_wf(t1s, q_mul(hq[ii], t2s));
                lemma_q_eq_trans(
                    cc@,
                    q_sub(cc_base@, hc@),
                    coef_c_at(*u, *y2d, hq, wq, p@, ci, ii, ni),
                );
            }
            let ghost m0 = m;
            m.put(c, i6, ca);
            let ghost m1 = m;
            m.put(c, nm1 + i6, cb);
            let ghost m2 = m;
            m.put(c, 2 * nm1 + i6, cc);
            let ghost m3 = m;
            m.put(c, 3 * nm1 + i6, cd);
            proof {
                let ci = c as int;
                let ii = i6 as int;
                crate::sspumv::lemma_put_preserves(m0, m1, ci, ii, ca);
                crate::sspumv::lemma_put_preserves(m1, m2, ci, nm1 as int + ii, cb);
                crate::sspumv::lemma_put_preserves(m2, m3, ci, 2 * nm1 as int + ii, cc);
                crate::sspumv::lemma_put_preserves(m3, m, ci, 3 * nm1 as int + ii, cd);
                // the four new entries hold their values
                assert(mat_at(m, ci, ii) == ca@);
                assert(mat_at(m, ci, (ni - 1) + ii) == cb@);
                assert(mat_at(m, ci, 2 * (ni - 1) + ii) == cc@);
                assert(mat_at(m, ci, 3 * (ni - 1) + ii) == cd@);
                // earlier entries of this channel are untouched
                assert forall|i2: int| 0 <= i2 < ii implies #[trigger] mat_at(m, ci, i2) == mat_at(
                    m0,
                    ci,
                    i2,
                ) && mat_at(m, ci, (ni - 1) + i2) == mat_at(m0, ci, (ni - 1) + i2) && mat_at(
                    m,
                    ci,
                    2 * (ni - 1) + i2,
                ) == mat_at(m0, ci, 2 * (ni - 1) + i2) && mat_at(m, ci, 3 * (ni - 1) + i2)
                    == mat_at(m0, ci, 3 * (ni - 1) + i2) by {
                    assert(mat_at(m, ci, i2) == mat_at(m3, ci, i2) && mat_at(m3, ci, i2) == mat_at(
                        m2,
                        ci,
                        i2,
                    ) && mat_at(m2, ci, i2) == mat_at(m1, ci, i2) && mat_at(m1, ci, i2) == mat_at(
                        m0,
                        ci,
                        i2,
                    ));
                    assert(mat_at(m, ci, (ni - 1) + i2) == mat_at(m3, ci, (ni - 1) + i2) && mat_at(
                        m3,
                        ci,
                        (ni - 1) + i2,
                    ) == mat_at(m2, ci, (ni - 1) + i2) && mat_at(m2, ci, (ni - 1) + i2) == mat_at(
                        m1,
                        ci,
                        (ni - 1) + i2,
                    ) && mat_at(m1, ci, (ni - 1) + i2) == mat_at(m0, ci, (ni - 1) + i2));
                    assert(mat_at(m, ci, 2 * (ni - 1) + i2) == mat_at(m3, ci, 2 * (ni - 1) + i2)
                        && mat_at(m3, ci, 2 * (ni - 1) + i2) == mat_at(m2, ci, 2 * (ni - 1) + i2)
                        && mat_at(m2, ci, 2 * (ni - 1) + i2) == mat_at(m1, ci, 2 * (ni - 1) + i2)
                        && mat_at(m1, ci, 2 * (ni - 1) + i2) == mat_at(m0, ci, 2 * (ni - 1) + i2));
                    assert(mat_at(m, ci, 3 * (ni - 1) + i2) == mat_at(m3, ci, 3 * (ni - 1) + i2)
                        && mat_at(m3, ci, 3 * (ni - 1) + i2) == mat_at(m2, ci, 3 * (ni - 1) + i2)
                        && mat_at(m2, ci, 3 * (ni - 1) + i2) == mat_at(m1, ci, 3 * (ni - 1) + i2)
                        && mat_at(m1, ci, 3 * (ni - 1) + i2) == mat_at(m0, ci, 3 * (ni - 1) + i2));
                }
                // entries of earlier channels are untouched
                assert forall|c2: int, i2: int|
                    0 <= c2 < ci && 0 <= i2 < nm1 implies #[trigger] mat_at(m, c2, i2) == mat_at(
                    m0,
                    c2,
                    i2,
                ) && mat_at(m, c2, (ni - 1) + i2) == mat_at(m0, c2, (ni - 1) + i2) && mat_at(
                    m,
                    c2,
                    2 * (ni - 1) + i2,
                ) == mat_at(m0, c2, 2 * (ni - 1) + i2) && mat_at(m, c2, 3 * (ni - 1) + i2)
                    == mat_at(m0, c2, 3 * (ni - 1) + i2) by {
                    assert(mat_at(m, c2, i2) == mat_at(m3, c2, i2) && mat_at(m3, c2, i2) == mat_at(
                        m2,
                        c2,
                        i2,
                    ) && mat_at(m2, c2, i2) == mat_at(m1, c2, i2) && mat_at(m1, c2, i2) == mat_at(
                        m0,
                        c2,
                        i2,
                    ));
                    assert(mat_at(m, c2, (ni - 1) + i2) == mat_at(m3, c2, (ni - 1) + i2) && mat_at(
                        m3,
                        c2,
                        (ni - 1) + i2,
                    ) == mat_at(m2, c2, (ni - 1) + i2) && mat_at(m2, c2, (ni - 1) + i2) == mat_at(
                        m1,
                        c2,
                        (ni - 1) + i2,
                    ) && mat_at(m1, c2, (ni - 1) + i2) == mat_at(m0, c2, (ni - 1) + i2));
                    assert(mat_at(m, c2, 2 * (ni - 1) + i2) == mat_at(m3, c2, 2 * (ni - 1) + i2)
                        && mat_at(m3, c2, 2 * (ni - 1) + i2) == mat_at(m2, c2, 2 * (ni - 1) + i2)
                        && mat_at(m2, c2, 2 * (ni - 1) + i2) == mat_at(m1, c2, 2 * (ni - 1) + i2)
                        && mat_at(m1, c2, 2 * (ni - 1) + i2) == mat_at(m0, c2, 2 * (ni - 1) + i2));
                    assert(mat_at(m, c2, 3 * (ni - 1) + i2) == mat_at(m3, c2, 3 * (ni - 1) + i2)
                        && mat_at(m3, c2, 3 * (ni - 1) + i2) == mat_at(m2, c2, 3 * (ni - 1) + i2)
                        && mat_at(m2, c2, 3 * (ni - 1) + i2) == mat_at(m1, c2, 3 * (ni - 1) + i2)
                        && mat_at(m1, c2, 3 * (ni - 1) + i2) == mat_at(m0, c2, 3 * (ni - 1) + i2));
                }
                // the channel's finished prefix now includes this piece
                assert forall|i2: int| 0 <= i2 < ii + 1 implies q_eq(
                    #[trigger] mat_at(m, ci, i2),
                    coef_a_at(*u, hq, p@, ci, i2, ni),
                ) && q_eq(mat_at(m, ci, (ni - 1) + i2), coef_b_at(*u, p@, ci, i2, ni)) && q_eq(
                    mat_at(m, ci, 2 * (ni - 1) + i2),
                    coef_c_at(*u, *y2d, hq, wq, p@, ci, i2, ni),
                ) && q_eq(
                    mat_at(m, ci, 3 * (ni - 1) + i2),
                    coef_d_at(*u, *y2d, hq, wq, p@, ci, i2, ni),
                ) by {
                    if i2 == ii {
                    } else {
                        assert(q_eq(mat_at(m0, ci, i2), coef_a_at(*u, hq, p@, ci, i2, ni)));
                    }
                }
            }
            i6 = i6 + 1;
        }
        proof {
            lemma_coeffs_merge(m, *u, *y2d, hq, wq, p@, c as int, ni);
        }
        c = c + 1;
    }
    Some(m)
}



proof fn lemma_coeffs_merge(
    m: RatMat,
    u: RatMat,
    y2d: RatMat,
    hq: Seq<Q>,
    wq: Seq<Q>,
    p: Q,
    c: int,
    ni: int,
)
    requires
        forall|c2: int, i2: int|
            0 <= c2 < c && 0 <= i2 < ni - 1 ==> q_eq(
                #[trigger] mat_at(m, c2, i2),
                coef_a_at(u, hq, p, c2, i2, ni),
            ) && q_eq(mat_at(m, c2, (ni - 1) + i2), coef_b_at(u, p, c2, i2, ni)) && q_eq(
                mat_at(m, c2, 2 * (ni - 1) + i2),
                coef_c_at(u, y2d, hq, wq, p, c2, i2, ni),
            ) && q_eq(mat_at(m, c2, 3 * (ni - 1) + i2), coef_d_at(u, y2d, hq, wq, p, c2, i2, ni)),
        forall|i2: int|
            0 <= i2 < ni - 1 ==> q_eq(#[trigger] mat_at(m, c, i2), coef_a_at(u, hq, p, c, i2, ni))
                && q_eq(mat_at(m, c, (ni - 1) + i2), coef_b_at(u, p, c, i2, ni)) && q_eq(
                mat_at(m, c, 2 * (ni - 1) + i2),
                coef_c_at(u, y2d, hq, wq, p, c, i2, ni),
            ) && q_eq(mat_at(m, c, 3 * (ni - 1) + i2), coef_d_at(u, y2d, hq, wq, p, c, i2, ni)),
    ensures
        forall|c2: int, i2: int|
            0 <= c2 < c + 1 && 0 <= i2 < ni - 1 ==> q_eq(
                #[trigger] mat_at(m, c2, i2),
                coef_a_at(u, hq, p, c2, i2, ni),
            ) && q_eq(mat_at(m, c2, (ni - 1) + i2), coef_b_at(u, p, c2, i2, ni)) && q_eq(
                mat_at(m, c2, 2 * (ni - 1) + i2),
                coef_c_at(u, y2d, hq, wq, p, c2, i2, ni),
            ) && q_eq(mat_at(m, c2, 3 * (ni - 1) + i2), coef_d_at(u, y2d, hq, wq, p, c2, i2, ni)),
{
}

/// On strictly increasing sites, the exact adjacent differences are positive.
proof fn lemma_spacings_positive(x: Seq<Rat>, h: Seq<Rat>)
    requires
        seq_wf(x),
        seq_wf(h),
        crate::sspumv::strictly_increasing(qs(x)),
        x.len() >= 2,
        h.len() == x.len() - 1,
        forall|i: int| 0 <= i < h.len() ==> q_eq((#[trigger] h[i])@, q_sub(x[i + 1]@, x[i]@)),
    ensures
        forall|t: int| 0 <= t < h.len() ==> q_lt(q_int(0), (#[trigger] h[t])@),
{
    assert forall|t: int| 0 <= t < h.len() implies q_lt(q_int(0), (#[trigger] h[t])@) by {
        assert(q_lt(qs(x)[t], qs(x)[t + 1]));
        assert(qs(x)[t] == x[t]@ && qs(x)[t + 1] == x[t + 1]@);
        let sd = q_sub(x[t + 1]@, x[t]@);
        lemma_q_ops_wf(x[t + 1]@, x[t]@);
        assert(sd.n > 0);
        assert((h[t])@.n > 0) by (nonlinear_arith)
            requires
                q_eq((h[t])@, sd),
                sd.n > 0,
                sd.d > 0,
                (h[t])@.d > 0,
        ;
    }
}

/// A fresh copy of the sites, kept as the spline's breakpoints.
fn copy_sites(x: &Vec<Rat>) -> (r: Vec<Rat>)
    ensures
        r@ == x@,
{
    let mut out: Vec<Rat> = Vec::new();
    let mut i: usize = 0;
    while i < x.len()
        invariant
            0 <= i <= x@.len(),
            out@ == x@.take(i as int),
        decreases x@.len() - i,
    {
        out.push(x[i]);
        proof {
            assert(x@.take(i + 1) =~= x@.take(i as int).push(x@[i as int]));
        }
        i = i + 1;
    }
    proof {
        assert(x@.take(x@.len() as int) =~= x@);
    }
    out
}

} // verus!
