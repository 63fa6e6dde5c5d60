//! Reshaping evaluated channels back into the data's n-dimensional layout.

use vstd::prelude::*;

use crate::arrayfuncs::{
    arr_wf, block_of, dims_prod, lemma_dims_prod_nonneg, lemma_dims_prod_split, lemma_grid_bound,
    lemma_grid_lex, outer_of, range_prod, RatArray,
};
use crate::linalg::{lemma_rc_bound, mat_at, mat_wf, RatMat};
use crate::rational::{q_eq, rat_wf, seq_wf, Rat};
use crate::sspumv::{eval_post, CubicSmoothingSpline};
use crate::CsapsError;

verus! {

/// Lays the rows of a channel matrix back out as an n-dimensional array:
/// the given shape with `ax` resized to the matrix's column count. Row
/// `pre * blk + q` of the matrix becomes channel `(pre, q)` of the array.
pub(crate) fn from_2d(m: &RatMat, shape: &Vec<usize>, ax: usize) -> (r: RatArray)
    requires
        mat_wf(*m),
        ax < shape@.len(),
        shape@[ax as int] >= 1,
        dims_prod(shape@) <= usize::MAX as int,
        m.rows as int == outer_of(shape@, ax as int) * block_of(shape@, ax as int),
    ensures
        arr_wf(r),
        r.shape@ == shape@.update(ax as int, m.cols),
        forall|pre: int, j: int, q: int|
            0 <= pre < outer_of(shape@, ax as int) && 0 <= j < m.cols && 0 <= q < block_of(
                shape@,
                ax as int,
            ) ==> (#[trigger] r.data@[pre * (m.cols as int * block_of(shape@, ax as int)) + j
                * block_of(shape@, ax as int) + q])@ == mat_at(
                *m,
                pre * block_of(shape@, ax as int) + q,
                j,
            ),
{
    let nxi = m.cols;
    let ghost outer_g = outer_of(shape@, ax as int);
    let ghost blk_g = block_of(shape@, ax as int);
    // the output shape: the fitted axis resized to the query count
    let mut nshape: Vec<usize> = Vec::new();
    let mut k: usize = 0;
    while k < shape.len()
        invariant
            0 <= k <= shape@.len(),
            ax < shape@.len(),
            nshape@.len() == k,
            forall|t: int| 0 <= t < k ==> nshape@[t] == shape@.update(ax as int, nxi)[t],
        decreases shape@.len() - k,
    {
        if k == ax {
            nshape.push(nxi);
        } else {
            nshape.push(shape[k]);
        }
        k = k + 1;
    }
    proof {
        assert(nshape@ =~= shape@.update(ax as int, nxi));
        lemma_dims_prod_split(nshape@, ax as int);
        assert(nshape@.take(ax as int) =~= shape@.take(ax as int));
        assert(nshape@.skip(ax as int + 1) =~= shape@.skip(ax as int + 1));
        lemma_dims_prod_nonneg(shape@.take(ax as int));
        lemma_dims_prod_nonneg(shape@.skip(ax as int + 1));
    }
    if m.rows == 0 {
        let out = RatArray { shape: nshape, data: Vec::new() };
        proof {
            assert(outer_g == 0 || blk_g == 0) by (nonlinear_arith)
                requires
                    outer_g * blk_g == 0,
                    outer_g >= 0,
                    blk_g >= 0,
            ;
            assert(outer_g * (nxi as int * blk_g) == 0) by (nonlinear_arith)
                requires
                    outer_g == 0 || blk_g == 0,
            ;
        }
        return out;
    }
    proof {
        assert(outer_g >= 1 && blk_g >= 1) by (nonlinear_arith)
            requires
                outer_g >= 0,
                blk_g >= 0,
                outer_g * blk_g >= 1,
        ;
        lemma_dims_prod_split(shape@, ax as int);
        assert(dims_prod(shape@) >= 1) by (nonlinear_arith)
            requires
                dims_prod(shape@) == outer_g * (shape@[ax as int] * blk_g),
                outer_g >= 1,
                blk_g >= 1,
                shape@[ax as int] >= 1,
        ;
    }
    let outer = range_prod(shape, 0, ax);
    let blk = range_prod(shape, ax + 1, shape.len());
    proof {
        assert(shape@.subrange(0, ax as int) =~= shape@.take(ax as int));
        assert(shape@.subrange(ax as int + 1, shape@.len() as int) =~= shape@.skip(ax as int + 1));
        assert(outer_g * (nxi as int * blk_g) == (outer_g * blk_g) * nxi as int)
            by (nonlinear_arith);
        assert((outer_g * blk_g) * nxi as int <= usize::MAX as int) by (nonlinear_arith)
            requires
                outer_g * blk_g == m.rows as int,
                m.rows * m.cols <= usize::MAX as int,
                nxi == m.cols,
        ;
    }
    let mut out: Vec<Rat> = Vec::new();
    let mut pre: usize = 0;
    while pre < outer
        invariant
            mat_wf(*m),
            nxi == m.cols,
            outer == outer_g,
            blk == blk_g,
            m.rows as int == outer_g * blk_g,
            outer_g >= 1,
            blk_g >= 1,
            0 <= pre <= outer,
            out@.len() == pre * (nxi as int * blk_g),
            outer_g * (nxi as int * blk_g) <= usize::MAX as int,
            seq_wf(out@),
            forall|p2: int, j2: int, q2: int|
                0 <= p2 < pre && 0 <= j2 < nxi && 0 <= q2 < blk_g ==> (#[trigger] out@[p2 * (
                nxi as int * blk_g) + j2 * blk_g + q2])@ == mat_at(*m, p2 * blk_g + q2, j2),
        decreases outer - pre,
    {
        let mut j: usize = 0;
        while j < nxi
            invariant
                mat_wf(*m),
                nxi == m.cols,
                outer == outer_g,
                blk == blk_g,
                m.rows as int == outer_g * blk_g,
                outer_g >= 1,
                blk_g >= 1,
                pre < outer,
                0 <= j <= nxi,
                out@.len() == pre * (nxi as int * blk_g) + j * blk_g,
                outer_g * (nxi as int * blk_g) <= usize::MAX as int,
                seq_wf(out@),
                forall|p2: int, j2: int, q2: int|
                    0 <= p2 < pre && 0 <= j2 < nxi && 0 <= q2 < blk_g ==> (#[trigger] out@[p2 * (
                    nxi as int * blk_g) + j2 * blk_g + q2])@ == mat_at(*m, p2 * blk_g + q2, j2),
                forall|j2: int, q2: int|
                    0 <= j2 < j && 0 <= q2 < blk_g ==> (#[trigger] out@[pre * (nxi as int * blk_g)
                        + j2 * blk_g + q2])@ == mat_at(*m, pre * blk_g + q2, j2),
            decreases nxi - j,
        {
            let mut q: usize = 0;
            while q < blk
                invariant
                    mat_wf(*m),
                    nxi == m.cols,
                    outer == outer_g,
                    blk == blk_g,
                    m.rows as int == outer_g * blk_g,
                    outer_g >= 1,
                    blk_g >= 1,
                    pre < outer,
                    j < nxi,
                    0 <= q <= blk,
                    out@.len() == pre * (nxi as int * blk_g) + j * blk_g + q,
                    outer_g * (nxi as int * blk_g) <= usize::MAX as int,
                    seq_wf(out@),
                    forall|p2: int, j2: int, q2: int|
                        0 <= p2 < pre && 0 <= j2 < nxi && 0 <= q2 < blk_g ==> (
                        #[trigger] out@[p2 * (nxi as int * blk_g) + j2 * blk_g + q2])@ == mat_at(
                            *m,
                            p2 * blk_g + q2,
                            j2,
                        ),
                    forall|j2: int, q2: int|
                        (0 <= j2 < j && 0 <= q2 < blk_g) || (j2 == j && 0 <= q2 < q) ==> (
                        #[trigger] out@[pre * (nxi as int * blk_g) + j2 * blk_g + q2])@ == mat_at(
                            *m,
                            pre * blk_g + q2,
                            j2,
                        ),
                decreases blk - q,
            {
                proof {
                    lemma_rc_bound(pre as int, q as int, outer_g, blk_g);
                    lemma_grid_bound(pre as int, j as int, q as int, outer_g, nxi as int, blk_g);
                }
                let row = pre * blk + q;
                let v = m.get(row, j);
                out.push(v);
                proof {
                    assert forall|j2: int, q2: int|
                        (0 <= j2 < j && 0 <= q2 < blk_g) || (j2 == j as int && 0 <= q2 < q
                            + 1) implies (#[trigger] out@[pre * (nxi as int * blk_g) + j2 * blk_g
                        + q2])@ == mat_at(*m, pre * blk_g + q2, j2) by {
                        if j2 == j as int && q2 == q as int {
                        } else {
                            lemma_grid_lex(
                                pre as int,
                                j2,
                                q2,
                                pre as int,
                                j as int,
                                q as int,
                                nxi as int,
                                blk_g,
                            );
                        }
                    }
                    assert forall|p2: int, j2: int, q2: int|
                        0 <= p2 < pre && 0 <= j2 < nxi && 0 <= q2 < blk_g implies (
                    #[trigger] out@[p2 * (nxi as int * blk_g) + j2 * blk_g + q2])@ == mat_at(
                        *m,
                        p2 * blk_g + q2,
                        j2,
                    ) by {
                        lemma_grid_lex(p2, j2, q2, pre as int, j as int, q as int, nxi as int, blk_g);
                    }
                }
                q = q + 1;
            }
            proof {
                assert((j + 1) * blk_g == j * blk_g + blk_g) by (nonlinear_arith);
            }
            j = j + 1;
        }
        proof {
            assert((pre + 1) * (nxi as int * blk_g) == pre * (nxi as int * blk_g) + nxi as int
                * blk_g) by (nonlinear_arith);
        }
        pre = pre + 1;
    }
    let out_arr = RatArray { shape: nshape, data: out };
    out_arr
}


impl CubicSmoothingSpline {
    /// Evaluates the cached spline on the query sites and reshapes the
    /// channel matrix back into the data's layout.
    pub(crate) fn evaluate_spline(&self, xi: &Vec<Rat>) -> (r: Result<RatArray, CsapsError>)
        requires
            crate::sspumv::css_wf(*self),
            seq_wf(xi@),
            self.spline is Some,
        ensures
            r matches Ok(out) ==> arr_wf(out) && eval_post(*self, xi@, out),
            r matches Err(e) ==> e is NumericOverflow,
            xi@.len() == 0 ==> r is Ok,
    {
        let sp = self.spline();
        let ax = match self.axis {
            Some(a) => a,
            None => unreached(),
        };
        let yi2d = match sp.evaluate(xi) {
            Some(m) => m,
            None => {
                return Err(CsapsError::NumericOverflow);
            },
        };
        let ghost outer_g = outer_of(self.y.shape@, ax as int);
        let ghost blk_g = block_of(self.y.shape@, ax as int);
        let total = self.y.data.len();
        proof {
            assert(dims_prod(self.y.shape@) == total as int);
        }
        let out = from_2d(&yi2d, &self.y.shape, ax);
        proof {
            assert forall|pre: int, j: int, q: int|
                0 <= pre < outer_g && 0 <= j < xi@.len() && 0 <= q < blk_g implies q_eq(
                (#[trigger] out.data@[pre * (xi@.len() * blk_g) + j * blk_g + q])@,
                crate::sspumv::spline_val(self.spline.unwrap(), pre * blk_g + q, xi@[j]@),
            ) by {
                lemma_rc_bound(pre, q, outer_g, blk_g);
            }
        }
        Ok(out)
    }
}

} // verus!
