//! The piecewise-polynomial spline record and its evaluator.
//!
//! `NdSpline` stores the fitted spline: its order, breakpoints and one row of
//! piecewise coefficients per channel, grouped by descending power (all the
//! leading coefficients first, then the next power, and so on, `pieces`
//! entries per group). Evaluation locates the piece enclosing each query —
//! clamping to the boundary pieces outside the fit range — and runs Horner's
//! scheme on the local offset.

use vstd::prelude::*;

pub mod evaluate_spline;
pub mod make_spline;
pub mod validate_data;

use crate::arrayfuncs::{arr_wf, block_of, outer_of, RatArray};
use crate::linalg::{lemma_rc_bound, mat_at, mat_wf, RatMat};
use crate::sspumv::validate_data::{axis_ok, sites_ok, smooth_ok, weights_ok};
use crate::CsapsError;
use crate::rational::{
    lemma_q_add_cong, lemma_q_eq_trans, lemma_q_mul_cong, lemma_q_ops_wf, q_add, q_div, q_eq,
    q_int, q_le, q_lt, q_mul, q_sub, q_wf, qs, rat_wf, seq_wf, Q, Rat,
};

verus! {

/// Sites are strictly increasing: each one is less than the next.
pub open spec fn strictly_increasing(s: Seq<Q>) -> bool {
    forall|i: int| 0 <= i < s.len() - 1 ==> q_lt(#[trigger] s[i], s[i + 1])
}

/// The index of the piece enclosing `x`, scanning down from `top`: the
/// largest `k <= top` whose left breakpoint is at most `x`, or zero.
pub open spec fn piece_of_rec(breaks: Seq<Q>, x: Q, top: int) -> int
    decreases top,
{
    if top <= 0 {
        0
    } else if q_le(breaks[top], x) {
        top
    } else {
        piece_of_rec(breaks, x, top - 1)
    }
}

/// The piece used to evaluate at `x`: queries left of the first interior
/// breakpoint use the first piece, queries at or beyond the last interior
/// breakpoint use the last piece (the spline extrapolates).
pub open spec fn piece_of(breaks: Seq<Q>, x: Q) -> int {
    piece_of_rec(breaks, x, breaks.len() - 2)
}

/// Horner evaluation of the coefficients of channel `ch`, piece `k`, through
/// the power group `t`: group 0 is the leading coefficient, and each step
/// multiplies by the offset `dt` and adds the next group's entry.
pub open spec fn horner_t(c: RatMat, ch: int, k: int, pieces: int, dt: Q, t: int) -> Q
    decreases t,
{
    if t <= 0 {
        mat_at(c, ch, k)
    } else {
        q_add(q_mul(horner_t(c, ch, k, pieces, dt, t - 1), dt), mat_at(c, ch, t * pieces + k))
    }
}

/// A well-formed spline record: consistent dimensions, a breakpoint per piece
/// boundary, at least one piece, well-formed scalars.
pub open spec fn spl_wf(s: NdSpline) -> bool {
    &&& s.order >= 1
    &&& s.pieces >= 1
    &&& mat_wf(s.coeffs)
    &&& seq_wf(s.breaks@)
    &&& s.ndim == s.coeffs.rows
    &&& s.pieces == s.coeffs.cols / s.order
    &&& s.coeffs.cols == s.order * s.pieces
    &&& s.breaks@.len() == s.pieces + 1
}

/// The exact value of channel `ch` of the spline at `x`: Horner's scheme on
/// the enclosing piece's coefficients at the offset from its left breakpoint.
pub open spec fn spline_val(s: NdSpline, ch: int, x: Q) -> Q {
    let k = piece_of(qs(s.breaks@), x);
    let dt = q_sub(x, s.breaks@[k]@);
    horner_t(s.coeffs, ch, k, s.pieces as int, dt, s.order - 1)
}

/// An n-dimensional spline in piecewise-polynomial form.
#[derive(Debug)]
pub struct NdSpline {
    /// The number of independent channels.
    pub ndim: usize,
    /// The polynomial order (number of coefficients per piece): 4 for cubic.
    pub order: usize,
    /// The number of polynomial pieces.
    pub pieces: usize,
    /// The breakpoints (the data sites the spline was fitted on).
    pub breaks: Vec<Rat>,
    /// One row per channel, `pieces * order` coefficients grouped by
    /// descending power.
    pub coeffs: RatMat,
}

impl NdSpline {
    /// Packages a spline record from its order, breakpoints and coefficient
    /// matrix; the channel count and piece count are read off the matrix.
    pub fn new(order: usize, breaks: Vec<Rat>, coeffs: RatMat) -> (r: NdSpline)
        requires
            order >= 1,
            mat_wf(coeffs),
            seq_wf(breaks@),
            coeffs.cols == order * (breaks@.len() - 1),
            breaks@.len() >= 2,
        ensures
            spl_wf(r),
            r.order == order,
            r.breaks@ == breaks@,
            r.coeffs == coeffs,
            r.ndim == coeffs.rows,
            r.pieces == coeffs.cols / order,
    {
        proof {
            vstd::arithmetic::div_mod::lemma_div_multiples_vanish(breaks@.len() - 1, order as int);
        }
        let ndim = coeffs.rows;
        let pieces = coeffs.cols / order;
        NdSpline { ndim, order, pieces, breaks, coeffs }
    }

    /// The number of channels.
    pub fn ndim(&self) -> (r: usize)
        ensures
            r == self.ndim,
    {
        self.ndim
    }

    /// The polynomial order.
    pub fn order(&self) -> (r: usize)
        ensures
            r == self.order,
    {
        self.order
    }

    /// The number of pieces.
    pub fn pieces(&self) -> (r: usize)
        ensures
            r == self.pieces,
    {
        self.pieces
    }

    /// The breakpoints.
    pub fn breaks(&self) -> (r: &Vec<Rat>)
        ensures
            r@ == self.breaks@,
    {
        &self.breaks
    }

    /// The coefficient matrix.
    pub fn coeffs(&self) -> (r: &RatMat)
        ensures
            r == self.coeffs,
    {
        &self.coeffs
    }

    /// Evaluates every channel at every query site. The result has one row
    /// per channel and one column per query, each entry the exact value of
    /// the piecewise polynomial there. `None` when the arithmetic leaves the
    /// representable range.
    pub fn evaluate(&self, xi: &Vec<Rat>) -> (r: Option<RatMat>)
        requires
            spl_wf(*self),
            seq_wf(xi@),
        ensures
            r is Some ==> {
                let m = r.unwrap();
                &&& mat_wf(m)
                &&& m.rows == self.ndim
                &&& m.cols == xi@.len()
                &&& forall|ch: int, j: int|
                    0 <= ch < self.ndim && 0 <= j < xi@.len() ==> q_eq(
                        #[trigger] mat_at(m, ch, j),
                        spline_val(*self, ch, xi@[j]@),
                    )
            },
            xi@.len() == 0 ==> r is Some,
    {
        proof {
            assert(xi@.len() == 0 ==> self.ndim as int * xi@.len() == 0) by (nonlinear_arith);
        }
        let mut out = match RatMat::zeros(self.ndim, xi.len()) {
            Some(m) => m,
            None => {
                return None;
            },
        };
        let mut j: usize = 0;
        while j < xi.len()
            invariant
                spl_wf(*self),
                seq_wf(xi@),
                mat_wf(out),
                out.rows == self.ndim,
                out.cols == xi@.len(),
                0 <= j <= xi@.len(),
                forall|ch2: int, j2: int|
                    0 <= ch2 < self.ndim && 0 <= j2 < j ==> q_eq(
                        #[trigger] mat_at(out, ch2, j2),
                        spline_val(*self, ch2, xi@[j2]@),
                    ),
            decreases xi@.len() - j,
        {
            let x = xi[j];
            let k = self.find_piece(x);
            let dt = match x.sub(self.breaks[k]) {
                Some(d) => d,
                None => {
                    return None;
                },
            };
            let ghost dts = q_sub(x@, self.breaks@[k as int]@);
            proof {
                lemma_q_ops_wf(x@, self.breaks@[k as int]@);
            }
            let mut ch: usize = 0;
            while ch < self.ndim
                invariant
                    spl_wf(*self),
                    seq_wf(xi@),
                    mat_wf(out),
                    out.rows == self.ndim,
                    out.cols == xi@.len(),
                    j < xi@.len(),
                    x == xi@[j as int],
                    k as int == piece_of(qs(self.breaks@), x@),
                    k < self.pieces,
                    rat_wf(dt),
                    q_eq(dt@, dts),
                    dts == q_sub(x@, self.breaks@[k as int]@),
                    q_wf(dts),
                    0 <= ch <= self.ndim,
                    forall|ch2: int, j2: int|
                        0 <= ch2 < self.ndim && 0 <= j2 < j ==> q_eq(
                            #[trigger] mat_at(out, ch2, j2),
                            spline_val(*self, ch2, xi@[j2]@),
                        ),
                    forall|ch2: int|
                        0 <= ch2 < ch ==> q_eq(
                            #[trigger] mat_at(out, ch2, j as int),
                            spline_val(*self, ch2, xi@[j as int]@),
                        ),
                decreases self.ndim - ch,
            {
                let v = match self.horner_piece(ch, k, dt, Ghost(dts)) {
                    Some(v) => v,
                    None => {
                        return None;
                    },
                };
                let ghost old_out = out;
                out.put(ch, j, v);
                proof {
                    lemma_put_preserves(old_out, out, ch as int, j as int, v);
                    assert(mat_at(out, ch as int, j as int) == v@);
                }
                ch = ch + 1;
            }
            j = j + 1;
        }
        Some(out)
    }

    /// The index of the piece used to evaluate at `x`: scans the interior
    /// breakpoints from the right for the first at or below `x`.
    fn find_piece(&self, x: Rat) -> (k: usize)
        requires
            spl_wf(*self),
            rat_wf(x),
        ensures
            k as int == piece_of(qs(self.breaks@), x@),
            k < self.pieces,
    {
        let ghost bq = qs(self.breaks@);
        proof {
            assert(bq.len() == self.breaks@.len());
        }
        let mut k: usize = self.pieces - 1;
        while k > 0 && !(self.breaks[k].le(x))
            invariant
                spl_wf(*self),
                rat_wf(x),
                0 <= k < self.pieces,
                bq == qs(self.breaks@),
                piece_of(bq, x@) == piece_of_rec(bq, x@, k as int),
            decreases k,
        {
            k = k - 1;
        }
        proof {
            if k > 0 {
                assert(q_le(bq[k as int], x@));
            }
        }
        k
    }

    /// Horner's scheme on the coefficients of channel `ch`, piece `k`, at the
    /// offset `dt`.
    fn horner_piece(&self, ch: usize, k: usize, dt: Rat, Ghost(dts): Ghost<Q>) -> (r: Option<Rat>)
        requires
            spl_wf(*self),
            ch < self.ndim,
            k < self.pieces,
            rat_wf(dt),
            q_wf(dts),
            q_eq(dt@, dts),
        ensures
            r is Some ==> rat_wf(r.unwrap()) && q_eq(
                r.unwrap()@,
                horner_t(self.coeffs, ch as int, k as int, self.pieces as int, dts, self.order - 1),
            ),
    {
        proof {
            lemma_order_pieces_fit(*self);
            lemma_rc_bound(0, k as int, self.order as int, self.pieces as int);
        }
        let mut acc = self.coeffs.get(ch, k);
        let mut t: usize = 1;
        while t < self.order
            invariant
                spl_wf(*self),
                ch < self.ndim,
                k < self.pieces,
                rat_wf(dt),
                q_wf(dts),
                q_eq(dt@, dts),
                1 <= t <= self.order,
                rat_wf(acc),
                q_eq(
                    acc@,
                    horner_t(
                        self.coeffs,
                        ch as int,
                        k as int,
                        self.pieces as int,
                        dts,
                        t as int - 1,
                    ),
                ),
            decreases self.order - t,
        {
            proof {
                lemma_order_pieces_fit(*self);
                lemma_rc_bound(t as int, k as int, self.order as int, self.pieces as int);
                assert(self.coeffs.cols <= self.coeffs.rows * self.coeffs.cols)
                    by (nonlinear_arith)
                    requires
                        self.coeffs.rows >= 1,
                        self.coeffs.cols >= 0,
                ;
            }
            let idx = t * self.pieces + k;
            let coef = self.coeffs.get(ch, idx);
            let p = match acc.mul(dt) {
                Some(p) => p,
                None => {
                    return None;
                },
            };
            let acc2 = match p.add(coef) {
                Some(s) => s,
                None => {
                    return None;
                },
            };
            proof {
                let hprev = horner_t(
                    self.coeffs,
                    ch as int,
                    k as int,
                    self.pieces as int,
                    dts,
                    t as int - 1,
                );
                let hnext = horner_t(
                    self.coeffs,
                    ch as int,
                    k as int,
                    self.pieces as int,
                    dts,
                    t as int,
                );
                lemma_horner_t_wf(*self, ch as int, k as int, dts, t as int - 1);
                lemma_q_ops_wf(hprev, dts);
                lemma_q_mul_cong(acc@, dt@, hprev, dts);
                lemma_q_ops_wf(acc@, dt@);
                assert(q_wf(coef@));
                lemma_q_add_cong(q_mul(acc@, dt@), coef@, q_mul(hprev, dts), coef@);
                lemma_q_ops_wf(q_mul(acc@, dt@), coef@);
                lemma_q_ops_wf(q_mul(hprev, dts), coef@);
                lemma_q_eq_trans(p@, q_mul(acc@, dt@), q_mul(hprev, dts));
                lemma_q_add_cong(p@, coef@, q_mul(hprev, dts), coef@);
                lemma_q_ops_wf(p@, coef@);
                lemma_q_eq_trans(acc2@, q_add(p@, coef@), hnext);
            }
            acc = acc2;
            t = t + 1;
        }
        Some(acc)
    }
}

/// In a well-formed spline every coefficient offset `t * pieces + k` with
/// `t < order`, `k < pieces` is a valid column.
pub proof fn lemma_order_pieces_fit(s: NdSpline)
    requires
        spl_wf(s),
    ensures
        s.order * s.pieces <= s.coeffs.cols,
{
    vstd::arithmetic::div_mod::lemma_fundamental_div_mod(s.coeffs.cols as int, s.order as int);
    vstd::arithmetic::div_mod::lemma_mod_bound(s.coeffs.cols as int, s.order as int);
    assert(s.order * s.pieces <= s.coeffs.cols) by (nonlinear_arith)
        requires
            s.coeffs.cols as int == s.order as int * (s.coeffs.cols as int / s.order as int)
                + s.coeffs.cols as int % s.order as int,
            s.pieces as int == s.coeffs.cols as int / s.order as int,
            s.coeffs.cols as int % s.order as int >= 0,
    ;
}

/// Horner values over well-formed entries are well formed.
pub proof fn lemma_horner_t_wf(s: NdSpline, ch: int, k: int, dt: Q, t: int)
    requires
        spl_wf(s),
        0 <= ch < s.ndim,
        0 <= k < s.pieces,
        q_wf(dt),
        0 <= t < s.order,
    ensures
        q_wf(horner_t(s.coeffs, ch, k, s.pieces as int, dt, t)),
    decreases t,
{
    lemma_order_pieces_fit(s);
    if t <= 0 {
        lemma_rc_bound(0, k, s.order as int, s.pieces as int);
        lemma_rc_bound(ch, k, s.coeffs.rows as int, s.coeffs.cols as int);
    } else {
        lemma_horner_t_wf(s, ch, k, dt, t - 1);
        lemma_rc_bound(t, k, s.order as int, s.pieces as int);
        lemma_rc_bound(ch, t * s.pieces + k, s.coeffs.rows as int, s.coeffs.cols as int);
        let prev = horner_t(s.coeffs, ch, k, s.pieces as int, dt, t - 1);
        lemma_q_ops_wf(prev, dt);
        lemma_q_ops_wf(q_mul(prev, dt), mat_at(s.coeffs, ch, t * s.pieces + k));
    }
}

/// Writing one entry leaves every other entry unchanged.
pub proof fn lemma_put_preserves(before: RatMat, after: RatMat, i: int, j: int, v: Rat)
    requires
        mat_wf(before),
        0 <= i < before.rows,
        0 <= j < before.cols,
        after.rows == before.rows,
        after.cols == before.cols,
        after.data@ == before.data@.update(i * before.cols + j, v),
    ensures
        mat_at(after, i, j) == v@,
        forall|i2: int, j2: int|
            0 <= i2 < before.rows && 0 <= j2 < before.cols && (i2 != i || j2 != j)
                ==> #[trigger] mat_at(after, i2, j2) == mat_at(before, i2, j2),
{
    lemma_rc_bound(i, j, before.rows as int, before.cols as int);
    assert forall|i2: int, j2: int|
        0 <= i2 < before.rows && 0 <= j2 < before.cols && (i2 != i || j2 != j) implies #[trigger] mat_at(
        after,
        i2,
        j2,
    ) == mat_at(before, i2, j2) by {
        lemma_rc_bound(i2, j2, before.rows as int, before.cols as int);
        if i2 < i || (i2 == i && j2 < j) {
            crate::linalg::lemma_rc_lex(i2, j2, i, j, before.cols as int);
        } else {
            crate::linalg::lemma_rc_lex(i, j, i2, j2, before.cols as int);
        }
    }
}

/// The axis `make` fits along: the given one, or the last axis.
pub open spec fn resolved_axis(ndim: int, axis: Option<usize>) -> int {
    match axis {
        Some(a) => a as int,
        None => ndim - 1,
    }
}

/// The number of independent channels of a value array relative to an axis.
pub open spec fn channels_of(shape: Seq<usize>, ax: int) -> int {
    outer_of(shape, ax) * block_of(shape, ax)
}

/// The value of channel `(pre, q)` at position `j` along the axis.
pub open spec fn chan_at(y: RatArray, ax: int, pre: int, q: int, j: int) -> Q {
    let blk = block_of(y.shape@, ax);
    let alen = y.shape@[ax] as int;
    y.data@[pre * (alen * blk) + j * blk + q]@
}

/// A well-formed builder. When a spline is cached, it was fitted on the
/// stored sites and values along the stored axis.
pub open spec fn css_wf(s: CubicSmoothingSpline) -> bool {
    &&& seq_wf(s.x@)
    &&& arr_wf(s.y)
    &&& match s.weights {
        Some(w) => seq_wf(w@),
        None => true,
    }
    &&& match s.smooth {
        Some(p) => rat_wf(p),
        None => true,
    }
    &&& match s.spline {
        Some(sp) => {
            &&& spl_wf(sp)
            &&& s.x@.len() >= 2
            &&& match s.axis {
                Some(a) => {
                    &&& (a as int) < s.y.shape@.len()
                    &&& s.y.shape@[a as int] == s.x@.len()
                    &&& sp.ndim as int == channels_of(s.y.shape@, a as int)
                },
                None => false,
            }
        },
        None => true,
    }
}

/// The two-point fit: per channel, the exact linear interpolant written as
/// slope and intercept.
pub open spec fn two_point_coeffs(s: CubicSmoothingSpline, sp: NdSpline) -> bool {
    let ax = resolved_axis(s.y.shape@.len() as int, s.axis);
    let blk = block_of(s.y.shape@, ax);
    let outer = outer_of(s.y.shape@, ax);
    let dx = q_sub(s.x@[1]@, s.x@[0]@);
    forall|pre: int, q: int|
        0 <= pre < outer && 0 <= q < blk ==> q_eq(
            #[trigger] mat_at(sp.coeffs, pre * blk + q, 0),
            q_div(q_sub(chan_at(s.y, ax, pre, q, 1), chan_at(s.y, ax, pre, q, 0)), dx),
        ) && q_eq(mat_at(sp.coeffs, pre * blk + q, 1), chan_at(s.y, ax, pre, q, 0))
}

/// What a successful `make` returns: the same data, the resolved axis, a
/// cached spline of the right order and dimensions fitted on the sites, and a
/// smoothing parameter in place.
pub open spec fn make_post(s0: CubicSmoothingSpline, s1: CubicSmoothingSpline) -> bool {
    let n = s0.x@.len() as int;
    let ax = resolved_axis(s0.y.shape@.len() as int, s0.axis);
    let nch = channels_of(s0.y.shape@, ax);
    let ord: int = if n == 2 {
        2
    } else {
        4
    };
    &&& s1.x@ == s0.x@
    &&& s1.y == s0.y
    &&& s1.axis == Some(ax as usize)
    &&& s1.weights == s0.weights
    &&& css_wf(s1)
    &&& match s1.spline {
        Some(sp) => {
            &&& sp.breaks@ == s0.x@
            &&& sp.pieces as int == n - 1
            &&& sp.order as int == ord
            &&& sp.ndim as int == nch
            &&& sp.coeffs.rows as int == nch
            &&& sp.coeffs.cols as int == (n - 1) * ord
            &&& (n == 2 ==> two_point_coeffs(s0, sp))
        },
        None => false,
    }
    &&& match s1.smooth {
        Some(p) => {
            &&& rat_wf(p)
            &&& (n == 2 ==> q_eq(p@, q_int(1)))
            &&& (n != 2 && s0.smooth is Some ==> p == s0.smooth.unwrap())
        },
        None => false,
    }
    &&& (n >= 3 ==> exists|y2m: RatMat, am: RatMat, um: RatMat, hv: Seq<Q>, wv: Seq<Q>|
        #[trigger] crate::sspumv::make_spline::cubic_fit_ok(
            s0,
            y2m,
            am,
            um,
            hv,
            wv,
            s1.smooth.unwrap()@,
            s1.spline.unwrap().coeffs,
        ))
}

/// What a successful `evaluate` returns: the value array keeps every axis of
/// the data but the fitted one, which now runs over the queries; each entry
/// is the exact spline value of its channel at its query.
pub open spec fn eval_post(s: CubicSmoothingSpline, xi: Seq<Rat>, out: RatArray) -> bool {
    match (s.spline, s.axis) {
        (Some(sp), Some(a)) => {
            let ax = a as int;
            let blk = block_of(s.y.shape@, ax);
            let outer = outer_of(s.y.shape@, ax);
            let nxi = xi.len() as int;
            &&& out.shape@ == s.y.shape@.update(ax, xi.len() as usize)
            &&& forall|pre: int, j: int, q: int|
                0 <= pre < outer && 0 <= j < nxi && 0 <= q < blk ==> q_eq(
                    (#[trigger] out.data@[pre * (nxi * blk) + j * blk + q])@,
                    spline_val(sp, pre * blk + q, xi[j]@),
                )
        },
        _ => false,
    }
}

/// The n-dimensional smoothing-spline builder: borrowed-in data, chained
/// configuration, a cached spline after `make`.
pub struct CubicSmoothingSpline {
    /// The data sites, strictly increasing once validated.
    pub x: Vec<Rat>,
    /// The data values; one axis runs over the sites.
    pub y: RatArray,
    /// The signal axis; the last axis when absent.
    pub axis: Option<usize>,
    /// Optional per-site weights.
    pub weights: Option<Vec<Rat>>,
    /// Optional smoothing parameter in `[0, 1]`.
    pub smooth: Option<Rat>,
    /// The spline computed by `make`, cleared by every configuration change.
    pub spline: Option<NdSpline>,
}

impl CubicSmoothingSpline {
    /// A fresh builder for the given sites and values: no axis, weights or
    /// smoothing parameter chosen, no spline computed.
    pub fn new(x: Vec<Rat>, y: RatArray) -> (r: CubicSmoothingSpline)
        requires
            seq_wf(x@),
            arr_wf(y),
        ensures
            css_wf(r),
            r.x@ == x@,
            r.y == y,
            r.axis is None,
            r.weights is None,
            r.smooth is None,
            r.spline is None,
    {
        CubicSmoothingSpline { x, y, axis: None, weights: None, smooth: None, spline: None }
    }

    /// Chooses the signal axis and invalidates any computed spline.
    pub fn with_axis(self, axis: usize) -> (r: CubicSmoothingSpline)
        requires
            css_wf(self),
        ensures
            css_wf(r),
            r.x@ == self.x@,
            r.y == self.y,
            r.axis == Some(axis),
            r.weights == self.weights,
            r.smooth == self.smooth,
            r.spline is None,
    {
        let mut s = self;
        s.spline = None;
        s.axis = Some(axis);
        s
    }

    /// Sets the data weights and invalidates any computed spline.
    pub fn with_weights(self, weights: Vec<Rat>) -> (r: CubicSmoothingSpline)
        requires
            css_wf(self),
            seq_wf(weights@),
        ensures
            css_wf(r),
            r.x@ == self.x@,
            r.y == self.y,
            r.axis == self.axis,
            r.weights matches Some(w) && w@ == weights@,
            r.smooth == self.smooth,
            r.spline is None,
    {
        let mut s = self;
        s.spline = None;
        s.weights = Some(weights);
        s
    }

    /// Sets the smoothing parameter and invalidates any computed spline.
    pub fn with_smooth(self, smooth: Rat) -> (r: CubicSmoothingSpline)
        requires
            css_wf(self),
            rat_wf(smooth),
        ensures
            css_wf(r),
            r.x@ == self.x@,
            r.y == self.y,
            r.axis == self.axis,
            r.weights == self.weights,
            r.smooth == Some(smooth),
            r.spline is None,
    {
        let mut s = self;
        s.spline = None;
        s.smooth = Some(smooth);
        s
    }

    /// The smoothing parameter in use.
    pub fn smooth(&self) -> (r: Rat)
        requires
            self.smooth is Some,
        ensures
            r == self.smooth.unwrap(),
    {
        match &self.smooth {
            Some(p) => *p,
            None => unreached(),
        }
    }

    /// The computed spline.
    pub fn spline(&self) -> (r: &NdSpline)
        requires
            self.spline is Some,
        ensures
            *r == self.spline.unwrap(),
    {
        match &self.spline {
            Some(sp) => sp,
            None => unreached(),
        }
    }

    /// Validates the data, fits the spline and caches it. Validation errors
    /// are reported first, one per condition; `SingularSystem` and
    /// `NumericOverflow` can arise only on valid data, and the exact
    /// spacings of validated sites are provably positive, so
    /// `DegenerateSpacing` is checked for but never returned.
    pub fn make(self) -> (r: Result<CubicSmoothingSpline, CsapsError>)
        requires
            css_wf(self),
        ensures
            (r matches Err(e) && e is InvalidSites) <==> !sites_ok(self.x@),
            (r matches Err(e) && e is AxisMismatch) <==> sites_ok(self.x@) && !axis_ok(
                self.y.shape@,
                self.axis,
                self.x@.len() as int,
            ),
            (r matches Err(e) && e is WeightsMismatch) <==> sites_ok(self.x@) && axis_ok(
                self.y.shape@,
                self.axis,
                self.x@.len() as int,
            ) && !weights_ok(self.weights, self.x@.len() as int),
            (r matches Err(e) && e is InvalidSmoothing) <==> sites_ok(self.x@) && axis_ok(
                self.y.shape@,
                self.axis,
                self.x@.len() as int,
            ) && weights_ok(self.weights, self.x@.len() as int) && !smooth_ok(self.smooth),
            r matches Err(e) && (e is DegenerateSpacing || e is SingularSystem
                || e is NumericOverflow) ==> sites_ok(self.x@) && axis_ok(
                self.y.shape@,
                self.axis,
                self.x@.len() as int,
            ) && weights_ok(self.weights, self.x@.len() as int) && smooth_ok(self.smooth),
            r matches Err(e) ==> !(e is SplineNotComputed) && !(e is InvalidQuerySites) && !(
            e is DegenerateSpacing),
            sites_ok(self.x@) && axis_ok(self.y.shape@, self.axis, self.x@.len() as int)
                && weights_ok(self.weights, self.x@.len() as int) && smooth_ok(self.smooth)
                && self.x@.len() == 2 && r is Err ==> (r matches Err(e) && e is NumericOverflow),
            r matches Ok(s1) ==> make_post(self, s1),
    {
        match self.make_validate_data() {
            Ok(()) => {},
            Err(e) => {
                return Err(e);
            },
        }
        self.make_spline()
    }

    /// Evaluates the cached spline at the query sites, reshaping the result
    /// to the data's shape with the fitted axis resized to the query count.
    /// Fails with `SplineNotComputed` exactly when no spline is cached.
    pub fn evaluate(&self, xi: &Vec<Rat>) -> (r: Result<RatArray, CsapsError>)
        requires
            css_wf(*self),
            seq_wf(xi@),
        ensures
            (r matches Err(e) && e is SplineNotComputed) <==> self.spline is None,
            r matches Err(e) ==> e is SplineNotComputed || e is NumericOverflow,
            self.spline is Some && xi@.len() == 0 ==> r is Ok,
            r matches Ok(out) ==> arr_wf(out) && eval_post(*self, xi@, out),
    {
        if self.spline.is_none() {
            return Err(CsapsError::SplineNotComputed);
        }
        self.evaluate_spline(xi)
    }
}

} // verus!
