//! Construction-time validation: the checks `make` runs before any
//! arithmetic, each tied one-to-one to its error.

use vstd::prelude::*;

use crate::rational::{q_int, q_le, q_lt, qs, seq_wf, Rat};
use crate::sspumv::{resolved_axis, strictly_increasing, CubicSmoothingSpline};
use crate::CsapsError;

verus! {

/// Valid sites: at least two, strictly increasing.
pub open spec fn sites_ok(x: Seq<Rat>) -> bool {
    x.len() >= 2 && strictly_increasing(qs(x))
}

/// Valid axis: the resolved axis exists and its length matches the site count.
pub open spec fn axis_ok(shape: Seq<usize>, axis: Option<usize>, n: int) -> bool {
    let ax = resolved_axis(shape.len() as int, axis);
    &&& 0 <= ax < shape.len()
    &&& shape[ax] == n
}

/// Valid weights: absent, or one per site.
pub open spec fn weights_ok(w: Option<Vec<Rat>>, n: int) -> bool {
    match w {
        Some(w) => w@.len() == n,
        None => true,
    }
}

/// Valid smoothing parameter: absent, or within `[0, 1]`.
pub open spec fn smooth_ok(p: Option<Rat>) -> bool {
    match p {
        Some(p) => q_le(q_int(0), p@) && q_le(p@, q_int(1)),
        None => true,
    }
}

/// Whether the sites are strictly increasing, scanning adjacent pairs.
pub fn check_increasing(x: &Vec<Rat>) -> (b: bool)
    requires
        seq_wf(x@),
    ensures
        b == strictly_increasing(qs(x@)),
{
    if x.len() == 0 {
        return true;
    }
    let mut i: usize = 0;
    while i < x.len() - 1
        invariant
            seq_wf(x@),
            x@.len() >= 1,
            0 <= i <= x@.len() - 1,
            forall|j: int| 0 <= j < i ==> q_lt(#[trigger] qs(x@)[j], qs(x@)[j + 1]),
        decreases x@.len() - i,
    {
        if !(x[i].lt(x[i + 1])) {
            assert(!q_lt(qs(x@)[i as int], qs(x@)[i as int + 1]));
            return false;
        }
        i = i + 1;
    }
    true
}

impl CubicSmoothingSpline {
    /// Checks sites, axis, weights and smoothing parameter, in that order,
    /// and reports the first failure.
    pub(crate) fn make_validate_data(&self) -> (r: Result<(), CsapsError>)
        requires
            seq_wf(self.x@),
            crate::arrayfuncs::arr_wf(self.y),
            match self.weights {
                Some(w) => seq_wf(w@),
                None => true,
            },
            match self.smooth {
                Some(p) => crate::rational::rat_wf(p),
                None => true,
            },
        ensures
            r is Ok <==> sites_ok(self.x@) && axis_ok(self.y.shape@, self.axis, self.x@.len() as int)
                && weights_ok(self.weights, self.x@.len() as int) && smooth_ok(self.smooth),
            (r matches Err(e) && e is InvalidSites) <==> !sites_ok(self.x@),
            (r matches Err(e) && e is AxisMismatch) <==> sites_ok(self.x@) && !axis_ok(
                self.y.shape@,
                self.axis,
                self.x@.len() as int,
            ),
            (r matches Err(e) && e is WeightsMismatch) <==> sites_ok(self.x@) && axis_ok(
                self.y.shape@,
                self.axis,
                self.x@.len() as int,
            ) && !weights_ok(self.weights, self.x@.len() as int),
            (r matches Err(e) && e is InvalidSmoothing) <==> sites_ok(self.x@) && axis_ok(
                self.y.shape@,
                self.axis,
                self.x@.len() as int,
            ) && weights_ok(self.weights, self.x@.len() as int) && !smooth_ok(self.smooth),
    {
        if self.x.len() < 2 || !check_increasing(&self.x) {
            return Err(CsapsError::InvalidSites);
        }
        let nd = self.y.shape.len();
        let ax = match self.axis {
            Some(a) => {
                if a >= nd {
                    return Err(CsapsError::AxisMismatch);
                }
                a
            },
            None => nd - 1,
        };
        if self.y.shape[ax] != self.x.len() {
            return Err(CsapsError::AxisMismatch);
        }
        match &self.weights {
            Some(w) => {
                if w.len() != self.x.len() {
                    return Err(CsapsError::WeightsMismatch);
                }
            },
            None => {},
        }
        match &self.smooth {
            Some(p) => {
                let zero = Rat::from_int(0);
                let one = Rat::from_int(1);
                if !(zero.le(*p) && p.le(one)) {
                    return Err(CsapsError::InvalidSmoothing);
                }
            },
            None => {},
        }
        Ok(())
    }
}

} // verus!
