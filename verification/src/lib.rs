//! Smoothing cubic splines over n-dimensional data.
//!
//! Given strictly increasing sample sites `x` and matching values `y`
//! (possibly multi-dimensional, with a selectable signal axis), the library
//! fits a piecewise-cubic polynomial that balances fidelity against
//! curvature, controlled by a smoothing parameter in `[0, 1]`, and evaluates
//! it at arbitrary query sites.
//!
//! All arithmetic is exact: scalars are rationals (`Rat`), so every contract
//! states precisely which value each function returns.

use vstd::prelude::*;

pub mod arrayfuncs;
pub mod laws;
pub mod linalg;
pub mod rational;
pub mod sspumv;

verus! {

/// The failure conditions of spline construction and evaluation.
#[derive(Debug, Clone, Copy, PartialEq, Eq, Structural)]
pub enum CsapsError {
    /// The sites are too short or not strictly increasing.
    InvalidSites,
    /// The signal axis of the values does not match the number of sites.
    AxisMismatch,
    /// The weights do not have one entry per site.
    WeightsMismatch,
    /// The smoothing parameter lies outside `[0, 1]`.
    InvalidSmoothing,
    /// A spacing between adjacent sites is not positive.
    DegenerateSpacing,
    /// The penalized system could not be solved.
    SingularSystem,
    /// The query sites are malformed.
    InvalidQuerySites,
    /// `evaluate` was called before a successful `make`.
    SplineNotComputed,
    /// An exact rational ran out of the representable range.
    NumericOverflow,
}

} // verus!
