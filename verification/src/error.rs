//! Failures of the model pipeline. Every failure is reported to the caller;
//! the orchestrator fails the whole build fast on the first one rather than
//! keeping a partial model.

use vstd::prelude::*;

verus! {

#[derive(Clone, Copy, Debug, PartialEq, Eq, Structural)]
pub enum ModelError {
    /// A degree, point count or tolerance outside the valid range.
    Configuration,
    /// A neighborhood used for fitting came up empty after the bounded
    /// number of radius growth steps.
    EmptyNeighborhood,
    /// A field query's adaptive radius search exceeded its iteration cap
    /// without locating any patch.
    NoPatchFound,
    /// Gradient descent exceeded its iteration bound without meeting the
    /// tolerance.
    NonConvergence,
    /// Rejection sampling hit its safety cap before filling the interior
    /// cloud: an added bound on a loop the reference design leaves unbounded.
    SamplingExhausted,
}

} // verus!
