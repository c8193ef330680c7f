use vstd::prelude::*;

verus! {

/// Why an operation of this library refused its inputs.
#[derive(Debug, Clone, Copy, PartialEq, Eq, Structural)]
pub enum WalkError {
    /// The success probability does not lie in `[0, 1]`.
    InvalidProbability,
    /// Aggregation or binning was asked of zero walkers.
    EmptyInput,
    /// The number of samples, or the width of a distribution, does not fit
    /// the platform's integers.
    OverflowRisk,
}

} // verus!
