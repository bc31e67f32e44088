use vstd::prelude::*;

verus! {

/// Failure conditions of the extraction pipeline. Every other stage is a
/// total function over validated grids and raises no further error kinds.
#[derive(Clone, Copy, Debug, PartialEq, Eq, Structural)]
pub enum PipelineError {
    /// The configured cell size does not fit the image: it must be even, at
    /// least 2, and evenly divide both image dimensions.
    CellSizeMismatch,
    /// The cellular automaton did not stabilize within the configured pass
    /// budget.
    NonConvergence,
}

} // verus!
