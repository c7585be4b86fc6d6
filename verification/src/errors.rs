//! Error taxonomy of the pipeline core. Every error is terminal for a run:
//! the caller gets a diagnosis, never a partial result.

use vstd::prelude::*;

verus! {

/// An error raised by the pipeline core.
#[derive(Clone, Copy, Debug, PartialEq, Eq, Structural)]
pub enum MstError {
    /// A region identifier was not part of the correlation matrix.
    Lookup,
    /// The region list or the value table handed to the matrix constructor
    /// was malformed (duplicate regions, wrong table shape, value out of
    /// range, asymmetry, or a bad diagonal).
    MalformedInput,
    /// Fewer than `n - 1` finite-weight edges could connect all nodes;
    /// `unreached` counts the nodes cut off from node 0.
    Disconnected { unreached: usize },
}

impl MstError {
    /// A short diagnostic label for display by unverified callers.
    pub fn label(&self) -> (r: &'static str)
        ensures
            self is Lookup ==> r@ == "unknown region"@,
            self is MalformedInput ==> r@ == "malformed input"@,
            self is Disconnected ==> r@ == "graph is disconnected"@,
    {
        match self {
            MstError::Lookup => "unknown region",
            MstError::MalformedInput => "malformed input",
            MstError::Disconnected { .. } => "graph is disconnected",
        }
    }
}

} // verus!
