//! Why a differentiation request fails.
use vstd::prelude::*;

verus! {

/// Mathematical form of a [`SolveError`].
pub enum Fault {
    MalformedTree,
    UnsupportedOperation(Seq<char>),
    ArityMismatch(Seq<char>),
    TooManyIntermediates,
}

/// A failure of a differentiation request; no code is produced.
#[derive(Debug, PartialEq)]
pub enum SolveError {
    /// An empty node was reached: the tree was built wrongly.
    MalformedTree,
    /// No derivative rule is registered for the named operation.
    UnsupportedOperation(String),
    /// The named operation has a different number of operands than its rule
    /// has templates.
    ArityMismatch(String),
    /// The numbering of intermediate variables ran out.
    TooManyIntermediates,
}

impl SolveError {
    pub open spec fn view(&self) -> Fault {
        match self {
            SolveError::MalformedTree => Fault::MalformedTree,
            SolveError::UnsupportedOperation(s) => Fault::UnsupportedOperation(s@),
            SolveError::ArityMismatch(s) => Fault::ArityMismatch(s@),
            SolveError::TooManyIntermediates => Fault::TooManyIntermediates,
        }
    }
}

} // verus!
