use vstd::prelude::*;

verus! {

/// Why a program was rejected before any code was produced.
#[derive(Debug, Clone, Copy, PartialEq, Eq, Structural)]
pub enum Error {
    /// A loop-close without a pending loop-open, or a loop-open that is
    /// never closed.
    UnbalancedLoop,
}

impl Error {
    /// A short human-readable description.
    pub fn message(&self) -> (s: String)
        ensures
            s@ == "unbalanced loop"@,
    {
        match self {
            Error::UnbalancedLoop => "unbalanced loop".to_string(),
        }
    }
}

} // verus!
