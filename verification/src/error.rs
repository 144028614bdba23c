//! The ways in which transfer generation can go wrong.

use vstd::prelude::*;

verus! {

/// The kinds of error that the library reports.
#[derive(Clone, Copy, Debug, PartialEq, Eq, Structural)]
pub enum TransferError {
    /// A walking speed that is not positive, or a negative distance threshold.
    InvalidParameter,
    /// A reference to a stop point that the model does not hold.
    DanglingReference,
    /// Two rules that disagree about the same pair of stop points.
    OverrideConflict,
}

impl TransferError {
    /// Whether an error of this kind aborts the generation. A conflict between
    /// rules is settled by precedence and only reported.
    pub open spec fn spec_is_fatal(self) -> bool {
        !(self is OverrideConflict)
    }

    #[verifier::when_used_as_spec(spec_is_fatal)]
    pub fn is_fatal(self) -> (fatal: bool)
        ensures
            fatal == self.spec_is_fatal(),
    {
        match self {
            TransferError::InvalidParameter => true,
            TransferError::DanglingReference => true,
            TransferError::OverrideConflict => false,
        }
    }
}

} // verus!
