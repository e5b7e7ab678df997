//! Why a set of bills cannot be settled.
use vstd::prelude::*;

verus! {

/// The reasons for which bills are refused before they are split.
#[derive(Debug, Clone, Copy, PartialEq, Eq, Structural)]
pub enum BillSplitError {
    /// A bill has a paid amount below zero.
    NegativePaidAmount,
    /// A bill names the same person twice among those it is split between.
    DuplicateSplitMembers,
}

impl BillSplitError {
    /// The message shown for this error.
    pub fn message(&self) -> (s: &'static str)
        ensures
            *self == BillSplitError::NegativePaidAmount ==> s@ == "Paid amount cannot be negative"@,
            *self == BillSplitError::DuplicateSplitMembers ==> s@ == "Duplicate split members found"@,
    {
        match self {
            BillSplitError::NegativePaidAmount => "Paid amount cannot be negative",
            BillSplitError::DuplicateSplitMembers => "Duplicate split members found",
        }
    }
}

} // verus!
