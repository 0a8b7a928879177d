//! Why a selection could not be made.
use vstd::prelude::*;

verus! {

/// The target amount cannot be met.
#[derive(Clone, Debug, Copy, PartialEq, Eq, Structural)]
pub struct InsufficientFunds {
    /// The missing amount in satoshis.
    pub missing: u64,
}

/// Why selecting candidates in order failed.
#[derive(Clone, Debug, Copy, PartialEq, Eq, Structural)]
pub enum SelectError {
    /// The candidates cannot cover the target value.
    InsufficientFunds(InsufficientFunds),
    /// The target value is met, but the selection is heavier than the target allows.
    MaxWeightExceeded,
}

impl vstd::std_specs::convert::FromSpecImpl<InsufficientFunds> for SelectError {
    open spec fn obeys_from_spec() -> bool {
        true
    }

    open spec fn from_spec(e: InsufficientFunds) -> SelectError {
        SelectError::InsufficientFunds(e)
    }
}

impl From<InsufficientFunds> for SelectError {
    fn from(e: InsufficientFunds) -> (r: SelectError) {
        SelectError::InsufficientFunds(e)
    }
}

/// Why branch and bound yielded no solution.
#[derive(Debug, Clone, Copy, PartialEq, Eq, Structural)]
pub enum NoBnbSolution {
    /// The candidates cannot cover the target value, so no selection is possible.
    ///
    /// With unconfirmed ancestors this is decided by a heuristic, so it may be reported where
    /// `MaxWeightExceeded` fits better, and the other way round. Either way the search was
    /// exhaustive.
    InsufficientFunds,
    /// Some selection covers the target value, but none is valid: with a metric that enforces the
    /// weight limit, all are too heavy.
    MaxWeightExceeded,
    /// The round limit was reached before the search finished. A solution may exist that a larger
    /// limit finds.
    RoundLimit {
        /// The limit that the caller set.
        max_rounds: usize,
        /// The number of rounds performed.
        rounds: usize,
    },
}

} // verus!
