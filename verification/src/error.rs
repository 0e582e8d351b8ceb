//! Failure taxonomy of the staking engine.

use vstd::prelude::*;

verus! {

/// Every way an engine operation can fail. A failing operation performs no
/// state change: the verified functions leave their `&mut` state untouched
/// whenever they return an error.
#[derive(Clone, Copy, Debug, PartialEq, Eq, Structural)]
pub enum ContractError {
    /// The caller is not the recognized owner for a privileged operation.
    Unauthorized,
    /// Unstake was requested for an item no cluster of the holder contains.
    NotStaked,
    /// An out-of-range discriminant, e.g. an unrecognized item kind.
    InvalidArgument,
    /// A fixed-point operation would overflow its representable range.
    ArithmeticOverflow,
}

impl ContractError {
    /// The message the surrounding environment reports for this failure.
    pub fn message(&self) -> (r: String)
        ensures
            *self is Unauthorized ==> r@ == "unauthorized"@,
            *self is NotStaked ==> r@ == "Sender must have staked tokenID"@,
            *self is InvalidArgument ==> r@ == "token_kind has only 0 or 1"@,
            *self is ArithmeticOverflow ==> r@ == "arithmetic overflow"@,
    {
        match self {
            ContractError::Unauthorized => "unauthorized".to_owned(),
            ContractError::NotStaked => "Sender must have staked tokenID".to_owned(),
            ContractError::InvalidArgument => "token_kind has only 0 or 1".to_owned(),
            ContractError::ArithmeticOverflow => "arithmetic overflow".to_owned(),
        }
    }
}

} // verus!
