use vstd::prelude::*;

verus! {

/// Every way an entry point of the ledger can refuse a request.
#[derive(Copy, Clone, Debug, PartialEq, Eq, Structural)]
pub enum Error {
    ProjectNotFound,
    NotOwner,
    TooManyRules,
    RulesTotalExceedsMax,
    SelfReference,
    InvalidPercentage,
    NothingToDistribute,
    NicknameAlreadyTaken,
    InvalidAmount,
    ProjectAlreadyExists,
    RulesNotSet,
    RecipientNotRegistered,
    /// A running total would leave the range of a signed 128-bit amount.
    Overflow,
}

} // verus!
