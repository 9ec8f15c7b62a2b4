use vstd::prelude::*;

verus! {

/// Every way an operation on the registry can fail. A failed call leaves the
/// registry as it was.
#[derive(Clone, Copy, Debug, PartialEq, Eq, Structural)]
pub enum InheritanceError {
    PlanNotFound,
    PlanAlreadyExists,
    PlanLocked,
    PlanNotExpired,
    AlreadyLocked,
    BeneficiaryLimitExceeded,
    InvalidBeneficiary,
    DuplicateBeneficiary,
    NotABeneficiary,
    AlreadyClaimed,
    NoBeneficiaries,
    NoFunds,
    NoFundsToRedeem,
    TransferFailed,
}

} // verus!
