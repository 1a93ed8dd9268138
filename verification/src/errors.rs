use vstd::prelude::*;

verus! {

/// Every failure the ledger can report. All validation failures are
/// atomic: a function that returns one of these leaves its state
/// unchanged.
#[derive(Clone, Copy, Debug, PartialEq, Eq, Structural)]
pub enum Error {
    /// An address handle is the reserved null handle, or the address was
    /// never registered.
    UnknownAddress,
    /// An address was registered a second time.
    AlreadyRegistered,
    /// A registered name was claimed again.
    NameAlreadyTaken,
    /// A name was empty where a non-empty one is required.
    EmptyName,
    /// A payment list or argument list was empty.
    EmptyArgs,
    /// A balance does not hold enough of the requested asset.
    InsufficientBalance,
    /// An operation was asked to move an amount of zero.
    ZeroAmount,
    /// A delegation would push a target's total over its cap.
    CapExceeded,
    /// A cap update would fall below the amount already delegated.
    CapBelowCurrent,
    /// A revocation was requested where nothing is delegated.
    NothingDelegated,
    /// A revocation asked for more than the delegated record holds.
    OverRevoke,
    /// An asset is not on the token whitelist.
    TokenNotWhitelisted,
    /// A token id was not found on the whitelist.
    UnknownToken,
    /// A fee percentage was above the allowed maximum.
    InvalidFee,
    /// A BLS key was already registered.
    KeyAlreadyKnown,
    /// A BLS key to remove was not found.
    KeyNotFound,
    /// A delegation contract address failed the shard check.
    InvalidDelegationAddress,
    /// The directory holds no entry for this address.
    UnknownTarget,
    /// A directory entry already exists for this address.
    AlreadyWhitelisted,
    /// The directory already holds the configured maximum of entries.
    DirectoryFull,
    /// An entry's used capacity exceeds its capacity limit.
    CapacityExceeded,
    /// No directory entry can serve the requested amount.
    NoEligibleTarget,
    /// The directory holds no entries at all.
    NoDelegationContracts,
    /// Only the entry's admin may change its parameters.
    OnlyAdmin,
    /// A claim-state gate refused the operation.
    PreconditionFailed,
    /// Not enough computation budget is left to start a remote call.
    InsufficientComputeBudget,
    /// The contract is not in the active state.
    NotActive,
    /// The unbond token has not reached its unbond epoch yet.
    UnstakePeriodNotPassed,
    /// A payment amount was missing or below the required minimum.
    BadPaymentAmount,
    /// Nothing is available to withdraw.
    NothingToWithdraw,
}

} // verus!
