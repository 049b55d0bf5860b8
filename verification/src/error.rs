//! Errors returned by the ledgers, the channel and the proxy.

use vstd::prelude::*;

verus! {

/// A failure underneath an operation: of its arithmetic, of decoding, or of
/// what keeps the state.
#[derive(Clone, Copy, Debug, PartialEq, Eq, Structural)]
pub enum StdError {
    /// A balance, a point count or a time left the range of its integer type.
    Overflow,
    /// Points were to be turned into tokens at zero points a token.
    DivideByZero,
    /// A payload could not be decoded.
    ParseErr,
    /// What was to be loaded has not been saved.
    NotFound,
    /// Anything else that failed underneath.
    GenericErr,
}

/// A failure to pay in the funds that an operation needs.
#[derive(Clone, Copy, Debug, PartialEq, Eq, Structural)]
pub enum PaymentError {
    /// The funds are not in the denomination that is asked for.
    MissingDenom,
    /// The funds hold a denomination that is not taken.
    ExtraDenom,
    /// The funds are in more than one denomination.
    MultipleDenoms,
    /// No funds came along, or an amount of zero.
    NoFunds,
    /// Funds came along where none are taken.
    NonPayable,
}

/// Why a version proposed in the channel handshake was refused.
#[derive(Clone, Copy, Debug, PartialEq, Eq, Structural)]
pub enum VersionError {
    /// The counterparty speaks another protocol.
    WrongProtocol,
    /// A version is not three numbers with dots between them.
    Malformed,
    /// The proposed version has another major number than the supported one.
    MajorMismatch,
    /// The proposed version is older than the minimum.
    TooOld,
}

/// Why an operation was refused. No refused operation changes state.
#[derive(Clone, Copy, Debug, PartialEq, Eq, Structural)]
pub enum ContractError {
    /// A value did not fit, could not be decoded or was not found.
    Std(StdError),
    /// The funds that came along do not suit.
    Payment(PaymentError),
    /// The caller is not the owner, parent or counterparty that may call.
    Unauthorized {},
    /// More was asked back than is free; holds the amount that is free.
    ClaimsLocked(u128),
    /// The collateral does not cover the lien that was asked for.
    InsufficentBalance,
    /// The lienholder holds no lien on the account.
    UnknownLeinholder,
    /// The lienholder's lien is smaller than the amount to release.
    InsufficientLein,
    /// More was to be unstaked than is staked; holds the amount staked.
    NotEnoughStake(u128),
    /// A channel is open already; there is one channel only.
    IbcChannelAlreadyOpen,
    /// The handshake asked this side to initiate; it only responds.
    IbcOpenInitDisallowed,
    /// The channel is not unordered.
    InvalidChannelOrder,
    /// The version negotiation failed.
    Version(VersionError),
}

impl ContractError {
    /// The error for a value that does not fit.
    pub open spec fn overflow() -> ContractError {
        ContractError::Std(StdError::Overflow)
    }

    /// The error for a scale of zero.
    pub open spec fn divide_by_zero() -> ContractError {
        ContractError::Std(StdError::DivideByZero)
    }
}

} // verus!
