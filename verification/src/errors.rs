//! Error codes of the program.

use vstd::prelude::*;
use vstd::std_specs::convert::FromSpecImpl;

verus! {

/// Why the book or an instruction refused a request.
#[derive(Clone, Copy, Debug, PartialEq, Eq, Structural)]
pub enum ClobError {
    /// Account expected to be mutable
    NotMutable,
    /// Account expected to be a signer
    NotSigner,
    /// Account expected to be owned by the program
    InvalidAccountOwner,
    /// The account data length is not the expected one
    InvalidAccountLength,
    /// The market version is not the expected one
    InvalidVersion,
    /// The seat index is out of range
    InvalidSeatIndex,
    /// The seat is not owned by the signer
    InvalidSeatOwner,
    /// The seat table is full
    SeatTableFull,
    /// The seat still has balances or resting orders
    SeatNotEmpty,
    /// The tick is outside the current book window
    TickOutOfWindow,
    /// The lots amount is zero or above the per-order maximum
    InvalidLots,
    /// The order pool is full
    PoolFull,
    /// The order was not found (already filled, cancelled, or reused slot)
    OrderNotFound,
    /// The order would cross the opposing side
    WouldCross,
    /// The mass quote payload is not sorted ascending by tick per side
    PayloadNotSorted,
    /// The seat has reached the maximum number of resting orders
    TooManyOrders,
    /// Slippage tolerance exceeded: output below the minimum threshold
    SlippageExceeded,
    /// The order would self trade and the policy is abort
    SelfTrade,
    /// The fee is greater than the maximum allowed
    InvalidFee,
    /// The market parameters are invalid or would overflow u64 math
    InvalidMarketParams,
    /// The seat balance is insufficient
    InsufficientBalance,
    /// The token account address is not the expected one
    InvalidTokenAddress,
    /// The program authority is not the expected one
    InvalidProgramAuthority,
    /// The instruction is not valid on this account state
    InvalidState,
    /// A delegated authority key may not be the zero address
    ZeroAuthority,
    /// A mint's owner is neither the legacy Token program nor Token-2022
    UnsupportedTokenProgram,
    /// A mint carries the Token-2022 PermanentDelegate extension
    PermanentDelegateNotAllowed,
}

impl ClobError {
    /// The wire code: the position of the variant.
    pub open spec fn spec_code(self) -> u32 {
        match self {
            ClobError::NotMutable => 0,
            ClobError::NotSigner => 1,
            ClobError::InvalidAccountOwner => 2,
            ClobError::InvalidAccountLength => 3,
            ClobError::InvalidVersion => 4,
            ClobError::InvalidSeatIndex => 5,
            ClobError::InvalidSeatOwner => 6,
            ClobError::SeatTableFull => 7,
            ClobError::SeatNotEmpty => 8,
            ClobError::TickOutOfWindow => 9,
            ClobError::InvalidLots => 10,
            ClobError::PoolFull => 11,
            ClobError::OrderNotFound => 12,
            ClobError::WouldCross => 13,
            ClobError::PayloadNotSorted => 14,
            ClobError::TooManyOrders => 15,
            ClobError::SlippageExceeded => 16,
            ClobError::SelfTrade => 17,
            ClobError::InvalidFee => 18,
            ClobError::InvalidMarketParams => 19,
            ClobError::InsufficientBalance => 20,
            ClobError::InvalidTokenAddress => 21,
            ClobError::InvalidProgramAuthority => 22,
            ClobError::InvalidState => 23,
            ClobError::ZeroAuthority => 24,
            ClobError::UnsupportedTokenProgram => 25,
            ClobError::PermanentDelegateNotAllowed => 26,
        }
    }

    /// The wire code of this error.
    pub fn code(self) -> (r: u32)
        ensures
            r == self.spec_code(),
    {
        match self {
            ClobError::NotMutable => 0,
            ClobError::NotSigner => 1,
            ClobError::InvalidAccountOwner => 2,
            ClobError::InvalidAccountLength => 3,
            ClobError::InvalidVersion => 4,
            ClobError::InvalidSeatIndex => 5,
            ClobError::InvalidSeatOwner => 6,
            ClobError::SeatTableFull => 7,
            ClobError::SeatNotEmpty => 8,
            ClobError::TickOutOfWindow => 9,
            ClobError::InvalidLots => 10,
            ClobError::PoolFull => 11,
            ClobError::OrderNotFound => 12,
            ClobError::WouldCross => 13,
            ClobError::PayloadNotSorted => 14,
            ClobError::TooManyOrders => 15,
            ClobError::SlippageExceeded => 16,
            ClobError::SelfTrade => 17,
            ClobError::InvalidFee => 18,
            ClobError::InvalidMarketParams => 19,
            ClobError::InsufficientBalance => 20,
            ClobError::InvalidTokenAddress => 21,
            ClobError::InvalidProgramAuthority => 22,
            ClobError::InvalidState => 23,
            ClobError::ZeroAuthority => 24,
            ClobError::UnsupportedTokenProgram => 25,
            ClobError::PermanentDelegateNotAllowed => 26,
        }
    }
}

/// What an instruction fails with: a runtime error or a program code.
#[derive(Clone, Copy, Debug, PartialEq, Eq, Structural)]
pub enum ProgramError {
    InvalidInstructionData,
    NotEnoughAccountKeys,
    ArithmeticOverflow,
    Custom(u32),
}

/// The error that carries the wire code of `e`.
pub open spec fn clob(e: ClobError) -> ProgramError {
    ProgramError::Custom(e.spec_code())
}

impl From<ClobError> for ProgramError {
    fn from(e: ClobError) -> (r: Self) {
        ProgramError::Custom(e.code())
    }
}

impl FromSpecImpl<ClobError> for ProgramError {
    open spec fn obeys_from_spec() -> bool {
        true
    }

    open spec fn from_spec(e: ClobError) -> Self {
        clob(e)
    }
}

/// `Err` with the wire code of `e`.
pub fn fail<T>(e: ClobError) -> (r: Result<T, ProgramError>)
    ensures
        r == Err::<T, ProgramError>(clob(e)),
{
    Err(ProgramError::from(e))
}

/// Whether `e` is the "book is corrupt, abort" sentinel.
pub fn is_invalid_state(e: &ProgramError) -> (r: bool)
    ensures
        r == (*e == clob(ClobError::InvalidState)),
{
    match *e {
        ProgramError::Custom(c) => c == ClobError::InvalidState.code(),
        _ => false,
    }
}

} // verus!
