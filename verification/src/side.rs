//! Order sides, self-trade policies and the results of a matching pass.

use crate::errors::ProgramError;
use vstd::prelude::*;

verus! {

/// Order side. Bids sort before asks in a seat's order chain.
#[derive(Clone, Copy, Debug, PartialEq, Eq, Structural)]
pub enum Side {
    Bid,
    Ask,
}

impl Side {
    pub open spec fn spec_opposite(self) -> Side {
        match self {
            Side::Bid => Side::Ask,
            Side::Ask => Side::Bid,
        }
    }

    /// Decode the wire value: 0 is a bid, 1 is an ask.
    pub fn try_from_u8(v: u8) -> (r: Result<Self, ProgramError>)
        ensures
            r == spec_side(v),
    {
        match v {
            0 => Ok(Side::Bid),
            1 => Ok(Side::Ask),
            _ => Err(ProgramError::InvalidInstructionData),
        }
    }

    pub fn opposite(self) -> (r: Self)
        ensures
            r == self.spec_opposite(),
    {
        match self {
            Side::Bid => Side::Ask,
            Side::Ask => Side::Bid,
        }
    }
}

/// The side that a wire value stands for.
pub open spec fn spec_side(v: u8) -> Result<Side, ProgramError> {
    if v == 0 {
        Ok(Side::Bid)
    } else if v == 1 {
        Ok(Side::Ask)
    } else {
        Err(ProgramError::InvalidInstructionData)
    }
}

/// What a taker does when it meets its own resting order.
#[derive(Clone, Copy, Debug, PartialEq, Eq, Structural)]
pub enum SelfTradePolicy {
    /// Cancel the resting order (refund the maker, the taker itself) and keep matching.
    CancelResting,
    /// Abort the whole instruction.
    Abort,
}

/// Bit 1 of the taker flags asks for an abort.
pub open spec fn spec_policy(flags: u8) -> SelfTradePolicy {
    if flags & 2 != 0 {
        SelfTradePolicy::Abort
    } else {
        SelfTradePolicy::CancelResting
    }
}

impl SelfTradePolicy {
    pub fn from_flags(flags: u8) -> (r: Self)
        ensures
            r == spec_policy(flags),
    {
        if flags & 2 != 0 {
            SelfTradePolicy::Abort
        } else {
            SelfTradePolicy::CancelResting
        }
    }
}

/// Result of a matching pass.
#[derive(Clone, Copy, Debug, PartialEq, Eq, Structural)]
pub struct TakeResult {
    /// Base lots filled.
    pub lots: u32,
    /// Quote atoms traded (maker-side notional, fee excluded).
    pub quote: u64,
    /// Fee in quote atoms, accrued to the market.
    pub fee: u64,
}

impl Default for TakeResult {
    fn default() -> (r: Self)
        ensures
            r == (TakeResult { lots: 0, quote: 0, fee: 0 }),
    {
        TakeResult { lots: 0, quote: 0, fee: 0 }
    }
}

/// What a matching pass is asked to do.
#[derive(Clone, Copy)]
pub struct TakeParams {
    /// The taker's side: a bid buys base and consumes asks.
    pub side: Side,
    /// Worst acceptable price.
    pub limit_tick: u32,
    pub max_lots: u32,
    /// Quote budget including the fee; `u64::MAX` is unbounded.
    pub max_quote: u64,
    /// The taker's seat, or `NO_SEAT`.
    pub seat: u16,
    pub slot: u64,
    pub self_trade: SelfTradePolicy,
}

/// Branch-layout marker: calling it sinks the calling arm out of the hot path.
#[inline(never)]
fn cold_marker() {
}

/// `b`, with the true arm laid out as the fall-through.
pub fn likely(b: bool) -> (r: bool)
    ensures
        r == b,
{
    if !b {
        cold_marker();
    }
    b
}

/// `b`, with the true arm laid out of line.
pub fn unlikely(b: bool) -> (r: bool)
    ensures
        r == b,
{
    if b {
        cold_marker();
    }
    b
}

} // verus!
