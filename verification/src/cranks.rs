//! Book hygiene instructions: moving the window and removing expired orders.

use crate::book::BookRefMut;
use crate::codec::{le32, read32};
use crate::errors::ProgramError;
use crate::model::{lemma_market_ok, market_ok, BookView};
use crate::side::{spec_side, Side};
use vstd::prelude::*;

verus! {

/// Move the price window towards a target anchor.
#[derive(Clone, Copy, Debug, PartialEq, Eq, Structural)]
pub struct Reanchor {
    pub target_anchor: u32,
    /// Occupied levels that may be evicted.
    pub max_levels: u32,
}

/// The move that a payload encodes.
pub open spec fn reanchor_of(data: Seq<u8>) -> Result<Reanchor, ProgramError> {
    if data.len() != 8 {
        Err(ProgramError::InvalidInstructionData)
    } else {
        Ok(Reanchor { target_anchor: le32(data, 0), max_levels: le32(data, 4) })
    }
}

impl Reanchor {
    pub const DISCRIMINATOR: u8 = 40;

    pub fn try_from(data: &[u8]) -> (r: Result<Reanchor, ProgramError>)
        ensures
            r == reanchor_of(data@),
    {
        if data.len() != 8 {
            return Err(ProgramError::InvalidInstructionData);
        }
        Ok(Reanchor { target_anchor: read32(data, 0), max_levels: read32(data, 4) })
    }

    /// What this instruction does.
    pub open spec fn outcome(self, v: BookView) -> (BookView, (u32, u32)) {
        let (w, n, at) = v.reanchored(self.target_anchor, self.max_levels);
        (w.bumped(), (n as u32, at as u32))
    }

    /// Run the instruction. Returns the number of levels evicted and the new
    /// anchor.
    pub fn process(&self, book: &mut BookRefMut) -> (r: Result<(u32, u32), ProgramError>)
        requires
            old(book).wf(),
            market_ok(old(book).header),
        ensures
            final(book).wf(),
            r is Ok,
            (final(book)@, r->Ok_0) == self.outcome(old(book)@),
            old(book)@.reanchored(self.target_anchor, self.max_levels).1 == r->Ok_0.0,
            old(book)@.reanchored(self.target_anchor, self.max_levels).2 == r->Ok_0.1,
    {
        proof {
            lemma_market_ok(book.header);
        }
        let x: (u32, u32) = match book.reanchor_step(self.target_anchor, self.max_levels) {
            Ok(x) => x,
            Err(e) => {
                return Err(e);
            },
        };
        book.bump();
        Ok(x)
    }
}

/// Remove expired orders of one side, from a tick on.
#[derive(Clone, Copy, Debug, PartialEq, Eq, Structural)]
pub struct ReapExpired {
    pub side: Side,
    pub start_tick: u32,
    /// Orders that may be removed.
    pub max_count: u32,
}

/// The request that a payload encodes.
pub open spec fn reap_of(data: Seq<u8>) -> Result<ReapExpired, ProgramError> {
    if data.len() != 9 {
        Err(ProgramError::InvalidInstructionData)
    } else {
        match spec_side(data[0]) {
            Err(e) => Err(e),
            Ok(side) => Ok(
                ReapExpired { side, start_tick: le32(data, 1), max_count: le32(data, 5) },
            ),
        }
    }
}

impl ReapExpired {
    pub const DISCRIMINATOR: u8 = 41;

    pub fn try_from(data: &[u8]) -> (r: Result<ReapExpired, ProgramError>)
        ensures
            r == reap_of(data@),
    {
        if data.len() != 9 {
            return Err(ProgramError::InvalidInstructionData);
        }
        let side: Side = Side::try_from_u8(data[0])?;
        Ok(ReapExpired { side, start_tick: read32(data, 1), max_count: read32(data, 5) })
    }

    /// What this instruction does. Returns the number of orders removed.
    pub open spec fn outcome(self, v: BookView, slot: u64) -> (BookView, u32) {
        let (w, n) = v.reaped(self.side, self.start_tick, self.max_count, slot);
        (w.bumped(), n as u32)
    }

    /// Run the instruction at `slot`.
    pub fn process(&self, book: &mut BookRefMut, slot: u64) -> (r: Result<u32, ProgramError>)
        requires
            old(book).wf(),
        ensures
            final(book).wf(),
            r is Ok,
            (final(book)@, r->Ok_0) == self.outcome(old(book)@, slot),
            old(book)@.reaped(self.side, self.start_tick, self.max_count, slot).1 == r->Ok_0,
    {
        let n: u32 = match book.reap_expired(self.side, self.start_tick, self.max_count, slot) {
            Ok(n) => n,
            Err(e) => {
                return Err(e);
            },
        };
        book.bump();
        Ok(n)
    }
}

} // verus!
