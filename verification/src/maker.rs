//! Maker instructions: quoting, placing and cancelling.

use crate::book::BookRefMut;
use crate::codec::{le16, le32, le64, read16, read32, read64};
use crate::constants::{MAX_ORDERS_PER_SEAT, NIL};
use crate::errors::{clob, fail, ClobError, ProgramError};
use crate::flow::{lemma_paid_flow, lemma_start, lemma_take_monotone, lemma_total_covers};
use crate::model::{key, lemma_market_ok, market_ok, BookView, Order};
use crate::quote::{quotes_in, Quote};
use crate::seat::no_owner;
use crate::side::{spec_policy, spec_side, SelfTradePolicy, Side, TakeParams, TakeResult};
use crate::taker::{lemma_taken_header, lemma_tally_fits};
use vstd::prelude::*;
use vstd::slice::slice_subrange;

verus! {

/// Remove a single resting order and release its locked funds.
#[derive(Clone, Copy, Debug, PartialEq, Eq, Structural)]
pub struct Cancel {
    pub seat_index: u16,
    /// Index into the order pool.
    pub node_index: u16,
    /// The order id that the node must carry.
    pub order_seq: u64,
}

/// The cancel that a payload encodes.
pub open spec fn cancel_of(data: Seq<u8>) -> Result<Cancel, ProgramError> {
    if data.len() != 12 {
        Err(ProgramError::InvalidInstructionData)
    } else {
        Ok(
            Cancel {
                seat_index: le16(data, 0),
                node_index: le16(data, 2),
                order_seq: le64(data, 4),
            },
        )
    }
}

impl Cancel {
    pub const DISCRIMINATOR: u8 = 22;

    pub fn try_from(data: &[u8]) -> (r: Result<Cancel, ProgramError>)
        ensures
            r == cancel_of(data@),
    {
        if data.len() != 12 {
            return Err(ProgramError::InvalidInstructionData);
        }
        Ok(
            Cancel {
                seat_index: read16(data, 0),
                node_index: read16(data, 2),
                order_seq: read64(data, 4),
            },
        )
    }

    /// What this instruction does.
    pub open spec fn outcome(self, v: BookView, owner: Seq<u8>) -> (
        BookView,
        Result<(), ProgramError>,
    ) {
        match v.seat_check(self.seat_index, owner) {
            Err(e) => (v, Err(e)),
            Ok(_) => {
                let (w, r) = v.cancel(self.seat_index, self.node_index, self.order_seq);
                match r {
                    Err(e) => (w, Err(e)),
                    Ok(_) => (w.bumped(), Ok(())),
                }
            },
        }
    }

    /// Run the instruction. The owner's signature was checked; that the seat
    /// is theirs is checked here.
    pub fn process(&self, book: &mut BookRefMut, owner: &[u8; 32]) -> (r: Result<(), ProgramError>)
        requires
            old(book).wf(),
        ensures
            final(book).wf(),
            (final(book)@, r) == self.outcome(old(book)@, owner@),
    {
        book.check_seat(self.seat_index, owner)?;
        book.cancel_order(self.seat_index, self.node_index, self.order_seq)?;
        book.bump();
        Ok(())
    }
}

/// Replace the seat's entire quote set in one instruction. All quotes share
/// one expiry.
#[derive(Clone, Copy)]
pub struct MassQuote<'a> {
    pub seat_index: u16,
    /// Absolute slot; 0 never expires.
    pub expiry_slot: u32,
    pub bid_count: usize,
    pub ask_count: usize,
    pub bids: &'a [u8],
    pub asks: &'a [u8],
}

/// A payload is a seat, an expiry and two arrays of quotes, each behind its
/// count; nothing may follow.
pub open spec fn mass_quote_ok(data: Seq<u8>) -> bool {
    &&& data.len() >= 8
    &&& data.len() >= 8 + data[6] * 9
    &&& data.len() == 8 + data[6] * 9 + data[7 + data[6] * 9] * 9
}

impl<'a> MassQuote<'a> {
    pub const DISCRIMINATOR: u8 = 20;

    pub open spec fn bid_quotes(self) -> Seq<Quote> {
        quotes_in(self.bids@, self.bid_count as int)
    }

    pub open spec fn ask_quotes(self) -> Seq<Quote> {
        quotes_in(self.asks@, self.ask_count as int)
    }

    /// The payload holds what its counts say.
    pub open spec fn sized(self) -> bool {
        self.bid_count * 9 == self.bids@.len() && self.ask_count * 9 == self.asks@.len()
    }

    pub fn try_from(data: &'a [u8]) -> (r: Result<MassQuote<'a>, ProgramError>)
        ensures
            match r {
                Err(e) => !mass_quote_ok(data@) && e == ProgramError::InvalidInstructionData,
                Ok(m) => {
                    &&& mass_quote_ok(data@)
                    &&& m.sized()
                    &&& m.seat_index == le16(data@, 0)
                    &&& m.expiry_slot == le32(data@, 2)
                    &&& m.bid_count == data@[6]
                    &&& m.ask_count == data@[7 + data@[6] * 9]
                    &&& m.bids@ == data@.subrange(7, 7 + data@[6] * 9)
                    &&& m.asks@ == data@.subrange(8 + data@[6] * 9, data@.len() as int)
                },
            },
    {
        let len: usize = data.len();
        if len < 8 {
            return Err(ProgramError::InvalidInstructionData);
        }
        let seat_index: u16 = read16(data, 0);
        let expiry_slot: u32 = read32(data, 2);
        let bid_count: usize = data[6] as usize;
        let asks_len_at: usize = 7 + bid_count * 9;
        if len < asks_len_at + 1 {
            return Err(ProgramError::InvalidInstructionData);
        }
        let ask_count: usize = data[asks_len_at] as usize;
        let asks_start: usize = asks_len_at + 1;
        if len != asks_start + ask_count * 9 {
            return Err(ProgramError::InvalidInstructionData);
        }
        Ok(
            MassQuote {
                seat_index,
                expiry_slot,
                bid_count,
                ask_count,
                bids: slice_subrange(data, 7, asks_len_at),
                asks: slice_subrange(data, asks_start, len),
            },
        )
    }

    /// What this instruction does: the bids are merged, then the asks.
    pub open spec fn outcome(self, v: BookView, owner: Seq<u8>) -> (
        BookView,
        Result<(), ProgramError>,
    ) {
        requoted(
            v,
            self.seat_index,
            owner,
            self.bid_quotes(),
            self.ask_quotes(),
            self.expiry_slot,
        )
    }

    /// Run the instruction. The owner signed it, which the zero address cannot;
    /// what the seat holds came out of a mint, so it fits in 64 bits.
    pub fn process(&self, book: &mut BookRefMut, owner: &[u8; 32]) -> (r: Result<(), ProgramError>)
        requires
            old(book).wf(),
            self.sized(),
            !no_owner(owner@),
            self.seat_index < 128 ==> old(book)@.seats[self.seat_index as int].within_supply(),
        ensures
            final(book).wf(),
            (final(book)@, r) == self.outcome(old(book)@, owner@),
    {
        let ghost v = book@;
        book.check_seat(self.seat_index, owner)?;
        if self.bid_count > MAX_ORDERS_PER_SEAT as usize || self.ask_count
            > MAX_ORDERS_PER_SEAT as usize - self.bid_count {
            return fail(ClobError::TooManyOrders);
        }
        let ghost s = self.seat_index as int;
        proof {
            assert(book.chain(s));
            assert(v.chain_ok(s));
            lemma_first_rank(v, s);
        }
        let head: u16 = book.seats[self.seat_index as usize].orders_head();
        let cursor: (u16, u16) = match book.mass_quote_side(
            self.seat_index,
            Side::Bid,
            self.bids,
            self.bid_count,
            self.expiry_slot,
            (NIL, head),
        ) {
            Ok(c) => c,
            Err(e) => {
                return Err(e);
            },
        };
        match book.mass_quote_side(
            self.seat_index,
            Side::Ask,
            self.asks,
            self.ask_count,
            self.expiry_slot,
            cursor,
        ) {
            Ok(_) => {},
            Err(e) => {
                return Err(e);
            },
        }
        book.bump();
        Ok(())
    }
}

/// A seat's whole quote set is replaced.
pub open spec fn requoted(
    v: BookView,
    seat: u16,
    owner: Seq<u8>,
    bids: Seq<Quote>,
    asks: Seq<Quote>,
    expiry_slot: u32,
) -> (BookView, Result<(), ProgramError>) {
    match v.seat_check(seat, owner) {
        Err(e) => (v, Err(e)),
        Ok(_) => if bids.len() + asks.len() > MAX_ORDERS_PER_SEAT {
            (v, Err(clob(ClobError::TooManyOrders)))
        } else {
            let (w, r) = v.merged(seat, Side::Bid, bids, expiry_slot);
            match r {
                Err(e) => (w, Err(e)),
                Ok(_) => {
                    let (x, r2) = w.merged(seat, Side::Ask, asks, expiry_slot);
                    match r2 {
                        Err(e) => (x, Err(e)),
                        Ok(_) => (x.bumped(), Ok(())),
                    }
                },
            }
        },
    }
}

/// Nothing sorts before the first bid.
pub proof fn lemma_first_rank(v: BookView, s: int)
    ensures
        v.rank(s, key(Side::Bid, 0)) == 0,
{
}

/// Add or amend a single quote. Without the post-only flag it matches against
/// the opposing side up to the limit tick first and rests the remainder.
#[derive(Clone, Copy, Debug, PartialEq, Eq, Structural)]
pub struct PlaceLimit {
    pub seat_index: u16,
    pub side: Side,
    pub tick: u32,
    pub lots: u32,
    /// For the resting portion; 0 never expires.
    pub expiry_slot: u32,
    /// Bit 0: post only. Bit 1: reject on cross when post only, abort on self
    /// trade when crossing.
    pub flags: u8,
}

/// The order that a payload encodes.
pub open spec fn place_limit_of(data: Seq<u8>) -> Result<PlaceLimit, ProgramError> {
    if data.len() != 16 {
        Err(ProgramError::InvalidInstructionData)
    } else {
        match spec_side(data[2]) {
            Err(e) => Err(e),
            Ok(side) => Ok(
                PlaceLimit {
                    seat_index: le16(data, 0),
                    side,
                    tick: le32(data, 3),
                    lots: le32(data, 7),
                    expiry_slot: le32(data, 11),
                    flags: data[15],
                },
            ),
        }
    }
}

impl PlaceLimit {
    pub const DISCRIMINATOR: u8 = 21;

    pub fn try_from(data: &[u8]) -> (r: Result<PlaceLimit, ProgramError>)
        ensures
            r == place_limit_of(data@),
    {
        if data.len() != 16 {
            return Err(ProgramError::InvalidInstructionData);
        }
        let side: Side = Side::try_from_u8(data[2])?;
        Ok(
            PlaceLimit {
                seat_index: read16(data, 0),
                side,
                tick: read32(data, 3),
                lots: read32(data, 7),
                expiry_slot: read32(data, 11),
                flags: data[15],
            },
        )
    }

    pub open spec fn spec_post_only(self) -> bool {
        self.flags & 1 != 0
    }

    pub open spec fn spec_reject_on_cross(self) -> bool {
        self.flags & 2 != 0
    }

    pub fn post_only(&self) -> (r: bool)
        ensures
            r == self.spec_post_only(),
    {
        self.flags & 1 != 0
    }

    pub fn reject_on_cross(&self) -> (r: bool)
        ensures
            r == self.spec_reject_on_cross(),
    {
        self.flags & 2 != 0
    }

    /// The resting order of `lots` that this instruction asks for.
    pub open spec fn order(self, lots: u32) -> Order {
        Order {
            side: self.side,
            tick: self.tick,
            maker: self.seat_index,
            lots,
            expiry_slot: self.expiry_slot,
            seq: 0,
        }
    }

    /// The matching pass that comes first when the order may cross.
    pub open spec fn pass(self, slot: u64) -> TakeParams {
        TakeParams {
            side: self.side,
            limit_tick: self.tick,
            max_lots: self.lots,
            max_quote: u64::MAX,
            seat: self.seat_index,
            slot,
            self_trade: spec_policy(self.flags),
        }
    }

    /// What this instruction does. No lots: cancel the quote at the tick. Post
    /// only: add or amend it. Otherwise: match, settle, rest the remainder.
    pub open spec fn outcome(self, v: BookView, owner: Seq<u8>, slot: u64) -> (
        BookView,
        Result<(), ProgramError>,
    ) {
        match v.seat_check(self.seat_index, owner) {
            Err(e) => (v, Err(e)),
            Ok(_) => if self.lots == 0 {
                counted(v.upsert(self.order(0), false))
            } else if self.spec_post_only() {
                counted(v.upsert(self.order(self.lots), !self.spec_reject_on_cross()))
            } else {
                let (w, r) = v.taken(self.pass(slot));
                match r {
                    Err(e) => (w, Err(e)),
                    Ok(res) => {
                        let paid = if res.lots > 0 {
                            w.paid(self.seat_index as int, self.side, res)
                        } else {
                            Some(w)
                        };
                        let rest = (self.lots - res.lots) as u32;
                        match paid {
                            None => (w, Err(clob(ClobError::InsufficientBalance))),
                            Some(x) => if rest > 0 {
                                counted(x.upsert(self.order(rest), false))
                            } else {
                                (x.bumped(), Ok(()))
                            },
                        }
                    },
                }
            },
        }
    }

    /// Run the instruction at `slot`. The owner signed it, which the zero
    /// address cannot; what the market holds came out of mints, so it fits in
    /// 64 bits.
    #[verifier::rlimit(40)]
    pub fn process(&self, book: &mut BookRefMut, owner: &[u8; 32], slot: u64) -> (r: Result<
        (),
        ProgramError,
    >)
        requires
            old(book).wf(),
            market_ok(old(book).header),
            old(book)@.solvent(),
            !no_owner(owner@),
        ensures
            final(book).wf(),
            (final(book)@, r) == self.outcome(old(book)@, owner@, slot),
    {
        let ghost v = book@;
        book.check_seat(self.seat_index, owner)?;
        let ghost s = self.seat_index as int;
        proof {
            lemma_seat_in_supply(v, s);
            lemma_market_ok(book.header);
        }
        // A zero-size quote cancels the maker's quote at this side and tick.
        if self.lots == 0 {
            book.upsert_order(self.side, self.tick, 0, self.seat_index, self.expiry_slot, false)?;
            book.bump();
            return Ok(());
        }
        if self.post_only() {
            book.upsert_order(
                self.side,
                self.tick,
                self.lots,
                self.seat_index,
                self.expiry_slot,
                !self.reject_on_cross(),
            )?;
            book.bump();
            return Ok(());
        }
        let ghost p = self.pass(slot);
        let res: TakeResult = match book.take(
            TakeParams {
                side: self.side,
                limit_tick: self.tick,
                max_lots: self.lots,
                max_quote: u64::MAX,
                seat: self.seat_index,
                slot,
                self_trade: SelfTradePolicy::from_flags(self.flags),
            },
        ) {
            Ok(r) => r,
            Err(e) => {
                return Err(e);
            },
        };
        proof {
            lemma_taken_supply(v, p);
            lemma_taken_header(v, p);
            lemma_tally_fits(v.header, p, res, (p.max_lots - res.lots) as u32);
        }
        if res.lots > 0 {
            if !book.settle_taker(self.seat_index, self.side, &res) {
                return fail(ClobError::InsufficientBalance);
            }
            proof {
                lemma_paid_flow(v, p);
            }
        }
        // The pass consumed everything within the limit: the remainder cannot
        // cross.
        let remainder: u32 = self.lots - res.lots;
        if remainder > 0 {
            book.upsert_order(
                self.side,
                self.tick,
                remainder,
                self.seat_index,
                self.expiry_slot,
                false,
            )?;
        }
        book.bump();
        Ok(())
    }
}

/// A successful book operation counts as one instruction.
pub open spec fn counted(x: (BookView, Result<u16, ProgramError>)) -> (
    BookView,
    Result<(), ProgramError>,
) {
    match x.1 {
        Err(e) => (x.0, Err(e)),
        Ok(_) => (x.0.bumped(), Ok(())),
    }
}

/// In a solvent book every seat is within supply.
pub proof fn lemma_seat_in_supply(v: BookView, s: int)
    requires
        v.solvent(),
        v.seats.len() == 128,
        0 <= s < 128,
    ensures
        v.seats[s].within_supply(),
{
    lemma_total_covers(v.seats, s, s, true);
    lemma_total_covers(v.seats, s, s, false);
}

/// A pass leaves the taker's seat within supply and to its owner.
pub proof fn lemma_taken_supply(v: BookView, p: TakeParams)
    requires
        v.ok(),
        crate::model::fees_ok(v.header),
        p.seat < 128,
        v.seats[p.seat as int].within_supply(),
        v.taken(p).1 is Ok,
    ensures
        ({
            let w = v.taken(p).0;
            &&& w.seats[p.seat as int].within_supply()
            &&& forall|s: int|
                0 <= s < 128 ==> (#[trigger] w.seats[s]).owner == v.seats[s].owner
        }),
{
    let res = TakeResult { lots: 0, quote: 0, fee: 0 };
    lemma_start(v.header, p);
    lemma_take_monotone(v, p, res, p.max_lots);
    crate::flow::lemma_keeps_held(v, p, res, p.max_lots);
    let w = v.taken(p).0;
    assert(crate::model::held(w.seats[p.seat as int], true) == w.seats[p.seat as int].base_held());
    assert(crate::model::held(w.seats[p.seat as int], false)
        == w.seats[p.seat as int].quote_held());
}

} // verus!
