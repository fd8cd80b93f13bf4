//! Taker instructions: from a seat, and without one.

use crate::book::BookRefMut;
use crate::codec::{le16, le32, le64, read16, read32, read64};
use crate::constants::NO_SEAT;
use crate::errors::{clob, fail, ClobError, ProgramError};
use crate::market::{wrapping, Market};
use crate::matching::tally_ok;
use crate::model::{fees_ok, lemma_market_ok, market_ok, BookView};
use crate::seat::Seat;
use crate::side::{spec_policy, spec_side, SelfTradePolicy, Side, TakeParams, TakeResult};
use vstd::prelude::*;

verus! {

/// What a finished pass costs and yields fits.
pub proof fn lemma_tally_fits(h: Market, p: TakeParams, res: TakeResult, left: u32)
    requires
        fees_ok(h),
        tally_ok(h, p, res, left),
        h.max_lots_per_order * h.base_lot_size <= u64::MAX,
    ensures
        res.quote + res.fee <= u64::MAX,
        h.fee_bps <= 10_000 ==> res.fee <= res.quote,
        res.lots * h.base_lot_size <= u64::MAX,
{
    let c = (h.anchor_tick + 8191) * h.tick_size;
    let m = h.max_lots_per_order as int;
    let f = h.fee_bps as int;
    let q = res.quote as int;
    let e = res.fee as int;
    assert(c >= 0) by (nonlinear_arith)
        requires
            c == (h.anchor_tick + 8191) * h.tick_size,
    ;
    assert(q <= c * m) by (nonlinear_arith)
        requires
            q <= c * res.lots,
            res.lots <= m,
            c >= 0,
    ;
    let x = c * m;
    assert((q + e) * 10_000 <= x * (10_000 + f)) by (nonlinear_arith)
        requires
            e * 10_000 <= q * f,
            0 <= q <= x,
            f >= 0,
    ;
    assert(x * (10_000 + f) <= u64::MAX);
    if f <= 10_000 {
        assert(e <= q) by (nonlinear_arith)
            requires
                e * 10_000 <= q * f,
                f <= 10_000,
                q >= 0,
        ;
    }
    assert(res.lots * h.base_lot_size <= m * h.base_lot_size) by (nonlinear_arith)
        requires
            res.lots <= m,
            h.base_lot_size >= 0,
    ;
}

/// The free balances of a taker that has settled a pass, if it can.
fn free_after(seat: &Seat, side: Side, res: &TakeResult, base_atoms: u64) -> (r: Option<(u64, u64)>)
    requires
        res.quote + res.fee <= u64::MAX,
        res.fee <= res.quote,
    ensures
        r == (match side {
            Side::Bid => if seat.quote_free < res.quote + res.fee {
                None
            } else {
                Some(
                    (
                        wrapping(seat.base_free + base_atoms),
                        (seat.quote_free - res.quote - res.fee) as u64,
                    ),
                )
            },
            Side::Ask => if seat.base_free < base_atoms {
                None
            } else {
                Some(
                    (
                        (seat.base_free - base_atoms) as u64,
                        wrapping(seat.quote_free + res.quote - res.fee),
                    ),
                )
            },
        }),
{
    let base_free: u64 = seat.base_free();
    let quote_free: u64 = seat.quote_free();
    match side {
        Side::Bid => {
            let cost: u64 = res.quote + res.fee;
            if quote_free < cost {
                return None;
            }
            Some((base_free.wrapping_add(base_atoms), quote_free - cost))
        },
        Side::Ask => {
            if base_free < base_atoms {
                return None;
            }
            Some((base_free - base_atoms, quote_free.wrapping_add(res.quote - res.fee)))
        },
    }
}

impl BookRefMut {
    /// Set a seat's free balances.
    pub(crate) fn set_free(&mut self, seat: u16, base_free: u64, quote_free: u64)
        requires
            old(self).wf(),
            seat < 128,
        ensures
            final(self).wf(),
            final(self)@ == old(self)@.with_seat(
                seat as int,
                (Seat { base_free, quote_free, ..old(self)@.seats[seat as int] }),
            ),
            final(self).header == old(self).header,
    {
        self.seats[seat as usize].set_base_free(base_free);
        self.seats[seat as usize].set_quote_free(quote_free);
        proof {
            let s = seat as int;
            assert(self.seats@ =~= old(self).seats@.update(
                s,
                Seat { base_free, quote_free, ..old(self).seats@[s] },
            ));
            self.lemma_free_changed(*old(self), s);
        }
    }

    /// Settle the taker leg of a pass on the seat's free balances. Gives
    /// `false`, with nothing changed, when the seat cannot pay.
    pub(crate) fn settle_taker(&mut self, seat: u16, side: Side, res: &TakeResult) -> (r: bool)
        requires
            old(self).wf(),
            seat < 128,
            res.quote + res.fee <= u64::MAX,
            res.fee <= res.quote,
            res.lots * old(self).header.base_lot_size <= u64::MAX,
        ensures
            final(self).wf(),
            r == (old(self)@.paid(seat as int, side, *res) is Some),
            final(self)@ == (if r {
                old(self)@.paid(seat as int, side, *res)->0
            } else {
                old(self)@
            }),
    {
        let base_atoms: u64 = self.header.base_atoms(res.lots);
        match free_after(&self.seats[seat as usize], side, res, base_atoms) {
            None => false,
            Some((base_free, quote_free)) => {
                self.set_free(seat, base_free, quote_free);
                true
            },
        }
    }
}

/// Immediate-or-cancel taker order settled on the seat's balances.
#[derive(Clone, Copy, Debug, PartialEq, Eq, Structural)]
pub struct PlaceTake {
    pub seat_index: u16,
    pub side: Side,
    /// Worst acceptable price.
    pub limit_tick: u32,
    pub max_lots: u32,
    /// Buy: base atoms out. Sell: quote atoms out, after the fee.
    pub min_out: u64,
    /// Bit 1: abort on self trade.
    pub flags: u8,
}

/// The order that a payload encodes.
pub open spec fn place_take_of(data: Seq<u8>) -> Result<PlaceTake, ProgramError> {
    if data.len() != 20 {
        Err(ProgramError::InvalidInstructionData)
    } else {
        match spec_side(data[2]) {
            Err(e) => Err(e),
            Ok(side) => Ok(
                PlaceTake {
                    seat_index: le16(data, 0),
                    side,
                    limit_tick: le32(data, 3),
                    max_lots: le32(data, 7),
                    min_out: le64(data, 11),
                    flags: data[19],
                },
            ),
        }
    }
}

/// What a taker gets out of a pass: base for a buy, quote less the fee for a
/// sale.
pub open spec fn proceeds(h: Market, side: Side, res: TakeResult) -> int {
    match side {
        Side::Bid => res.lots * h.base_lot_size,
        Side::Ask => res.quote - res.fee,
    }
}

impl PlaceTake {
    pub const DISCRIMINATOR: u8 = 30;

    pub fn try_from(data: &[u8]) -> (r: Result<PlaceTake, ProgramError>)
        ensures
            r == place_take_of(data@),
    {
        if data.len() != 20 {
            return Err(ProgramError::InvalidInstructionData);
        }
        let side: Side = Side::try_from_u8(data[2])?;
        Ok(
            PlaceTake {
                seat_index: read16(data, 0),
                side,
                limit_tick: read32(data, 3),
                max_lots: read32(data, 7),
                min_out: read64(data, 11),
                flags: data[19],
            },
        )
    }

    pub open spec fn pass(self, slot: u64) -> TakeParams {
        TakeParams {
            side: self.side,
            limit_tick: self.limit_tick,
            max_lots: self.max_lots,
            max_quote: u64::MAX,
            seat: self.seat_index,
            slot,
            self_trade: spec_policy(self.flags),
        }
    }

    /// What this instruction does: match, check the minimum, settle.
    pub open spec fn outcome(self, v: BookView, owner: Seq<u8>, slot: u64) -> (
        BookView,
        Result<(), ProgramError>,
    ) {
        match v.seat_check(self.seat_index, owner) {
            Err(e) => (v, Err(e)),
            Ok(_) => {
                let (w, r) = v.taken(self.pass(slot));
                match r {
                    Err(e) => (w, Err(e)),
                    Ok(res) => if proceeds(v.header, self.side, res) < self.min_out {
                        (w, Err(clob(ClobError::SlippageExceeded)))
                    } else {
                        match w.paid(self.seat_index as int, self.side, res) {
                            None => (w, Err(clob(ClobError::InsufficientBalance))),
                            Some(x) => (x.bumped(), Ok(())),
                        }
                    },
                }
            },
        }
    }

    /// Run the instruction at `slot`.
    pub fn process(&self, book: &mut BookRefMut, owner: &[u8; 32], slot: u64) -> (r: Result<
        (),
        ProgramError,
    >)
        requires
            old(book).wf(),
            market_ok(old(book).header),
        ensures
            final(book).wf(),
            (final(book)@, r) == self.outcome(old(book)@, owner@, slot),
    {
        let ghost v = book@;
        book.check_seat(self.seat_index, owner)?;
        proof {
            lemma_market_ok(book.header);
        }
        let ghost p = self.pass(slot);
        let res: TakeResult = match book.take(
            TakeParams {
                side: self.side,
                limit_tick: self.limit_tick,
                max_lots: self.max_lots,
                max_quote: u64::MAX,
                seat: self.seat_index,
                slot,
                self_trade: SelfTradePolicy::from_flags(self.flags),
            },
        ) {
            Ok(r) => r,
            Err(e) => {
                return Err(e);
            },
        };
        proof {
            lemma_taken_header(v, p);
            lemma_tally_fits(v.header, p, res, (p.max_lots - res.lots) as u32);
        }
        let out: u64 = match self.side {
            Side::Bid => book.header.base_atoms(res.lots),
            Side::Ask => res.quote - res.fee,
        };
        if out < self.min_out {
            return fail(ClobError::SlippageExceeded);
        }
        if !book.settle_taker(self.seat_index, self.side, &res) {
            return fail(ClobError::InsufficientBalance);
        }
        book.bump();
        Ok(())
    }
}

/// A pass changes the header by the fee alone.
pub proof fn lemma_taken_header(v: BookView, p: TakeParams)
    requires
        v.ok(),
        fees_ok(v.header),
        v.taken(p).1 is Ok,
    ensures
        v.taken(p).0.header == v.with_fees(v.taken(p).1->Ok_0.fee).header,
{
    crate::flow::lemma_start(v.header, p);
    crate::flow::lemma_take_monotone(
        v,
        p,
        TakeResult { lots: 0, quote: 0, fee: 0 },
        p.max_lots,
    );
}

/// Seatless exact-in taker. The input is pulled into the vault first; what
/// arrived is matched, what the match leaves over is refunded, and the output
/// is pushed.
#[derive(Clone, Copy, Debug, PartialEq, Eq, Structural)]
pub struct Swap {
    /// A bid pays quote for base, an ask pays base for quote.
    pub side: Side,
    pub amount_in: u64,
    pub limit_tick: u32,
    /// Output atoms, after the fee.
    pub min_out: u64,
}

/// The swap that a payload encodes.
pub open spec fn swap_of(data: Seq<u8>) -> Result<Swap, ProgramError> {
    if data.len() != 21 {
        Err(ProgramError::InvalidInstructionData)
    } else {
        match spec_side(data[0]) {
            Err(e) => Err(e),
            Ok(side) => Ok(
                Swap {
                    side,
                    amount_in: le64(data, 1),
                    limit_tick: le32(data, 9),
                    min_out: le64(data, 13),
                },
            ),
        }
    }
}

/// What a swap pays out: the unmatched input and the output.
#[derive(Clone, Copy, Debug, PartialEq, Eq, Structural)]
pub struct SwapOutcome {
    /// Input atoms that were not used.
    pub refund: u64,
    /// Output atoms.
    pub out: u64,
}

/// A token transfer: accounts by their position in the instruction.
#[derive(Clone, Copy, Debug, PartialEq, Eq, Structural)]
pub struct TransferPlan {
    pub token_program: usize,
    pub from: usize,
    pub mint: usize,
    pub to: usize,
    pub authority: usize,
    pub amount: u64,
    pub decimals: u8,
    /// Signed by the vault authority rather than by the user.
    pub signed: bool,
}

/// Moving `amount` of one asset between the user's account and the vault, in
/// an instruction that lists user, market, the user's base and quote accounts,
/// base and quote vault, vault authority, base and quote mint, base and quote
/// token program.
pub open spec fn vault_transfer(h: Market, base: bool, out: bool, amount: u64) -> TransferPlan {
    let wallet: usize = if base {
        2
    } else {
        3
    };
    let vault: usize = if base {
        4
    } else {
        5
    };
    TransferPlan {
        token_program: if base {
            9
        } else {
            10
        },
        from: if out {
            vault
        } else {
            wallet
        },
        mint: if base {
            7
        } else {
            8
        },
        to: if out {
            wallet
        } else {
            vault
        },
        authority: if out {
            6
        } else {
            0
        },
        amount,
        decimals: if base {
            h.base_decimals
        } else {
            h.quote_decimals
        },
        signed: out,
    }
}

/// The transfer between the user's account and the vault.
pub fn plan_vault_transfer(h: &Market, base: bool, out: bool, amount: u64) -> (r: TransferPlan)
    ensures
        r == vault_transfer(*h, base, out, amount),
{
    let (wallet, vault, mint, program): (usize, usize, usize, usize) = if base {
        (2, 4, 7, 9)
    } else {
        (3, 5, 8, 10)
    };
    let decimals: u8 = if base {
        h.base_decimals()
    } else {
        h.quote_decimals()
    };
    if out {
        TransferPlan {
            token_program: program,
            from: vault,
            mint,
            to: wallet,
            authority: 6,
            amount,
            decimals,
            signed: true,
        }
    } else {
        TransferPlan {
            token_program: program,
            from: wallet,
            mint,
            to: vault,
            authority: 0,
            amount,
            decimals,
            signed: false,
        }
    }
}

impl Swap {
    pub const DISCRIMINATOR: u8 = 31;

    pub fn try_from(data: &[u8]) -> (r: Result<Swap, ProgramError>)
        ensures
            r == swap_of(data@),
    {
        if data.len() != 21 {
            return Err(ProgramError::InvalidInstructionData);
        }
        let side: Side = Side::try_from_u8(data[0])?;
        Ok(
            Swap {
                side,
                amount_in: read64(data, 1),
                limit_tick: read32(data, 9),
                min_out: read64(data, 13),
            },
        )
    }

    /// The input leg.
    pub fn pull(&self, h: &Market) -> (r: TransferPlan)
        ensures
            r == vault_transfer(*h, self.side == Side::Ask, false, self.amount_in),
    {
        plan_vault_transfer(h, self.side == Side::Ask, false, self.amount_in)
    }

    /// The legs after the match: the refund, if any, then the output.
    pub fn payments(&self, h: &Market, o: &SwapOutcome) -> (r: Vec<TransferPlan>)
        ensures
            r@ == swap_payments(*self, *h, *o),
    {
        let mut v: Vec<TransferPlan> = Vec::new();
        if o.refund > 0 {
            v.push(plan_vault_transfer(h, self.side == Side::Ask, true, o.refund));
        }
        v.push(plan_vault_transfer(h, self.side == Side::Bid, true, o.out));
        assert(v@ =~= swap_payments(*self, *h, *o));
        v
    }

    /// Lots that the pass may take when `delta` atoms arrived.
    pub open spec fn lots_for(self, h: Market, delta: u64) -> u32 {
        let n = delta as int / h.base_lot_size as int;
        if self.side == Side::Bid || n > h.max_lots_per_order {
            h.max_lots_per_order
        } else {
            n as u32
        }
    }

    pub open spec fn pass(self, h: Market, delta: u64, slot: u64) -> TakeParams {
        TakeParams {
            side: self.side,
            limit_tick: self.limit_tick,
            max_lots: self.lots_for(h, delta),
            max_quote: if self.side == Side::Bid {
                delta
            } else {
                u64::MAX
            },
            seat: NO_SEAT,
            slot,
            self_trade: SelfTradePolicy::CancelResting,
        }
    }

    /// What of the input a pass used.
    pub open spec fn used(self, h: Market, res: TakeResult) -> int {
        match self.side {
            Side::Bid => res.quote + res.fee,
            Side::Ask => res.lots * h.base_lot_size,
        }
    }

    /// What this instruction does once `delta` atoms arrived in the vault. An
    /// input below one lot is not matched at all.
    pub open spec fn outcome(self, v: BookView, delta: u64, slot: u64) -> (
        BookView,
        Result<SwapOutcome, ProgramError>,
    ) {
        let p = self.pass(v.header, delta, slot);
        let (w, r) = if p.max_lots == 0 {
            (v, Ok(TakeResult { lots: 0, quote: 0, fee: 0 }))
        } else {
            v.taken(p)
        };
        match r {
            Err(e) => (w, Err(e)),
            Ok(res) => if proceeds(v.header, self.side, res) < self.min_out {
                (w.bumped(), Err(clob(ClobError::SlippageExceeded)))
            } else {
                (
                    w.bumped(),
                    Ok(
                        SwapOutcome {
                            refund: (delta - self.used(v.header, res)) as u64,
                            out: proceeds(v.header, self.side, res) as u64,
                        },
                    ),
                )
            },
        }
    }

    /// Match what arrived. The vault's observed gain is the budget, not the
    /// stated input: a mint that charges for transfers delivers less.
    #[verifier::rlimit(40)]
    pub fn process(&self, book: &mut BookRefMut, delta: u64, slot: u64) -> (r: Result<
        SwapOutcome,
        ProgramError,
    >)
        requires
            old(book).wf(),
            market_ok(old(book).header),
        ensures
            final(book).wf(),
            (final(book)@, r) == self.outcome(old(book)@, delta, slot),
            r matches Ok(o) ==> o.refund <= delta,
    {
        let ghost v = book@;
        let ghost p = self.pass(v.header, delta, slot);
        proof {
            lemma_market_ok(book.header);
        }
        let most: u32 = book.header.max_lots_per_order();
        let max_lots: u32 = match self.side {
            Side::Bid => most,
            Side::Ask => {
                let n: u64 = delta / book.header.base_lot_size();
                if n > most as u64 {
                    most
                } else {
                    n as u32
                }
            },
        };
        let max_quote: u64 = match self.side {
            Side::Bid => delta,
            Side::Ask => u64::MAX,
        };
        assert(max_lots == p.max_lots);
        let res: TakeResult = if max_lots == 0 {
            proof {
                crate::flow::lemma_start(v.header, p);
            }
            TakeResult { lots: 0, quote: 0, fee: 0 }
        } else {
            match book.take(
                TakeParams {
                    side: self.side,
                    limit_tick: self.limit_tick,
                    max_lots,
                    max_quote,
                    seat: NO_SEAT,
                    slot,
                    self_trade: SelfTradePolicy::CancelResting,
                },
            ) {
                Ok(r) => r,
                Err(e) => {
                    return Err(e);
                },
            }
        };
        proof {
            if max_lots != 0 {
                lemma_taken_header(v, p);
            }
            lemma_tally_fits(v.header, p, res, (p.max_lots - res.lots) as u32);
            lemma_used(*self, v.header, p, res, delta, slot);
        }
        book.bump();
        let base_atoms: u64 = book.header.base_atoms(res.lots);
        let out: u64 = match self.side {
            Side::Bid => base_atoms,
            Side::Ask => res.quote - res.fee,
        };
        if out < self.min_out {
            return fail(ClobError::SlippageExceeded);
        }
        let used: u64 = match self.side {
            Side::Bid => res.quote + res.fee,
            Side::Ask => base_atoms,
        };
        Ok(SwapOutcome { refund: delta - used, out })
    }
}

/// The refund, if any, then the output.
pub open spec fn swap_payments(d: Swap, h: Market, o: SwapOutcome) -> Seq<TransferPlan> {
    let out = vault_transfer(h, d.side == Side::Bid, true, o.out);
    if o.refund > 0 {
        seq![vault_transfer(h, d.side == Side::Ask, true, o.refund), out]
    } else {
        seq![out]
    }
}

/// A pass never uses more than what arrived.
pub proof fn lemma_used(d: Swap, h: Market, p: TakeParams, res: TakeResult, delta: u64, slot: u64)
    requires
        h.base_lot_size >= 1,
        p == d.pass(h, delta, slot),
        tally_ok(h, p, res, (p.max_lots - res.lots) as u32),
        res.lots <= p.max_lots,
        res.quote + res.fee <= u64::MAX,
    ensures
        d.used(h, res) <= delta,
{
    if d.side == Side::Ask {
        let ls = h.base_lot_size as int;
        let n = delta as int / ls;
        assert(res.lots * ls <= n * ls) by (nonlinear_arith)
            requires
                res.lots <= n,
                ls >= 1,
        ;
        assert(n * ls <= delta) by (nonlinear_arith)
            requires
                n == delta as int / ls,
                ls >= 1,
        ;
    }
}

} // verus!
