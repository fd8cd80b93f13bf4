//! Seat instructions: claiming and closing a seat, and moving tokens in and
//! out of its balances.

use crate::book::BookRefMut;
use crate::codec::{le16, le64, read16, read64};
use crate::constants::NIL;
use crate::errors::{clob, fail, ClobError, ProgramError};
use crate::market::Market;
use crate::model::BookView;
use crate::seat::{Seat, ZERO_KEY};
use crate::steps::lemma_with_seat;
use crate::taker::{plan_vault_transfer, vault_transfer, TransferPlan};
use crate::token::{received, spec_received};
use vstd::prelude::*;

verus! {

/// Give the next vacant seat to a participant.
#[derive(Clone, Copy, Debug, PartialEq, Eq, Structural)]
pub struct ClaimSeat;

impl ClaimSeat {
    pub const DISCRIMINATOR: u8 = 10;

    /// What this instruction does.
    pub open spec fn outcome(self, v: BookView, owner: [u8; 32]) -> (
        BookView,
        Result<u16, ProgramError>,
    ) {
        let (w, r) = v.claimed(owner);
        match r {
            Err(e) => (w, Err(e)),
            Ok(s) => (w.bumped(), Ok(s)),
        }
    }

    /// Run the instruction. Returns the seat index.
    pub fn process(&self, book: &mut BookRefMut, owner: &[u8; 32]) -> (r: Result<
        u16,
        ProgramError,
    >)
        requires
            old(book).wf(),
        ensures
            final(book).wf(),
            (final(book)@, r) == self.outcome(old(book)@, *owner),
    {
        let seat: u16 = match book.claim_seat(owner) {
            Ok(s) => s,
            Err(e) => {
                return Err(e);
            },
        };
        book.bump();
        Ok(seat)
    }
}

/// Give a seat back. It must be empty.
#[derive(Clone, Copy, Debug, PartialEq, Eq, Structural)]
pub struct CloseSeat {
    pub seat_index: u16,
}

/// The request that a payload encodes.
pub open spec fn close_seat_of(data: Seq<u8>) -> Result<CloseSeat, ProgramError> {
    if data.len() != 2 {
        Err(ProgramError::InvalidInstructionData)
    } else {
        Ok(CloseSeat { seat_index: le16(data, 0) })
    }
}

/// A seat with no balance of any kind.
pub open spec fn holds_nothing(s: Seat) -> bool {
    s.base_free == 0 && s.quote_free == 0 && s.base_locked == 0 && s.quote_locked == 0
}

impl CloseSeat {
    pub const DISCRIMINATOR: u8 = 11;

    pub fn try_from(data: &[u8]) -> (r: Result<CloseSeat, ProgramError>)
        ensures
            r == close_seat_of(data@),
    {
        if data.len() != 2 {
            return Err(ProgramError::InvalidInstructionData);
        }
        Ok(CloseSeat { seat_index: read16(data, 0) })
    }

    /// What this instruction does. An empty seat has no balance and no orders.
    pub open spec fn outcome(self, v: BookView, owner: Seq<u8>) -> (
        BookView,
        Result<(), ProgramError>,
    ) {
        let s = self.seat_index as int;
        match v.seat_check(self.seat_index, owner) {
            Err(e) => (v, Err(e)),
            Ok(_) => if !holds_nothing(v.seats[s]) || v.chains[s].len() != 0 {
                (v, Err(clob(ClobError::SeatNotEmpty)))
            } else {
                (v.with_seat(s, Seat { owner: ZERO_KEY, ..v.seats[s] }).bumped(), Ok(()))
            },
        }
    }

    /// Run the instruction.
    pub fn process(&self, book: &mut BookRefMut, owner: &[u8; 32]) -> (r: Result<(), ProgramError>)
        requires
            old(book).wf(),
        ensures
            final(book).wf(),
            (final(book)@, r) == self.outcome(old(book)@, owner@),
    {
        book.check_seat(self.seat_index, owner)?;
        let ghost v = book@;
        let i: usize = self.seat_index as usize;
        let ghost s = i as int;
        proof {
            assert(book.chain(s));
        }
        if book.seats[i].base_free() != 0 || book.seats[i].quote_free() != 0
            || book.seats[i].base_locked() != 0 || book.seats[i].quote_locked() != 0
            || book.seats[i].order_count() != 0 {
            return fail(ClobError::SeatNotEmpty);
        }
        book.vacate(self.seat_index);
        book.bump();
        Ok(())
    }
}

impl BookRefMut {
    /// Take the owner off a seat without orders.
    fn vacate(&mut self, seat: u16)
        requires
            old(self).wf(),
            seat < 128,
            old(self)@.chains[seat as int].len() == 0,
        ensures
            final(self).wf(),
            final(self)@ == old(self)@.with_seat(
                seat as int,
                (Seat { owner: ZERO_KEY, ..old(self)@.seats[seat as int] }),
            ),
    {
        let ghost v = self@;
        let ghost b = *self;
        let ghost s = seat as int;
        proof {
            assert(self.chain(s));
        }
        self.seats[seat as usize].set_owner(ZERO_KEY);
        self.seats[seat as usize].set_orders_head(NIL);
        proof {
            self.lemma_accounts_changed(b);
            let x = Seat { owner: ZERO_KEY, ..v.seats[s] };
            lemma_with_seat(v, s, x);
            assert(self@ =~= v.with_seat(s, x));
            assert forall|t: int, base: bool|
                0 <= t < 128 implies #[trigger] self@.surplus(t, base) >= 0 by {
                assert(v.surplus(t, base) >= 0);
                assert(self@.needed(t, base) == v.needed(t, base));
            }
        }
    }

    /// Add to one free balance; `false`, with nothing changed, on overflow.
    fn credit_free(&mut self, seat: u16, base: bool, amount: u64) -> (r: bool)
        requires
            old(self).wf(),
            seat < 128,
        ensures
            final(self).wf(),
            r == (old(self)@.seats[seat as int].spec_free(base) + amount <= u64::MAX),
            final(self)@ == (if r {
                credited(old(self)@, seat as int, base, amount as int)
            } else {
                old(self)@
            }),
            final(self).header == old(self).header,
    {
        let base_free: u64 = self.seats[seat as usize].base_free();
        let quote_free: u64 = self.seats[seat as usize].quote_free();
        if base {
            if base_free > u64::MAX - amount {
                return false;
            }
            self.set_free(seat, base_free + amount, quote_free);
        } else {
            if quote_free > u64::MAX - amount {
                return false;
            }
            self.set_free(seat, base_free, quote_free + amount);
        }
        true
    }
}

/// One free balance grows.
pub open spec fn credited(v: BookView, s: int, base: bool, amount: int) -> BookView {
    let seat = v.seats[s];
    v.with_seat(
        s,
        if base {
            Seat { base_free: (seat.base_free + amount) as u64, ..seat }
        } else {
            Seat { quote_free: (seat.quote_free + amount) as u64, ..seat }
        },
    )
}

/// Fund a seat. Each leg is pulled into its vault first, then the seat is
/// credited with what the vault's amount grew by.
#[derive(Clone, Copy, Debug, PartialEq, Eq, Structural)]
pub struct Deposit {
    pub seat_index: u16,
    pub base_atoms: u64,
    pub quote_atoms: u64,
}

/// The deposit that a payload encodes.
pub open spec fn deposit_of(data: Seq<u8>) -> Result<Deposit, ProgramError> {
    if data.len() != 18 {
        Err(ProgramError::InvalidInstructionData)
    } else {
        Ok(
            Deposit {
                seat_index: le16(data, 0),
                base_atoms: le64(data, 2),
                quote_atoms: le64(data, 10),
            },
        )
    }
}

/// Moving `amount` of one asset from the owner's account to the vault, in an
/// instruction that lists owner, market, the owner's base and quote accounts,
/// base and quote vault, base and quote mint, base and quote token program.
pub open spec fn deposit_transfer(h: Market, base: bool, amount: u64) -> TransferPlan {
    TransferPlan {
        token_program: if base {
            8
        } else {
            9
        },
        from: if base {
            2
        } else {
            3
        },
        mint: if base {
            6
        } else {
            7
        },
        to: if base {
            4
        } else {
            5
        },
        authority: 0,
        amount,
        decimals: if base {
            h.base_decimals
        } else {
            h.quote_decimals
        },
        signed: false,
    }
}

/// What one leg of a deposit does, when the vault read `pre` before and `post`
/// after the transfer.
pub open spec fn credit_leg(v: BookView, s: int, base: bool, pre: u64, post: u64) -> (
    BookView,
    Result<(), ProgramError>,
) {
    match spec_received(pre, post) {
        Err(e) => (v, Err(e)),
        Ok(delta) => if v.seats[s].spec_free(base) + delta > u64::MAX {
            (v, Err(ProgramError::ArithmeticOverflow))
        } else {
            (credited(v, s, base, delta as int), Ok(()))
        },
    }
}

impl Deposit {
    pub const DISCRIMINATOR: u8 = 12;

    pub fn try_from(data: &[u8]) -> (r: Result<Deposit, ProgramError>)
        ensures
            r == deposit_of(data@),
    {
        if data.len() != 18 {
            return Err(ProgramError::InvalidInstructionData);
        }
        Ok(
            Deposit {
                seat_index: read16(data, 0),
                base_atoms: read64(data, 2),
                quote_atoms: read64(data, 10),
            },
        )
    }

    pub open spec fn asked(self, base: bool) -> u64 {
        if base {
            self.base_atoms
        } else {
            self.quote_atoms
        }
    }

    /// The transfer of one leg; an empty leg has none.
    pub fn pull(&self, h: &Market, base: bool) -> (r: Option<TransferPlan>)
        ensures
            r == (if self.asked(base) > 0 {
                Some(deposit_transfer(*h, base, self.asked(base)))
            } else {
                None
            }),
    {
        let amount: u64 = if base {
            self.base_atoms
        } else {
            self.quote_atoms
        };
        if amount == 0 {
            return None;
        }
        let (token_program, from, mint, to): (usize, usize, usize, usize) = if base {
            (8, 2, 6, 4)
        } else {
            (9, 3, 7, 5)
        };
        let decimals: u8 = if base {
            h.base_decimals()
        } else {
            h.quote_decimals()
        };
        Some(
            TransferPlan {
                token_program,
                from,
                mint,
                to,
                authority: 0,
                amount,
                decimals,
                signed: false,
            },
        )
    }

    /// Credit one leg after its transfer.
    pub fn credit(&self, book: &mut BookRefMut, base: bool, pre: u64, post: u64) -> (r: Result<
        (),
        ProgramError,
    >)
        requires
            old(book).wf(),
            self.seat_index < 128,
        ensures
            final(book).wf(),
            (final(book)@, r) == credit_leg(old(book)@, self.seat_index as int, base, pre, post),
    {
        let delta: u64 = match received(pre, post) {
            Ok(d) => d,
            Err(e) => {
                return Err(e);
            },
        };
        if !book.credit_free(self.seat_index, base, delta) {
            return Err(ProgramError::ArithmeticOverflow);
        }
        Ok(())
    }

    /// What this instruction does, when the vaults read so before and after
    /// the transfers.
    pub open spec fn outcome(
        self,
        v: BookView,
        owner: Seq<u8>,
        base: (u64, u64),
        quote: (u64, u64),
    ) -> (BookView, Result<(), ProgramError>) {
        let s = self.seat_index as int;
        match v.seat_check(self.seat_index, owner) {
            Err(e) => (v, Err(e)),
            Ok(_) => {
                let (w, r) = if self.base_atoms > 0 {
                    credit_leg(v, s, true, base.0, base.1)
                } else {
                    (v, Ok(()))
                };
                match r {
                    Err(e) => (w, Err(e)),
                    Ok(_) => {
                        let (x, r2) = if self.quote_atoms > 0 {
                            credit_leg(w, s, false, quote.0, quote.1)
                        } else {
                            (w, Ok(()))
                        };
                        match r2 {
                            Err(e) => (x, Err(e)),
                            Ok(_) => (x.bumped(), Ok(())),
                        }
                    },
                }
            },
        }
    }

    /// Run the instruction, given the readings of the two vaults.
    pub fn process(
        &self,
        book: &mut BookRefMut,
        owner: &[u8; 32],
        base: (u64, u64),
        quote: (u64, u64),
    ) -> (r: Result<(), ProgramError>)
        requires
            old(book).wf(),
        ensures
            final(book).wf(),
            (final(book)@, r) == self.outcome(old(book)@, owner@, base, quote),
    {
        book.check_seat(self.seat_index, owner)?;
        if self.base_atoms > 0 {
            self.credit(book, true, base.0, base.1)?;
        }
        if self.quote_atoms > 0 {
            self.credit(book, false, quote.0, quote.1)?;
        }
        self.finish(book);
        Ok(())
    }

    /// Count the instruction once both legs are credited.
    pub fn finish(&self, book: &mut BookRefMut)
        requires
            old(book).wf(),
        ensures
            final(book).wf(),
            final(book)@ == old(book)@.bumped(),
    {
        book.bump();
    }
}

/// Take tokens out of a seat's free balances. An amount of `u64::MAX` stands
/// for all of it.
#[derive(Clone, Copy, Debug, PartialEq, Eq, Structural)]
pub struct Withdraw {
    pub seat_index: u16,
    pub base_atoms: u64,
    pub quote_atoms: u64,
}

/// The withdrawal that a payload encodes.
pub open spec fn withdraw_of(data: Seq<u8>) -> Result<Withdraw, ProgramError> {
    if data.len() != 18 {
        Err(ProgramError::InvalidInstructionData)
    } else {
        Ok(
            Withdraw {
                seat_index: le16(data, 0),
                base_atoms: le64(data, 2),
                quote_atoms: le64(data, 10),
            },
        )
    }
}

/// What leaves for a request of `asked` when `free` is there.
pub open spec fn leaving(asked: u64, free: u64) -> u64 {
    if asked == u64::MAX {
        free
    } else {
        asked
    }
}

/// Tokens that leave the vaults.
#[derive(Clone, Copy, Debug, PartialEq, Eq, Structural)]
pub struct Payout {
    pub base: u64,
    pub quote: u64,
}

/// The legs that are not empty, base first.
pub open spec fn payout_transfers(h: Market, p: Payout) -> Seq<TransferPlan> {
    let b = if p.base > 0 {
        seq![vault_transfer(h, true, true, p.base)]
    } else {
        seq![]
    };
    if p.quote > 0 {
        b.push(vault_transfer(h, false, true, p.quote))
    } else {
        b
    }
}

impl Withdraw {
    pub const DISCRIMINATOR: u8 = 13;

    pub fn try_from(data: &[u8]) -> (r: Result<Withdraw, ProgramError>)
        ensures
            r == withdraw_of(data@),
    {
        if data.len() != 18 {
            return Err(ProgramError::InvalidInstructionData);
        }
        Ok(
            Withdraw {
                seat_index: read16(data, 0),
                base_atoms: read64(data, 2),
                quote_atoms: read64(data, 10),
            },
        )
    }

    /// What this instruction does.
    pub open spec fn outcome(self, v: BookView, owner: Seq<u8>) -> (
        BookView,
        Result<Payout, ProgramError>,
    ) {
        let s = self.seat_index as int;
        let seat = v.seats[s];
        let base = leaving(self.base_atoms, seat.base_free);
        let quote = leaving(self.quote_atoms, seat.quote_free);
        match v.seat_check(self.seat_index, owner) {
            Err(e) => (v, Err(e)),
            Ok(_) => if seat.base_free < base || seat.quote_free < quote {
                (v, Err(clob(ClobError::InsufficientBalance)))
            } else {
                (
                    v.with_seat(
                        s,
                        Seat {
                            base_free: (seat.base_free - base) as u64,
                            quote_free: (seat.quote_free - quote) as u64,
                            ..seat
                        },
                    ).bumped(),
                    Ok(Payout { base, quote }),
                )
            },
        }
    }

    /// Run the instruction. The seat is debited before anything is paid.
    pub fn process(&self, book: &mut BookRefMut, owner: &[u8; 32]) -> (r: Result<
        Payout,
        ProgramError,
    >)
        requires
            old(book).wf(),
        ensures
            final(book).wf(),
            (final(book)@, r) == self.outcome(old(book)@, owner@),
    {
        match book.check_seat(self.seat_index, owner) {
            Ok(_) => {},
            Err(e) => {
                return Err(e);
            },
        }
        let base_free: u64 = book.seats[self.seat_index as usize].base_free();
        let quote_free: u64 = book.seats[self.seat_index as usize].quote_free();
        let base: u64 = if self.base_atoms == u64::MAX {
            base_free
        } else {
            self.base_atoms
        };
        let quote: u64 = if self.quote_atoms == u64::MAX {
            quote_free
        } else {
            self.quote_atoms
        };
        if base_free < base || quote_free < quote {
            return fail(ClobError::InsufficientBalance);
        }
        book.set_free(self.seat_index, base_free - base, quote_free - quote);
        book.bump();
        Ok(Payout { base, quote })
    }

    /// The transfers that pay out.
    pub fn payments(&self, h: &Market, p: &Payout) -> (r: Vec<TransferPlan>)
        ensures
            r@ == payout_transfers(*h, *p),
    {
        let mut v: Vec<TransferPlan> = Vec::new();
        if p.base > 0 {
            v.push(plan_vault_transfer(h, true, true, p.base));
        }
        assert(v@ =~= (if p.base > 0 {
            seq![vault_transfer(*h, true, true, p.base)]
        } else {
            seq![]
        }));
        if p.quote > 0 {
            v.push(plan_vault_transfer(h, false, true, p.quote));
        }
        v
    }
}

} // verus!
