//! Who may do what: only its owner acts for a seat, only its maker cancels an
//! order, and nobody is paid less than they asked for.

use crate::errors::{clob, ClobError, ProgramError};
use crate::flow::{lemma_start, lemma_take_monotone};
use crate::funding::{CloseSeat, Deposit, Payout, Withdraw};
use crate::maker::{requoted, Cancel, PlaceLimit};
use crate::model::{lemma_market_ok, market_ok, BookView};
use crate::quote::Quote;
use crate::side::TakeResult;
use crate::taker::{lemma_tally_fits, proceeds, PlaceTake, Swap};
use vstd::prelude::*;

verus! {

/// A stranger is one who does not own the seat, and is told so; the seat must
/// exist.
pub proof fn lemma_stranger(v: BookView, seat: u16, who: Seq<u8>)
    ensures
        seat >= 128 ==> v.seat_check(seat, who) == Err::<(), ProgramError>(
            clob(ClobError::InvalidSeatIndex),
        ),
        seat < 128 && v.seats[seat as int].owner@ != who ==> v.seat_check(seat, who) == Err::<
            (),
            ProgramError,
        >(clob(ClobError::InvalidSeatOwner)),
        seat < 128 && v.seats[seat as int].owner@ == who ==> v.seat_check(seat, who) == Ok::<
            (),
            ProgramError,
        >(()),
{
}

/// A stranger can neither fund, empty nor close a seat: the request is refused
/// with that error and nothing changes.
pub proof fn lemma_funds_guarded(
    v: BookView,
    who: Seq<u8>,
    e: ProgramError,
    c: CloseSeat,
    d: Deposit,
    base: (u64, u64),
    quote: (u64, u64),
    x: Withdraw,
)
    ensures
        v.seat_check(c.seat_index, who) == Err::<(), ProgramError>(e) ==> c.outcome(v, who) == (
            v,
            Err::<(), ProgramError>(e),
        ),
        v.seat_check(d.seat_index, who) == Err::<(), ProgramError>(e) ==> d.outcome(
            v,
            who,
            base,
            quote,
        ) == (v, Err::<(), ProgramError>(e)),
        v.seat_check(x.seat_index, who) == Err::<(), ProgramError>(e) ==> x.outcome(v, who) == (
            v,
            Err::<Payout, ProgramError>(e),
        ),
{
}

/// A stranger can neither quote, place, take nor cancel for a seat: the
/// request is refused with that error and nothing changes.
pub proof fn lemma_orders_guarded(
    v: BookView,
    who: Seq<u8>,
    e: ProgramError,
    c: Cancel,
    l: PlaceLimit,
    t: PlaceTake,
    slot: u64,
)
    ensures
        v.seat_check(c.seat_index, who) == Err::<(), ProgramError>(e) ==> c.outcome(v, who) == (
            v,
            Err::<(), ProgramError>(e),
        ),
        v.seat_check(l.seat_index, who) == Err::<(), ProgramError>(e) ==> l.outcome(v, who, slot)
            == (v, Err::<(), ProgramError>(e)),
        v.seat_check(t.seat_index, who) == Err::<(), ProgramError>(e) ==> t.outcome(v, who, slot)
            == (v, Err::<(), ProgramError>(e)),
{
}

/// The same for a mass quote.
pub proof fn lemma_quotes_guarded(
    v: BookView,
    who: Seq<u8>,
    e: ProgramError,
    seat: u16,
    bids: Seq<Quote>,
    asks: Seq<Quote>,
    expiry: u32,
)
    ensures
        v.seat_check(seat, who) == Err::<(), ProgramError>(e) ==> requoted(
            v,
            seat,
            who,
            bids,
            asks,
            expiry,
        ) == (v, Err::<(), ProgramError>(e)),
{
}

/// Only its maker cancels an order, and only under its own id: through any
/// other seat, under any other id, or when no order is there, the request is
/// refused and nothing changes.
pub proof fn lemma_cancel_guarded(v: BookView, who: Seq<u8>, c: Cancel)
    requires
        v.seat_check(c.seat_index, who) is Ok,
        !v.orders.contains_key(c.node_index) || v.orders[c.node_index].maker != c.seat_index
            || v.orders[c.node_index].seq != c.order_seq,
    ensures
        c.outcome(v, who) == (v, Err::<(), ProgramError>(clob(ClobError::OrderNotFound))),
{
}

/// Nobody gets less than they asked for: a taker order and a swap that
/// succeed bring in at least the minimum they named.
pub proof fn lemma_minimum_met(
    v: BookView,
    t: PlaceTake,
    who: Seq<u8>,
    s: Swap,
    delta: u64,
    slot: u64,
)
    requires
        v.ok(),
        market_ok(v.header),
    ensures
        t.outcome(v, who, slot).1 is Ok ==> proceeds(
            v.header,
            t.side,
            v.taken(t.pass(slot)).1->Ok_0,
        ) >= t.min_out,
        s.outcome(v, delta, slot).1 is Ok ==> s.outcome(v, delta, slot).1->Ok_0.out >= s.min_out,
{
    if s.outcome(v, delta, slot).1 is Ok {
        let p = s.pass(v.header, delta, slot);
        let h = v.header;
        lemma_market_ok(h);
        if p.max_lots == 0 {
            let ls = h.base_lot_size as int;
            assert(0 * ls == 0) by (nonlinear_arith);
        } else {
            let r = v.taken(p).1->Ok_0;
            lemma_start(h, p);
            lemma_take_monotone(v, p, TakeResult { lots: 0, quote: 0, fee: 0 }, p.max_lots);
            lemma_tally_fits(h, p, r, (p.max_lots - r.lots) as u32);
        }
    }
}

} // verus!
