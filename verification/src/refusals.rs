//! Laws of refusal: each error comes for its reason and for no other, so that
//! a request without such a reason succeeds.

use crate::custody::{lemma_has_best, lemma_supplied, supplied};
use crate::errors::ProgramError;
use crate::flow::{lemma_start, lemma_take_monotone};
use crate::funds::{not_theirs, owns};
use crate::laws::{lemma_pass_limit, seats_in_limit};
use crate::ledger::{lemma_settled, lemma_untraded};
use crate::lists::lemma_without;
use crate::maker::PlaceLimit;
use crate::market::Market;
use crate::matching::{lemma_fill_fits, lemma_level, tally_ok};
use crate::model::{
    fees_ok,
    in_window,
    lemma_finite_below,
    lemma_market_ok,
    market_ok,
    slid,
    within_limit,
    BookView,
    Order,
};
use crate::orders::{lemma_best_in_window, lemma_quote_at};
use crate::placing::{crosses, lemma_resting_place, resting_place};
use crate::side::{SelfTradePolicy, Side, TakeParams, TakeResult};
use crate::spending::{lemma_same_sums, lemma_spends, swept};
use crate::steps::{lemma_filled, lemma_killed, lemma_lock_available};
use crate::taker::{PlaceTake, Swap};
use crate::trades::{lemma_nothing, lemma_traded, taker_of, Taker};
use vstd::prelude::*;

verus! {

/// An order of the taker's own seat that its pass could meet at slot `now`: on
/// the other side, no worse than the limit, and live.
pub open spec fn meets_self(taker: Side, limit: u32, seat: u16, now: u64, o: Order) -> bool {
    &&& o.side != taker
    &&& taker == Side::Bid ==> o.tick <= limit
    &&& taker == Side::Ask ==> o.tick >= limit
    &&& o.expiry_slot == 0 || o.expiry_slot > now
    &&& o.maker == seat
}

/// Some order of the book is such an order.
pub open spec fn self_trades(v: BookView, taker: Side, limit: u32, seat: u16, now: u64) -> bool {
    exists|i: u16| #[trigger]
        v.orders.contains_key(i) && meets_self(taker, limit, seat, now, v.orders[i])
}

#[verifier::rlimit(40)]
proof fn lemma_pass_from(v: BookView, p: TakeParams, res: TakeResult, left: u32)
    requires
        v.ok(),
        fees_ok(v.header),
        v.header.tick_size >= 1,
        v.header.anchor_tick >= 1,
        tally_ok(v.header, p, res, left),
    ensures
        ({
            let (w, x) = v.take_from(p, res, left);
            match x {
                Err(e) => {
                    &&& e == ProgramError::Custom(17)
                    &&& p.self_trade == SelfTradePolicy::Abort
                    &&& self_trades(v, p.side, p.limit_tick, p.seat, p.slot)
                },
                Ok(_) => p.self_trade == SelfTradePolicy::Abort ==> forall|i: u16| #[trigger]
                    v.orders.contains_key(i) && meets_self(
                        p.side,
                        p.limit_tick,
                        p.seat,
                        p.slot,
                        v.orders[i],
                    ) ==> w.orders.contains_key(i) && w.orders[i] == v.orders[i],
            }
        }),
    decreases left, v.orders.dom().len(),
{
    let side = p.side.spec_opposite();
    let f = v.front(side);
    let o = v.orders[f];
    let fill = v.fill_of(p, f, res, left);
    if left == 0 || v.best(side) is None || !within_limit(p, v.best(side)->0) {
    } else {
        lemma_has_best(v, side);
        lemma_level(v, side, v.best(side)->0);
        assert(v.order_ok(f));
        lemma_finite_below(v.orders.dom(), 0x10000);
        assert(o.tick * v.header.tick_size > 0) by (nonlinear_arith)
            requires
                o.tick > 0,
                v.header.tick_size > 0,
        ;
        if o.expired(p.slot) || (o.maker == p.seat && p.self_trade != SelfTradePolicy::Abort) {
            lemma_killed(v, f);
            let x = v.killed(f);
            lemma_pass_from(x, p, res, left);
            assert forall|i: u16| #[trigger] x.orders.contains_key(i) implies
                v.orders.contains_key(i) && x.orders[i] == v.orders[i] by {}
            assert forall|i: u16| #[trigger] v.orders.contains_key(i) && i != f implies
                x.orders.contains_key(i) by {}
        } else if o.maker == p.seat {
            assert(v.orders.contains_key(f));
        } else if fill <= 0 {
        } else {
            lemma_fill_fits(v.header, p, res, left, o.tick, fill);
            lemma_filled(v, f, fill as u32);
            let x = v.filled(f, fill as u32);
            lemma_pass_from(x, p, v.with_fill(res, o.tick, fill), (left - fill) as u32);
            assert forall|i: u16| #[trigger] x.orders.contains_key(i) implies
                v.orders.contains_key(i) && (i != f ==> x.orders[i] == v.orders[i]) by {}
            assert forall|i: u16| #[trigger] v.orders.contains_key(i) && i != f implies
                x.orders.contains_key(i) by {}
        }
    }
}

/// A pass that may be made ends without an error, unless it was told to stop
/// at its own seat's orders and meets one. If it was told so and ends well,
/// it has left each of them as it was.
pub proof fn lemma_pass(v: BookView, p: TakeParams)
    requires
        v.ok(),
        market_ok(v.header),
    ensures
        ({
            let (w, x) = v.taken(p);
            match x {
                Err(e) => {
                    ||| e == ProgramError::Custom(10) && w == v && (p.max_lots == 0 || p.max_lots
                        > v.header.max_lots_per_order)
                    ||| {
                        &&& e == ProgramError::Custom(17)
                        &&& p.self_trade == SelfTradePolicy::Abort
                        &&& self_trades(v, p.side, p.limit_tick, p.seat, p.slot)
                    }
                },
                Ok(_) => {
                    &&& 1 <= p.max_lots <= v.header.max_lots_per_order
                    &&& p.self_trade == SelfTradePolicy::Abort ==> forall|i: u16| #[trigger]
                        v.orders.contains_key(i) && meets_self(
                            p.side,
                            p.limit_tick,
                            p.seat,
                            p.slot,
                            v.orders[i],
                        ) ==> w.orders.contains_key(i) && w.orders[i] == v.orders[i]
                },
            }
        }),
{
    lemma_market_ok(v.header);
    if 1 <= p.max_lots <= v.header.max_lots_per_order {
        lemma_start(v.header, p);
        lemma_pass_from(v, p, TakeResult { lots: 0, quote: 0, fee: 0 }, p.max_lots);
    }
}

/// A swap is refused only, with code 16, when what its trades bring in is less
/// than the minimum that it names.
#[verifier::rlimit(30)]
pub proof fn lemma_swap_refused(d: Swap, v: BookView, delta: u64, slot: u64)
    requires
        v.ok(),
        market_ok(v.header),
        d.outcome(v, delta, slot).1 is Err,
    ensures
        ({
            let (w, r) = d.outcome(v, delta, slot);
            let t = Taker { side: d.side, limit: d.limit_tick, seat: 65535, now: slot };
            &&& r == Err::<crate::taker::SwapOutcome, ProgramError>(ProgramError::Custom(16))
            &&& match d.side {
                Side::Bid => t.lots(v, w) * v.header.base_lot_size < d.min_out,
                Side::Ask => t.quote(v, w) - t.fee(v, w) < d.min_out,
            }
        }),
{
    let h = v.header;
    let p = d.pass(h, delta, slot);
    let y = d.outcome(v, delta, slot).0;
    let t = Taker { side: d.side, limit: d.limit_tick, seat: 65535, now: slot };
    lemma_market_ok(h);
    if p.max_lots == 0 {
        lemma_nothing(t, v, y);
        let ls = h.base_lot_size as int;
        assert(0 * ls == 0) by (nonlinear_arith);
    } else {
        lemma_pass(v, p);
        assert forall|i: u16| #[trigger] v.orders.contains_key(i) implies v.orders[i].maker
            != 65535 by {
            assert(v.order_ok(i));
        }
        lemma_traded(v, p);
        lemma_same_sums(t, v, v.taken(p).0, y);
    }
}

/// What a taker is short of when it cannot pay.
pub open spec fn cannot_pay(t: Taker, v: BookView, w: BookView) -> bool {
    let seat = w.seats[t.seat as int];
    match t.side {
        Side::Bid => seat.quote_free < t.quote(v, w) + t.fee(v, w),
        Side::Ask => seat.base_free < t.lots(v, w) * v.header.base_lot_size,
    }
}

/// A taker order is refused only to one who does not own the seat; for a
/// number of lots that no order may have (10); when it meets an order of its
/// own seat and bit 1 of its flags forbids that (17); when its trades bring in
/// less than its minimum (16); or when the seat cannot pay for them (20).
#[verifier::rlimit(30)]
pub proof fn lemma_take_refused(d: PlaceTake, v: BookView, who: Seq<u8>, slot: u64)
    requires
        v.ok(),
        market_ok(v.header),
        d.outcome(v, who, slot).1 is Err,
    ensures
        ({
            let (w, r) = d.outcome(v, who, slot);
            let e = r->Err_0;
            let t = Taker { side: d.side, limit: d.limit_tick, seat: d.seat_index, now: slot };
            ||| not_theirs(v, d.seat_index, who, e)
            ||| {
                &&& owns(v, d.seat_index, who)
                &&& {
                    ||| e == ProgramError::Custom(10) && (d.max_lots == 0 || d.max_lots
                        > v.header.max_lots_per_order)
                    ||| e == ProgramError::Custom(17) && (d.flags / 2) % 2 == 1 && self_trades(
                        v,
                        d.side,
                        d.limit_tick,
                        d.seat_index,
                        slot,
                    )
                    ||| e == ProgramError::Custom(16) && match d.side {
                        Side::Bid => t.lots(v, w) * v.header.base_lot_size < d.min_out,
                        Side::Ask => t.quote(v, w) - t.fee(v, w) < d.min_out,
                    }
                    ||| e == ProgramError::Custom(20) && cannot_pay(t, v, w)
                }
            }
        }),
{
    let p = d.pass(slot);
    let f = d.flags;
    assert((f & 2 != 0) == ((f / 2) % 2 == 1)) by (bit_vector);
    lemma_market_ok(v.header);
    lemma_pass(v, p);
    if v.taken(p).1 is Ok {
        lemma_traded(v, p);
        lemma_start(v.header, p);
        lemma_take_monotone(v, p, TakeResult { lots: 0, quote: 0, fee: 0 }, p.max_lots);
    }
}

/// A taker order that may not meet its own seat's orders leaves each of them
/// as it was.
pub proof fn lemma_take_spares_own(d: PlaceTake, v: BookView, who: Seq<u8>, slot: u64, i: u16)
    requires
        v.ok(),
        market_ok(v.header),
        d.outcome(v, who, slot).1 is Ok,
        (d.flags / 2) % 2 == 1,
        v.orders.contains_key(i),
        meets_self(d.side, d.limit_tick, d.seat_index, slot, v.orders[i]),
    ensures
        ({
            let w = d.outcome(v, who, slot).0;
            w.orders.contains_key(i) && w.orders[i] == v.orders[i]
        }),
{
    let f = d.flags;
    assert((f & 2 != 0) == ((f / 2) % 2 == 1)) by (bit_vector);
    lemma_market_ok(v.header);
    lemma_pass(v, d.pass(slot));
}

/// What an order of `lots` locks at a price.
pub open spec fn need(h: Market, side: Side, tick: u32, lots: u32) -> int {
    match side {
        Side::Bid => h.tick_size * tick * lots,
        Side::Ask => h.base_lot_size * lots,
    }
}

/// The seat has an order at this side and price, at node `i`.
pub open spec fn quotes_at(v: BookView, s: u16, side: Side, tick: u32, i: u16) -> bool {
    &&& v.orders.contains_key(i)
    &&& v.orders[i].maker == s
    &&& v.orders[i].side == side
    &&& v.orders[i].tick == tick
}

/// What a seat is short of when it cannot lock for `lots` at `tick`: an order
/// of its own at that price is given up first.
pub open spec fn cannot_lock(v: BookView, s: u16, side: Side, tick: u32, lots: u32) -> bool {
    let seat = v.seats[s as int];
    let free = if side == Side::Bid {
        seat.quote_free as int
    } else {
        seat.base_free as int
    };
    ||| {
        &&& free < need(v.header, side, tick, lots)
        &&& forall|i: u16| #![trigger v.orders.contains_key(i)] !quotes_at(v, s, side, tick, i)
    }
    ||| exists|i: u16| #[trigger]
        v.orders.contains_key(i) && quotes_at(v, s, side, tick, i) && free + need(
            v.header,
            side,
            tick,
            v.orders[i].lots,
        ) < need(v.header, side, tick, lots)
}

/// Whether the price one tick off the opposing best is outside the window.
pub open spec fn no_room(v: BookView, side: Side) -> bool {
    match side {
        Side::Bid => v.best(Side::Ask) == Some(v.header.anchor_tick),
        Side::Ask => v.best(Side::Bid) == Some((v.header.anchor_tick + 8191) as u32),
    }
}

/// Why a quote that comes to rest at `tick` cannot: a new one would be one too
/// many for the seat or for the book, or the seat is short of what it locks.
pub open spec fn cannot_rest_at(v: BookView, o: Order, tick: u32, e: ProgramError) -> bool {
    ||| {
        &&& e == ProgramError::Custom(15) && v.chains[o.maker as int].len() == 128 || e
            == ProgramError::Custom(11) && v.free.len() == 0
        &&& forall|i: u16|
            #![trigger v.orders.contains_key(i)]
            !quotes_at(v, o.maker, o.side, tick, i)
    }
    ||| e == ProgramError::Custom(20) && cannot_lock(v, o.maker, o.side, tick, o.lots)
}

/// Why a quote for `tick`, which may slide or not, cannot rest.
pub open spec fn cannot_rest(v: BookView, o: Order, slide: bool, e: ProgramError) -> bool {
    ||| e == ProgramError::Custom(10) && o.lots > v.header.max_lots_per_order
    ||| e == ProgramError::Custom(9) && !in_window(v.header, o.tick)
    ||| e == ProgramError::Custom(13) && !slide && crosses(v, o.side, o.tick)
    ||| e == ProgramError::Custom(9) && slide && crosses(v, o.side, o.tick) && no_room(v, o.side)
    ||| exists|t: u32| #[trigger]
        resting_place(v, o.side, o.tick, t) && cannot_rest_at(v, o, t, e)
}

/// A quote at a price where the seat has one already needs no node and no
/// place.
#[verifier::rlimit(30)]
proof fn lemma_at_refused(v: BookView, o: Order, t: u32)
    requires
        v.ok(),
        supplied(v),
        seats_in_limit(v),
        o.maker < 128,
        o.lots > 0,
        ({
            let n = Order { tick: t, ..o };
            match v.quote_at(o.maker as int, o.side, t) {
                None => v.post(n).1 is Err,
                Some(i) => o.lots > v.orders[i].lots && v.killed(i).post(n).1 is Err,
            }
        }),
    ensures
        ({
            let n = Order { tick: t, ..o };
            let e = match v.quote_at(o.maker as int, o.side, t) {
                None => v.post(n).1->Err_0,
                Some(i) => v.killed(i).post(n).1->Err_0,
            };
            cannot_rest_at(v, o, t, e)
        }),
{
    let s = o.maker as int;
    let h = v.header;
    lemma_quote_at(v, s, o.side, t);
    let (ts, tt, n) = (h.tick_size as int, t as int, o.lots as int);
    let ls = h.base_lot_size as int;
    assert(tt * ts * n == ts * tt * n) by (nonlinear_arith);
    assert(n * ls == ls * n) by (nonlinear_arith);
    assert(v.chains[s].len() <= 128);
    match v.quote_at(s, o.side, t) {
        None => {},
        Some(i) => {
            assert(v.order_ok(i));
            lemma_lock_available(v, i);
            assert(v.seats[s].within_supply());
            let m = v.orders[i].lots as int;
            assert(tt * ts * m == ts * tt * m) by (nonlinear_arith);
            assert(m * ls == ls * m) by (nonlinear_arith);
            let w = v.killed(i);
            assert(v.chain_ok(s));
            lemma_without(v.chains[s], i);
            assert(w.chains[s].len() < 128);
            assert(w.free.len() > 0);
            assert(quotes_at(v, o.maker, o.side, t, i));
        },
    }
}

/// A quote is refused only for such a reason; one of no lots only when its
/// price is outside the window (9) or the seat has no order there (12).
#[verifier::rlimit(40)]
pub proof fn lemma_upsert_refused(v: BookView, o: Order, slide: bool)
    requires
        v.ok(),
        supplied(v),
        seats_in_limit(v),
        o.maker < 128,
        v.upsert(o, slide).1 is Err,
    ensures
        ({
            let e = v.upsert(o, slide).1->Err_0;
            &&& o.lots > 0 ==> cannot_rest(v, o, slide, e)
            &&& o.lots == 0 ==> {
                ||| e == ProgramError::Custom(9) && !in_window(v.header, o.tick)
                ||| e == ProgramError::Custom(12) && forall|i: u16|
                    #![trigger v.orders.contains_key(i)]
                    !quotes_at(v, o.maker, o.side, o.tick, i)
            }
        }),
{
    let s = o.maker as int;
    let h = v.header;
    let opp = o.side.spec_opposite();
    let b = v.best(opp);
    lemma_has_best(v, opp);
    lemma_best_in_window(v, opp, b);
    lemma_quote_at(v, s, o.side, o.tick);
    if b is Some {
        let j = choose|j: u16|
            #[trigger] v.orders.contains_key(j) && v.orders[j].side == opp && v.orders[j].tick
                == b->0;
        assert(v.orders.contains_key(j));
    }
    if o.lots > 0 && o.lots <= h.max_lots_per_order {
        let x = slid(h, o.side, o.tick, slide, b);
        if x is Ok {
            lemma_resting_place(v, o.side, o.tick, slide);
            lemma_at_refused(v, o, x->Ok_0);
        }
    }
}

/// After trades that led from `v` to `x`, what is left of a limit order cannot
/// rest.
pub open spec fn left_over(v: BookView, x: BookView, d: PlaceLimit, slot: u64, e: ProgramError) -> bool {
    let t = Taker { side: d.side, limit: d.tick, seat: d.seat_index, now: slot };
    let n = t.lots(v, x);
    let rest = Order {
        side: d.side,
        tick: d.tick,
        maker: d.seat_index,
        lots: (d.lots - n) as u32,
        expiry_slot: d.expiry_slot,
        seq: 0,
    };
    &&& 0 <= n < d.lots
    &&& swept(x, d.side, d.tick)
    &&& cannot_rest(x, rest, false, e)
}

/// A limit order is refused only to one who does not own the seat; with no
/// lots, when its price is outside the window (9) or the seat has no order
/// there (12); to post only, when it cannot rest; and else for a number of
/// lots that no order may have (10), when it meets an order of its own seat
/// and bit 1 of its flags forbids that (17), when the seat cannot pay for its
/// trades (20), or when what is left of it cannot rest.
#[verifier::rlimit(40)]
pub proof fn lemma_limit_refused(d: PlaceLimit, v: BookView, who: Seq<u8>, slot: u64)
    requires
        v.ok(),
        market_ok(v.header),
        v.solvent(),
        seats_in_limit(v),
        d.outcome(v, who, slot).1 is Err,
    ensures
        ({
            let (w, r) = d.outcome(v, who, slot);
            let e = r->Err_0;
            let t = Taker { side: d.side, limit: d.tick, seat: d.seat_index, now: slot };
            let order = Order {
                side: d.side,
                tick: d.tick,
                maker: d.seat_index,
                lots: d.lots,
                expiry_slot: d.expiry_slot,
                seq: 0,
            };
            ||| not_theirs(v, d.seat_index, who, e)
            ||| {
                &&& owns(v, d.seat_index, who)
                &&& d.lots == 0
                &&& e == ProgramError::Custom(9) && !in_window(v.header, d.tick) || e
                    == ProgramError::Custom(12) && forall|i: u16|
                    #![trigger v.orders.contains_key(i)]
                    !quotes_at(v, d.seat_index, d.side, d.tick, i)
            }
            ||| {
                &&& owns(v, d.seat_index, who)
                &&& d.lots > 0
                &&& d.flags % 2 == 1
                &&& cannot_rest(v, order, (d.flags / 2) % 2 == 0, e)
            }
            ||| {
                &&& owns(v, d.seat_index, who)
                &&& d.lots > 0
                &&& d.flags % 2 == 0
                &&& {
                    ||| e == ProgramError::Custom(10) && d.lots > v.header.max_lots_per_order
                    ||| e == ProgramError::Custom(17) && (d.flags / 2) % 2 == 1 && self_trades(
                        v,
                        d.side,
                        d.tick,
                        d.seat_index,
                        slot,
                    )
                    ||| e == ProgramError::Custom(20) && cannot_pay(t, v, w)
                    ||| exists|x: BookView| #[trigger] left_over(v, x, d, slot, e)
                }
            }
        }),
{
    let f = d.flags;
    assert((f & 1 != 0) == (f % 2 == 1)) by (bit_vector);
    assert((f & 2 != 0) == ((f / 2) % 2 == 1)) by (bit_vector);
    let s = d.seat_index as int;
    let p = d.pass(slot);
    let t = taker_of(p);
    lemma_market_ok(v.header);
    lemma_supplied(v);
    if owns(v, d.seat_index, who) {
        if d.lots == 0 {
            lemma_upsert_refused(v, d.order(0), false);
        } else if d.flags % 2 == 1 {
            lemma_upsert_refused(v, d.order(d.lots), !d.spec_reject_on_cross());
        } else {
            lemma_pass(v, p);
            let (w, r) = v.taken(p);
            if r is Ok {
                let res = r->Ok_0;
                lemma_traded(v, p);
                lemma_start(v.header, p);
                lemma_take_monotone(v, p, TakeResult { lots: 0, quote: 0, fee: 0 }, p.max_lots);
                lemma_pass_limit(v, p, TakeResult { lots: 0, quote: 0, fee: 0 }, p.max_lots);
                lemma_spends(v, p);
                let x = if res.lots > 0 {
                    w.paid(s, d.side, res)
                } else {
                    Some(w)
                };
                if x is Some {
                    let x = x->0;
                    let rest = (d.lots - res.lots) as u32;
                    if res.lots > 0 {
                        lemma_settled(v, p);
                    } else {
                        lemma_untraded(v, p);
                    }
                    lemma_supplied(x);
                    assert(seats_in_limit(x)) by {
                        assert forall|u: int| 0 <= u < 128 implies (#[trigger] x.chains[u]).len()
                            <= 128 by {
                            assert(w.chains[u].len() <= 128);
                        }
                    }
                    lemma_upsert_refused(x, d.order(rest), false);
                    lemma_same_sums(t, v, w, x);
                    assert(swept(w, d.side, d.tick) ==> swept(x, d.side, d.tick));
                    assert(left_over(v, x, d, slot, d.outcome(v, who, slot).1->Err_0));
                }
            }
        }
    }
}

} // verus!
