//! Laws of placing: a quote that is accepted rests as it was asked for, at its
//! own price or, where it may slide, one tick off the opposing best.

use crate::custody::{lemma_has_best, lemma_some_best, lemma_supplied, lemma_upsert_keeps, supplied};
use crate::errors::{clob, ClobError};
use crate::flow::{lemma_paid_flow, lemma_start, lemma_take_monotone};
use crate::ledger::{lemma_settled, lemma_untraded};
use crate::maker::PlaceLimit;
use crate::model::{held, in_window, lemma_market_ok, market_ok, slid, BookView, Order};
use crate::orders::{lemma_best_in_window, lemma_quote_at};
use crate::seat::no_owner;
use crate::side::{Side, TakeParams, TakeResult};
use crate::spending::{lemma_spends, swept};
use crate::trades::{lemma_traded, Taker};
use vstd::prelude::*;

verus! {

/// An order of the other side stands at or through `tick`.
pub open spec fn crosses(v: BookView, side: Side, tick: u32) -> bool {
    exists|j: u16| #[trigger]
        v.orders.contains_key(j) && v.orders[j].side != side && match side {
            Side::Bid => v.orders[j].tick <= tick,
            Side::Ask => v.orders[j].tick >= tick,
        }
}

/// Where a quote for `tick` comes to rest: there, if nothing stands in the
/// way; else one tick off the best price of the other side.
pub open spec fn resting_place(v: BookView, side: Side, tick: u32, at: u32) -> bool {
    if !crosses(v, side, tick) {
        at == tick
    } else {
        match side {
            Side::Bid => v.best(Side::Ask) == Some((at + 1) as u32) && at < u32::MAX,
            Side::Ask => at > 0 && v.best(Side::Bid) == Some((at - 1) as u32),
        }
    }
}

/// No order but the one at node `i` differs.
pub open spec fn same_but(v: BookView, w: BookView, i: u16) -> bool {
    forall|j: u16|
        #![trigger w.orders.contains_key(j)]
        #![trigger v.orders.contains_key(j)]
        j != i ==> w.orders.contains_key(j) == v.orders.contains_key(j) && (v.orders.contains_key(
            j,
        ) ==> w.orders[j] == v.orders[j])
}

/// In `w` the order at node `i` is the quote that was asked for. It is a new
/// order with the next id, unless it amends the seat's quote of that price
/// without making it larger.
pub open spec fn quote_rests(
    v: BookView,
    w: BookView,
    seat: u16,
    side: Side,
    tick: u32,
    lots: u32,
    expiry_slot: u32,
    i: u16,
) -> bool {
    let o = w.orders[i];
    let old = v.orders[i];
    let amended = v.orders.contains_key(i) && old.lots >= lots;
    &&& w.orders.contains_key(i)
    &&& o.maker == seat
    &&& o.side == side
    &&& o.tick == tick
    &&& o.lots == lots
    &&& o.expiry_slot == expiry_slot
    &&& v.orders.contains_key(i) ==> old.maker == seat && old.side == side && old.tick == tick
    &&& o.seq == if amended {
        old.seq
    } else if v.header.order_seq == u64::MAX {
        0
    } else {
        v.header.order_seq
    }
    &&& same_but(v, w, i)
}

pub proof fn lemma_resting_place(v: BookView, side: Side, tick: u32, slide: bool)
    requires
        v.structured(),
        slid(v.header, side, tick, slide, v.best(side.spec_opposite())) is Ok,
    ensures
        ({
            let t = slid(v.header, side, tick, slide, v.best(side.spec_opposite()))->Ok_0;
            &&& resting_place(v, side, tick, t)
            &&& !slide ==> t == tick && !crosses(v, side, tick)
            &&& in_window(v.header, t)
            &&& in_window(v.header, tick)
            &&& tick <= v.header.tick_limit
        }),
{
    let opp = side.spec_opposite();
    let b = v.best(opp);
    lemma_has_best(v, opp);
    lemma_best_in_window(v, opp, b);
    if crosses(v, side, tick) {
        let j = choose|j: u16| #[trigger]
            v.orders.contains_key(j) && v.orders[j].side != side && match side {
                Side::Bid => v.orders[j].tick <= tick,
                Side::Ask => v.orders[j].tick >= tick,
            };
        assert(v.orders[j].side == opp);
        lemma_some_best(v, opp, j);
    } else if b is Some {
        let j = choose|j: u16|
            #[trigger] v.orders.contains_key(j) && v.orders[j].side == opp && v.orders[j].tick
                == b->0;
        assert(v.orders.contains_key(j));
    }
}

/// A quote that is accepted rests with the side, the lots and the expiry that
/// were asked for, at its own tick, or one tick off the opposing best if it
/// may slide; no other order changes.
#[verifier::rlimit(30)]
pub proof fn lemma_upsert_rests(v: BookView, o: Order, slide: bool)
    requires
        v.ok(),
        supplied(v),
        o.maker < 128,
        !no_owner(v.seats[o.maker as int].owner@),
        o.lots > 0,
        v.upsert(o, slide).1 is Ok,
    ensures
        ({
            let (w, r) = v.upsert(o, slide);
            let i = r->Ok_0;
            let t = w.orders[i].tick;
            &&& quote_rests(v, w, o.maker, o.side, t, o.lots, o.expiry_slot, i)
            &&& resting_place(v, o.side, o.tick, t)
            &&& !slide ==> t == o.tick && !crosses(v, o.side, o.tick)
            &&& in_window(v.header, t)
            &&& o.lots <= v.header.max_lots_per_order
            &&& w.header.order_seq as int == if v.orders.contains_key(i) && v.orders[i].lots
                >= o.lots {
                v.header.order_seq as int
            } else {
                w.orders[i].seq + 1
            }
        }),
{
    let s = o.maker as int;
    let opp = o.side.spec_opposite();
    let b = v.best(opp);
    lemma_resting_place(v, o.side, o.tick, slide);
    let t = slid(v.header, o.side, o.tick, slide, b)->Ok_0;
    let (w, r) = v.upsert(o, slide);
    let i = r->Ok_0;
    lemma_quote_at(v, s, o.side, t);
    match v.quote_at(s, o.side, t) {
        None => {
            assert(v.free.contains(v.free[0]));
            assert(!v.orders.contains_key(i));
        },
        Some(j) => {
            assert(v.orders.contains_key(j));
            assert(v.order_ok(j));
            if o.lots > v.orders[j].lots {
                assert(v.killed(j).free[0] == j);
            }
        },
    }
}

/// A quote of no lots ends the seat's quote at that price, if it has one, and
/// changes no other order; without one it is refused.
pub proof fn lemma_upsert_ends(v: BookView, o: Order, slide: bool)
    requires
        v.ok(),
        o.maker < 128,
        o.lots == 0,
        in_window(v.header, o.tick),
    ensures
        ({
            let (w, r) = v.upsert(o, slide);
            match r {
                Ok(i) => {
                    &&& v.orders.contains_key(i)
                    &&& v.orders[i].maker == o.maker
                    &&& v.orders[i].side == o.side
                    &&& v.orders[i].tick == o.tick
                    &&& !w.orders.contains_key(i)
                    &&& same_but(v, w, i)
                },
                Err(e) => {
                    &&& e == clob(ClobError::OrderNotFound)
                    &&& w == v
                    &&& forall|i: u16| #[trigger]
                        v.orders.contains_key(i) && v.orders[i].maker == o.maker
                            && v.orders[i].side == o.side ==> v.orders[i].tick != o.tick
                },
            }
        }),
{
    let s = o.maker as int;
    lemma_quote_at(v, s, o.side, o.tick);
}

/// A quote that may be posted is: at a price of the window that no other order
/// of the seat has and that meets no order of the other side, within the
/// largest order, with enough free balance, a node and a place in the chain.
pub proof fn lemma_upsert_accepts(v: BookView, o: Order, slide: bool)
    requires
        v.ok(),
        o.maker < 128,
        1 <= o.lots <= v.header.max_lots_per_order,
        in_window(v.header, o.tick),
        !crosses(v, o.side, o.tick),
        forall|i: u16| #[trigger]
            v.orders.contains_key(i) && v.orders[i].maker == o.maker && v.orders[i].side == o.side
                ==> v.orders[i].tick != o.tick,
        v.chains[o.maker as int].len() < 128,
        v.free.len() > 0,
        match o.side {
            Side::Bid => v.seats[o.maker as int].quote_free >= o.tick * v.header.tick_size
                * o.lots,
            Side::Ask => v.seats[o.maker as int].base_free >= o.lots * v.header.base_lot_size,
        },
    ensures
        v.upsert(o, slide).1 is Ok,
{
    let s = o.maker as int;
    let opp = o.side.spec_opposite();
    let b = v.best(opp);
    lemma_has_best(v, opp);
    if b is Some {
        let j = choose|j: u16|
            #[trigger] v.orders.contains_key(j) && v.orders[j].side == opp && v.orders[j].tick
                == b->0;
        assert(v.orders.contains_key(j));
    }
    lemma_quote_at(v, s, o.side, o.tick);
}

/// A pass of the order's seat led from `v` to `x`: the seat got what the
/// orders that it met gave up, each at its own price, and paid the fee.
pub open spec fn traded_to(v: BookView, x: BookView, d: PlaceLimit, slot: u64) -> bool {
    let s = d.seat_index as int;
    let h = v.header;
    let t = Taker { side: d.side, limit: d.tick, seat: d.seat_index, now: slot };
    let n = t.lots(v, x);
    &&& 0 <= n <= d.lots
    &&& n == d.lots || swept(x, d.side, d.tick)
    &&& x.header.fees_accrued_quote == h.fees_accrued_quote + t.fee(v, x)
    &&& match d.side {
        Side::Bid => {
            &&& held(x.seats[s], true) == held(v.seats[s], true) + n * h.base_lot_size
            &&& held(x.seats[s], false) == held(v.seats[s], false) - t.quote(v, x) - t.fee(v, x)
        },
        Side::Ask => {
            &&& held(x.seats[s], true) == held(v.seats[s], true) - n * h.base_lot_size
            &&& held(x.seats[s], false) == held(v.seats[s], false) + t.quote(v, x) - t.fee(v, x)
        },
    }
}

/// First a trade from `v` to `x`, then what is left of the order rests in `w`.
pub open spec fn traded_and_rested(
    v: BookView,
    x: BookView,
    w: BookView,
    d: PlaceLimit,
    slot: u64,
) -> bool {
    let t = Taker { side: d.side, limit: d.tick, seat: d.seat_index, now: slot };
    let n = t.lots(v, x);
    &&& traded_to(v, x, d, slot)
    &&& n == d.lots ==> w.orders == x.orders
    &&& n < d.lots ==> exists|i: u16| #[trigger]
        quote_rests(
            x,
            w,
            d.seat_index,
            d.side,
            d.tick,
            (d.lots - n) as u32,
            d.expiry_slot,
            i,
        )
    &&& forall|s: int, base: bool|
        0 <= s < 128 ==> #[trigger] held(w.seats[s], base) == held(x.seats[s], base)
    &&& w.header.fees_accrued_quote == x.header.fees_accrued_quote
}

/// The whole order rests at node `i`, at its own tick or, unless bit 1 of its
/// flags forbids it, one tick off the opposing best.
pub open spec fn only_posted(v: BookView, w: BookView, d: PlaceLimit, i: u16) -> bool {
    let t = w.orders[i].tick;
    &&& quote_rests(v, w, d.seat_index, d.side, t, d.lots, d.expiry_slot, i)
    &&& resting_place(v, d.side, d.tick, t)
    &&& (d.flags / 2) % 2 == 1 ==> t == d.tick && !crosses(v, d.side, d.tick)
}

/// A limit order. With no lots it ends the seat's quote at its price. With bit
/// 0 of its flags it only posts: it rests with its lots and its expiry, at its
/// own tick or, unless bit 1 forbids it, one tick off the opposing best.
/// Without bit 0 it trades first, with every order up to its price, and what
/// is left rests at its own tick with its expiry.
#[verifier::rlimit(60)]
pub proof fn lemma_limit_order(d: PlaceLimit, v: BookView, owner: Seq<u8>, slot: u64)
    requires
        v.ok(),
        market_ok(v.header),
        v.solvent(),
        !no_owner(owner),
        d.outcome(v, owner, slot).1 is Ok,
    ensures
        ({
            let w = d.outcome(v, owner, slot).0;
            let s = d.seat_index as int;
            &&& 0 <= s < 128
            &&& v.seats[s].owner@ == owner
            &&& d.lots == 0 ==> exists|i: u16|
                {
                    &&& #[trigger] v.orders.contains_key(i)
                    &&& v.orders[i].maker == d.seat_index
                    &&& v.orders[i].side == d.side
                    &&& v.orders[i].tick == d.tick
                    &&& !w.orders.contains_key(i)
                    &&& same_but(v, w, i)
                }
            &&& d.lots > 0 && d.flags % 2 == 1 ==> exists|i: u16| #[trigger]
                only_posted(v, w, d, i)
            &&& d.lots > 0 && d.flags % 2 == 0 ==> exists|x: BookView| #[trigger]
                traded_and_rested(v, x, w, d, slot)
        }),
{
    let s = d.seat_index as int;
    let f = d.flags;
    assert((f & 1 != 0) == (f % 2 == 1)) by (bit_vector);
    assert((f & 2 != 0) == ((f / 2) % 2 == 1)) by (bit_vector);
    let w = d.outcome(v, owner, slot).0;
    lemma_supplied(v);
    lemma_market_ok(v.header);
    if d.lots == 0 {
        lemma_resting_place_plain(v, d.side, d.tick);
        let o = d.order(0);
        lemma_upsert_ends(v, o, false);
        let (y, r) = v.upsert(o, false);
        let i = r->Ok_0;
        assert(w.orders == y.orders);
        assert(v.orders.contains_key(i));
        assert(same_but(v, w, i)) by {
            assert forall|j: u16|
                #![trigger w.orders.contains_key(j)]
                #![trigger v.orders.contains_key(j)]
                j != i implies w.orders.contains_key(j) == v.orders.contains_key(j) && (
            v.orders.contains_key(j) ==> w.orders[j] == v.orders[j]) by {
                assert(y.orders.contains_key(j) == v.orders.contains_key(j));
            }
        }
    } else if d.flags % 2 == 1 {
        let o = d.order(d.lots);
        let slide = !d.spec_reject_on_cross();
        lemma_upsert_rests(v, o, slide);
        let (y, r) = v.upsert(o, slide);
        let i = r->Ok_0;
        lemma_rests_same(v, y, w, d, w.orders[i].tick, d.lots, i);
        assert(only_posted(v, w, d, i));
    } else {
        lemma_crossing(d, v, owner, slot);
    }
}

/// A cancel by price names a price of the window.
proof fn lemma_resting_place_plain(v: BookView, side: Side, tick: u32)
    ensures
        slid(v.header, side, tick, false, None) is Ok ==> in_window(v.header, tick),
{
}

proof fn lemma_rests_same(
    v: BookView,
    y: BookView,
    w: BookView,
    d: PlaceLimit,
    tick: u32,
    lots: u32,
    i: u16,
)
    requires
        w.orders == y.orders,
        quote_rests(v, y, d.seat_index, d.side, tick, lots, d.expiry_slot, i),
    ensures
        quote_rests(v, w, d.seat_index, d.side, tick, lots, d.expiry_slot, i),
{
    assert forall|j: u16|
        #![trigger w.orders.contains_key(j)]
        #![trigger v.orders.contains_key(j)]
        j != i implies w.orders.contains_key(j) == v.orders.contains_key(j) && (
    v.orders.contains_key(j) ==> w.orders[j] == v.orders[j]) by {
        assert(y.orders.contains_key(j) == v.orders.contains_key(j));
    }
}

#[verifier::rlimit(60)]
proof fn lemma_crossing(d: PlaceLimit, v: BookView, owner: Seq<u8>, slot: u64)
    requires
        v.ok(),
        market_ok(v.header),
        v.solvent(),
        !no_owner(owner),
        d.lots > 0,
        !d.spec_post_only(),
        d.outcome(v, owner, slot).1 is Ok,
    ensures
        exists|x: BookView| #[trigger]
            traded_and_rested(v, x, d.outcome(v, owner, slot).0, d, slot),
{
    let s = d.seat_index as int;
    let h = v.header;
    let p = d.pass(slot);
    let w = d.outcome(v, owner, slot).0;
    let t = Taker { side: d.side, limit: d.tick, seat: d.seat_index, now: slot };
    let (z, r) = v.taken(p);
    let res = r->Ok_0;
    let x = if res.lots > 0 {
        z.paid(s, d.side, res)->0
    } else {
        z
    };
    lemma_supplied(v);
    lemma_market_ok(h);
    lemma_start(h, p);
    lemma_take_monotone(v, p, TakeResult { lots: 0, quote: 0, fee: 0 }, p.max_lots);
    lemma_traded(v, p);
    lemma_spends(v, p);
    crate::spending::lemma_same_sums(t, v, z, x);
    assert(swept(z, d.side, d.tick) ==> swept(x, d.side, d.tick));
    let ls = h.base_lot_size as int;
    assert(0 * ls == 0) by (nonlinear_arith);
    if res.lots > 0 {
        lemma_settled(v, p);
        lemma_paid_flow(v, p);
    } else {
        lemma_untraded(v, p);
        crate::taker::lemma_tally_fits(h, p, res, (p.max_lots - res.lots) as u32);
        lemma_no_trade(v, p);
    }
    assert(traded_to(v, x, d, slot));
    let rest = (d.lots - res.lots) as u32;
    assert(x.seats[s].owner == v.seats[s].owner);
    if rest > 0 {
        lemma_supplied(x);
        let o = d.order(rest);
        let (y, e) = x.upsert(o, false);
        lemma_upsert_rests(x, o, false);
        lemma_upsert_keeps(x, o, false);
        let i = e->Ok_0;
        lemma_rests_same(x, y, w, d, d.tick, rest, i);
        assert forall|k: int, base: bool| 0 <= k < 128 implies #[trigger] held(w.seats[k], base)
            == held(x.seats[k], base) by {
            assert(held(y.seats[k], base) == held(x.seats[k], base));
        }
    }
    assert(traded_and_rested(v, x, w, d, slot));
}

/// A pass that fills no lots moves no value and charges no fee.
proof fn lemma_no_trade(v: BookView, p: TakeParams)
    requires
        v.ok(),
        crate::model::fees_ok(v.header),
        v.solvent(),
        p.seat < 128,
        v.taken(p).1 is Ok,
        v.taken(p).1->Ok_0.lots == 0,
    ensures
        v.taken(p).1->Ok_0.quote == 0,
        v.taken(p).1->Ok_0.fee == 0,
        held(v.taken(p).0.seats[p.seat as int], true) == held(v.seats[p.seat as int], true),
        held(v.taken(p).0.seats[p.seat as int], false) == held(v.seats[p.seat as int], false),
        v.taken(p).0.header.fees_accrued_quote == v.header.fees_accrued_quote,
{
    let res = TakeResult { lots: 0, quote: 0, fee: 0 };
    let r = v.taken(p).1->Ok_0;
    let h = v.header;
    lemma_start(h, p);
    lemma_supplied(v);
    lemma_take_monotone(v, p, res, p.max_lots);
    crate::flow::lemma_keeps_held(v, p, res, p.max_lots);
    let c = (h.anchor_tick + 8191) * h.tick_size;
    assert(c * 0 == 0) by (nonlinear_arith);
    let b = h.fee_bps as int;
    assert(0 * b == 0) by (nonlinear_arith);
    crate::market::lemma_wrapping(h.fees_accrued_quote as int);
}

} // verus!
