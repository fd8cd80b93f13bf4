//! Laws of takers: what a taker pays and gets, and that it stops only when it
//! has what it asked for, when nothing within its limit is left, or when its
//! budget buys no more.

use crate::custody::{lemma_has_best, lemma_some_best};
use crate::flow::{lemma_paid_flow, lemma_start, lemma_take_monotone};
use crate::ledger::lemma_swap;
use crate::market::Market;
use crate::matching::{lemma_fill_fits, lemma_level, tally_ok};
use crate::model::{
    fees_ok,
    held,
    lemma_finite_below,
    lemma_market_ok,
    market_ok,
    within_limit,
    BookView,
};
use crate::priority::lemma_same_best;
use crate::side::{Side, TakeParams, TakeResult};
use crate::steps::{lemma_filled, lemma_killed};
use crate::taker::{PlaceTake, Swap};
use crate::trades::{lemma_nothing, lemma_traded, Taker};
use vstd::prelude::*;

verus! {

/// `budget` quote atoms do not buy one lot at `tick`, fee included. A budget
/// counts up to the largest amount whose fee fits in 64 bits.
pub open spec fn too_little(h: Market, budget: int, tick: u32) -> bool {
    let most = u64::MAX as int / (10_000 + h.fee_bps);
    let counted = if budget < most {
        budget
    } else {
        most
    };
    counted * 10_000 < tick * h.tick_size * (10_000 + h.fee_bps)
}

/// Nothing is left on the other side of a taker that is within its limit.
pub open spec fn swept(w: BookView, side: Side, limit: u32) -> bool {
    forall|i: u16| #[trigger]
        w.orders.contains_key(i) && w.orders[i].side != side ==> match side {
            Side::Bid => w.orders[i].tick > limit,
            Side::Ask => w.orders[i].tick < limit,
        }
}

proof fn lemma_swept(w: BookView, p: TakeParams)
    requires
        w.structured(),
        match w.best(p.side.spec_opposite()) {
            None => true,
            Some(t) => !within_limit(p, t),
        },
    ensures
        swept(w, p.side, p.limit_tick),
{
    let side = p.side.spec_opposite();
    lemma_has_best(w, side);
    assert forall|i: u16| #[trigger]
        w.orders.contains_key(i) && w.orders[i].side != p.side implies match p.side {
        Side::Bid => w.orders[i].tick > p.limit_tick,
        Side::Ask => w.orders[i].tick < p.limit_tick,
    } by {
        assert(w.orders[i].side == side);
        lemma_some_best(w, side, i);
    }
}

proof fn lemma_nothing_affordable(price: int, fee_bps: int, capped: int)
    requires
        price > 0,
        fee_bps >= 0,
        capped >= 0,
        capped * 10_000 / (10_000 + fee_bps) / price <= 0,
    ensures
        capped * 10_000 < price * (10_000 + fee_bps),
{
    let d = 10_000 + fee_bps;
    let n = capped * 10_000;
    let q = n / d;
    assert(q < price) by (nonlinear_arith)
        requires
            q / price <= 0,
            price > 0,
            q >= 0 || q < 0,
    ;
    assert(n < (q + 1) * d) by (nonlinear_arith)
        requires
            q == n / d,
            d > 0,
    ;
    assert((q + 1) * d <= price * d) by (nonlinear_arith)
        requires
            q + 1 <= price,
            d > 0,
    ;
}

#[verifier::rlimit(40)]
proof fn lemma_spends_from(v: BookView, p: TakeParams, res: TakeResult, left: u32)
    requires
        v.ok(),
        fees_ok(v.header),
        tally_ok(v.header, p, res, left),
        v.take_from(p, res, left).1 is Ok,
    ensures
        ({
            let (w, x) = v.take_from(p, res, left);
            let r = x->Ok_0;
            ||| r.lots == p.max_lots
            ||| swept(w, p.side, p.limit_tick)
            ||| p.max_quote != u64::MAX && w.best(p.side.spec_opposite()) is Some && too_little(
                v.header,
                p.max_quote - r.quote - r.fee,
                w.best(p.side.spec_opposite())->0,
            )
        }),
    decreases left, v.orders.dom().len(),
{
    let side = p.side.spec_opposite();
    let f = v.front(side);
    let o = v.orders[f];
    let fill = v.fill_of(p, f, res, left);
    let w = v.take_from(p, res, left).0;
    if left == 0 || v.best(side) is None || !within_limit(p, v.best(side)->0) {
        lemma_same_best(v, w, side);
        if left != 0 {
            lemma_swept(v, p);
            assert(swept(w, p.side, p.limit_tick)) by {
                assert forall|i: u16| #[trigger] w.orders.contains_key(i) implies
                    v.orders.contains_key(i) by {}
            }
        }
    } else {
        lemma_has_best(v, side);
        lemma_level(v, side, v.best(side)->0);
        assert(v.order_ok(f));
        lemma_finite_below(v.orders.dom(), 0x10000);
        if o.expired(p.slot) || o.maker == p.seat {
            lemma_killed(v, f);
            lemma_spends_from(v.killed(f), p, res, left);
        } else if fill <= 0 {
            lemma_same_best(v, w, side);
            let h = v.header;
            let price = o.tick * h.tick_size;
            let budget = p.max_quote - res.quote - res.fee;
            let most = u64::MAX as int / (10_000 + h.fee_bps);
            let counted = if budget < most {
                budget
            } else {
                most
            };
            lemma_nothing_affordable(price, h.fee_bps as int, counted);
        } else {
            lemma_fill_fits(v.header, p, res, left, o.tick, fill);
            lemma_filled(v, f, fill as u32);
            lemma_spends_from(
                v.filled(f, fill as u32),
                p,
                v.with_fill(res, o.tick, fill),
                (left - fill) as u32,
            );
        }
    }
}

/// A pass ends only when all its lots are filled, nothing within its limit is
/// left, or what is left of its budget does not buy one lot more.
pub proof fn lemma_spends(v: BookView, p: TakeParams)
    requires
        v.ok(),
        fees_ok(v.header),
        v.taken(p).1 is Ok,
    ensures
        ({
            let (w, x) = v.taken(p);
            let r = x->Ok_0;
            ||| r.lots == p.max_lots
            ||| swept(w, p.side, p.limit_tick)
            ||| p.max_quote != u64::MAX && w.best(p.side.spec_opposite()) is Some && too_little(
                v.header,
                p.max_quote - r.quote - r.fee,
                w.best(p.side.spec_opposite())->0,
            )
        }),
{
    lemma_start(v.header, p);
    lemma_spends_from(v, p, TakeResult { lots: 0, quote: 0, fee: 0 }, p.max_lots);
}

/// A buying swap pays for the lots that it gets, each at its maker's price,
/// and the fee; the rest of what arrived is refunded. It ends only when it has
/// as many lots as one order may, when no ask within its limit is left, or
/// when the refund does not buy one lot more, fee included.
#[verifier::rlimit(30)]
pub proof fn lemma_swap_buys(d: Swap, v: BookView, delta: u64, slot: u64)
    requires
        v.ok(),
        market_ok(v.header),
        v.solvent(),
        d.side == Side::Bid,
        v.owed(false) + delta <= u64::MAX,
        d.outcome(v, delta, slot).1 is Ok,
    ensures
        ({
            let (w, r) = d.outcome(v, delta, slot);
            let o = r->Ok_0;
            let h = v.header;
            let t = Taker { side: Side::Bid, limit: d.limit_tick, seat: 65535, now: slot };
            let n = t.lots(v, w);
            let fee = w.header.fees_accrued_quote - h.fees_accrued_quote;
            &&& o.out == n * h.base_lot_size
            &&& o.out >= d.min_out
            &&& delta - o.refund == t.quote(v, w) + fee
            &&& fee <= t.fee(v, w)
            &&& t.quote(v, w) * h.fee_bps - fee * 10_000 <= 9_999 * n
            &&& 0 <= n <= h.max_lots_per_order
            &&& n == h.max_lots_per_order || swept(w, Side::Bid, d.limit_tick) || (w.best(
                Side::Ask,
            ) is Some && too_little(h, o.refund as int, w.best(Side::Ask)->0))
        }),
{
    let h = v.header;
    let p = d.pass(h, delta, slot);
    let (w, x) = v.taken(p);
    let r = x->Ok_0;
    let y = d.outcome(v, delta, slot).0;
    let t = Taker { side: Side::Bid, limit: d.limit_tick, seat: 65535, now: slot };
    lemma_market_ok(h);
    lemma_start(h, p);
    lemma_take_monotone(v, p, TakeResult { lots: 0, quote: 0, fee: 0 }, p.max_lots);
    crate::taker::lemma_tally_fits(h, p, r, (p.max_lots - r.lots) as u32);
    crate::taker::lemma_used(d, h, p, r, delta, slot);
    lemma_swap(d, v, delta, slot);
    lemma_traded(v, p);
    lemma_spends(v, p);
    lemma_same_sums(t, v, w, y);
    lemma_same_best(w, y, Side::Ask);
    crate::flow::lemma_total_nonneg(v.seats, false);
    crate::market::lemma_wrapping(h.fees_accrued_quote + r.fee);
    assert(swept(w, Side::Bid, d.limit_tick) ==> swept(y, Side::Bid, d.limit_tick));
}

/// What was traded is a matter of the orders.
pub proof fn lemma_same_sums(t: Taker, v: BookView, w: BookView, y: BookView)
    requires
        y.orders == w.orders,
    ensures
        t.lots(v, y) == t.lots(v, w),
        t.quote(v, y) == t.quote(v, w),
        t.fee(v, y) == t.fee(v, w),
{
    assert(t.lots_of(v, y) =~= t.lots_of(v, w));
    assert(t.quote_of(v, y) =~= t.quote_of(v, w));
    assert(t.fee_of(v, y) =~= t.fee_of(v, w));
}

/// A selling swap gives the lots that it sells, and gets for each its maker's
/// price, less the fee; the rest of what arrived is refunded. It ends only
/// when it has sold as many lots as one order may, when no bid within its
/// limit is left, or when the refund is less than a lot.
#[verifier::rlimit(30)]
pub proof fn lemma_swap_sells(d: Swap, v: BookView, delta: u64, slot: u64)
    requires
        v.ok(),
        market_ok(v.header),
        v.solvent(),
        d.side == Side::Ask,
        v.owed(true) + delta <= u64::MAX,
        d.outcome(v, delta, slot).1 is Ok,
    ensures
        ({
            let (w, r) = d.outcome(v, delta, slot);
            let o = r->Ok_0;
            let h = v.header;
            let t = Taker { side: Side::Ask, limit: d.limit_tick, seat: 65535, now: slot };
            let n = t.lots(v, w);
            let fee = w.header.fees_accrued_quote - h.fees_accrued_quote;
            &&& delta - o.refund == n * h.base_lot_size
            &&& o.out == t.quote(v, w) - fee
            &&& o.out >= d.min_out
            &&& fee == t.fee(v, w)
            &&& 0 <= n <= h.max_lots_per_order
            &&& n == h.max_lots_per_order || swept(w, Side::Ask, d.limit_tick) || o.refund
                < h.base_lot_size
        }),
{
    let h = v.header;
    let p = d.pass(h, delta, slot);
    let y = d.outcome(v, delta, slot).0;
    let t = Taker { side: Side::Ask, limit: d.limit_tick, seat: 65535, now: slot };
    let ls = h.base_lot_size as int;
    let k = delta as int / ls;
    lemma_market_ok(h);
    assert(0 <= k && k * ls <= delta && delta < (k + 1) * ls) by (nonlinear_arith)
        requires
            k == delta as int / ls,
            ls >= 1,
            delta >= 0,
    ;
    assert((k + 1) * ls == k * ls + ls) by (nonlinear_arith);
    assert(0 * ls == 0) by (nonlinear_arith);
    crate::flow::lemma_total_nonneg(v.seats, false);
    if p.max_lots == 0 {
        lemma_nothing(t, v, y);
    } else {
        let (w, x) = v.taken(p);
        let r = x->Ok_0;
        lemma_start(h, p);
        lemma_take_monotone(v, p, TakeResult { lots: 0, quote: 0, fee: 0 }, p.max_lots);
        crate::taker::lemma_tally_fits(h, p, r, (p.max_lots - r.lots) as u32);
        crate::taker::lemma_used(d, h, p, r, delta, slot);
        lemma_swap(d, v, delta, slot);
        lemma_traded(v, p);
        lemma_spends(v, p);
        lemma_same_sums(t, v, w, y);
        assert((r.lots - 0) * ls == r.lots * ls);
        crate::flow::lemma_take_flow(
            v,
            p,
            TakeResult { lots: 0, quote: 0, fee: 0 },
            p.max_lots,
        );
        crate::flow::lemma_total_nonneg(w.seats, false);
        crate::market::lemma_wrapping(h.fees_accrued_quote + r.fee);
        assert(swept(w, Side::Ask, d.limit_tick) ==> swept(y, Side::Ask, d.limit_tick));
    }
}

/// A taker order from a seat: the seat's balances change by the lots that it
/// trades, each at its maker's price, and by the fee on each trade, which the
/// market keeps. It brings in the minimum that it names, and ends only when
/// all its lots are filled or nothing within its limit is left.
#[verifier::rlimit(30)]
pub proof fn lemma_take_settles(d: PlaceTake, v: BookView, owner: Seq<u8>, slot: u64)
    requires
        v.ok(),
        market_ok(v.header),
        v.solvent(),
        d.outcome(v, owner, slot).1 is Ok,
    ensures
        ({
            let w = d.outcome(v, owner, slot).0;
            let h = v.header;
            let s = d.seat_index as int;
            let t = Taker {
                side: d.side,
                limit: d.limit_tick,
                seat: d.seat_index,
                now: slot,
            };
            let n = t.lots(v, w);
            &&& 0 <= s < 128
            &&& v.seats[s].owner@ == owner
            &&& w.header.fees_accrued_quote == h.fees_accrued_quote + t.fee(v, w)
            &&& match d.side {
                Side::Bid => {
                    &&& held(w.seats[s], true) == held(v.seats[s], true) + n * h.base_lot_size
                    &&& held(w.seats[s], false) == held(v.seats[s], false) - t.quote(v, w) - t.fee(
                        v,
                        w,
                    )
                    &&& n * h.base_lot_size >= d.min_out
                },
                Side::Ask => {
                    &&& held(w.seats[s], true) == held(v.seats[s], true) - n * h.base_lot_size
                    &&& held(w.seats[s], false) == held(v.seats[s], false) + t.quote(v, w) - t.fee(
                        v,
                        w,
                    )
                    &&& t.quote(v, w) - t.fee(v, w) >= d.min_out
                },
            }
            &&& 0 <= n <= d.max_lots
            &&& 1 <= d.max_lots <= h.max_lots_per_order
            &&& n == d.max_lots || swept(w, d.side, d.limit_tick)
        }),
{
    let h = v.header;
    let p = d.pass(slot);
    let (w, x) = v.taken(p);
    let r = x->Ok_0;
    let y = d.outcome(v, owner, slot).0;
    let t = Taker { side: d.side, limit: d.limit_tick, seat: d.seat_index, now: slot };
    lemma_market_ok(h);
    lemma_start(h, p);
    lemma_take_monotone(v, p, TakeResult { lots: 0, quote: 0, fee: 0 }, p.max_lots);
    lemma_paid_flow(v, p);
    lemma_traded(v, p);
    lemma_spends(v, p);
    lemma_same_sums(t, v, w, y);
    assert(swept(w, d.side, d.limit_tick) ==> swept(y, d.side, d.limit_tick));
}

} // verus!
