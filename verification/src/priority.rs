//! Laws of matching: who trades first, at which price, and what is left alone.

use crate::custody::lemma_has_best;
use crate::lists::{lemma_index_of, without};
use crate::market::Market;
use crate::matching::{lemma_fill_fits, lemma_level, tally_ok};
use crate::model::{
    fees_ok,
    in_window,
    lemma_finite_below,
    slid,
    slot,
    within_limit,
    BookView,
    Order,
};
use crate::side::{Side, TakeParams, TakeResult};
use crate::steps::{lemma_filled, lemma_killed};
use vstd::prelude::*;

verus! {

/// Order `i` trades before order `j`: a better price, or the same price and an
/// earlier place in its queue.
pub open spec fn ahead(v: BookView, i: u16, j: u16) -> bool {
    let a = v.orders[i];
    let b = v.orders[j];
    let q = v.queues[slot(a.tick)];
    &&& v.orders.contains_key(i)
    &&& v.orders.contains_key(j)
    &&& a.side == b.side
    &&& better(a.side, a.tick, b.tick) || (a.tick == b.tick && exists|x: int, y: int|
        0 <= x < y < q.len() && #[trigger] q[x] == i && #[trigger] q[y] == j)
}

/// `a` is the better price on `side`: bids from above, asks from below.
pub open spec fn better(side: Side, a: u32, b: u32) -> bool {
    match side {
        Side::Bid => a > b,
        Side::Ask => a < b,
    }
}

/// No order is ahead of the one that a pass takes next.
pub proof fn lemma_front_is_first(v: BookView, side: Side, j: u16)
    requires
        v.structured(),
        v.best(side) is Some,
    ensures
        !ahead(v, j, v.front(side)),
{
    lemma_has_best(v, side);
    let t = v.best(side)->0;
    lemma_level(v, side, t);
    let f = v.front(side);
    let q = v.queues[slot(t)];
    if ahead(v, j, f) {
        assert(v.orders.contains_key(j));
        assert(v.queue_ok(slot(t)));
        let (x, y) = choose|x: int, y: int|
            0 <= x < y < q.len() && #[trigger] q[x] == j && #[trigger] q[y] == f;
        assert(q[0] == f);
        assert(q[y] == q[0]);
    }
}

/// The front order ends or trades: the order of the others stays.
proof fn lemma_ahead_kept(v: BookView, x: BookView, side: Side, i: u16, j: u16)
    requires
        v.structured(),
        v.best(side) is Some,
        x.orders.contains_key(i),
        x.orders.contains_key(j),
        forall|a: u16|
            #[trigger] x.orders.contains_key(a) ==> v.orders.contains_key(a) && x.orders[a].tick
                == v.orders[a].tick && x.orders[a].side == v.orders[a].side,
        ({
            let f = v.front(side);
            let s = slot(v.orders[f].tick);
            x.queues == v.queues || (!x.orders.contains_key(f) && x.queues == v.queues.update(
                s,
                without(v.queues[s], f),
            ))
        }),
        ahead(v, i, j),
    ensures
        ahead(x, i, j),
{
    lemma_has_best(v, side);
    let t = v.best(side)->0;
    lemma_level(v, side, t);
    let f = v.front(side);
    let s = slot(t);
    let a = v.orders[i];
    assert(v.order_ok(i));
    if a.tick == v.orders[j].tick {
        let q = v.queues[slot(a.tick)];
        let (m, n) = choose|m: int, n: int|
            0 <= m < n < q.len() && #[trigger] q[m] == i && #[trigger] q[n] == j;
        assert(v.queue_ok(s));
        if x.queues != v.queues && slot(a.tick) == s {
            lemma_index_of(q, f, 0);
            let p = without(q, f);
            assert(p =~= q.remove(0));
            assert(m > 0);
            assert(p[m - 1] == i && p[n - 1] == j);
            assert(x.queues[s] == p);
        } else {
            assert(x.queues[slot(a.tick)] == q);
        }
    }
}

/// Price and time priority: as long as an order rests after a pass, every
/// order behind it is exactly as it was before.
#[verifier::rlimit(40)]
pub proof fn lemma_priority(
    v: BookView,
    p: TakeParams,
    res: TakeResult,
    left: u32,
    i: u16,
    j: u16,
)
    requires
        v.ok(),
        fees_ok(v.header),
        tally_ok(v.header, p, res, left),
        ahead(v, i, j),
        v.take_from(p, res, left).0.orders.contains_key(i),
    ensures
        v.take_from(p, res, left).0.orders.contains_key(j),
        v.take_from(p, res, left).0.orders[j] == v.orders[j],
    decreases left, v.orders.dom().len(),
{
    let side = p.side.spec_opposite();
    let f = v.front(side);
    let o = v.orders[f];
    let fill = v.fill_of(p, f, res, left);
    if left == 0 || v.best(side) is None || !within_limit(p, v.best(side)->0) {
    } else {
        lemma_has_best(v, side);
        lemma_level(v, side, v.best(side)->0);
        assert(v.order_ok(f));
        lemma_finite_below(v.orders.dom(), 0x10000);
        lemma_front_is_first(v, side, i);
        assert(j != f);
        if o.tick * v.header.tick_size == 0 {
        } else if o.expired(p.slot) || (o.maker == p.seat && p.self_trade
            != crate::side::SelfTradePolicy::Abort) {
            let x = v.killed(f);
            lemma_killed(v, f);
            lemma_taken_subset(x, p, res, left, i);
            lemma_ahead_kept(v, x, side, i, j);
            lemma_priority(x, p, res, left, i, j);
        } else if o.maker == p.seat || fill <= 0 {
        } else {
            lemma_fill_fits(v.header, p, res, left, o.tick, fill);
            lemma_filled(v, f, fill as u32);
            let x = v.filled(f, fill as u32);
            let res2 = v.with_fill(res, o.tick, fill);
            let left2 = (left - fill) as u32;
            lemma_taken_subset(x, p, res2, left2, i);
            lemma_ahead_kept(v, x, side, i, j);
            lemma_priority(x, p, res2, left2, i, j);
        }
    }
}

/// An order with what it may lose in a pass: lots.
pub open spec fn same_but_lots(a: Order, b: Order) -> bool {
    b == (Order { lots: b.lots, ..a }) && 1 <= b.lots <= a.lots
}

/// A pass makes no order: every order that rests after it rested before, with
/// the same terms and at most as many lots.
#[verifier::rlimit(40)]
pub proof fn lemma_taken_subset(v: BookView, p: TakeParams, res: TakeResult, left: u32, i: u16)
    requires
        v.ok(),
        fees_ok(v.header),
        tally_ok(v.header, p, res, left),
        v.take_from(p, res, left).0.orders.contains_key(i),
    ensures
        v.orders.contains_key(i),
        same_but_lots(v.orders[i], v.take_from(p, res, left).0.orders[i]),
    decreases left, v.orders.dom().len(),
{
    let side = p.side.spec_opposite();
    let f = v.front(side);
    let o = v.orders[f];
    let fill = v.fill_of(p, f, res, left);
    if left == 0 || v.best(side) is None || !within_limit(p, v.best(side)->0) {
        assert(v.order_ok(i));
    } else {
        lemma_has_best(v, side);
        lemma_level(v, side, v.best(side)->0);
        assert(v.order_ok(f));
        lemma_finite_below(v.orders.dom(), 0x10000);
        if v.orders.contains_key(i) {
            assert(v.order_ok(i));
        }
        if o.tick * v.header.tick_size == 0 {
        } else if o.expired(p.slot) || (o.maker == p.seat && p.self_trade
            != crate::side::SelfTradePolicy::Abort) {
            lemma_killed(v, f);
            lemma_taken_subset(v.killed(f), p, res, left, i);
        } else if o.maker == p.seat || fill <= 0 {
        } else {
            lemma_fill_fits(v.header, p, res, left, o.tick, fill);
            lemma_filled(v, f, fill as u32);
            lemma_taken_subset(
                v.filled(f, fill as u32),
                p,
                v.with_fill(res, o.tick, fill),
                (left - fill) as u32,
                i,
            );
        }
    }
}

/// An order that a pass with these parameters may trade against: of the other
/// side, within the limit, live, and not the taker's own.
pub open spec fn tradable(p: TakeParams, o: Order) -> bool {
    &&& o.side == p.side.spec_opposite()
    &&& within_limit(p, o.tick)
    &&& !o.expired(p.slot)
    &&& o.maker != p.seat
}

/// A pass trades only against tradable orders: any other order rests on
/// unchanged or, if it is in the way, ends with its lock refunded.
#[verifier::rlimit(40)]
pub proof fn lemma_untradable(v: BookView, p: TakeParams, res: TakeResult, left: u32, i: u16)
    requires
        v.ok(),
        fees_ok(v.header),
        tally_ok(v.header, p, res, left),
        v.orders.contains_key(i),
        !tradable(p, v.orders[i]),
        v.take_from(p, res, left).0.orders.contains_key(i),
    ensures
        v.take_from(p, res, left).0.orders[i] == v.orders[i],
    decreases left, v.orders.dom().len(),
{
    let side = p.side.spec_opposite();
    let f = v.front(side);
    let o = v.orders[f];
    let fill = v.fill_of(p, f, res, left);
    if left == 0 || v.best(side) is None || !within_limit(p, v.best(side)->0) {
    } else {
        lemma_has_best(v, side);
        lemma_level(v, side, v.best(side)->0);
        assert(v.order_ok(f));
        lemma_finite_below(v.orders.dom(), 0x10000);
        if o.tick * v.header.tick_size == 0 {
        } else if o.expired(p.slot) || (o.maker == p.seat && p.self_trade
            != crate::side::SelfTradePolicy::Abort) {
            lemma_killed(v, f);
            lemma_taken_subset(v.killed(f), p, res, left, i);
            lemma_untradable(v.killed(f), p, res, left, i);
        } else if o.maker == p.seat || fill <= 0 {
        } else {
            lemma_fill_fits(v.header, p, res, left, o.tick, fill);
            lemma_filled(v, f, fill as u32);
            let x = v.filled(f, fill as u32);
            assert(i != f);
            lemma_taken_subset(
                x,
                p,
                v.with_fill(res, o.tick, fill),
                (left - fill) as u32,
                i,
            );
            lemma_untradable(x, p, v.with_fill(res, o.tick, fill), (left - fill) as u32, i);
        }
    }
}

/// `quote` for `lots` is no worse than the limit price.
pub open spec fn at_limit_or_better(h: Market, p: TakeParams, res: TakeResult) -> bool {
    match p.side {
        Side::Bid => res.quote <= p.limit_tick * h.tick_size * res.lots,
        Side::Ask => res.quote >= p.limit_tick * h.tick_size * res.lots,
    }
}

/// A taker never trades at a worse average price than its limit.
#[verifier::rlimit(40)]
pub proof fn lemma_limit_respected(v: BookView, p: TakeParams, res: TakeResult, left: u32)
    requires
        v.ok(),
        fees_ok(v.header),
        tally_ok(v.header, p, res, left),
        at_limit_or_better(v.header, p, res),
        v.take_from(p, res, left).1 is Ok,
    ensures
        at_limit_or_better(v.header, p, v.take_from(p, res, left).1->Ok_0),
    decreases left, v.orders.dom().len(),
{
    let side = p.side.spec_opposite();
    let f = v.front(side);
    let o = v.orders[f];
    let fill = v.fill_of(p, f, res, left);
    if left == 0 || v.best(side) is None || !within_limit(p, v.best(side)->0) {
    } else {
        lemma_has_best(v, side);
        lemma_level(v, side, v.best(side)->0);
        assert(v.order_ok(f));
        lemma_finite_below(v.orders.dom(), 0x10000);
        if o.expired(p.slot) || o.maker == p.seat {
            lemma_killed(v, f);
            lemma_limit_respected(v.killed(f), p, res, left);
        } else if fill <= 0 {
        } else {
            lemma_fill_fits(v.header, p, res, left, o.tick, fill);
            lemma_filled(v, f, fill as u32);
            let res2 = v.with_fill(res, o.tick, fill);
            let ts = v.header.tick_size as int;
            let a = o.tick as int;
            let l = p.limit_tick as int;
            let n = res.lots as int;
            assert(l * ts * (n + fill) == l * ts * n + l * ts * fill) by (nonlinear_arith);
            if p.side == Side::Bid {
                assert(a * ts * fill <= l * ts * fill) by (nonlinear_arith)
                    requires
                        0 <= a <= l,
                        ts >= 0,
                        fill >= 0,
                ;
            } else {
                assert(a * ts * fill >= l * ts * fill) by (nonlinear_arith)
                    requires
                        a >= l >= 0,
                        ts >= 0,
                        fill >= 0,
                ;
            }
            lemma_limit_respected(
                v.filled(f, fill as u32),
                p,
                res2,
                (left - fill) as u32,
            );
        }
    }
}

/// A whole pass never trades at a worse average price than its limit.
pub proof fn lemma_pass_respects_limit(v: BookView, p: TakeParams)
    requires
        v.ok(),
        fees_ok(v.header),
        v.taken(p).1 is Ok,
    ensures
        at_limit_or_better(v.header, p, v.taken(p).1->Ok_0),
{
    crate::flow::lemma_start(v.header, p);
    let l = p.limit_tick * v.header.tick_size;
    assert(l * 0 == 0) by (nonlinear_arith);
    lemma_limit_respected(v, p, TakeResult { lots: 0, quote: 0, fee: 0 }, p.max_lots);
}

/// Nothing that rests on the other side is within the limit.
pub open spec fn exhausted(v: BookView, p: TakeParams) -> bool {
    match v.best(p.side.spec_opposite()) {
        None => true,
        Some(t) => !within_limit(p, t),
    }
}

/// Orders decide the best price.
pub proof fn lemma_same_best(v: BookView, w: BookView, side: Side)
    requires
        w.orders == v.orders,
    ensures
        w.best(side) == v.best(side),
{
    assert forall|t: u32| w.is_best(side, t) == v.is_best(side, t) by {
        assert(w.quoted(side, t as int) == v.quoted(side, t as int));
    }
    if exists|t: u32| v.is_best(side, t) {
        let t = choose|t: u32| v.is_best(side, t);
        assert(w.is_best(side, t));
        crate::orders::lemma_best_unique(v, side, t);
        crate::orders::lemma_best_unique(w, side, t);
    }
}

/// A pass without a quote budget fills completely, or takes everything within
/// its limit.
#[verifier::rlimit(40)]
pub proof fn lemma_exhausts(v: BookView, p: TakeParams, res: TakeResult, left: u32)
    requires
        v.ok(),
        fees_ok(v.header),
        tally_ok(v.header, p, res, left),
        left == p.max_lots - res.lots,
        p.max_quote == u64::MAX,
        v.take_from(p, res, left).1 is Ok,
    ensures
        v.take_from(p, res, left).1->Ok_0.lots == p.max_lots || exhausted(
            v.take_from(p, res, left).0,
            p,
        ),
    decreases left, v.orders.dom().len(),
{
    let side = p.side.spec_opposite();
    let f = v.front(side);
    let o = v.orders[f];
    let fill = v.fill_of(p, f, res, left);
    if left == 0 || v.best(side) is None || !within_limit(p, v.best(side)->0) {
        lemma_same_best(v, v.with_fees(res.fee), side);
    } else {
        lemma_has_best(v, side);
        lemma_level(v, side, v.best(side)->0);
        assert(v.order_ok(f));
        lemma_finite_below(v.orders.dom(), 0x10000);
        if o.expired(p.slot) || o.maker == p.seat {
            lemma_killed(v, f);
            lemma_exhausts(v.killed(f), p, res, left);
        } else {
            lemma_fill_fits(v.header, p, res, left, o.tick, fill);
            lemma_filled(v, f, fill as u32);
            lemma_exhausts(
                v.filled(f, fill as u32),
                p,
                v.with_fill(res, o.tick, fill),
                (left - fill) as u32,
            );
        }
    }
}

/// The remainder of a limit order never crosses: after its pass, its tick may
/// rest as it is.
pub proof fn lemma_remainder_rests(v: BookView, p: TakeParams)
    requires
        v.ok(),
        fees_ok(v.header),
        p.max_quote == u64::MAX,
        v.taken(p).1 is Ok,
        v.taken(p).1->Ok_0.lots < p.max_lots,
        in_window(v.header, p.limit_tick),
    ensures
        ({
            let w = v.taken(p).0;
            slid(
                w.header,
                p.side,
                p.limit_tick,
                false,
                w.best(p.side.spec_opposite()),
            ) == Ok::<u32, crate::errors::ProgramError>(p.limit_tick)
        }),
{
    let res = TakeResult { lots: 0, quote: 0, fee: 0 };
    crate::flow::lemma_start(v.header, p);
    lemma_exhausts(v, p, res, p.max_lots);
    crate::flow::lemma_take_monotone(v, p, res, p.max_lots);
}

} // verus!
