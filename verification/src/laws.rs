//! Laws of the book as a whole.

use crate::constants::FREED_SEQ;
use crate::custody::lemma_has_best;
use crate::flow::lemma_start;
use crate::funding::ClaimSeat;
use crate::lists::lemma_without;
use crate::market::Market;
use crate::matching::{lemma_fill_fits, lemma_level, tally_ok};
use crate::model::{
    fees_ok,
    lemma_finite_below,
    market_ok,
    params_ok,
    slid,
    slot,
    within_limit,
    BookView,
    Order,
};
use crate::opening::is_new;
use crate::orders::{lemma_quote_at, lemma_rank, lemma_rank_agree};
use crate::priority::ahead;
use crate::seat::no_owner;
use crate::side::{Side, TakeParams, TakeResult};
use crate::steps::{lemma_filled, lemma_killed, postable};
use vstd::prelude::*;

verus! {

/// The book never stands crossed or locked: the best bid is below the best
/// ask.
pub proof fn lemma_never_crossed(v: BookView)
    requires
        v.structured(),
    ensures
        v.best(Side::Bid) matches Some(b) ==> v.best(Side::Ask) matches Some(a) ==> b < a,
{
    lemma_has_best(v, Side::Bid);
    lemma_has_best(v, Side::Ask);
    if v.best(Side::Bid) is Some && v.best(Side::Ask) is Some {
        let b = v.best(Side::Bid)->0;
        let a = v.best(Side::Ask)->0;
        let i = choose|i: u16|
            #[trigger] v.orders.contains_key(i) && v.orders[i].side == Side::Bid
                && v.orders[i].tick == b;
        let j = choose|j: u16|
            #[trigger] v.orders.contains_key(j) && v.orders[j].side == Side::Ask
                && v.orders[j].tick == a;
        reveal(BookView::uncrossed);
        assert(v.orders[i].tick < v.orders[j].tick);
    }
}

/// A maker has at most one order at a side and tick.
pub proof fn lemma_one_quote_per_tick(v: BookView, i: u16, j: u16)
    requires
        v.structured(),
        v.orders.contains_key(i),
        v.orders.contains_key(j),
        v.orders[i].maker == v.orders[j].maker,
        v.orders[i].side == v.orders[j].side,
        v.orders[i].tick == v.orders[j].tick,
    ensures
        i == j,
{
    let s = v.orders[i].maker as int;
    let c = v.chains[s];
    assert(v.order_ok(i));
    assert(v.order_ok(j));
    assert(v.chain_ok(s));
    let a = choose|a: int| 0 <= a < c.len() && c[a] == i;
    let b = choose|b: int| 0 <= b < c.len() && c[b] == j;
    if a < b {
        assert(v.orders[c[a]].key() < v.orders[c[b]].key());
    } else if b < a {
        assert(v.orders[c[b]].key() < v.orders[c[a]].key());
    }
}

/// A new order never gets the id that marks a free node, and the next one gets
/// another id.
pub proof fn lemma_order_id(v: BookView, o: Order, k: int)
    requires
        v.structured(),
        v.free.len() > 0,
    ensures
        v.posted(o, k).orders[v.free[0]].seq == v.header.spec_next_id(),
        v.header.spec_next_id() != FREED_SEQ,
        v.posted(o, k).header.spec_next_id() != v.header.spec_next_id(),
{
}

/// No amount overflows at any tick up to the limit, for any order that the
/// market admits, at any fee that it may charge.
pub proof fn lemma_no_overflow(h: Market, tick: u32, lots: u32, fee_bps: u16)
    requires
        params_ok(h),
        market_ok(h),
        tick <= h.tick_limit,
        lots <= h.max_lots_per_order,
        fee_bps <= 500,
    ensures
        tick * h.tick_size * lots * (10_000 + fee_bps) <= u64::MAX,
        tick * h.tick_size * lots <= u64::MAX,
        lots * h.base_lot_size <= u64::MAX,
{
    let t = tick as int;
    let l = h.tick_limit as int;
    let ts = h.tick_size as int;
    let n = lots as int;
    let m = h.max_lots_per_order as int;
    let f = 10_000 + fee_bps;
    assert(0 <= t * ts <= l * ts) by (nonlinear_arith)
        requires
            0 <= t <= l,
            0 <= ts,
    ;
    let a = t * ts;
    let b = l * ts;
    assert(0 <= a * n <= b * m) by (nonlinear_arith)
        requires
            0 <= a <= b,
            0 <= n <= m,
    ;
    let c = a * n;
    let d = b * m;
    assert(0 <= c <= c * f <= d * 10_500) by (nonlinear_arith)
        requires
            0 <= c <= d,
            1 <= f <= 10_500,
    ;
    let ls = h.base_lot_size as int;
    assert(n * ls <= m * ls) by (nonlinear_arith)
        requires
            n <= m,
            ls >= 0,
    ;
}

/// A new order goes behind every order that already rests at its price.
pub proof fn lemma_back_of_queue(v: BookView, o: Order, k: int, j: u16)
    requires
        v.structured(),
        postable(v, o, k),
        v.orders.contains_key(j),
        v.orders[j].side == o.side,
        v.orders[j].tick == o.tick,
    ensures
        ahead(v.posted(o, k), j, v.free[0]),
{
    let w = v.posted(o, k);
    let q = v.queues[slot(o.tick)];
    let i = v.free[0];
    assert(v.free.contains(i));
    assert(v.order_ok(j));
    let x = choose|x: int| 0 <= x < q.len() && q[x] == j;
    let p = w.queues[slot(o.tick)];
    assert(p == q.push(i));
    assert(p[x] == j && p[q.len() as int] == i);
    assert(w.orders[j] == v.orders[j]);
}

/// An order that shrinks or gets a new expiry keeps its place.
pub proof fn lemma_amend_keeps_place(
    v: BookView,
    a: u16,
    lots: u32,
    expiry_slot: u32,
    i: u16,
    j: u16,
)
    requires
        v.structured(),
        v.orders.contains_key(a),
        ahead(v, i, j),
    ensures
        ahead(v.shrunk(a, lots).refreshed(a, expiry_slot), i, j),
{
    let w = v.shrunk(a, lots).refreshed(a, expiry_slot);
    assert(w.queues == v.queues);
    let q = v.queues[slot(v.orders[i].tick)];
    if v.orders[i].tick == v.orders[j].tick {
        let (x, y) = choose|x: int, y: int|
            0 <= x < y < q.len() && #[trigger] q[x] == i && #[trigger] q[y] == j;
        let p = w.queues[slot(w.orders[i].tick)];
        assert(p[x] == i && p[y] == j);
    }
}

/// No seat has more orders than it may.
pub open spec fn seats_in_limit(v: BookView) -> bool {
    forall|s: int| 0 <= s < 128 ==> (#[trigger] v.chains[s]).len() <= 128
}

proof fn lemma_post_limit(v: BookView, o: Order)
    requires
        v.structured(),
        seats_in_limit(v),
        o.maker < 128,
    ensures
        seats_in_limit(v.post(o).0),
{
    let s = o.maker as int;
    let x = v.with_lock(s, o.side, o.tick, o.lots);
    let w = v.post(o).0;
    assert(v.chain_ok(s));
    lemma_rank(v, s, o.key(), 0);
    lemma_rank_agree(v, x, s, o.key(), 0);
    assert forall|t: int| 0 <= t < 128 implies (#[trigger] w.chains[t]).len() <= 128 by {
        assert(v.chains[t].len() <= 128);
    }
}

/// Adding or amending a quote never takes a seat above its number of orders.
pub proof fn lemma_seat_limit(v: BookView, o: Order, slide: bool)
    requires
        v.ok(),
        seats_in_limit(v),
        o.maker < 128,
    ensures
        seats_in_limit(v.upsert(o, slide).0),
{
    let s = o.maker as int;
    if o.lots == 0 {
        lemma_quote_at(v, s, o.side, o.tick);
        if v.quote_at(s, o.side, o.tick) is Some {
            lemma_killed_limit(v, v.quote_at(s, o.side, o.tick)->0);
        }
    } else if o.lots <= v.header.max_lots_per_order {
        match slid(v.header, o.side, o.tick, slide, v.best(o.side.spec_opposite())) {
            Err(_) => {},
            Ok(t) => {
                let n = Order { tick: t, ..o };
                lemma_quote_at(v, s, o.side, t);
                match v.quote_at(s, o.side, t) {
                    None => {
                        lemma_post_limit(v, n);
                    },
                    Some(i) => {
                        let x = v.shrunk(i, o.lots).refreshed(i, o.expiry_slot);
                        assert forall|u: int| 0 <= u < 128 implies (
                        #[trigger] x.chains[u]).len() <= 128 by {
                            assert(v.chains[u].len() <= 128);
                        }
                        lemma_killed(v, i);
                        lemma_killed_limit(v, i);
                        lemma_post_limit(v.killed(i), n);
                    },
                }
            },
        }
    }
}

/// Ending an order shortens its maker's chain.
proof fn lemma_killed_limit(v: BookView, i: u16)
    requires
        v.structured(),
        seats_in_limit(v),
        v.orders.contains_key(i),
    ensures
        seats_in_limit(v.killed(i)),
{
    let s = v.orders[i].maker as int;
    assert(v.order_ok(i));
    assert(v.chain_ok(s));
    lemma_without(v.chains[s], i);
    assert forall|t: int| 0 <= t < 128 implies (#[trigger] v.killed(i).chains[t]).len() <= 128 by {
        assert(v.chains[t].len() <= 128);
    }
}

/// A pass gives no seat more orders.
#[verifier::rlimit(40)]
pub proof fn lemma_pass_limit(v: BookView, p: TakeParams, res: TakeResult, left: u32)
    requires
        v.ok(),
        fees_ok(v.header),
        tally_ok(v.header, p, res, left),
        seats_in_limit(v),
    ensures
        seats_in_limit(v.take_from(p, res, left).0),
    decreases left, v.orders.dom().len(),
{
    let side = p.side.spec_opposite();
    let f = v.front(side);
    let o = v.orders[f];
    let fill = v.fill_of(p, f, res, left);
    if left == 0 || v.best(side) is None || !within_limit(p, v.best(side)->0) {
        assert forall|t: int| 0 <= t < 128 implies (#[trigger] v.with_fees(
            res.fee,
        ).chains[t]).len() <= 128 by {
            assert(v.chains[t].len() <= 128);
        }
    } else {
        lemma_has_best(v, side);
        lemma_level(v, side, v.best(side)->0);
        assert(v.order_ok(f));
        lemma_finite_below(v.orders.dom(), 0x10000);
        if o.tick * v.header.tick_size == 0 {
        } else if o.expired(p.slot) || (o.maker == p.seat && p.self_trade
            != crate::side::SelfTradePolicy::Abort) {
            lemma_killed(v, f);
            lemma_killed_limit(v, f);
            lemma_pass_limit(v.killed(f), p, res, left);
        } else if o.maker == p.seat {
        } else if fill <= 0 {
            assert forall|t: int| 0 <= t < 128 implies (#[trigger] v.with_fees(
                res.fee,
            ).chains[t]).len() <= 128 by {
                assert(v.chains[t].len() <= 128);
            }
        } else {
            lemma_fill_fits(v.header, p, res, left, o.tick, fill);
            lemma_filled(v, f, fill as u32);
            lemma_killed_limit(v, f);
            let x = v.filled(f, fill as u32);
            assert forall|t: int| 0 <= t < 128 implies (#[trigger] x.chains[t]).len() <= 128 by {
                assert(v.chains[t].len() <= 128);
                assert(v.killed(f).chains[t].len() <= 128);
            }
            lemma_pass_limit(
                x,
                p,
                v.with_fill(res, o.tick, fill),
                (left - fill) as u32,
            );
        }
    }
}

/// A claim gives the first vacant seat to its owner and leaves all others as
/// they are; it fails only when every seat is taken.
pub proof fn lemma_claim(v: BookView, owner: [u8; 32])
    requires
        v.ok(),
    ensures
        ({
            let (w, r) = (ClaimSeat).outcome(v, owner);
            match r {
                Ok(s) => {
                    &&& s < 128
                    &&& no_owner(v.seats[s as int].owner@)
                    &&& w.seats[s as int].owner == owner
                    &&& forall|t: int|
                        0 <= t < 128 && t != s ==> #[trigger] w.seats[t] == v.seats[t]
                    &&& forall|t: int| 0 <= t < s ==> !no_owner((#[trigger] v.seats[t]).owner@)
                },
                Err(_) => forall|t: int|
                    0 <= t < 128 ==> !no_owner((#[trigger] v.seats[t]).owner@),
            }
        }),
{
    lemma_first_vacant(v, 0);
}

pub proof fn lemma_first_vacant(v: BookView, k: int)
    requires
        0 <= k <= v.seats.len(),
    ensures
        match v.first_vacant(k) {
            Some(s) => k <= s < v.seats.len() && no_owner(v.seats[s].owner@) && forall|t: int|
                k <= t < s ==> !no_owner((#[trigger] v.seats[t]).owner@),
            None => forall|t: int|
                k <= t < v.seats.len() ==> !no_owner((#[trigger] v.seats[t]).owner@),
        },
    decreases v.seats.len() - k,
{
    if k < v.seats.len() {
        lemma_first_vacant(v, k + 1);
    }
}

/// Every seat has locked exactly what its orders need.
pub open spec fn exact(v: BookView) -> bool {
    forall|s: int, base: bool| 0 <= s < 128 ==> #[trigger] v.surplus(s, base) == 0
}

/// A new market has nothing locked and needs nothing locked.
pub proof fn lemma_new_is_exact(v: BookView)
    requires
        v.ok(),
        is_new(v),
    ensures
        exact(v),
        v.solvent(),
        seats_in_limit(v),
{
    assert forall|s: int| 0 <= s < 128 implies (#[trigger] v.chains[s]).len() == 0 by {
        assert(v.chain_ok(s));
        if v.chains[s].len() > 0 {
            assert(v.orders.contains_key(v.chains[s][0]));
        }
    }
    assert forall|s: int, base: bool| 0 <= s < 128 implies #[trigger] v.surplus(s, base) == 0 by {
        assert(v.chains[s].len() == 0);
        assert(crate::fresh::untouched(v.seats[s]));
        assert(v.needed(s, base) == 0);
    }
}

/// The fee of a pass never exceeds its rate on what was traded.
pub proof fn lemma_fee_bounded(v: BookView, p: TakeParams)
    requires
        v.ok(),
        fees_ok(v.header),
        v.taken(p).1 is Ok,
    ensures
        v.taken(p).1->Ok_0.fee * 10_000 <= v.taken(p).1->Ok_0.quote * v.header.fee_bps,
        v.taken(p).1->Ok_0.lots <= p.max_lots,
        p.max_quote != u64::MAX ==> v.taken(p).1->Ok_0.quote + v.taken(p).1->Ok_0.fee
            <= p.max_quote,
{
    lemma_start(v.header, p);
    crate::flow::lemma_take_monotone(
        v,
        p,
        TakeResult { lots: 0, quote: 0, fee: 0 },
        p.max_lots,
    );
}

} // verus!
