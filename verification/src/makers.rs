//! Laws of makers: each maker gives up, of what its orders offered, exactly the
//! lots that they lost, and is paid its own price for them.

use crate::custody::lemma_has_best;
use crate::flow::{
    lemma_filled_flow,
    lemma_keeps_held,
    lemma_killed_flow,
    lemma_start,
    lemma_take_flow,
    lemma_take_monotone,
    lemma_total_covers,
    lemma_total_nonneg,
    moved,
};
use crate::market::Market;
use crate::matching::{lemma_fill_fits, lemma_level, tally_ok};
use crate::model::{
    fees_ok,
    held,
    lemma_finite_below,
    lemma_market_ok,
    market_ok,
    total_held,
    within_limit,
    BookView,
    Order,
};
use crate::priority::lemma_taken_subset;
use crate::side::{Side, TakeParams, TakeResult};
use crate::steps::{lemma_filled, lemma_killed};
use crate::taker::{lemma_tally_fits, lemma_used, PlaceTake, Swap};
use crate::trades::{lemma_sum_add, lemma_sum_one, lemma_sum_zero, lost, sum, taker_of, Taker};
use vstd::prelude::*;

verus! {

/// What one lot of an order is in one asset, at the order's price.
pub open spec fn unit(h: Market, o: Order, base: bool) -> int {
    if base {
        h.base_lot_size as int
    } else {
        o.tick * h.tick_size
    }
}

impl Taker {
    /// What order `i` traded, where it is of seat `s`.
    pub open spec fn share_of(self, v: BookView, w: BookView, s: int, base: bool) -> spec_fn(
        u16,
    ) -> int {
        |i: u16|
            if v.orders.contains_key(i) && self.meets(v.orders[i]) && v.orders[i].maker == s {
                unit(v.header, v.orders[i], base) * lost(v, w, i)
            } else {
                0
            }
    }

    /// What the orders of seat `s` traded, at their own prices.
    pub open spec fn share(self, v: BookView, w: BookView, s: int, base: bool) -> int {
        sum(self.share_of(v, w, s, base), 0x1_0000)
    }
}

/// What seat `s` holds of an asset changed by what its orders traded: it gives
/// what they offered and gets what they asked for.
pub open spec fn settled_with(t: Taker, v: BookView, w: BookView, s: int, base: bool) -> bool {
    let n = t.share(v, w, s, base);
    held(w.seats[s], base) == held(v.seats[s], base) + if (t.side == Side::Bid) == base {
        -n
    } else {
        n
    }
}

proof fn lemma_no_share(t: Taker, v: BookView, w: BookView, s: int, base: bool)
    requires
        w.orders == v.orders,
    ensures
        t.share(v, w, s, base) == 0,
{
    assert forall|i: u16| #[trigger] t.share_of(v, w, s, base)(i) == 0 by {
        let c = unit(v.header, v.orders[i], base);
        assert(c * 0 == 0) by (nonlinear_arith);
    }
    lemma_sum_zero(t.share_of(v, w, s, base), 0x1_0000);
}

proof fn lemma_passed_over(t: Taker, v: BookView, x: BookView, w: BookView, f: u16, s: int, base: bool)
    requires
        x.orders == v.orders.remove(f),
        x.header == v.header,
        !t.meets(v.orders[f]),
        !w.orders.contains_key(f),
    ensures
        t.share(v, w, s, base) == t.share(x, w, s, base),
{
    let zero = |i: u16| 0int;
    assert forall|i: u16| #[trigger]
        t.share_of(v, w, s, base)(i) == t.share_of(x, w, s, base)(i) + zero(i) by {}
    lemma_sum_add(t.share_of(v, w, s, base), t.share_of(x, w, s, base), zero, 0x1_0000);
    lemma_sum_zero(zero, 0x1_0000);
}

proof fn lemma_one_share(
    t: Taker,
    v: BookView,
    x: BookView,
    w: BookView,
    f: u16,
    fill: int,
    s: int,
    base: bool,
)
    requires
        v.orders.contains_key(f),
        t.meets(v.orders[f]),
        1 <= fill <= v.orders[f].lots,
        x.header == v.header,
        forall|i: u16| i != f ==> #[trigger] x.orders.contains_key(i) == v.orders.contains_key(i),
        forall|i: u16|
            i != f && #[trigger] v.orders.contains_key(i) ==> x.orders[i] == v.orders[i],
        x.orders.contains_key(f) == (fill < v.orders[f].lots),
        fill < v.orders[f].lots ==> x.orders[f] == (Order {
            lots: (v.orders[f].lots - fill) as u32,
            ..v.orders[f]
        }),
        forall|i: u16| #[trigger]
            w.orders.contains_key(i) ==> x.orders.contains_key(i) && w.orders[i].lots
                <= x.orders[i].lots,
    ensures
        t.share(v, w, s, base) == t.share(x, w, s, base) + if v.orders[f].maker == s {
            unit(v.header, v.orders[f], base) * fill
        } else {
            0
        },
{
    let o = v.orders[f];
    let c = unit(v.header, o, base);
    let a = |i: u16|
        if i == f && o.maker == s {
            c * fill
        } else {
            0
        };
    let rest = lost(x, w, f);
    assert(lost(v, w, f) == fill + rest);
    assert(c * (fill + rest) == c * fill + c * rest) by (nonlinear_arith);
    assert(c * 0 == 0) by (nonlinear_arith);
    assert forall|i: u16| #[trigger]
        t.share_of(v, w, s, base)(i) == a(i) + t.share_of(x, w, s, base)(i) by {
        if i != f {
            assert(x.orders.contains_key(i) == v.orders.contains_key(i));
            assert(lost(x, w, i) == lost(v, w, i));
        }
    }
    lemma_sum_add(t.share_of(v, w, s, base), a, t.share_of(x, w, s, base), 0x1_0000);
    lemma_sum_one(a, f, 0x1_0000);
}

#[verifier::rlimit(60)]
proof fn lemma_makers_from(
    v: BookView,
    p: TakeParams,
    res: TakeResult,
    left: u32,
    s: int,
    base: bool,
)
    requires
        0 <= s < 128,
        v.ok(),
        fees_ok(v.header),
        tally_ok(v.header, p, res, left),
        v.take_from(p, res, left).1 is Ok,
        total_held(v.seats, p.side == Side::Bid) <= u64::MAX,
        ({
            let r = v.take_from(p, res, left).1->Ok_0;
            v.held_by_others(p.seat as int, p.side == Side::Ask) + moved(
                v.header,
                res,
                r,
                p.side == Side::Ask,
            ) <= u64::MAX
        }),
    ensures
        settled_with(taker_of(p), v, v.take_from(p, res, left).0, s, base),
    decreases left, v.orders.dom().len(),
{
    let side = p.side.spec_opposite();
    let i = v.front(side);
    let o = v.orders[i];
    let fill = v.fill_of(p, i, res, left);
    let t = p.seat as int;
    let gives = p.side == Side::Bid;
    let gets = p.side == Side::Ask;
    let (w, rr) = v.take_from(p, res, left);
    let r = rr->Ok_0;
    let ls = v.header.base_lot_size as int;
    let tk = taker_of(p);
    assert((res.lots - res.lots) * ls == 0) by (nonlinear_arith);
    if left == 0 || v.best(side) is None || !within_limit(p, v.best(side)->0) {
        lemma_no_share(tk, v, w, s, base);
    } else {
        lemma_has_best(v, side);
        lemma_level(v, side, v.best(side)->0);
        assert(v.order_ok(i));
        lemma_finite_below(v.orders.dom(), 0x10000);
        let m = o.maker as int;
        lemma_total_covers(v.seats, m, t, true);
        lemma_total_covers(v.seats, m, t, false);
        if o.expired(p.slot) || o.maker == p.seat {
            let x = v.killed(i);
            lemma_killed(v, i);
            lemma_killed_flow(v, i);
            assert(total_held(x.seats, gives) == total_held(v.seats, gives));
            assert(total_held(x.seats, gets) == total_held(v.seats, gets));
            if 0 <= t < 128 {
                assert(held(x.seats[t], gets) == held(v.seats[t], gets));
            }
            assert(held(x.seats[s], base) == held(v.seats[s], base));
            lemma_makers_from(x, p, res, left, s, base);
            if w.orders.contains_key(i) {
                lemma_taken_subset(x, p, res, left, i);
            }
            lemma_passed_over(tk, v, x, w, i, s, base);
        } else if fill <= 0 {
            lemma_no_share(tk, v, w, s, base);
        } else {
            lemma_fill_fits(v.header, p, res, left, o.tick, fill);
            lemma_filled(v, i, fill as u32);
            let x = v.filled(i, fill as u32);
            let res2 = v.with_fill(res, o.tick, fill);
            let left2 = (left - fill) as u32;
            lemma_take_monotone(x, p, res2, left2);
            assert((r.lots - res.lots) * ls == (r.lots - res2.lots) * ls + fill * ls)
                by (nonlinear_arith)
                requires
                    res2.lots == res.lots + fill,
            ;
            assert((r.lots - res2.lots) * ls >= 0) by (nonlinear_arith)
                requires
                    r.lots >= res2.lots,
                    ls >= 0,
            ;
            lemma_filled_flow(v, i, fill as u32);
            if 0 <= t < 128 {
                assert(held(x.seats[t], gets) == held(v.seats[t], gets));
            }
            if s != m {
                assert(held(x.seats[s], base) == held(v.seats[s], base));
            }
            lemma_makers_from(x, p, res2, left2, s, base);
            assert forall|j: u16| #[trigger] w.orders.contains_key(j) implies
                x.orders.contains_key(j) && w.orders[j].lots <= x.orders[j].lots by {
                lemma_taken_subset(x, p, res2, left2, j);
            }
            lemma_one_share(tk, v, x, w, i, fill, s, base);
            assert(ls * fill == fill * ls) by (nonlinear_arith);
        }
    }
}

/// In a pass, what each seat holds changes by the trades of its own orders
/// alone: for every lot that an order lost, its maker gives a lot or its price
/// and gets the other. The taker's own seat is not paid yet.
pub proof fn lemma_makers(v: BookView, p: TakeParams, s: int, base: bool)
    requires
        0 <= s < 128,
        v.ok(),
        fees_ok(v.header),
        v.taken(p).1 is Ok,
        total_held(v.seats, p.side == Side::Bid) <= u64::MAX,
        v.held_by_others(p.seat as int, p.side == Side::Ask) + moved(
            v.header,
            (TakeResult { lots: 0, quote: 0, fee: 0 }),
            v.taken(p).1->Ok_0,
            p.side == Side::Ask,
        ) <= u64::MAX,
    ensures
        settled_with(taker_of(p), v, v.taken(p).0, s, base),
{
    lemma_start(v.header, p);
    lemma_makers_from(v, p, TakeResult { lots: 0, quote: 0, fee: 0 }, p.max_lots, s, base);
}

/// A taker order that succeeds settles with every other seat like this.
#[verifier::rlimit(30)]
pub proof fn lemma_take_settles_makers(
    d: PlaceTake,
    v: BookView,
    owner: Seq<u8>,
    slot: u64,
    s: int,
    base: bool,
)
    requires
        v.ok(),
        market_ok(v.header),
        v.solvent(),
        0 <= s < 128,
        s != d.seat_index,
        d.outcome(v, owner, slot).1 is Ok,
    ensures
        settled_with(
            (Taker { side: d.side, limit: d.limit_tick, seat: d.seat_index, now: slot }),
            v,
            d.outcome(v, owner, slot).0,
            s,
            base,
        ),
{
    let p = d.pass(slot);
    let (w, x) = v.taken(p);
    let y = d.outcome(v, owner, slot).0;
    let t = taker_of(p);
    lemma_market_ok(v.header);
    lemma_paid_pass(v, p);
    lemma_makers(v, p, s, base);
    lemma_start(v.header, p);
    lemma_take_flow(v, p, TakeResult { lots: 0, quote: 0, fee: 0 }, p.max_lots);
    assert(y.seats[s] == w.seats[s]);
    assert(t.share_of(v, y, s, base) =~= t.share_of(v, w, s, base));
}

/// A pass that the taker can pay for stays within what the mints have issued.
proof fn lemma_paid_pass(v: BookView, p: TakeParams)
    requires
        v.ok(),
        fees_ok(v.header),
        v.header.fee_bps <= 10_000,
        v.solvent(),
        p.seat < 128,
        v.taken(p).1 is Ok,
        v.taken(p).0.paid(p.seat as int, p.side, v.taken(p).1->Ok_0) is Some,
    ensures
        total_held(v.seats, p.side == Side::Bid) <= u64::MAX,
        v.held_by_others(p.seat as int, p.side == Side::Ask) + moved(
            v.header,
            (TakeResult { lots: 0, quote: 0, fee: 0 }),
            v.taken(p).1->Ok_0,
            p.side == Side::Ask,
        ) <= u64::MAX,
{
    let t = p.seat as int;
    let r = v.taken(p).1->Ok_0;
    let ls = v.header.base_lot_size as int;
    lemma_start(v.header, p);
    let res = TakeResult { lots: 0, quote: 0, fee: 0 };
    lemma_take_monotone(v, p, res, p.max_lots);
    lemma_total_covers(v.seats, t, t, true);
    lemma_total_covers(v.seats, t, t, false);
    lemma_keeps_held(v, p, res, p.max_lots);
    assert((r.lots - 0) * ls == r.lots * ls);
}

/// A swap that succeeds settles with every seat like this.
#[verifier::rlimit(30)]
pub proof fn lemma_swap_settles_makers(
    d: Swap,
    v: BookView,
    delta: u64,
    slot: u64,
    s: int,
    base: bool,
)
    requires
        v.ok(),
        market_ok(v.header),
        v.solvent(),
        0 <= s < 128,
        v.owed(d.side == Side::Ask) + delta <= u64::MAX,
        d.outcome(v, delta, slot).1 is Ok,
    ensures
        settled_with(
            (Taker { side: d.side, limit: d.limit_tick, seat: 65535, now: slot }),
            v,
            d.outcome(v, delta, slot).0,
            s,
            base,
        ),
{
    let h = v.header;
    let p = d.pass(h, delta, slot);
    let y = d.outcome(v, delta, slot).0;
    let t = taker_of(p);
    lemma_market_ok(h);
    lemma_total_nonneg(v.seats, false);
    let ls = h.base_lot_size as int;
    if p.max_lots == 0 {
        lemma_no_share(t, v, y, s, base);
    } else {
        let (w, x) = v.taken(p);
        let r = x->Ok_0;
        lemma_start(h, p);
        lemma_take_monotone(v, p, TakeResult { lots: 0, quote: 0, fee: 0 }, p.max_lots);
        lemma_tally_fits(h, p, r, (p.max_lots - r.lots) as u32);
        lemma_used(d, h, p, r, delta, slot);
        assert((r.lots - 0) * ls == r.lots * ls);
        lemma_makers(v, p, s, base);
        assert(t.share_of(v, y, s, base) =~= t.share_of(v, w, s, base));
    }
}

} // verus!
