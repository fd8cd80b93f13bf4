//! Laws of trades: what a taker gets and pays is what the resting orders that
//! it may trade with gave up, each at its own price.

use crate::custody::lemma_has_best;
use crate::flow::lemma_start;
use crate::matching::{lemma_fill_fits, lemma_level, tally_ok};
use crate::model::{fees_ok, lemma_finite_below, within_limit, BookView, Order};
use crate::priority::lemma_taken_subset;
use crate::side::{Side, TakeParams, TakeResult};
use crate::steps::{lemma_filled, lemma_killed};
use vstd::prelude::*;

verus! {

/// A resting order that a taker may trade with at slot `now`: on the other
/// side, no worse than the limit, with no expiry or one still to come, and not
/// of the taker's own seat.
pub open spec fn eligible(taker: Side, limit: u32, seat: u16, now: u64, o: Order) -> bool {
    &&& o.side != taker
    &&& taker == Side::Bid ==> o.tick <= limit
    &&& taker == Side::Ask ==> o.tick >= limit
    &&& o.expiry_slot == 0 || o.expiry_slot > now
    &&& o.maker != seat
}

/// The lots that order `i` of `v` no longer has in `w`.
pub open spec fn lost(v: BookView, w: BookView, i: u16) -> int {
    if !v.orders.contains_key(i) {
        0
    } else if !w.orders.contains_key(i) {
        v.orders[i].lots as int
    } else {
        v.orders[i].lots - w.orders[i].lots
    }
}

/// The total of `f` over the first `n` nodes.
pub open spec fn sum(f: spec_fn(u16) -> int, n: int) -> int
    decreases n,
{
    if n <= 0 {
        0
    } else {
        sum(f, n - 1) + f((n - 1) as u16)
    }
}

/// What a taker asks for, as far as it decides which orders it trades with.
pub ghost struct Taker {
    pub side: Side,
    pub limit: u32,
    pub seat: u16,
    pub now: u64,
}

impl Taker {
    pub open spec fn meets(self, o: Order) -> bool {
        eligible(self.side, self.limit, self.seat, self.now, o)
    }

    /// The lots that order `i` traded between `v` and `w`.
    pub open spec fn lots_of(self, v: BookView, w: BookView) -> spec_fn(u16) -> int {
        |i: u16|
            if self.meets(v.orders[i]) {
                lost(v, w, i)
            } else {
                0
            }
    }

    /// What it traded them for, at its own price.
    pub open spec fn quote_of(self, v: BookView, w: BookView) -> spec_fn(u16) -> int {
        |i: u16|
            if self.meets(v.orders[i]) {
                v.orders[i].tick * v.header.tick_size * lost(v, w, i)
            } else {
                0
            }
    }

    /// The fee on that, in whole atoms.
    pub open spec fn fee_of(self, v: BookView, w: BookView) -> spec_fn(u16) -> int {
        |i: u16|
            if self.meets(v.orders[i]) {
                v.orders[i].tick * v.header.tick_size * lost(v, w, i) * v.header.fee_bps / 10_000
            } else {
                0
            }
    }

    /// All lots that changed hands.
    pub open spec fn lots(self, v: BookView, w: BookView) -> int {
        sum(self.lots_of(v, w), 0x1_0000)
    }

    /// All quote atoms that changed hands.
    pub open spec fn quote(self, v: BookView, w: BookView) -> int {
        sum(self.quote_of(v, w), 0x1_0000)
    }

    /// The fee, order by order.
    pub open spec fn fee(self, v: BookView, w: BookView) -> int {
        sum(self.fee_of(v, w), 0x1_0000)
    }
}

pub proof fn lemma_sum_add(f: spec_fn(u16) -> int, g: spec_fn(u16) -> int, h: spec_fn(u16) -> int, n: int)
    requires
        0 <= n <= 0x1_0000,
        forall|i: u16| #[trigger] f(i) == g(i) + h(i),
    ensures
        sum(f, n) == sum(g, n) + sum(h, n),
    decreases n,
{
    if n > 0 {
        lemma_sum_add(f, g, h, n - 1);
        let i = (n - 1) as u16;
        assert(f(i) == g(i) + h(i));
    }
}

proof fn lemma_sum_most(f: spec_fn(u16) -> int, g: spec_fn(u16) -> int, h: spec_fn(u16) -> int, n: int)
    requires
        0 <= n <= 0x1_0000,
        forall|i: u16| #[trigger] f(i) >= g(i) + h(i),
    ensures
        sum(f, n) >= sum(g, n) + sum(h, n),
    decreases n,
{
    if n > 0 {
        lemma_sum_most(f, g, h, n - 1);
        let i = (n - 1) as u16;
        assert(f(i) >= g(i) + h(i));
    }
}

pub proof fn lemma_sum_one(f: spec_fn(u16) -> int, k: u16, n: int)
    requires
        0 <= n <= 0x1_0000,
        forall|i: u16| i != k ==> #[trigger] f(i) == 0,
    ensures
        sum(f, n) == if k < n {
            f(k)
        } else {
            0
        },
    decreases n,
{
    if n > 0 {
        lemma_sum_one(f, k, n - 1);
        let i = (n - 1) as u16;
        if i != k {
            assert(f(i) == 0);
        }
    }
}

pub proof fn lemma_sum_zero(f: spec_fn(u16) -> int, n: int)
    requires
        0 <= n <= 0x1_0000,
        forall|i: u16| #[trigger] f(i) == 0,
    ensures
        sum(f, n) == 0,
    decreases n,
{
    lemma_sum_one(f, 0, n);
}

/// What a pass with these parameters asks for.
pub open spec fn taker_of(p: TakeParams) -> Taker {
    Taker { side: p.side, limit: p.limit_tick, seat: p.seat, now: p.slot }
}

/// Nothing is lost where nothing changes.
pub proof fn lemma_nothing(t: Taker, v: BookView, w: BookView)
    requires
        w.orders == v.orders,
    ensures
        t.lots(v, w) == 0,
        t.quote(v, w) == 0,
        t.fee(v, w) == 0,
{
    assert forall|i: u16| #[trigger] t.lots_of(v, w)(i) == 0 by {}
    assert forall|i: u16| #[trigger] t.quote_of(v, w)(i) == 0 by {
        let c = v.orders[i].tick * v.header.tick_size;
        assert(c * 0 == 0) by (nonlinear_arith);
    }
    assert forall|i: u16| #[trigger] t.fee_of(v, w)(i) == 0 by {
        let c = v.orders[i].tick * v.header.tick_size;
        let b = v.header.fee_bps as int;
        assert(c * 0 * b == 0) by (nonlinear_arith);
    }
    lemma_sum_zero(t.lots_of(v, w), 0x1_0000);
    lemma_sum_zero(t.quote_of(v, w), 0x1_0000);
    lemma_sum_zero(t.fee_of(v, w), 0x1_0000);
}

/// An order that the taker may not trade with ends: nothing was traded.
proof fn lemma_passed_over(t: Taker, v: BookView, x: BookView, w: BookView, f: u16)
    requires
        x.orders == v.orders.remove(f),
        x.header == v.header,
        !t.meets(v.orders[f]),
        !w.orders.contains_key(f),
    ensures
        t.lots(v, w) == t.lots(x, w),
        t.quote(v, w) == t.quote(x, w),
        t.fee(v, w) == t.fee(x, w),
{
    let zero = |i: u16| 0int;
    assert forall|i: u16| #[trigger] t.lots_of(v, w)(i) == t.lots_of(x, w)(i) + zero(i) by {
        lemma_unlisted(t, x, w, i);
        lemma_unlisted(t, v, w, i);
        if i != f {
            lemma_alike(t, v, x, w, i);
        }
    }
    assert forall|i: u16| #[trigger] t.quote_of(v, w)(i) == t.quote_of(x, w)(i) + zero(i) by {
        lemma_unlisted(t, x, w, i);
        lemma_unlisted(t, v, w, i);
        if i != f {
            lemma_alike(t, v, x, w, i);
        }
    }
    assert forall|i: u16| #[trigger] t.fee_of(v, w)(i) == t.fee_of(x, w)(i) + zero(i) by {
        lemma_unlisted(t, x, w, i);
        lemma_unlisted(t, v, w, i);
        if i != f {
            lemma_alike(t, v, x, w, i);
        }
    }
    lemma_sum_add(t.lots_of(v, w), t.lots_of(x, w), zero, 0x1_0000);
    lemma_sum_add(t.quote_of(v, w), t.quote_of(x, w), zero, 0x1_0000);
    lemma_sum_add(t.fee_of(v, w), t.fee_of(x, w), zero, 0x1_0000);
    lemma_sum_zero(zero, 0x1_0000);
}

/// A node without an order trades nothing.
proof fn lemma_unlisted(t: Taker, v: BookView, w: BookView, i: u16)
    ensures
        !v.orders.contains_key(i) ==> t.lots_of(v, w)(i) == 0 && t.quote_of(v, w)(i) == 0
            && t.fee_of(v, w)(i) == 0,
{
    let c = v.orders[i].tick * v.header.tick_size;
    let b = v.header.fee_bps as int;
    assert(c * 0 == 0) by (nonlinear_arith);
    assert(c * 0 * b == 0) by (nonlinear_arith);
}

proof fn lemma_alike(t: Taker, v: BookView, x: BookView, w: BookView, i: u16)
    requires
        x.header == v.header,
        x.orders.contains_key(i) == v.orders.contains_key(i),
        v.orders.contains_key(i) ==> x.orders[i] == v.orders[i],
    ensures
        v.orders.contains_key(i) ==> t.lots_of(v, w)(i) == t.lots_of(x, w)(i),
        v.orders.contains_key(i) ==> t.quote_of(v, w)(i) == t.quote_of(x, w)(i),
        v.orders.contains_key(i) ==> t.fee_of(v, w)(i) == t.fee_of(x, w)(i),
{
}

/// Whole atoms of two parts are no more than those of the whole.
proof fn lemma_floors(a: int, b: int, c: int, k: int)
    requires
        a >= 0,
        b >= 0,
        c >= 0,
        k >= 0,
    ensures
        c * (a + b) == c * a + c * b,
        c * (a + b) * k / 10_000 >= c * a * k / 10_000 + c * b * k / 10_000,
        b == 0 ==> c * (a + b) * k / 10_000 == c * a * k / 10_000 + c * b * k / 10_000,
        a == 0 ==> c * (a + b) * k / 10_000 == c * a * k / 10_000 + c * b * k / 10_000,
{
    assert(c * (a + b) == c * a + c * b) by (nonlinear_arith);
    let x = c * a;
    let y = c * b;
    assert((x + y) * k == x * k + y * k) by (nonlinear_arith);
    assert(c * 0 == 0) by (nonlinear_arith);
    assert(0 * k == 0) by (nonlinear_arith);
}

/// Order `f` trades `fill` lots, and the rest of the pass follows.
#[verifier::rlimit(30)]
proof fn lemma_one_trade(t: Taker, v: BookView, x: BookView, w: BookView, f: u16, fill: int)
    requires
        v.orders.contains_key(f),
        t.meets(v.orders[f]),
        1 <= fill <= v.orders[f].lots,
        x.header == v.header,
        forall|i: u16| i != f ==> #[trigger] x.orders.contains_key(i) == v.orders.contains_key(i),
        forall|i: u16|
            i != f && #[trigger] v.orders.contains_key(i) ==> x.orders[i] == v.orders[i],
        x.orders.contains_key(f) == (fill < v.orders[f].lots),
        fill < v.orders[f].lots ==> x.orders[f] == (Order {
            lots: (v.orders[f].lots - fill) as u32,
            ..v.orders[f]
        }),
        forall|i: u16| #[trigger]
            w.orders.contains_key(i) ==> x.orders.contains_key(i) && w.orders[i].lots
                <= x.orders[i].lots,
    ensures
        ({
            let o = v.orders[f];
            let n = o.tick * v.header.tick_size * fill;
            let k = n * v.header.fee_bps / 10_000;
            &&& t.lots(v, w) == fill + t.lots(x, w)
            &&& t.quote(v, w) == n + t.quote(x, w)
            &&& t.fee(v, w) >= k + t.fee(x, w)
            &&& lost(x, w, f) == 0 ==> t.fee(v, w) == k + t.fee(x, w)
        }),
{
    let o = v.orders[f];
    let c = o.tick * v.header.tick_size;
    let b = v.header.fee_bps as int;
    let a1 = |i: u16|
        if i == f {
            fill
        } else {
            0
        };
    let a2 = |i: u16|
        if i == f {
            c * fill
        } else {
            0
        };
    let a3 = |i: u16|
        if i == f {
            c * fill * b / 10_000
        } else {
            0
        };
    assert(c >= 0) by (nonlinear_arith)
        requires
            c == o.tick * v.header.tick_size,
    ;
    lemma_unlisted(t, x, w, f);
    let rest = lost(x, w, f);
    assert(lost(v, w, f) == fill + rest);
    lemma_floors(fill, rest, c, b);
    assert(t.quote_of(x, w)(f) == c * rest && t.fee_of(x, w)(f) == c * rest * b / 10_000) by {
        assert(c * 0 == 0) by (nonlinear_arith);
        assert(0 * b == 0) by (nonlinear_arith);
    }
    assert(t.lots_of(x, w)(f) == rest);
    assert forall|i: u16| #[trigger] t.lots_of(v, w)(i) == a1(i) + t.lots_of(x, w)(i) by {
        if i != f {
            lemma_unlisted(t, v, w, i);
            lemma_unlisted(t, x, w, i);
            lemma_alike(t, v, x, w, i);
        }
    }
    assert forall|i: u16| #[trigger] t.quote_of(v, w)(i) == a2(i) + t.quote_of(x, w)(i) by {
        if i != f {
            lemma_unlisted(t, v, w, i);
            lemma_unlisted(t, x, w, i);
            lemma_alike(t, v, x, w, i);
        }
    }
    assert forall|i: u16| #[trigger] t.fee_of(v, w)(i) >= a3(i) + t.fee_of(x, w)(i) && (i != f
        || rest == 0 ==> t.fee_of(v, w)(i) == a3(i) + t.fee_of(x, w)(i)) by {
        if i != f {
            lemma_unlisted(t, v, w, i);
            lemma_unlisted(t, x, w, i);
            lemma_alike(t, v, x, w, i);
        }
    }
    lemma_sum_add(t.lots_of(v, w), a1, t.lots_of(x, w), 0x1_0000);
    lemma_sum_add(t.quote_of(v, w), a2, t.quote_of(x, w), 0x1_0000);
    lemma_sum_most(t.fee_of(v, w), a3, t.fee_of(x, w), 0x1_0000);
    if rest == 0 {
        lemma_sum_add(t.fee_of(v, w), a3, t.fee_of(x, w), 0x1_0000);
    }
    lemma_sum_one(a1, f, 0x1_0000);
    lemma_sum_one(a2, f, 0x1_0000);
    lemma_sum_one(a3, f, 0x1_0000);
}

#[verifier::rlimit(40)]
proof fn lemma_traded_from(v: BookView, p: TakeParams, res: TakeResult, left: u32)
    requires
        v.ok(),
        fees_ok(v.header),
        tally_ok(v.header, p, res, left),
        v.take_from(p, res, left).1 is Ok,
    ensures
        ({
            let (w, x) = v.take_from(p, res, left);
            let r = x->Ok_0;
            let t = taker_of(p);
            &&& r.lots - res.lots == t.lots(v, w)
            &&& r.quote - res.quote == t.quote(v, w)
            &&& r.fee - res.fee <= t.fee(v, w)
            &&& p.max_quote == u64::MAX ==> r.fee - res.fee == t.fee(v, w)
            &&& (r.quote - res.quote) * v.header.fee_bps - (r.fee - res.fee) * 10_000 <= 9_999 * (
            r.lots - res.lots)
        }),
    decreases left, v.orders.dom().len(),
{
    let side = p.side.spec_opposite();
    let f = v.front(side);
    let o = v.orders[f];
    let fill = v.fill_of(p, f, res, left);
    let t = taker_of(p);
    let (w, rr) = v.take_from(p, res, left);
    let r = rr->Ok_0;
    let bps = v.header.fee_bps as int;
    assert(0 * bps == 0) by (nonlinear_arith);
    if left == 0 || v.best(side) is None || !within_limit(p, v.best(side)->0) {
        lemma_nothing(t, v, w);
    } else {
        lemma_has_best(v, side);
        lemma_level(v, side, v.best(side)->0);
        assert(v.order_ok(f));
        lemma_finite_below(v.orders.dom(), 0x10000);
        if o.expired(p.slot) || o.maker == p.seat {
            let x = v.killed(f);
            lemma_killed(v, f);
            lemma_traded_from(x, p, res, left);
            if w.orders.contains_key(f) {
                lemma_taken_subset(x, p, res, left, f);
            }
            lemma_passed_over(t, v, x, w, f);
        } else if fill <= 0 {
            lemma_nothing(t, v, w);
        } else {
            lemma_fill_fits(v.header, p, res, left, o.tick, fill);
            lemma_filled(v, f, fill as u32);
            let x = v.filled(f, fill as u32);
            let res2 = v.with_fill(res, o.tick, fill);
            let left2 = (left - fill) as u32;
            lemma_traded_from(x, p, res2, left2);
            assert forall|i: u16| #[trigger] w.orders.contains_key(i) implies
                x.orders.contains_key(i) && w.orders[i].lots <= x.orders[i].lots by {
                lemma_taken_subset(x, p, res2, left2, i);
            }
            lemma_one_trade(t, v, x, w, f, fill);
            if p.max_quote == u64::MAX {
                // A part of an order is taken only by the last lot wanted.
                if fill < o.lots {
                    assert(left2 == 0);
                    assert(w.orders == x.orders);
                }
                assert(lost(x, w, f) == 0);
            }
            lemma_fee_part(
                o.tick * v.header.tick_size * fill,
                r.quote - res2.quote,
                r.fee - res2.fee,
                fill,
                r.lots - res2.lots,
                bps,
            );
        }
    }
}

proof fn lemma_fee_part(n: int, q: int, e: int, fill: int, l: int, bps: int)
    requires
        n >= 0,
        fill >= 1,
        bps >= 0,
        q * bps - e * 10_000 <= 9_999 * l,
    ensures
        (n + q) * bps - (n * bps / 10_000 + e) * 10_000 <= 9_999 * (fill + l),
{
    assert((n + q) * bps == n * bps + q * bps) by (nonlinear_arith);
}

/// A pass trades, with every order that it may trade with, what that order no
/// longer has afterwards, at that order's price, and with no other order. The
/// fee is the rate on each trade, in whole atoms.
pub proof fn lemma_traded(v: BookView, p: TakeParams)
    requires
        v.ok(),
        fees_ok(v.header),
        v.taken(p).1 is Ok,
    ensures
        ({
            let (w, x) = v.taken(p);
            let r = x->Ok_0;
            let t = taker_of(p);
            &&& r.lots == t.lots(v, w)
            &&& r.quote == t.quote(v, w)
            &&& r.fee <= t.fee(v, w)
            &&& p.max_quote == u64::MAX ==> r.fee == t.fee(v, w)
            &&& r.quote * v.header.fee_bps - r.fee * 10_000 <= 9_999 * r.lots
        }),
{
    lemma_start(v.header, p);
    lemma_traded_from(v, p, TakeResult { lots: 0, quote: 0, fee: 0 }, p.max_lots);
}

} // verus!
