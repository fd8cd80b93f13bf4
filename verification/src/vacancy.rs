//! Seats that nobody owns hold nothing, whatever happens on the market.

use crate::custody::{keeps, lemma_has_best, lemma_supplied, lemma_upsert_keeps};
use crate::flow::{lemma_start, lemma_take_monotone};
use crate::funding::{ClaimSeat, CloseSeat, Deposit, Withdraw};
use crate::ledger::lemma_settled;
use crate::maker::PlaceLimit;
use crate::matching::{lemma_fill_fits, lemma_level, tally_ok};
use crate::model::{
    fees_ok,
    held,
    lemma_finite_below,
    lemma_market_ok,
    market_ok,
    within_limit,
    BookView,
};
use crate::opening::is_new;
use crate::seat::no_owner;
use crate::side::{TakeParams, TakeResult};
use crate::steps::{lemma_filled, lemma_killed};
use crate::taker::{PlaceTake, Swap};
use vstd::prelude::*;

verus! {

/// Seats that nobody owns hold nothing.
pub open spec fn vacant_empty(v: BookView) -> bool {
    forall|s: int, base: bool|
        0 <= s < 128 && no_owner(v.seats[s].owner@) ==> #[trigger] held(v.seats[s], base) == 0
}

/// It starts that way.
pub proof fn lemma_new_vacant(v: BookView)
    requires
        v.ok(),
        is_new(v),
    ensures
        vacant_empty(v),
{
    assert forall|s: int, base: bool| 0 <= s < 128 implies #[trigger] held(v.seats[s], base)
        == 0 by {
        assert(crate::fresh::untouched(v.seats[s]));
    }
}

/// It stays that way when no value moves between seats.
pub proof fn lemma_keeps_vacant(v: BookView, w: BookView)
    requires
        vacant_empty(v),
        keeps(v, w),
    ensures
        vacant_empty(w),
{
    assert forall|s: int, base: bool|
        0 <= s < 128 && no_owner(w.seats[s].owner@) implies #[trigger] held(w.seats[s], base)
        == 0 by {
        assert(held(w.seats[s], base) == held(v.seats[s], base));
        assert(w.seats[s].owner == v.seats[s].owner);
    }
}

/// Vacant seats are untouched, and seats keep their owners.
spec fn apart(v: BookView, w: BookView) -> bool {
    &&& forall|s: int| 0 <= s < 128 ==> (#[trigger] w.seats[s]).owner == v.seats[s].owner
    &&& forall|s: int|
        0 <= s < 128 && no_owner(v.seats[s].owner@) ==> #[trigger] w.seats[s] == v.seats[s]
}

proof fn lemma_apart_vacant(v: BookView, w: BookView)
    requires
        vacant_empty(v),
        apart(v, w),
    ensures
        vacant_empty(w),
{
    assert forall|s: int, base: bool|
        0 <= s < 128 && no_owner(w.seats[s].owner@) implies #[trigger] held(w.seats[s], base)
        == 0 by {
        assert(w.seats[s] == v.seats[s]);
        assert(held(v.seats[s], base) == 0);
    }
}

proof fn lemma_apart_trans(u: BookView, v: BookView, w: BookView)
    requires
        apart(u, v),
        apart(v, w),
    ensures
        apart(u, w),
{
    assert forall|s: int| 0 <= s < 128 implies (#[trigger] w.seats[s]).owner
        == u.seats[s].owner by {
        assert(v.seats[s].owner == u.seats[s].owner);
    }
    assert forall|s: int| 0 <= s < 128 && no_owner(u.seats[s].owner@) implies #[trigger] w.seats[s]
        == u.seats[s] by {
        assert(v.seats[s] == u.seats[s]);
    }
}

/// The seat behind a resting order has an owner.
proof fn lemma_maker_owned(v: BookView, i: u16)
    requires
        v.ok(),
        v.orders.contains_key(i),
    ensures
        v.orders[i].maker < 128,
        !no_owner(v.seats[v.orders[i].maker as int].owner@),
{
    assert(v.order_ok(i));
    assert(v.chains[v.orders[i].maker as int].len() > 0);
}

/// A pass pays and refunds owned seats only.
proof fn lemma_pass_apart(v: BookView, p: TakeParams, res: TakeResult, left: u32)
    requires
        v.ok(),
        fees_ok(v.header),
        tally_ok(v.header, p, res, left),
        v.take_from(p, res, left).1 is Ok,
    ensures
        apart(v, v.take_from(p, res, left).0),
    decreases left, v.orders.dom().len(),
{
    let side = p.side.spec_opposite();
    let f = v.front(side);
    let o = v.orders[f];
    let fill = v.fill_of(p, f, res, left);
    let w = v.take_from(p, res, left).0;
    if !(left == 0 || v.best(side) is None || !within_limit(p, v.best(side)->0)) {
        lemma_has_best(v, side);
        lemma_level(v, side, v.best(side)->0);
        assert(v.order_ok(f));
        lemma_finite_below(v.orders.dom(), 0x10000);
        lemma_maker_owned(v, f);
        if o.expired(p.slot) || o.maker == p.seat {
            lemma_killed(v, f);
            let x = v.killed(f);
            assert(x.seats[o.maker as int].owner == v.seats[o.maker as int].owner);
            lemma_pass_apart(x, p, res, left);
            assert(apart(v, x));
            lemma_apart_trans(v, x, w);
        } else if fill > 0 {
            lemma_fill_fits(v.header, p, res, left, o.tick, fill);
            lemma_filled(v, f, fill as u32);
            let x = v.filled(f, fill as u32);
            assert(x.seats[o.maker as int].owner == v.seats[o.maker as int].owner);
            lemma_pass_apart(x, p, v.with_fill(res, o.tick, fill), (left - fill) as u32);
            assert(apart(v, x));
            lemma_apart_trans(v, x, w);
        }
    }
}

/// It stays that way when seats are given out and given back.
pub proof fn lemma_seats_vacant(v: BookView, owner: [u8; 32], c: CloseSeat)
    requires
        v.ok(),
        vacant_empty(v),
        !no_owner(owner@),
    ensures
        vacant_empty((ClaimSeat).outcome(v, owner).0),
        vacant_empty(c.outcome(v, owner@).0),
{
    crate::laws::lemma_claim(v, owner);
    let w = (ClaimSeat).outcome(v, owner).0;
    assert forall|s: int, base: bool|
        0 <= s < 128 && no_owner(w.seats[s].owner@) implies #[trigger] held(w.seats[s], base)
        == 0 by {
        assert(held(v.seats[s], base) == 0);
    }
    let x = c.outcome(v, owner@).0;
    assert forall|s: int, base: bool|
        0 <= s < 128 && no_owner(x.seats[s].owner@) implies #[trigger] held(x.seats[s], base)
        == 0 by {
        if s != c.seat_index {
            assert(held(v.seats[s], base) == 0);
        } else if no_owner(v.seats[s].owner@) {
            assert(held(v.seats[s], base) == 0);
        }
    }
}

/// It stays that way when an owner deposits or withdraws.
pub proof fn lemma_funding_vacant(
    v: BookView,
    owner: Seq<u8>,
    d: Deposit,
    base: (u64, u64),
    quote: (u64, u64),
    x: Withdraw,
)
    requires
        v.ok(),
        vacant_empty(v),
        !no_owner(owner),
    ensures
        d.outcome(v, owner, base, quote).1 is Ok ==> vacant_empty(
            d.outcome(v, owner, base, quote).0,
        ),
        x.outcome(v, owner).1 is Ok ==> vacant_empty(x.outcome(v, owner).0),
{
    if d.outcome(v, owner, base, quote).1 is Ok {
        let w = d.outcome(v, owner, base, quote).0;
        assert(apart(v, w));
        lemma_apart_vacant(v, w);
    }
    if x.outcome(v, owner).1 is Ok {
        let w = x.outcome(v, owner).0;
        assert(apart(v, w));
        lemma_apart_vacant(v, w);
    }
}

/// It stays that way when an owner takes.
pub proof fn lemma_place_take_vacant(d: PlaceTake, v: BookView, owner: Seq<u8>, slot: u64)
    requires
        v.ok(),
        market_ok(v.header),
        vacant_empty(v),
        !no_owner(owner),
        d.outcome(v, owner, slot).1 is Ok,
    ensures
        vacant_empty(d.outcome(v, owner, slot).0),
{
    let p = d.pass(slot);
    let w = v.taken(p).0;
    lemma_market_ok(v.header);
    lemma_start(v.header, p);
    lemma_pass_apart(v, p, TakeResult { lots: 0, quote: 0, fee: 0 }, p.max_lots);
    lemma_take_monotone(v, p, TakeResult { lots: 0, quote: 0, fee: 0 }, p.max_lots);
    let y = d.outcome(v, owner, slot).0;
    assert(apart(w, y)) by {
        assert(w.seats[d.seat_index as int].owner == v.seats[d.seat_index as int].owner);
    }
    lemma_apart_trans(v, w, y);
    lemma_apart_vacant(v, y);
}

/// It stays that way when anyone swaps.
pub proof fn lemma_swap_vacant(d: Swap, v: BookView, delta: u64, slot: u64)
    requires
        v.ok(),
        market_ok(v.header),
        vacant_empty(v),
        d.outcome(v, delta, slot).1 is Ok,
    ensures
        vacant_empty(d.outcome(v, delta, slot).0),
{
    let p = d.pass(v.header, delta, slot);
    lemma_market_ok(v.header);
    if p.max_lots > 0 {
        lemma_start(v.header, p);
        lemma_pass_apart(v, p, TakeResult { lots: 0, quote: 0, fee: 0 }, p.max_lots);
    }
    assert(apart(v, d.outcome(v, delta, slot).0));
    lemma_apart_vacant(v, d.outcome(v, delta, slot).0);
}

/// It stays that way when an owner places a limit order.
pub proof fn lemma_place_limit_vacant(d: PlaceLimit, v: BookView, owner: Seq<u8>, slot: u64)
    requires
        v.ok(),
        market_ok(v.header),
        v.solvent(),
        vacant_empty(v),
        !no_owner(owner),
        d.outcome(v, owner, slot).1 is Ok,
    ensures
        vacant_empty(d.outcome(v, owner, slot).0),
{
    let s = d.seat_index as int;
    let p = d.pass(slot);
    lemma_supplied(v);
    lemma_market_ok(v.header);
    if d.lots == 0 {
        lemma_upsert_keeps(v, d.order(0), false);
        lemma_keeps_vacant(v, v.upsert(d.order(0), false).0);
    } else if d.spec_post_only() {
        lemma_upsert_keeps(v, d.order(d.lots), !d.spec_reject_on_cross());
        lemma_keeps_vacant(v, v.upsert(d.order(d.lots), !d.spec_reject_on_cross()).0);
    } else {
        let (w, r) = v.taken(p);
        let res = r->Ok_0;
        let res0 = TakeResult { lots: 0, quote: 0, fee: 0 };
        lemma_start(v.header, p);
        lemma_pass_apart(v, p, res0, p.max_lots);
        lemma_take_monotone(v, p, res0, p.max_lots);
        let x = if res.lots > 0 {
            w.paid(s, d.side, res)->0
        } else {
            w
        };
        assert(w.seats[s].owner == v.seats[s].owner);
        assert(apart(w, x));
        lemma_apart_trans(v, w, x);
        lemma_apart_vacant(v, x);
        let rest = (d.lots - res.lots) as u32;
        if rest > 0 {
            if res.lots > 0 {
                lemma_settled(v, p);
            } else {
                crate::ledger::lemma_untraded(v, p);
            }
            lemma_supplied(x);
            lemma_upsert_keeps(x, d.order(rest), false);
            lemma_keeps_vacant(x, x.upsert(d.order(rest), false).0);
        }
    }
    let y = d.outcome(v, owner, slot).0;
    assert forall|t: int, base: bool|
        0 <= t < 128 && no_owner(y.seats[t].owner@) implies #[trigger] held(y.seats[t], base)
        == 0 by {}
}

} // verus!
