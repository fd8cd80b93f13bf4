//! Where value goes: matching and settling move atoms between seats and the
//! fee account, and make none.

use crate::market::{wrapping, Market};
use crate::matching::{lemma_fill_fits, lemma_level, tally_ok};
use crate::model::{
    atoms,
    fees_ok,
    held,
    lemma_finite_below,
    locks_base,
    slot,
    total_held,
    within_limit,
    BookView,
};
use crate::seat::Seat;
use crate::side::{Side, TakeParams, TakeResult};
use crate::steps::{
    lemma_atoms_bound,
    lemma_atoms_split,
    lemma_filled,
    lemma_killed,
    lemma_lock_available,
};
use vstd::prelude::*;

verus! {

/// Replacing one seat changes the total by the difference.
pub proof fn lemma_total_update(seats: Seq<Seat>, s: int, x: Seat, base: bool)
    requires
        0 <= s < seats.len(),
    ensures
        total_held(seats.update(s, x), base) == total_held(seats, base) - held(seats[s], base)
            + held(x, base),
    decreases seats.len(),
{
    let u = seats.update(s, x);
    if s == seats.len() - 1 {
        assert(u.drop_last() =~= seats.drop_last());
    } else {
        lemma_total_update(seats.drop_last(), s, x, base);
        assert(u.drop_last() =~= seats.drop_last().update(s, x));
    }
}

/// A total covers each seat, and each pair of seats.
pub proof fn lemma_total_covers(seats: Seq<Seat>, s: int, t: int, base: bool)
    requires
        0 <= s < seats.len(),
    ensures
        0 <= held(seats[s], base) <= total_held(seats, base),
        0 <= t < seats.len() && t != s ==> held(seats[s], base) + held(seats[t], base)
            <= total_held(seats, base),
    decreases seats.len(),
{
    let d = seats.drop_last();
    lemma_total_nonneg(d, base);
    if s < d.len() {
        lemma_total_covers(d, s, t, base);
        assert(d[s] == seats[s]);
        if 0 <= t < d.len() {
            assert(d[t] == seats[t]);
        }
    } else if 0 <= t < d.len() {
        lemma_total_covers(d, t, s, base);
        assert(d[t] == seats[t]);
    }
}

pub proof fn lemma_total_nonneg(seats: Seq<Seat>, base: bool)
    ensures
        0 <= total_held(seats, base),
    decreases seats.len(),
{
    if seats.len() > 0 {
        lemma_total_nonneg(seats.drop_last(), base);
    }
}

/// Atoms of one asset that a pass moves between `a` and `b`: base for the
/// lots, quote for the price.
pub open spec fn moved(h: Market, a: TakeResult, b: TakeResult, base: bool) -> int {
    if base {
        (b.lots - a.lots) * h.base_lot_size
    } else {
        b.quote - a.quote
    }
}

/// A refund moves atoms inside one seat.
pub proof fn lemma_killed_flow(v: BookView, i: u16)
    requires
        v.ok(),
        v.orders.contains_key(i),
        held(v.seats[v.orders[i].maker as int], locks_base(v.orders[i].side)) <= u64::MAX,
    ensures
        forall|s: int, base: bool|
            0 <= s < 128 ==> #[trigger] held(v.killed(i).seats[s], base) == held(
                v.seats[s],
                base,
            ),
        forall|base: bool| #[trigger]
            total_held(v.killed(i).seats, base) == total_held(v.seats, base),
{
    let o = v.orders[i];
    let m = o.maker as int;
    assert(v.order_ok(i));
    lemma_lock_available(v, i);
    let w = v.killed(i);
    let seat = v.seats[m].spec_unlock(
        locks_base(o.side),
        atoms(v.header, o.side, o.tick, o.lots as int),
    );
    assert forall|base: bool| held(seat, base) == held(v.seats[m], base) by {}
    assert forall|base: bool| #[trigger]
        total_held(w.seats, base) == total_held(v.seats, base) by {
        lemma_total_update(v.seats, m, seat, base);
        assert(held(seat, base) == held(v.seats[m], base));
    }
    assert forall|s: int, base: bool| 0 <= s < 128 implies #[trigger] held(w.seats[s], base)
        == held(v.seats[s], base) by {
        assert(held(seat, base) == held(v.seats[m], base));
    }
}

/// A fill takes the lock and credits the other asset.
pub proof fn lemma_filled_flow(v: BookView, i: u16, fill: u32)
    requires
        v.ok(),
        v.orders.contains_key(i),
        1 <= fill <= v.orders[i].lots,
        ({
            let o = v.orders[i];
            let credit = if locks_base(o.side) {
                o.tick * v.header.tick_size * fill
            } else {
                fill * v.header.base_lot_size
            };
            v.seats[o.maker as int].spec_free(!locks_base(o.side)) + credit <= u64::MAX
        }),
    ensures
        ({
            let o = v.orders[i];
            let w = v.filled(i, fill);
            let quote = o.tick * v.header.tick_size * fill;
            let base = fill * v.header.base_lot_size;
            let ask = o.side == Side::Ask;
            &&& total_held(w.seats, true) == total_held(v.seats, true) + (if ask {
                -base
            } else {
                base
            })
            &&& total_held(w.seats, false) == total_held(v.seats, false) + (if ask {
                quote
            } else {
                -quote
            })
            &&& forall|s: int, b: bool|
                0 <= s < 128 && s != o.maker ==> #[trigger] held(w.seats[s], b) == held(
                    v.seats[s],
                    b,
                )
            &&& held(w.seats[o.maker as int], true) == held(v.seats[o.maker as int], true) + (if ask {
                -base
            } else {
                base
            })
            &&& held(w.seats[o.maker as int], false) == held(v.seats[o.maker as int], false) + (
            if ask {
                quote
            } else {
                -quote
            })
            &&& base >= 0
            &&& quote >= 0
            &&& held(w.seats[o.maker as int], locks_base(o.side)) <= held(
                v.seats[o.maker as int],
                locks_base(o.side),
            )
        }),
{
    let o = v.orders[i];
    let m = o.maker as int;
    assert(v.order_ok(i));
    lemma_lock_available(v, i);
    assert(o.tick * v.header.tick_size * fill >= 0) by (nonlinear_arith);
    assert(fill * v.header.base_lot_size >= 0) by (nonlinear_arith);
    lemma_atoms_split(v.header, o.side, o.tick, fill as int, o.lots - fill);
    lemma_atoms_bound(v.header, o.side, o.tick, fill as int);
    lemma_atoms_bound(v.header, o.side, o.tick, o.lots - fill);
    let seat = v.settled(i, fill as int);
    lemma_total_update(v.seats, m, seat, true);
    lemma_total_update(v.seats, m, seat, false);
}

/// A matching pass moves atoms between makers and the taker only: what makers
/// are credited of one asset and what they give up of the other is exactly
/// what the result says. The taker's seat keeps what it holds.
#[verifier::rlimit(60)]
pub proof fn lemma_take_flow(v: BookView, p: TakeParams, res: TakeResult, left: u32)
    requires
        v.ok(),
        fees_ok(v.header),
        tally_ok(v.header, p, res, left),
        v.take_from(p, res, left).1 is Ok,
        total_held(v.seats, p.side == Side::Bid) <= u64::MAX,
        ({
            let r = v.take_from(p, res, left).1->Ok_0;
            v.held_by_others(p.seat as int, p.side == Side::Ask) + moved(
                v.header,
                res,
                r,
                p.side == Side::Ask,
            ) <= u64::MAX
        }),
    ensures
        ({
            let (w, x) = v.take_from(p, res, left);
            let r = x->Ok_0;
            let gives = p.side == Side::Bid;
            let gets = p.side == Side::Ask;
            let t = p.seat as int;
            &&& w.ok()
            &&& w.header == (Market {
                fees_accrued_quote: wrapping(v.header.fees_accrued_quote + r.fee),
                ..v.header
            })
            &&& res.lots <= r.lots
            &&& res.quote <= r.quote
            &&& res.fee <= r.fee
            &&& r.lots <= p.max_lots
            &&& tally_ok(v.header, p, r, (p.max_lots - r.lots) as u32)
            &&& total_held(w.seats, gives) == total_held(v.seats, gives) - moved(
                v.header,
                res,
                r,
                gives,
            )
            &&& total_held(w.seats, gets) == total_held(v.seats, gets) + moved(
                v.header,
                res,
                r,
                gets,
            )
            &&& 0 <= t < 128 ==> held(w.seats[t], true) == held(v.seats[t], true) && held(
                w.seats[t],
                false,
            ) == held(v.seats[t], false)
        }),
    decreases left, v.orders.dom().len(),
{
    let side = p.side.spec_opposite();
    let i = v.front(side);
    let o = v.orders[i];
    let fill = v.fill_of(p, i, res, left);
    let t = p.seat as int;
    let gives = p.side == Side::Bid;
    let gets = p.side == Side::Ask;
    let r = v.take_from(p, res, left).1->Ok_0;
    let ls = v.header.base_lot_size as int;
    assert((res.lots - res.lots) * ls == 0) by (nonlinear_arith);
    if left == 0 || v.best(side) is None || !within_limit(p, v.best(side)->0) {
        lemma_done_flow(v, res.fee);
    } else {
        let b = choose|b: u32| v.is_best(side, b);
        assert(v.is_best(side, b));
        lemma_level(v, side, b);
        assert(v.order_ok(i));
        lemma_finite_below(v.orders.dom(), 0x10000);
        let m = o.maker as int;
        lemma_total_covers(v.seats, m, t, true);
        lemma_total_covers(v.seats, m, t, false);
        if o.expired(p.slot) || o.maker == p.seat {
            let w = v.killed(i);
            lemma_killed(v, i);
            lemma_killed_flow(v, i);
            assert(total_held(w.seats, gives) == total_held(v.seats, gives));
            assert(total_held(w.seats, gets) == total_held(v.seats, gets));
            if 0 <= t < 128 {
                assert(held(w.seats[t], gets) == held(v.seats[t], gets));
                assert(held(w.seats[t], gives) == held(v.seats[t], gives));
            }
            lemma_take_flow(w, p, res, left);
        } else if fill <= 0 {
            lemma_done_flow(v, res.fee);
        } else {
            lemma_fill_fits(v.header, p, res, left, o.tick, fill);
            lemma_filled(v, i, fill as u32);
            let w = v.filled(i, fill as u32);
            let res2 = v.with_fill(res, o.tick, fill);
            let left2 = (left - fill) as u32;
            lemma_take_monotone(w, p, res2, left2);
            let quote = o.tick * v.header.tick_size * fill;
            assert((r.lots - res.lots) * ls == (r.lots - res2.lots) * ls + fill * ls)
                by (nonlinear_arith)
                requires
                    res2.lots == res.lots + fill,
            ;
            assert((r.lots - res2.lots) * ls >= 0) by (nonlinear_arith)
                requires
                    r.lots >= res2.lots,
                    ls >= 0,
            ;
            lemma_filled_flow(v, i, fill as u32);
            assert(held(w.seats[m], gives) <= held(v.seats[m], gives));
            if 0 <= t < 128 {
                assert(held(w.seats[t], gets) == held(v.seats[t], gets));
                assert(held(w.seats[t], gives) == held(v.seats[t], gives));
            }
            lemma_take_flow(w, p, res2, left2);
        }
    }
}

/// A paid pass conserves both assets: what the taker pays and receives is what
/// makers receive and pay, less the fee, which accrues to the market. The
/// taker's seat stays within supply.
#[verifier::rlimit(40)]
pub proof fn lemma_paid_flow(v: BookView, p: TakeParams)
    requires
        v.ok(),
        fees_ok(v.header),
        v.header.fee_bps <= 10_000,
        v.solvent(),
        p.seat < 128,
        v.taken(p).1 is Ok,
        v.taken(p).0.paid(p.seat as int, p.side, v.taken(p).1->Ok_0) is Some,
    ensures
        ({
            let (w, x) = v.taken(p);
            let r = x->Ok_0;
            let y = w.paid(p.seat as int, p.side, r)->0;
            &&& y.ok()
            &&& y.owed(true) == v.owed(true)
            &&& y.owed(false) == v.owed(false)
            &&& y.seats[p.seat as int].within_supply()
            &&& y.header == w.header
            &&& match p.side {
                Side::Bid => {
                    &&& held(y.seats[p.seat as int], true) == held(v.seats[p.seat as int], true)
                        + r.lots * v.header.base_lot_size
                    &&& held(y.seats[p.seat as int], false) == held(v.seats[p.seat as int], false)
                        - r.quote - r.fee
                },
                Side::Ask => {
                    &&& held(y.seats[p.seat as int], true) == held(v.seats[p.seat as int], true)
                        - r.lots * v.header.base_lot_size
                    &&& held(y.seats[p.seat as int], false) == held(v.seats[p.seat as int], false)
                        + r.quote - r.fee
                },
            }
            &&& y.header.fees_accrued_quote == v.header.fees_accrued_quote + r.fee
        }),
{
    let t = p.seat as int;
    let (w, x) = v.taken(p);
    let r = x->Ok_0;
    let res = TakeResult { lots: 0, quote: 0, fee: 0 };
    let gives = p.side == Side::Bid;
    let gets = p.side == Side::Ask;
    let y = w.paid(t, p.side, r)->0;
    let ls = v.header.base_lot_size as int;
    lemma_start(v.header, p);
    lemma_take_monotone(v, p, res, p.max_lots);
    lemma_total_covers(v.seats, t, t, true);
    lemma_total_covers(v.seats, t, t, false);
    lemma_keeps_held(v, p, res, p.max_lots);
    assert((r.lots - 0) * ls == r.lots * ls);
    assert(0 <= r.lots * ls <= u64::MAX) by (nonlinear_arith)
        requires
            0 <= r.lots <= v.header.max_lots_per_order,
            v.header.max_lots_per_order * v.header.base_lot_size <= u64::MAX,
            ls == v.header.base_lot_size,
            ls >= 0,
    ;
    lemma_take_flow(v, p, res, p.max_lots);
    assert(r.fee <= r.quote) by (nonlinear_arith)
        requires
            r.fee * 10_000 <= r.quote * v.header.fee_bps,
            v.header.fee_bps <= 10_000,
            r.fee >= 0,
            r.quote >= 0,
    ;
    lemma_total_covers(w.seats, t, t, true);
    lemma_total_covers(w.seats, t, t, false);
    let seat = y.seats[t];
    lemma_total_update(w.seats, t, seat, true);
    lemma_total_update(w.seats, t, seat, false);
    crate::steps::lemma_with_seat(w, t, seat);
    assert forall|s: int, base: bool| 0 <= s < 128 implies #[trigger] y.surplus(s, base)
        >= 0 by {
        assert(w.surplus(s, base) >= 0);
        assert(y.needed(s, base) == w.needed(s, base));
    }
    lemma_total_covers(y.seats, t, t, true);
    lemma_total_covers(y.seats, t, t, false);
}

/// A pass starts with nothing tallied.
pub proof fn lemma_start(h: Market, p: TakeParams)
    requires
        p.max_lots <= h.max_lots_per_order,
    ensures
        tally_ok(h, p, TakeResult { lots: 0, quote: 0, fee: 0 }, p.max_lots),
{
    let x = (h.anchor_tick + 8191) * h.tick_size;
    assert(x * 0 == 0) by (nonlinear_arith);
    let y = h.fee_bps as int;
    assert(0 * y == 0) by (nonlinear_arith);
}

/// The taker's seat keeps what it holds during a pass.
pub proof fn lemma_keeps_held(v: BookView, p: TakeParams, res: TakeResult, left: u32)
    requires
        v.ok(),
        fees_ok(v.header),
        tally_ok(v.header, p, res, left),
        v.take_from(p, res, left).1 is Ok,
        p.seat < 128,
        v.seats[p.seat as int].within_supply(),
    ensures
        held(v.take_from(p, res, left).0.seats[p.seat as int], true) == held(
            v.seats[p.seat as int],
            true,
        ),
        held(v.take_from(p, res, left).0.seats[p.seat as int], false) == held(
            v.seats[p.seat as int],
            false,
        ),
    decreases left, v.orders.dom().len(),
{
    let side = p.side.spec_opposite();
    let i = v.front(side);
    let o = v.orders[i];
    let fill = v.fill_of(p, i, res, left);
    let t = p.seat as int;
    if left == 0 || v.best(side) is None || !within_limit(p, v.best(side)->0) {
    } else {
        let b = choose|b: u32| v.is_best(side, b);
        assert(v.is_best(side, b));
        lemma_level(v, side, b);
        assert(v.order_ok(i));
        lemma_finite_below(v.orders.dom(), 0x10000);
        if o.expired(p.slot) || o.maker == p.seat {
            lemma_killed(v, i);
            lemma_lock_available(v, i);
            let w = v.killed(i);
            assert(held(w.seats[t], true) == held(v.seats[t], true));
            assert(held(w.seats[t], false) == held(v.seats[t], false));
            lemma_keeps_held(w, p, res, left);
        } else if fill <= 0 {
        } else {
            lemma_fill_fits(v.header, p, res, left, o.tick, fill);
            lemma_filled(v, i, fill as u32);
            let w = v.filled(i, fill as u32);
            assert(w.seats[t] == v.seats[t]);
            lemma_keeps_held(
                w,
                p,
                v.with_fill(res, o.tick, fill),
                (left - fill) as u32,
            );
        }
    }
}

/// Accruing a fee touches no seat.
proof fn lemma_done_flow(v: BookView, fee: u64)
    requires
        v.ok(),
    ensures
        v.with_fees(fee).ok(),
        v.with_fees(fee).seats == v.seats,
{
    crate::steps::lemma_header_changed(v, v.with_fees(fee).header);
}

/// The result of a pass only grows, and the header changes by the fee alone.
#[verifier::rlimit(40)]
pub proof fn lemma_take_monotone(v: BookView, p: TakeParams, res: TakeResult, left: u32)
    requires
        v.ok(),
        fees_ok(v.header),
        tally_ok(v.header, p, res, left),
        v.take_from(p, res, left).1 is Ok,
    ensures
        ({
            let (w, x) = v.take_from(p, res, left);
            let r = x->Ok_0;
            &&& w.ok()
            &&& w.header == (Market {
                fees_accrued_quote: wrapping(v.header.fees_accrued_quote + r.fee),
                ..v.header
            })
            &&& res.lots <= r.lots
            &&& res.quote <= r.quote
            &&& res.fee <= r.fee
            &&& r.lots <= p.max_lots
            &&& tally_ok(v.header, p, r, (p.max_lots - r.lots) as u32)
            &&& forall|s: int|
                0 <= s < 128 ==> (#[trigger] w.seats[s]).owner == v.seats[s].owner
        }),
    decreases left, v.orders.dom().len(),
{
    let side = p.side.spec_opposite();
    let i = v.front(side);
    let o = v.orders[i];
    let fill = v.fill_of(p, i, res, left);
    if left == 0 || v.best(side) is None || !within_limit(p, v.best(side)->0) {
        lemma_done_flow(v, res.fee);
    } else {
        let b = choose|b: u32| v.is_best(side, b);
        assert(v.is_best(side, b));
        lemma_level(v, side, b);
        assert(v.order_ok(i));
        lemma_finite_below(v.orders.dom(), 0x10000);
        if o.expired(p.slot) || o.maker == p.seat {
            lemma_killed(v, i);
            lemma_take_monotone(v.killed(i), p, res, left);
        } else if fill <= 0 {
            lemma_done_flow(v, res.fee);
        } else {
            lemma_fill_fits(v.header, p, res, left, o.tick, fill);
            lemma_filled(v, i, fill as u32);
            lemma_take_monotone(
                v.filled(i, fill as u32),
                p,
                v.with_fill(res, o.tick, fill),
                (left - fill) as u32,
            );
        }
    }
}

} // verus!
