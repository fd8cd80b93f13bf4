//! Laws of value, instruction by instruction: what the seats and the fee
//! account hold together changes exactly by what enters and leaves the vaults.

use crate::admin::{CollectFees, UpdateFee};
use crate::custody::{
    keeps,
    lemma_bump_keeps,
    lemma_cancel_keeps,
    lemma_has_best,
    lemma_keeps_owed,
    lemma_keeps_trans,
    lemma_merge_keeps,
    lemma_supplied,
    lemma_upsert_keeps,
    supplied,
};
use crate::flow::{
    lemma_paid_flow,
    lemma_start,
    lemma_take_flow,
    lemma_take_monotone,
    lemma_total_covers,
    lemma_total_nonneg,
    lemma_total_update,
};
use crate::funding::{credit_leg, CloseSeat, Deposit, Payout, Withdraw};
use crate::maker::{requoted, Cancel, PlaceLimit};
use crate::market::{lemma_wrapping, Market};
use crate::matching::{lemma_fill_fits, lemma_level, tally_ok};
use crate::model::{
    fees_ok,
    key,
    lemma_finite_below,
    lemma_market_ok,
    market_ok,
    total_held,
    within_limit,
    BookView,
    Merge,
};
use crate::orders::lemma_rank;
use crate::quote::Quote;
use crate::quoting::merging;
use crate::seat::{no_owner, Seat};
use crate::side::{Side, TakeParams, TakeResult};
use crate::steps::{lemma_filled, lemma_killed, lemma_with_seat};
use crate::taker::{PlaceTake, Swap};
use vstd::prelude::*;

verus! {

/// From `v` to `w`: the book is consistent, every seat has locked exactly as
/// much more or less as its orders need, belongs to whom it belonged, and the
/// terms of the market are unchanged.
pub open spec fn stays(v: BookView, w: BookView) -> bool {
    &&& w.ok()
    &&& w.header == (Market {
        seq: w.header.seq,
        order_seq: w.header.order_seq,
        fees_accrued_quote: w.header.fees_accrued_quote,
        ..v.header
    })
    &&& forall|s: int, base: bool|
        0 <= s < 128 ==> #[trigger] w.surplus(s, base) == v.surplus(s, base)
    &&& forall|s: int| 0 <= s < 128 ==> (#[trigger] w.seats[s]).owner == v.seats[s].owner
}

proof fn lemma_stays_trans(u: BookView, v: BookView, w: BookView)
    requires
        stays(u, v),
        stays(v, w),
    ensures
        stays(u, w),
{
    assert forall|s: int, base: bool| 0 <= s < 128 implies #[trigger] w.surplus(s, base)
        == u.surplus(s, base) by {
        assert(v.surplus(s, base) == u.surplus(s, base));
    }
    assert forall|s: int| 0 <= s < 128 implies (#[trigger] w.seats[s]).owner
        == u.seats[s].owner by {
        assert(v.seats[s].owner == u.seats[s].owner);
    }
}

/// A pass moves locks exactly with the orders that lose lots, also where it
/// fails.
#[verifier::rlimit(40)]
pub proof fn lemma_take_stays(v: BookView, p: TakeParams, res: TakeResult, left: u32)
    requires
        v.ok(),
        fees_ok(v.header),
        tally_ok(v.header, p, res, left),
    ensures
        stays(v, v.take_from(p, res, left).0),
    decreases left, v.orders.dom().len(),
{
    let side = p.side.spec_opposite();
    let f = v.front(side);
    let o = v.orders[f];
    let fill = v.fill_of(p, f, res, left);
    let w = v.take_from(p, res, left).0;
    if left == 0 || v.best(side) is None || !within_limit(p, v.best(side)->0) {
        crate::steps::lemma_header_changed(v, v.with_fees(res.fee).header);
    } else {
        lemma_has_best(v, side);
        lemma_level(v, side, v.best(side)->0);
        assert(v.order_ok(f));
        lemma_finite_below(v.orders.dom(), 0x10000);
        if o.tick * v.header.tick_size == 0 {
        } else if o.expired(p.slot) || (o.maker == p.seat && p.self_trade
            != crate::side::SelfTradePolicy::Abort) {
            lemma_killed(v, f);
            lemma_take_stays(v.killed(f), p, res, left);
            lemma_stays_trans(v, v.killed(f), w);
        } else if o.maker == p.seat {
        } else if fill <= 0 {
            crate::steps::lemma_header_changed(v, v.with_fees(res.fee).header);
        } else {
            lemma_fill_fits(v.header, p, res, left, o.tick, fill);
            lemma_filled(v, f, fill as u32);
            let x = v.filled(f, fill as u32);
            lemma_take_stays(
                x,
                p,
                v.with_fill(res, o.tick, fill),
                (left - fill) as u32,
            );
            lemma_stays_trans(v, x, w);
        }
    }
}

/// A seat's free balances play no part in its locks.
pub proof fn lemma_free_stays(v: BookView, s: int, seat: Seat)
    requires
        v.ok(),
        0 <= s < 128,
        seat == (Seat { base_free: seat.base_free, quote_free: seat.quote_free, ..v.seats[s] }),
    ensures
        stays(v, v.with_seat(s, seat)),
        total_held(v.with_seat(s, seat).seats, true) == total_held(v.seats, true)
            - v.seats[s].base_free + seat.base_free,
        total_held(v.with_seat(s, seat).seats, false) == total_held(v.seats, false)
            - v.seats[s].quote_free + seat.quote_free,
{
    let w = v.with_seat(s, seat);
    if no_owner(seat.owner@) {
        assert(v.vacant_ok());
        assert(v.seats[s].owner == seat.owner);
    }
    lemma_with_seat(v, s, seat);
    lemma_total_update(v.seats, s, seat, true);
    lemma_total_update(v.seats, s, seat, false);
    assert forall|t: int, base: bool| 0 <= t < 128 implies #[trigger] w.surplus(t, base)
        == v.surplus(t, base) by {
        assert(w.needed(t, base) == v.needed(t, base));
    }
    assert forall|t: int, base: bool| 0 <= t < 128 implies #[trigger] w.surplus(t, base)
        >= 0 by {
        assert(v.surplus(t, base) >= 0);
    }
}

proof fn lemma_bump_stays(v: BookView)
    requires
        v.ok(),
    ensures
        stays(v, v.bumped()),
        v.bumped().owed(true) == v.owed(true),
        v.bumped().owed(false) == v.owed(false),
{
    crate::steps::lemma_header_changed(v, v.bumped().header);
}

/// A deposit adds to what is owed exactly what the vaults received.
pub proof fn lemma_deposit(
    d: Deposit,
    v: BookView,
    owner: Seq<u8>,
    base: (u64, u64),
    quote: (u64, u64),
)
    requires
        v.ok(),
        d.outcome(v, owner, base, quote).1 is Ok,
    ensures
        ({
            let w = d.outcome(v, owner, base, quote).0;
            &&& stays(v, w)
            &&& w.owed(true) == v.owed(true) + if d.base_atoms > 0 {
                base.1 - base.0
            } else {
                0
            }
            &&& w.owed(false) == v.owed(false) + if d.quote_atoms > 0 {
                quote.1 - quote.0
            } else {
                0
            }
        }),
{
    let s = d.seat_index as int;
    let x = if d.base_atoms > 0 {
        credit_leg(v, s, true, base.0, base.1).0
    } else {
        v
    };
    if d.base_atoms > 0 {
        lemma_free_stays(v, s, x.seats[s]);
        assert(x =~= v.with_seat(s, x.seats[s]));
    }
    let y = if d.quote_atoms > 0 {
        credit_leg(x, s, false, quote.0, quote.1).0
    } else {
        x
    };
    if d.quote_atoms > 0 {
        lemma_free_stays(x, s, y.seats[s]);
        assert(y =~= x.with_seat(s, y.seats[s]));
    }
    lemma_bump_stays(y);
    assert(stays(v, x));
    lemma_stays_trans(v, x, y);
    lemma_stays_trans(v, y, y.bumped());
}

/// A withdrawal takes off what is owed exactly what it pays out.
pub proof fn lemma_withdraw(d: Withdraw, v: BookView, owner: Seq<u8>)
    requires
        v.ok(),
        d.outcome(v, owner).1 is Ok,
    ensures
        ({
            let (w, r) = d.outcome(v, owner);
            &&& stays(v, w)
            &&& w.owed(true) == v.owed(true) - r->Ok_0.base
            &&& w.owed(false) == v.owed(false) - r->Ok_0.quote
        }),
{
    let s = d.seat_index as int;
    let (w, r) = d.outcome(v, owner);
    let p = r->Ok_0;
    let seat = Seat {
        base_free: (v.seats[s].base_free - p.base) as u64,
        quote_free: (v.seats[s].quote_free - p.quote) as u64,
        ..v.seats[s]
    };
    let x = v.with_seat(s, seat);
    lemma_free_stays(v, s, seat);
    lemma_bump_stays(x);
    lemma_stays_trans(v, x, w);
}

/// What a deposit brought in can be withdrawn again, to the atom, and the seat
/// holds what it held before.
pub proof fn lemma_deposit_then_withdraw(
    d: Deposit,
    v: BookView,
    owner: Seq<u8>,
    base: (u64, u64),
    quote: (u64, u64),
)
    requires
        v.ok(),
        d.outcome(v, owner, base, quote).1 is Ok,
    ensures
        ({
            let w = d.outcome(v, owner, base, quote).0;
            let b = arrived(d.base_atoms, base);
            let q = arrived(d.quote_atoms, quote);
            let back = Withdraw { seat_index: d.seat_index, base_atoms: b, quote_atoms: q };
            let (x, r) = back.outcome(w, owner);
            &&& r == Ok::<Payout, crate::errors::ProgramError>(Payout { base: b, quote: q })
            &&& x.seats == v.seats
            &&& x.orders == v.orders
        }),
{
    let s = d.seat_index as int;
    let w = d.outcome(v, owner, base, quote).0;
    let b = arrived(d.base_atoms, base);
    let q = arrived(d.quote_atoms, quote);
    let back = Withdraw { seat_index: d.seat_index, base_atoms: b, quote_atoms: q };
    let x = back.outcome(w, owner).0;
    assert(w.seats[s].base_free == v.seats[s].base_free + b);
    assert(w.seats[s].quote_free == v.seats[s].quote_free + q);
    assert(x.seats =~= v.seats);
}

/// What one leg of a deposit brought in: nothing was pulled for an empty one.
pub open spec fn arrived(asked: u64, readings: (u64, u64)) -> u64 {
    if asked > 0 {
        (readings.1 - readings.0) as u64
    } else {
        0
    }
}

/// A seat without orders whose lock is exactly what its orders need can be
/// emptied and then closed.
pub proof fn lemma_withdraw_then_close(v: BookView, seat_index: u16, owner: Seq<u8>)
    requires
        v.ok(),
        v.seat_check(seat_index, owner) is Ok,
        v.chains[seat_index as int].len() == 0,
        v.surplus(seat_index as int, true) == 0,
        v.surplus(seat_index as int, false) == 0,
    ensures
        ({
            let all = Withdraw { seat_index, base_atoms: u64::MAX, quote_atoms: u64::MAX };
            let (w, r) = all.outcome(v, owner);
            &&& r is Ok
            &&& (CloseSeat { seat_index }).outcome(w, owner).1 is Ok
        }),
{
    let s = seat_index as int;
    assert(v.needed(s, true) == 0);
    assert(v.needed(s, false) == 0);
}

/// Collecting fees takes off what is owed exactly what is paid out, and a
/// second collection finds nothing.
pub proof fn lemma_collect(v: BookView)
    requires
        v.ok(),
    ensures
        ({
            let (h, amount) = (CollectFees).outcome(v.header);
            let w = BookView { header: h, ..v };
            &&& stays(v, w)
            &&& w.owed(true) == v.owed(true)
            &&& w.owed(false) == v.owed(false) - amount
            &&& (CollectFees).outcome(h).1 == 0
        }),
{
    let (h, amount) = (CollectFees).outcome(v.header);
    crate::steps::lemma_header_changed(v, h);
}

/// A fee change moves no value and keeps the market's guarantees.
pub proof fn lemma_update_fee(d: UpdateFee, v: BookView)
    requires
        v.ok(),
    ensures
        ({
            let (h, r) = d.outcome(v.header);
            let w = BookView { header: h, ..v };
            &&& w.ok()
            &&& w.seats == v.seats
            &&& w.owed(true) == v.owed(true)
            &&& w.owed(false) == v.owed(false)
            &&& market_ok(v.header) ==> market_ok(h)
        }),
{
    let h = d.outcome(v.header).0;
    crate::steps::lemma_header_changed(v, h);
}

/// A cancel moves no value.
pub proof fn lemma_cancel(d: Cancel, v: BookView, owner: Seq<u8>)
    requires
        v.ok(),
        v.solvent(),
        d.outcome(v, owner).1 is Ok,
    ensures
        keeps(v, d.outcome(v, owner).0),
        d.outcome(v, owner).0.owed(true) == v.owed(true),
        d.outcome(v, owner).0.owed(false) == v.owed(false),
{
    lemma_supplied(v);
    lemma_cancel_keeps(v, d.seat_index, d.node_index, d.order_seq);
    let x = v.cancel(d.seat_index, d.node_index, d.order_seq).0;
    lemma_bump_keeps(x);
    lemma_keeps_trans(v, x, x.bumped());
    lemma_keeps_owed(v, x.bumped());
}

/// An order is refunded once: after its cancel, no cancel of the same order
/// succeeds.
pub proof fn lemma_cancel_once(d: Cancel, v: BookView, owner: Seq<u8>)
    requires
        v.ok(),
        d.outcome(v, owner).1 is Ok,
    ensures
        d.outcome(d.outcome(v, owner).0, owner).1 == Err::<(), crate::errors::ProgramError>(
            crate::errors::clob(crate::errors::ClobError::OrderNotFound),
        ),
{
    assert(v.order_ok(d.node_index));
}

/// The merge of one side, as it starts.
pub proof fn lemma_merge_starts(v: BookView, seat: u16, side: Side, quotes: Seq<Quote>, expiry: u32)
    requires
        v.ok(),
        seat < 128,
        v.seats[seat as int].within_supply(),
        !no_owner(v.seats[seat as int].owner@),
    ensures
        ({
            let m = Merge {
                seat,
                side,
                expiry_slot: expiry,
                opposing: v.best(side.spec_opposite()),
                quotes,
            };
            merging(v, m, v.rank(seat as int, key(side, 0)), 0)
        }),
{
    let s = seat as int;
    assert(v.chain_ok(s));
    lemma_rank(v, s, key(side, 0), 0);
    lemma_has_best(v, side.spec_opposite());
}

/// A mass quote moves no value.
pub proof fn lemma_mass_quote(
    v: BookView,
    seat: u16,
    owner: Seq<u8>,
    bids: Seq<Quote>,
    asks: Seq<Quote>,
    expiry: u32,
)
    requires
        v.ok(),
        v.solvent(),
        !no_owner(owner),
        requoted(v, seat, owner, bids, asks, expiry).1 is Ok,
    ensures
        keeps(v, requoted(v, seat, owner, bids, asks, expiry).0),
        requoted(v, seat, owner, bids, asks, expiry).0.owed(true) == v.owed(true),
        requoted(v, seat, owner, bids, asks, expiry).0.owed(false) == v.owed(false),
{
    lemma_supplied(v);
    let s = seat as int;
    assert(v.seats[s].within_supply());
    let w = v.merged(seat, Side::Bid, bids, expiry).0;
    let m = Merge {
        seat,
        side: Side::Bid,
        expiry_slot: expiry,
        opposing: v.best(Side::Ask),
        quotes: bids,
    };
    lemma_merge_starts(v, seat, Side::Bid, bids, expiry);
    lemma_merge_keeps(v, m, v.rank(s, key(Side::Bid, 0)), 0, 0, 0);
    lemma_keeps_owed(v, w);
    assert(w.seats[s].within_supply());
    assert(w.seats[s].owner == v.seats[s].owner);
    let n = Merge {
        seat,
        side: Side::Ask,
        expiry_slot: expiry,
        opposing: w.best(Side::Bid),
        quotes: asks,
    };
    let x = w.merged(seat, Side::Ask, asks, expiry).0;
    lemma_merge_starts(w, seat, Side::Ask, asks, expiry);
    lemma_merge_keeps(w, n, w.rank(s, key(Side::Ask, 0)), 0, 0, 0);
    lemma_keeps_trans(v, w, x);
    lemma_bump_keeps(x);
    lemma_keeps_trans(v, x, x.bumped());
    lemma_keeps_owed(v, x.bumped());
}

/// A taker order moves value between seats and the fee account only.
pub proof fn lemma_place_take(d: PlaceTake, v: BookView, owner: Seq<u8>, slot: u64)
    requires
        v.ok(),
        market_ok(v.header),
        v.solvent(),
        d.outcome(v, owner, slot).1 is Ok,
    ensures
        stays(v, d.outcome(v, owner, slot).0),
        d.outcome(v, owner, slot).0.owed(true) == v.owed(true),
        d.outcome(v, owner, slot).0.owed(false) == v.owed(false),
{
    let p = d.pass(slot);
    lemma_market_ok(v.header);
    lemma_settled(v, p);
    let y = v.taken(p).0.paid(p.seat as int, p.side, v.taken(p).1->Ok_0)->0;
    lemma_bump_stays(y);
    lemma_stays_trans(v, y, y.bumped());
}

/// A pass of a seat that is paid for.
pub proof fn lemma_settled(v: BookView, p: TakeParams)
    requires
        v.ok(),
        fees_ok(v.header),
        v.header.fee_bps <= 10_000,
        v.solvent(),
        p.seat < 128,
        v.taken(p).1 is Ok,
        v.taken(p).0.paid(p.seat as int, p.side, v.taken(p).1->Ok_0) is Some,
    ensures
        ({
            let y = v.taken(p).0.paid(p.seat as int, p.side, v.taken(p).1->Ok_0)->0;
            &&& stays(v, y)
            &&& y.owed(true) == v.owed(true)
            &&& y.owed(false) == v.owed(false)
        }),
{
    let (w, r) = v.taken(p);
    let s = p.seat as int;
    let y = w.paid(s, p.side, r->Ok_0)->0;
    lemma_start(v.header, p);
    lemma_take_stays(v, p, TakeResult { lots: 0, quote: 0, fee: 0 }, p.max_lots);
    lemma_paid_flow(v, p);
    lemma_free_stays(w, s, y.seats[s]);
    assert(y =~= w.with_seat(s, y.seats[s]));
    lemma_stays_trans(v, w, y);
}

/// A pass that traded nothing only removed orders.
pub proof fn lemma_untraded(v: BookView, p: TakeParams)
    requires
        v.ok(),
        fees_ok(v.header),
        v.solvent(),
        v.taken(p).1 is Ok,
        v.taken(p).1->Ok_0.lots == 0,
    ensures
        stays(v, v.taken(p).0),
        v.taken(p).0.owed(true) == v.owed(true),
        v.taken(p).0.owed(false) == v.owed(false),
{
    let res = TakeResult { lots: 0, quote: 0, fee: 0 };
    let r = v.taken(p).1->Ok_0;
    let h = v.header;
    lemma_start(h, p);
    lemma_take_stays(v, p, res, p.max_lots);
    lemma_take_monotone(v, p, res, p.max_lots);
    let c = (h.anchor_tick + 8191) * h.tick_size;
    assert(c * 0 == 0) by (nonlinear_arith);
    let b = h.fee_bps as int;
    assert(0 * b == 0) by (nonlinear_arith);
    let ls = h.base_lot_size as int;
    assert((0 - 0) * ls == 0) by (nonlinear_arith);
    if 0 <= p.seat < 128 {
        lemma_total_covers(v.seats, p.seat as int, p.seat as int, true);
        lemma_total_covers(v.seats, p.seat as int, p.seat as int, false);
    }
    lemma_take_flow(v, p, res, p.max_lots);
}

/// A limit order moves value between seats and the fee account only.
pub proof fn lemma_place_limit(d: PlaceLimit, v: BookView, owner: Seq<u8>, slot: u64)
    requires
        v.ok(),
        market_ok(v.header),
        v.solvent(),
        !no_owner(owner),
        d.outcome(v, owner, slot).1 is Ok,
    ensures
        d.outcome(v, owner, slot).0.ok(),
        market_ok(d.outcome(v, owner, slot).0.header),
        forall|s: int, base: bool|
            0 <= s < 128 ==> #[trigger] d.outcome(v, owner, slot).0.surplus(s, base) == v.surplus(
                s,
                base,
            ),
        d.outcome(v, owner, slot).0.owed(true) == v.owed(true),
        d.outcome(v, owner, slot).0.owed(false) == v.owed(false),
{
    let s = d.seat_index as int;
    let p = d.pass(slot);
    lemma_supplied(v);
    lemma_market_ok(v.header);
    if d.lots == 0 {
        lemma_counted(v, d.order(0), false);
    } else if d.spec_post_only() {
        lemma_counted(v, d.order(d.lots), !d.spec_reject_on_cross());
    } else {
        let (w, r) = v.taken(p);
        let res = r->Ok_0;
        let x = if res.lots > 0 {
            w.paid(s, d.side, res)->0
        } else {
            w
        };
        if res.lots > 0 {
            lemma_settled(v, p);
        } else {
            lemma_untraded(v, p);
        }
        lemma_start(v.header, p);
        lemma_take_monotone(v, p, TakeResult { lots: 0, quote: 0, fee: 0 }, p.max_lots);
        lemma_supplied(x);
        let rest = (d.lots - res.lots) as u32;
        assert(x.seats[s].owner == v.seats[s].owner);
        if rest > 0 {
            lemma_counted(x, d.order(rest), false);
        } else {
            lemma_bump_stays(x);
        }
        let y = d.outcome(v, owner, slot).0;
        assert forall|t: int, base: bool| 0 <= t < 128 implies #[trigger] y.surplus(t, base)
            == v.surplus(t, base) by {
            assert(x.surplus(t, base) == v.surplus(t, base));
        }
    }
}

proof fn lemma_counted(v: BookView, o: crate::model::Order, slide: bool)
    requires
        v.ok(),
        supplied(v),
        o.maker < 128,
        !no_owner(v.seats[o.maker as int].owner@),
        v.upsert(o, slide).1 is Ok,
    ensures
        keeps(v, v.upsert(o, slide).0.bumped()),
        market_ok(v.header) ==> market_ok(v.upsert(o, slide).0.bumped().header),
        v.upsert(o, slide).0.bumped().owed(true) == v.owed(true),
        v.upsert(o, slide).0.bumped().owed(false) == v.owed(false),
{
    lemma_upsert_keeps(v, o, slide);
    let x = v.upsert(o, slide).0;
    lemma_bump_keeps(x);
    lemma_keeps_trans(v, x, x.bumped());
    lemma_keeps_owed(v, x.bumped());
}

/// A swap adds to what is owed exactly the input that it used, and takes off
/// exactly the output that it pays. The input stays within what a mint can
/// issue, as it arrived in a vault.
pub proof fn lemma_swap(d: Swap, v: BookView, delta: u64, slot: u64)
    requires
        v.ok(),
        market_ok(v.header),
        v.solvent(),
        v.owed(d.side == Side::Ask) + delta <= u64::MAX,
        d.outcome(v, delta, slot).1 is Ok,
    ensures
        ({
            let (w, r) = d.outcome(v, delta, slot);
            let o = r->Ok_0;
            let input = d.side == Side::Ask;
            &&& stays(v, w)
            &&& w.owed(input) == v.owed(input) + (delta - o.refund)
            &&& w.owed(!input) == v.owed(!input) - o.out
            &&& 0 <= o.refund <= delta
        }),
{
    let p = d.pass(v.header, delta, slot);
    let h = v.header;
    let res0 = TakeResult { lots: 0, quote: 0, fee: 0 };
    lemma_market_ok(h);
    let ls = h.base_lot_size as int;
    assert(0 * ls == 0) by (nonlinear_arith);
    lemma_start(h, p);
    if p.max_lots == 0 {
        lemma_bump_stays(v);
    } else {
        let (w, x) = v.taken(p);
        let r = x->Ok_0;
        lemma_take_monotone(v, p, res0, p.max_lots);
        crate::taker::lemma_tally_fits(h, p, r, (p.max_lots - r.lots) as u32);
        crate::taker::lemma_used(d, h, p, r, delta, slot);
        lemma_take_stays(v, p, res0, p.max_lots);
        assert((r.lots - 0) * ls == r.lots * ls);
        lemma_take_flow(v, p, res0, p.max_lots);
        lemma_bump_stays(w);
        lemma_stays_trans(v, w, w.bumped());
        lemma_total_nonneg(v.seats, false);
        lemma_total_nonneg(w.seats, false);
        lemma_wrapping(h.fees_accrued_quote + r.fee);
        if d.side == Side::Bid {
            assert(w.owed(false) == v.owed(false) + r.quote + r.fee);
            assert(w.owed(true) == v.owed(true) - r.lots * ls);
        } else {
            assert(w.owed(true) == v.owed(true) + r.lots * ls);
            assert(w.owed(false) == v.owed(false) - r.quote + r.fee);
        }
    }
}

} // verus!
