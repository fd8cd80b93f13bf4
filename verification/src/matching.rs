//! Matching a taker against the book.

use crate::bitmap::slot_of;
use crate::book::{order_of, ring_slot, BookRefMut};
use crate::constants::{FEE_DENOMINATOR, WINDOW_MASK};
use crate::errors::{fail, ClobError, ProgramError};
use crate::market::Market;
use crate::model::{
    affordable,
    fee_on,
    fees_ok,
    in_window,
    lemma_same_slot,
    params_ok,
    slot,
    within_limit,
    BookView,
};
use crate::orders::{lemma_best_unique, lemma_no_best};
use crate::side::{unlikely, SelfTradePolicy, Side, TakeParams, TakeResult};
use crate::steps::{
    lemma_atoms_bound,
    lemma_atoms_split,
    lemma_filled,
    lemma_lock_available,
    lemma_with_seat,
};
use vstd::prelude::*;

verus! {

/// What holds of a pass that has `left` lots to go.
pub open spec fn tally_ok(h: Market, p: TakeParams, res: TakeResult, left: u32) -> bool {
    &&& res.lots + left == p.max_lots
    &&& p.max_lots <= h.max_lots_per_order
    &&& res.quote <= (h.anchor_tick + 8191) * h.tick_size * res.lots
    &&& res.fee * 10_000 <= res.quote * h.fee_bps
    &&& p.max_quote != u64::MAX ==> res.quote + res.fee <= p.max_quote
}

/// Amounts of one fill fit, and so do the totals after it.
pub proof fn lemma_fill_fits(
    h: Market,
    p: TakeParams,
    res: TakeResult,
    left: u32,
    tick: u32,
    fill: int,
)
    requires
        params_ok(h),
        fees_ok(h),
        tally_ok(h, p, res, left),
        in_window(h, tick),
        tick * h.tick_size > 0,
        1 <= fill <= left,
        p.max_quote != u64::MAX ==> fill <= affordable(
            tick * h.tick_size,
            h.fee_bps as int,
            p.max_quote - res.quote - res.fee,
        ),
    ensures
        0 <= tick * h.tick_size * fill,
        res.quote + tick * h.tick_size * fill <= u64::MAX,
        tick * h.tick_size * fill * h.fee_bps <= u64::MAX,
        0 <= fill * h.base_lot_size <= u64::MAX,
        ({
            let n = tick * h.tick_size * fill;
            let f = fee_on(n, h.fee_bps as int);
            let res2 = TakeResult {
                lots: (res.lots + fill) as u32,
                quote: (res.quote + n) as u64,
                fee: (res.fee + f) as u64,
            };
            &&& 0 <= f
            &&& res.fee + f <= u64::MAX
            &&& tally_ok(h, p, res2, (left - fill) as u32)
        }),
{
    let top = (h.anchor_tick + 8191) as int;
    let ts = h.tick_size as int;
    let ml = h.max_lots_per_order as int;
    let bps = h.fee_bps as int;
    let price = tick * h.tick_size;
    let n = price * fill;
    let f = fee_on(n, bps);
    let c = top * ts;
    let q = res.quote as int;
    let l = res.lots as int;
    lemma_atoms_bound(h, Side::Bid, tick, fill);
    assert(price <= c) by (nonlinear_arith)
        requires
            price == tick * h.tick_size,
            tick <= top,
            ts == h.tick_size,
            c == top * ts,
            ts >= 0,
    ;
    assert(0 <= n <= c * fill) by (nonlinear_arith)
        requires
            n == price * fill,
            0 <= price <= c,
            fill >= 0,
    ;
    assert(c * l + c * fill == c * (l + fill)) by (nonlinear_arith);
    assert(c * (l + fill) <= c * ml) by (nonlinear_arith)
        requires
            0 <= l + fill <= ml,
            c >= 0,
    ;
    let m = c * ml;
    assert(q + n <= m);
    assert((q + n) * bps <= m * (10_000 + bps)) by (nonlinear_arith)
        requires
            0 <= q + n <= m,
            bps >= 0,
    ;
    assert(n * bps <= (q + n) * bps) by (nonlinear_arith)
        requires
            q >= 0,
            bps >= 0,
    ;
    assert(m * (10_000 + bps) <= u64::MAX);
    assert(0 <= n * bps) by (nonlinear_arith)
        requires
            n >= 0,
            bps >= 0,
    ;
    assert(0 <= f && f * 10_000 <= n * bps);
    assert((q + n) * bps == q * bps + n * bps) by (nonlinear_arith);
    if p.max_quote != u64::MAX {
        let budget = p.max_quote - res.quote - res.fee;
        let d = 10_000 + bps;
        let most = u64::MAX as int / d;
        let capped = if budget < most {
            budget
        } else {
            most
        };
        lemma_affordable(price, bps, capped, fill);
    }
}

/// A fill that the budget pays for does not exceed it, fee included.
proof fn lemma_affordable(price: int, bps: int, capped: int, fill: int)
    requires
        price > 0,
        bps >= 0,
        capped >= 0,
        1 <= fill <= capped * 10_000 / (10_000 + bps) / price,
    ensures
        price * fill + fee_on(price * fill, bps) <= capped,
{
    let d = 10_000 + bps;
    let a = capped * 10_000 / d;
    let n = price * fill;
    assert(a * d <= capped * 10_000) by (nonlinear_arith)
        requires
            a == capped * 10_000 / d,
            d > 0,
    ;
    assert(n <= a) by (nonlinear_arith)
        requires
            n == price * fill,
            fill <= a / price,
            price > 0,
    ;
    assert(n * d <= a * d) by (nonlinear_arith)
        requires
            n <= a,
            d > 0,
    ;
    assert(n * d == n * 10_000 + n * bps) by (nonlinear_arith)
        requires
            d == 10_000 + bps,
    ;
}

impl BookRefMut {
    /// Settle a fill of one order with its maker: plain arithmetic on the
    /// seat. The order shrinks, or ends when nothing is left of it. A lock
    /// smaller than the fill means the book is corrupt; a consistent book has
    /// none.
    #[verifier::rlimit(40)]
    fn fill_order(&mut self, idx: u16, fill: u32, notional: u64, base_atoms: u64) -> (r: Result<
        (),
        ProgramError,
    >)
        requires
            old(self).wf(),
            old(self)@.orders.contains_key(idx),
            1 <= fill <= old(self)@.orders[idx].lots,
            notional == old(self)@.orders[idx].tick * old(self).header.tick_size * fill,
            base_atoms == fill * old(self).header.base_lot_size,
        ensures
            r == Ok::<(), ProgramError>(()),
            final(self).wf(),
            final(self)@ == old(self)@.filled(idx, fill),
    {
        let ghost v = self@;
        proof {
            assert(v.order_ok(idx));
            assert(v.orders[idx] == order_of(self.pool@[idx as int]));
            let o = v.orders[idx];
            lemma_lock_available(v, idx);
            lemma_filled(v, idx, fill);
            lemma_atoms_split(v.header, o.side, o.tick, fill as int, o.lots - fill);
            lemma_atoms_bound(v.header, o.side, o.tick, fill as int);
            lemma_atoms_bound(v.header, o.side, o.tick, o.lots - fill);
        }
        let side: Side = self.pool[idx as usize].side();
        let lots: u32 = self.pool[idx as usize].lots();
        let maker: u16 = self.pool[idx as usize].maker();
        match side {
            Side::Ask => {
                // Maker sold base for quote.
                let locked: u64 = self.seats[maker as usize].base_locked();
                if unlikely(locked < base_atoms) {
                    return fail(ClobError::InvalidState);
                }
                self.seats[maker as usize].set_base_locked(locked - base_atoms);
                let free: u64 = self.seats[maker as usize].quote_free();
                self.seats[maker as usize].set_quote_free(free.wrapping_add(notional));
            },
            Side::Bid => {
                // Maker bought base with quote.
                let locked: u64 = self.seats[maker as usize].quote_locked();
                if unlikely(locked < notional) {
                    return fail(ClobError::InvalidState);
                }
                self.seats[maker as usize].set_quote_locked(locked - notional);
                let free: u64 = self.seats[maker as usize].base_free();
                self.seats[maker as usize].set_base_free(free.wrapping_add(base_atoms));
            },
        }
        let ghost seat = v.settled(idx, fill as int);
        proof {
            self.lemma_accounts_changed(*old(self));
            assert(self@ =~= v.with_seat(maker as int, seat));
            lemma_with_seat(v, maker as int, seat);
        }
        if fill == lots {
            self.end_order(idx);
        } else {
            self.resize(idx, lots - fill);
        }
        assert(self@ =~= v.filled(idx, fill));
        Ok(())
    }

    /// Lots that the quote budget pays for at `price_per_lot`, fee included.
    fn affordable_lots(price_per_lot: u64, fee_bps: u64, budget: u64) -> (r: u64)
        requires
            price_per_lot > 0,
            fee_bps <= 65535,
        ensures
            r == affordable(price_per_lot as int, fee_bps as int, budget as int),
    {
        let denominator: u64 = FEE_DENOMINATOR + fee_bps;
        let most: u64 = u64::MAX / denominator;
        let capped: u64 = if budget < most {
            budget
        } else {
            most
        };
        assert(capped * 10_000 <= u64::MAX) by (nonlinear_arith)
            requires
                capped <= u64::MAX / denominator,
                denominator >= 10_000,
        ;
        capped * FEE_DENOMINATOR / denominator / price_per_lot
    }

    /// Drain the queue of the best opposing level front to back. Gives
    /// `false` when the level is empty and the pass goes on, `true` when the
    /// pass is over.
    #[verifier::rlimit(60)]
    fn take_level(
        &mut self,
        p: &TakeParams,
        best: u32,
        res: &mut TakeResult,
        remaining: &mut u32,
    ) -> (r: Result<bool, ProgramError>)
        requires
            old(self).wf(),
            fees_ok(old(self).header),
            tally_ok(old(self).header, *p, *old(res), *old(remaining)),
            *old(remaining) > 0,
            old(self)@.is_best(p.side.spec_opposite(), best),
            within_limit(*p, best),
            best * old(self).header.tick_size > 0,
        ensures
            final(self).wf(),
            final(self)@.header == old(self)@.header,
            tally_ok(old(self).header, *p, *final(res), *final(remaining)),
            match r {
                Err(e) => old(self)@.take_from(*p, *old(res), *old(remaining)) == (
                    final(self)@,
                    Err::<TakeResult, ProgramError>(e),
                ),
                Ok(true) => old(self)@.take_from(*p, *old(res), *old(remaining)) == (
                    final(self)@.with_fees(final(res).fee),
                    Ok::<TakeResult, ProgramError>(*final(res)),
                ),
                Ok(false) => {
                    &&& old(self)@.take_from(*p, *old(res), *old(remaining))
                        == final(self)@.take_from(*p, *final(res), *final(remaining))
                    &&& !final(self)@.quoted(p.side.spec_opposite(), best as int)
                    &&& only_shrank(old(self)@, final(self)@)
                    &&& *final(remaining) > 0
                },
            },
    {
        let book_side: Side = p.side.opposite();
        let fee_bps: u64 = self.header.fee_bps() as u64;
        let ghost v = self@;
        let ghost res0 = *res;
        let ghost left0 = *remaining;
        proof {
            lemma_level(v, book_side, best);
            lemma_atoms_bound(v.header, Side::Bid, best, 1);
        }
        let price_per_lot: u64 = (best as u64) * self.header.tick_size();
        let lvl: usize = ring_slot(best);
        loop
            invariant
                self.wf(),
                self@.header == v.header,
                fees_ok(v.header),
                v == old(self)@,
                res0 == *old(res),
                left0 == *old(remaining),
                tally_ok(v.header, *p, *res, *remaining),
                *remaining > 0,
                book_side == p.side.spec_opposite(),
                in_window(v.header, best),
                within_limit(*p, best),
                fee_bps == v.header.fee_bps,
                price_per_lot == best * v.header.tick_size,
                price_per_lot > 0,
                lvl == slot_of(best),
                lvl < 8192,
                v.is_best(book_side, best),
                only_shrank(v, self@),
                v.take_from(*p, res0, left0) == self@.take_from(*p, *res, *remaining),
            decreases *remaining, self@.orders.dom().len(),
        {
            let ghost w = self@;
            proof {
                self.lemma_bits(best);
            }
            if !self.is_occupied(book_side, best) {
                return Ok(false);
            }
            let head: u16 = self.levels[lvl].head();
            proof {
                lemma_still_best(v, w, book_side, best);
                lemma_level(w, book_side, best);
                assert(self.fifo(slot_of(best)));
                assert(w.queues[slot(best)][0] == head);
                assert(w.order_ok(head));
                assert(w.orders[head] == order_of(self.pool@[head as int]));
                crate::model::lemma_finite_below(w.orders.dom(), 0x10000);
            }
            let node_lots: u32 = self.pool[head as usize].lots();
            let node_maker: u16 = self.pool[head as usize].maker();
            if self.pool[head as usize].is_expired(p.slot) {
                self.kill_order(head)?;
                continue ;
            }
            if node_maker == p.seat {
                match p.self_trade {
                    SelfTradePolicy::Abort => {
                        return fail(ClobError::SelfTrade);
                    },
                    SelfTradePolicy::CancelResting => {
                        self.kill_order(head)?;
                        continue ;
                    },
                }
            }
            let mut fill: u32 = if node_lots < *remaining {
                node_lots
            } else {
                *remaining
            };
            if p.max_quote != u64::MAX {
                let budget: u64 = p.max_quote - res.quote - res.fee;
                let n: u64 = Self::affordable_lots(price_per_lot, fee_bps, budget);
                if n == 0 {
                    return Ok(true);
                }
                // Widen rather than narrow: what the budget pays for can
                // exceed 32 bits.
                if n < fill as u64 {
                    fill = n as u32;
                }
            }
            assert(fill == w.fill_of(*p, head, *res, *remaining));
            proof {
                lemma_fill_fits(v.header, *p, *res, *remaining, best, fill as int);
            }
            let notional: u64 = price_per_lot * fill as u64;
            let fee: u64 = notional * fee_bps / FEE_DENOMINATOR;
            let base_atoms: u64 = self.header.base_atoms(fill);
            self.fill_order(head, fill, notional, base_atoms)?;
            assert(w.with_fill(*res, best, fill as int) == (TakeResult {
                lots: (res.lots + fill) as u32,
                quote: (res.quote + notional) as u64,
                fee: (res.fee + fee) as u64,
            }));
            res.lots = res.lots + fill;
            res.quote = res.quote + notional;
            res.fee = res.fee + fee;
            *remaining = *remaining - fill;
            assert(v.take_from(*p, res0, left0) == self@.take_from(*p, *res, *remaining));
            if *remaining == 0 {
                return Ok(true);
            }
        }
    }

    /// Match the taker against the opposing side of the book.
    ///
    /// A buyer consumes asks upwards, a seller consumes bids downwards, never
    /// past `limit_tick`, and each level front to back. Levels are consumed in
    /// strict tick order, so the next one is found by scanning from the level
    /// just emptied.
    ///
    /// Expired quotes are removed and refunded as they are met, and so are the
    /// taker's own resting orders under the default self-trade policy. The
    /// seatless flow passes `NO_SEAT`, which no order's maker can be.
    ///
    /// Taker balances are not touched: callers settle from the result. The fee
    /// accrues on the market; makers receive or pay the raw notional.
    #[verifier::rlimit(60)]
    pub fn take(&mut self, params: TakeParams) -> (r: Result<TakeResult, ProgramError>)
        requires
            old(self).wf(),
            fees_ok(old(self).header),
        ensures
            final(self).wf(),
            (final(self)@, r) == old(self)@.taken(params),
            r matches Ok(res) ==> res.lots <= params.max_lots && tally_ok(
                old(self)@.header,
                params,
                res,
                (params.max_lots - res.lots) as u32,
            ),
    {
        if params.max_lots == 0 || params.max_lots > self.header.max_lots_per_order() {
            return fail(ClobError::InvalidLots);
        }
        let ghost v = self@;
        let book_side: Side = params.side.opposite();
        let anchor: u32 = self.header.anchor_tick();
        let mut res: TakeResult = TakeResult { lots: 0, quote: 0, fee: 0 };
        let mut remaining: u32 = params.max_lots;
        let mut last_level: Option<u32> = None;
        proof {
            let x = (v.header.anchor_tick + 8191) * v.header.tick_size;
            assert(x * 0 == 0) by (nonlinear_arith);
            let y = v.header.fee_bps as int;
            assert(0 * y == 0) by (nonlinear_arith);
        }
        while remaining > 0
            invariant
                self.wf(),
                v == old(self)@,
                self@.header == v.header,
                fees_ok(v.header),
                anchor == v.header.anchor_tick,
                book_side == params.side.spec_opposite(),
                0 < params.max_lots <= v.header.max_lots_per_order,
                tally_ok(v.header, params, res, remaining),
                v.taken(params) == self@.take_from(params, res, remaining),
                last_level matches Some(t) ==> in_window(v.header, t) && consumed(
                    self@,
                    book_side,
                    t,
                ),
            decreases
                match last_level {
                    None => 8193,
                    Some(t) => match params.side {
                        Side::Bid => anchor + 8191 - t,
                        Side::Ask => t - anchor,
                    },
                },
        {
            let ghost w = self@;
            assert(self.header.anchor_tick == anchor);
            let found: Option<u32> = match params.side {
                Side::Bid => match last_level {
                    None => self.ask_bitmap.next_at_or_after(anchor, anchor),
                    Some(t) => if t < anchor + WINDOW_MASK {
                        self.ask_bitmap.next_at_or_after(anchor, t + 1)
                    } else {
                        None
                    },
                },
                Side::Ask => match last_level {
                    None => self.bid_bitmap.prev_at_or_before(anchor, anchor + WINDOW_MASK),
                    Some(t) => if t > anchor {
                        self.bid_bitmap.prev_at_or_before(anchor, t - 1)
                    } else {
                        None
                    },
                },
            };
            proof {
                self.lemma_found_is_best(book_side, last_level, found);
            }
            let best: u32 = match found {
                Some(t) => t,
                None => {
                    self.accrue(&res);
                    return Ok(res);
                },
            };
            proof {
                lemma_level(w, book_side, best);
                lemma_atoms_bound(v.header, Side::Bid, best, 1);
            }
            let in_reach: bool = match params.side {
                Side::Bid => best <= params.limit_tick,
                Side::Ask => best >= params.limit_tick,
            };
            if !in_reach {
                self.accrue(&res);
                return Ok(res);
            }
            // A zero price would hand out base for nothing.
            if unlikely((best as u64) * self.header.tick_size() == 0) {
                return fail(ClobError::TickOutOfWindow);
            }
            last_level = Some(best);
            if self.take_level(&params, best, &mut res, &mut remaining)? {
                self.accrue(&res);
                return Ok(res);
            }
            proof {
                assert(consumed(self@, book_side, best)) by {
                    assert forall|i: u16|
                        #[trigger] self@.orders.contains_key(i) && self@.orders[i].side
                            == book_side implies match book_side {
                        Side::Bid => self@.orders[i].tick < best,
                        Side::Ask => self@.orders[i].tick > best,
                    } by {
                        assert(w.orders.contains_key(i));
                        assert(self@.orders[i].tick != best);
                    }
                }
            }
        }
        self.accrue(&res);
        Ok(res)
    }

    /// `take` with its parameters spelled out.
    pub fn take_for_test(
        &mut self,
        side: Side,
        limit_tick: u32,
        max_lots: u32,
        max_quote: u64,
        seat: u16,
        slot: u64,
        self_trade: SelfTradePolicy,
    ) -> (r: Result<TakeResult, ProgramError>)
        requires
            old(self).wf(),
            fees_ok(old(self).header),
        ensures
            final(self).wf(),
            (final(self)@, r) == old(self)@.taken(
                (TakeParams { side, limit_tick, max_lots, max_quote, seat, slot, self_trade }),
            ),
    {
        self.take(TakeParams { side, limit_tick, max_lots, max_quote, seat, slot, self_trade })
    }

    /// Accrue the fee of a finished pass.
    fn accrue(&mut self, res: &TakeResult)
        requires
            old(self).wf(),
        ensures
            final(self).wf(),
            final(self)@ == old(self)@.with_fees(res.fee),
    {
        self.header.add_fees_accrued(res.fee);
        proof {
            self.lemma_header_only(*old(self));
            assert(self@ =~= old(self)@.with_fees(res.fee));
        }
    }

    /// Scanning on from the last emptied level finds the best price.
    proof fn lemma_found_is_best(&self, side: Side, last: Option<u32>, found: Option<u32>)
        requires
            self.wf(),
            last matches Some(t) ==> in_window(self.header, t) && consumed(self@, side, t),
            ({
                let a = self.header.anchor_tick as int;
                match side {
                    Side::Ask => {
                        let from = match last {
                            None => a,
                            Some(t) => t + 1,
                        };
                        match found {
                            Some(t) => from <= t <= a + 8191 && self.ask_bitmap.at(t as int)
                                && forall|u: int| from <= u < t ==> !#[trigger] self.ask_bitmap.at(u),
                            None => forall|u: int|
                                from <= u <= a + 8191 ==> !#[trigger] self.ask_bitmap.at(u),
                        }
                    },
                    Side::Bid => {
                        let from = match last {
                            None => a + 8191,
                            Some(t) => t - 1,
                        };
                        match found {
                            Some(t) => a <= t <= from && self.bid_bitmap.at(t as int)
                                && forall|u: int| t < u <= from ==> !#[trigger] self.bid_bitmap.at(u),
                            None => forall|u: int|
                                a <= u <= from ==> !#[trigger] self.bid_bitmap.at(u),
                        }
                    },
                }
            }),
        ensures
            self@.best(side) == found,
            self@.has_best(side, found),
            found matches Some(t) ==> in_window(self.header, t),
    {
        let v = self@;
        assert forall|i: u16|
            #[trigger] v.orders.contains_key(i) && v.orders[i].side == side implies (match side {
            Side::Bid => self.bid_bitmap.at(v.orders[i].tick as int),
            Side::Ask => self.ask_bitmap.at(v.orders[i].tick as int),
        }) && in_window(self.header, v.orders[i].tick) by {
            assert(v.order_ok(i));
            self.lemma_bits(v.orders[i].tick);
        }
        match found {
            Some(t) => {
                self.lemma_bits(t);
                assert(v.is_best(side, t));
                lemma_best_unique(v, side, t);
            },
            None => {
                assert(v.has_best(side, None));
                lemma_no_best(v, side);
            },
        }
    }
}

/// Every order of `side` rests strictly beyond `tick`.
pub open spec fn consumed(v: BookView, side: Side, tick: u32) -> bool {
    forall|i: u16|
        #[trigger] v.orders.contains_key(i) && v.orders[i].side == side ==> match side {
            Side::Bid => v.orders[i].tick < tick,
            Side::Ask => v.orders[i].tick > tick,
        }
}

/// `w` has no order that `v` lacks.
pub open spec fn only_shrank(v: BookView, w: BookView) -> bool {
    forall|i: u16|
        #[trigger] w.orders.contains_key(i) ==> v.orders.contains_key(i) && w.orders[i].side
            == v.orders[i].side && w.orders[i].tick == v.orders[i].tick
}

/// The best price stays the best while an order rests there.
proof fn lemma_still_best(v: BookView, w: BookView, side: Side, t: u32)
    requires
        v.is_best(side, t),
        only_shrank(v, w),
        w.quoted(side, t as int),
    ensures
        w.is_best(side, t),
{
    assert forall|i: u16|
        #[trigger] w.orders.contains_key(i) && w.orders[i].side == side implies match side {
        Side::Bid => w.orders[i].tick <= t,
        Side::Ask => w.orders[i].tick >= t,
    } by {
        assert(v.orders.contains_key(i));
    }
}

/// The level at the best price has a front order of that side and tick.
pub proof fn lemma_level(v: BookView, side: Side, t: u32)
    requires
        v.structured(),
        v.is_best(side, t),
    ensures
        v.best(side) == Some(t),
        in_window(v.header, t),
        v.header.max_lots_per_order >= 1,
        v.queues[slot(t)].len() > 0,
        v.front(side) == v.queues[slot(t)][0],
        v.orders.contains_key(v.front(side)),
        v.orders[v.front(side)].tick == t,
        v.orders[v.front(side)].side == side,
{
    lemma_best_unique(v, side, t);
    let j = choose|j: u16|
        #[trigger] v.orders.contains_key(j) && v.orders[j].side == side && v.orders[j].tick == t;
    assert(v.order_ok(j));
    assert(v.queue_ok(slot(t)));
    let i = v.queues[slot(t)][0];
    assert(v.orders.contains_key(i));
    assert(v.order_ok(i));
    lemma_same_slot(v.orders[i].tick, t, v.header.anchor_tick);
    if v.orders[i].side != side {
        reveal(BookView::uncrossed);
        assert(v.orders[i].tick == v.orders[j].tick);
    }
}

} // verus!
