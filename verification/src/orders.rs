//! The life of one order: posting, amending, cancelling.

use crate::bitmap::slot_of;
use crate::book::{
    key_of,
    lemma_chain_frame,
    lemma_fifo_frame,
    lemma_fifo_resized,
    order_of,
    quote_key,
    resting,
    ring_slot,
    same_but_chain,
    same_but_queue,
    terms_of,
    BookRefMut,
};
use crate::constants::{FREED_SEQ, MAX_ORDERS_PER_SEAT, NIL, WINDOW_MASK};
use crate::errors::{clob, fail, ClobError, ProgramError};
use crate::lists::{at, lemma_without};
use crate::model::{atoms, in_window, key, lemma_same_slot, locks_base, slid, BookView, Order};
use crate::node::OrderNode;
use crate::seat::{no_owner, Seat};
use crate::side::{unlikely, Side};
use crate::steps::{
    lemma_atoms_bound,
    lemma_atoms_split,
    lemma_header_changed,
    lemma_killed,
    lemma_lock_and_post,
    lemma_lock_available,
    lemma_locked,
    lemma_refreshed,
    lemma_shrunk,
    lemma_with_seat,
    postable,
    same_terms,
    sorted_at,
};
use vstd::prelude::*;

verus! {

impl BookRefMut {
    /// End an order: unlink it from its queue and its chain and free its node.
    #[verifier::rlimit(40)]
    pub(crate) fn end_order(&mut self, idx: u16)
        requires
            old(self).links_ok(),
            old(self)@.structured(),
            old(self)@.orders.contains_key(idx),
        ensures
            final(self).links_ok(),
            final(self)@ == old(self)@.removed(idx),
    {
        proof {
            assert(self@.order_ok(idx));
            assert(self@.orders[idx] == order_of(self.pool@[idx as int]));
        }
        let side: Side = self.pool[idx as usize].side();
        let ghost s = slot_of(self.pool@[idx as int].tick);
        let ghost q = self.lists@.fifos[s];
        assert(self.fifo(s));
        self.fifo_unlink(side, idx);
        let ghost mid = *self;
        proof {
            assert forall|t: int| 0 <= t < 128 implies #[trigger] mid.chain(t) by {
                assert(old(self).chain(t));
                lemma_chain_frame(
                    old(self).pool@,
                    mid.pool@,
                    mid.seats@[t],
                    mid.seats@[t],
                    mid.lists@.chains[t],
                    t,
                );
            }
            let f = self.lists@.free;
            assert forall|k: int| 0 <= k < f.len() implies #[trigger] mid.pool@[f[k] as int]
                == old(self).pool@[f[k] as int] by {
                if q.contains(f[k]) {
                    let n = q.index_of(f[k]);
                    assert(old(self).pool@[q[n] as int].seq != FREED_SEQ);
                }
            }
            assert(mid.frees_ok()) by {
                assert forall|k: int| 0 <= k < f.len() implies mid.pool@[(#[trigger] f[k]) as int].seq
                    == FREED_SEQ && mid.pool@[f[k] as int].next == at(f, k + 1) by {
                    assert(mid.pool@[f[k] as int] == old(self).pool@[f[k] as int]);
                }
            }
        }
        self.chain_unlink(idx);
        proof {
            lemma_without(q, idx);
            assert forall|t: int| 0 <= t < 8192 implies #[trigger] self.fifo(t) by {
                assert(mid.fifo(t));
                let u = mid.lists@.fifos[t];
                assert forall|k: int| 0 <= k < u.len() implies same_but_chain(
                    mid.pool@[u[k] as int],
                    self.pool@[(#[trigger] u[k]) as int],
                ) by {
                    assert(u.contains(u[k]));
                    assert(resting(
                        mid.pool@[u[k] as int],
                        mid.header.anchor_tick,
                        mid.header.max_lots_per_order,
                        t,
                    ));
                }
                lemma_fifo_frame(
                    mid.pool@,
                    self.pool@,
                    self.header.anchor_tick,
                    self.header.max_lots_per_order,
                    self.levels@[t],
                    self.bid_bitmap.has(t),
                    self.ask_bitmap.has(t),
                    u,
                    t,
                );
            }
            let v = old(self)@;
            let w = self@;
            assert forall|i: u16| 1 <= i < self.pool@.len() && i != idx implies order_of(
                #[trigger] self.pool@[i as int],
            ) == order_of(old(self).pool@[i as int]) && self.pool@[i as int].seq == old(
                self,
            ).pool@[i as int].seq by {
                assert(same_but_queue(old(self).pool@[i as int], mid.pool@[i as int]));
                assert(same_but_chain(mid.pool@[i as int], self.pool@[i as int]));
            }
            assert(w.orders =~= v.removed(idx).orders);
            assert(w.seats =~= v.removed(idx).seats);
            assert(w =~= v.removed(idx));
        }
    }

    /// End a live order and refund its remaining lock. The only error is a
    /// lock smaller than the refund, and a consistent book has none.
    pub(crate) fn kill_order(&mut self, idx: u16) -> (r: Result<(), ProgramError>)
        requires
            old(self).wf(),
            old(self)@.orders.contains_key(idx),
        ensures
            r == Ok::<(), ProgramError>(()),
            final(self).wf(),
            final(self)@ == old(self)@.killed(idx),
    {
        proof {
            assert(self@.order_ok(idx));
            assert(self@.orders[idx] == order_of(self.pool@[idx as int]));
            lemma_lock_available(self@, idx);
            lemma_killed(self@, idx);
        }
        let side: Side = self.pool[idx as usize].side();
        let tick: u32 = self.pool[idx as usize].tick();
        let lots: u32 = self.pool[idx as usize].lots();
        let maker: u16 = self.pool[idx as usize].maker();
        let (base, amount) = self.locked_atoms(side, tick, lots);
        let ghost v = self@;
        self.unlock_seat(maker, base, amount)?;
        proof {
            lemma_with_seat(v, maker as int, self@.seats[maker as int]);
        }
        self.end_order(idx);
        proof {
            assert(self@ =~= v.killed(idx));
        }
        Ok(())
    }

    /// Atoms that an order locks: bids lock quote, asks lock base.
    pub(crate) fn locked_atoms(&self, side: Side, tick: u32, lots: u32) -> (r: (bool, u64))
        requires
            self@.structured(),
            in_window(self.header, tick),
            1 <= lots <= self.header.max_lots_per_order,
        ensures
            r.0 == locks_base(side),
            r.1 == atoms(self@.header, side, tick, lots as int),
    {
        proof {
            lemma_atoms_bound(self@.header, side, tick, lots as int);
        }
        match side {
            Side::Bid => (false, self.header.notional(tick, lots)),
            Side::Ask => (true, self.header.base_atoms(lots)),
        }
    }

    /// Refund a lock of one seat.
    fn unlock_seat(&mut self, seat: u16, base: bool, amount: u64) -> (r: Result<(), ProgramError>)
        requires
            old(self).links_ok(),
            seat < 128,
            amount <= old(self)@.seats[seat as int].spec_locked(base),
        ensures
            r == Ok::<(), ProgramError>(()),
            final(self).links_ok(),
            final(self)@ == old(self)@.with_seat(
                seat as int,
                old(self)@.seats[seat as int].spec_unlock(base, amount as int),
            ),
            *final(self) == (BookRefMut { seats: final(self).seats, ..*old(self) }),
    {
        let r = self.seats[seat as usize].unlock(base, amount);
        proof {
            self.lemma_accounts_changed(*old(self));
            assert(self@ =~= old(self)@.with_seat(
                seat as int,
                old(self)@.seats[seat as int].spec_unlock(base, amount as int),
            ));
        }
        r
    }

    /// Header fields that the invariant does not read may change.
    pub proof fn lemma_header_only(&self, b: BookRefMut)
        requires
            b.wf(),
            *self == (BookRefMut { header: self.header, ..b }),
            same_terms(b.header, self.header),
            self.header.free_head == b.header.free_head,
            self.header.free_count == b.header.free_count,
        ensures
            self.wf(),
            self@ == (BookView { header: terms_of(self.header), ..b@ }),
            forall|t: int, base: bool|
                0 <= t < 128 ==> #[trigger] self@.surplus(t, base) == b@.surplus(t, base),
    {
        lemma_header_changed(b@, terms_of(self.header));
        assert(self@ =~= (BookView { header: terms_of(self.header), ..b@ }));
        assert forall|t: int| 0 <= t < 8192 implies #[trigger] self.fifo(t) by {
            assert(b.fifo(t));
        }
        assert forall|t: int| 0 <= t < 128 implies #[trigger] self.chain(t) by {
            assert(b.chain(t));
        }
    }

    /// Count one mutating instruction.
    pub(crate) fn bump(&mut self)
        requires
            old(self).wf(),
        ensures
            final(self).wf(),
            final(self)@ == old(self)@.bumped(),
    {
        self.header.bump_seq();
        proof {
            self.lemma_header_only(*old(self));
            assert(self@ =~= old(self)@.bumped());
        }
    }

    /// A seat may be replaced by one with the same locks, order chain and
    /// owner.
    pub proof fn lemma_free_changed(&self, b: BookRefMut, s: int)
        requires
            b.wf(),
            0 <= s < 128,
            *self == (BookRefMut { seats: self.seats, ..b }),
            self.seats@ == b.seats@.update(
                s,
                Seat {
                    base_free: self.seats@[s].base_free,
                    quote_free: self.seats@[s].quote_free,
                    ..b.seats@[s]
                },
            ),
        ensures
            self.wf(),
            self@ == b@.with_seat(
                s,
                Seat {
                    base_free: self.seats@[s].base_free,
                    quote_free: self.seats@[s].quote_free,
                    ..b@.seats[s]
                },
            ),
    {
        let seat = Seat {
            base_free: self.seats@[s].base_free,
            quote_free: self.seats@[s].quote_free,
            ..b@.seats[s]
        };
        self.lemma_accounts_changed(b);
        assert(self@ =~= b@.with_seat(s, seat));
        lemma_with_seat(b@, s, seat);
        assert forall|t: int, base: bool| 0 <= t < 128 implies #[trigger] self@.surplus(t, base)
            >= 0 by {
            assert(b@.surplus(t, base) >= 0);
            assert(self@.needed(t, base) == b@.needed(t, base));
        }
    }

    /// Balances play no part in the lists.
    pub proof fn lemma_accounts_changed(&self, b: BookRefMut)
        requires
            b.links_ok(),
            *self == (BookRefMut { seats: self.seats, ..b }),
            self.seats@.len() == b.seats@.len(),
            forall|s: int|
                0 <= s < 128 ==> (#[trigger] self.seats@[s]).orders_head == b.seats@[s].orders_head
                    && self.seats@[s].order_count == b.seats@[s].order_count,
        ensures
            self.links_ok(),
    {
        assert forall|t: int| 0 <= t < 8192 implies #[trigger] self.fifo(t) by {
            assert(b.fifo(t));
        }
        assert forall|t: int| 0 <= t < 128 implies #[trigger] self.chain(t) by {
            assert(b.chain(t));
            assert(self.seats@[t].order_count == b.seats@[t].order_count);
        }
    }

    /// An occupancy bit inside the window says that an order of that side
    /// rests on the tick.
    pub proof fn lemma_bits(&self, t: u32)
        requires
            self.links_ok(),
            self@.structured(),
            in_window(self.header, t),
        ensures
            self.bid_bitmap.has(slot_of(t)) == self@.quoted(Side::Bid, t as int),
            self.ask_bitmap.has(slot_of(t)) == self@.quoted(Side::Ask, t as int),
            self.bid_bitmap.at(t as int) == self.bid_bitmap.has(slot_of(t)),
            self.ask_bitmap.at(t as int) == self.ask_bitmap.has(slot_of(t)),
            self.bid_bitmap.has(slot_of(t)) || self.ask_bitmap.has(slot_of(t))
                ==> self@.queues[slot_of(t)].len() > 0,
    {
        let s = slot_of(t);
        let q = self.lists@.fifos[s];
        let v = self@;
        assert(self.fifo(s));
        assert(v.queue_ok(s));
        let side = if self.bid_bitmap.has(s) {
            Side::Bid
        } else {
            Side::Ask
        };
        if q.len() > 0 {
            assert(v.orders.contains_key(q[0]));
            assert(v.order_ok(q[0]));
            lemma_same_slot(v.orders[q[0]].tick, t, self.header.anchor_tick);
            assert(v.orders[q[0]].tick == t && v.orders[q[0]].side == side);
            assert(v.quoted(side, t as int));
        }
        assert forall|d: Side| #[trigger] v.quoted(d, t as int) implies q.len() > 0 && d == side by {
            let i = choose|i: u16|
                #[trigger] v.orders.contains_key(i) && v.orders[i].side == d && v.orders[i].tick
                    == t;
            assert(v.order_ok(i));
            assert(q[q.index_of(i)] == i);
        }
    }

    /// Highest occupied tick of the bid bitmap in the window: in a consistent
    /// book, the highest resting bid.
    pub fn best_bid(&self) -> (r: Option<u32>)
        requires
            self.bid_bitmap.wf(),
            self.header.anchor_tick + 8191 <= u32::MAX,
        ensures
            match r {
                Some(t) => in_window(self.header, t) && self.bid_bitmap.at(t as int) && forall|u: int|
                    t < u <= self.header.anchor_tick + 8191 ==> !self.bid_bitmap.at(u),
                None => forall|u: int|
                    self.header.anchor_tick <= u <= self.header.anchor_tick + 8191
                        ==> !self.bid_bitmap.at(u),
            },
            self.links_ok() && self@.structured() ==> r == self@.best(Side::Bid) && self@.has_best(
                Side::Bid,
                r,
            ),
    {
        let r = self.bid_bitmap.highest(self.header.anchor_tick());
        proof {
            if self.links_ok() && self@.structured() {
                let v = self@;
                let a = self.header.anchor_tick;
                assert forall|i: u16|
                    #[trigger] v.orders.contains_key(i) && v.orders[i].side
                        == Side::Bid implies self.bid_bitmap.at(v.orders[i].tick as int) && in_window(
                    self.header,
                    v.orders[i].tick,
                ) by {
                    assert(v.order_ok(i));
                    self.lemma_bits(v.orders[i].tick);
                }
                match r {
                    Some(t) => {
                        self.lemma_bits(t);
                        assert(v.is_best(Side::Bid, t));
                        lemma_best_unique(v, Side::Bid, t);
                    },
                    None => {
                        assert(v.has_best(Side::Bid, None));
                        lemma_no_best(v, Side::Bid);
                    },
                }
            }
        }
        r
    }

    /// Lowest occupied tick of the ask bitmap in the window: in a consistent
    /// book, the lowest resting ask.
    pub fn best_ask(&self) -> (r: Option<u32>)
        requires
            self.ask_bitmap.wf(),
            self.header.anchor_tick + 8191 <= u32::MAX,
        ensures
            match r {
                Some(t) => in_window(self.header, t) && self.ask_bitmap.at(t as int) && forall|u: int|
                    self.header.anchor_tick <= u < t ==> !self.ask_bitmap.at(u),
                None => forall|u: int|
                    self.header.anchor_tick <= u <= self.header.anchor_tick + 8191
                        ==> !self.ask_bitmap.at(u),
            },
            self.links_ok() && self@.structured() ==> r == self@.best(Side::Ask) && self@.has_best(
                Side::Ask,
                r,
            ),
    {
        let r = self.ask_bitmap.lowest(self.header.anchor_tick());
        proof {
            if self.links_ok() && self@.structured() {
                let v = self@;
                assert forall|i: u16|
                    #[trigger] v.orders.contains_key(i) && v.orders[i].side
                        == Side::Ask implies self.ask_bitmap.at(v.orders[i].tick as int) && in_window(
                    self.header,
                    v.orders[i].tick,
                ) by {
                    assert(v.order_ok(i));
                    self.lemma_bits(v.orders[i].tick);
                }
                match r {
                    Some(t) => {
                        self.lemma_bits(t);
                        assert(v.is_best(Side::Ask, t));
                        lemma_best_unique(v, Side::Ask, t);
                    },
                    None => {
                        assert(v.has_best(Side::Ask, None));
                        lemma_no_best(v, Side::Ask);
                    },
                }
            }
        }
        r
    }

    /// Allocate and initialise a node, append it to its level and splice it
    /// into its seat's chain between `prev` and `next`, the neighbours of
    /// position `k`. Funds are the caller's business.
    #[verifier::rlimit(60)]
    pub(crate) fn book_insert(
        &mut self,
        order: Order,
        prev: u16,
        next: u16,
        Ghost(k): Ghost<int>,
    ) -> (r: Result<u16, ProgramError>)
        requires
            old(self).links_ok(),
            old(self)@.structured(),
            old(self)@.free.len() > 0 ==> postable(old(self)@, order, k),
            order.maker < 128,
            old(self)@.chains[order.maker as int].len() < 65535,
            prev == at(old(self)@.chains[order.maker as int], k - 1),
            next == at(old(self)@.chains[order.maker as int], k),
        ensures
            old(self)@.free.len() == 0 ==> r == Err::<u16, ProgramError>(clob(ClobError::PoolFull))
                && *final(self) == *old(self),
            old(self)@.free.len() > 0 ==> r == Ok::<u16, ProgramError>(old(self)@.free[0])
                && final(self).links_ok() && final(self)@ == old(self)@.posted(order, k),
    {
        let idx: u16 = match self.alloc_node() {
            Ok(i) => i,
            Err(e) => return Err(e),
        };
        let ghost v = old(self)@;
        let ghost p0 = old(self).pool@;
        proof {
            assert(v.free.contains(idx));
            assert(p0[idx as int].seq == FREED_SEQ);
        }
        let seq: u64 = self.header.next_order_id();
        self.pool[idx as usize].set_tick(order.tick);
        self.pool[idx as usize].set_maker_and_side(order.maker, order.side);
        self.pool[idx as usize].set_lots(order.lots);
        self.pool[idx as usize].set_expiry_slot(order.expiry_slot);
        self.pool[idx as usize].set_seq(seq);
        let ghost a = *self;
        proof {
            assert(forall|j: int| 0 <= j < p0.len() && j != idx ==> a.pool@[j] == p0[j]);
            assert forall|t: int| 0 <= t < 8192 implies #[trigger] a.fifo(t)
                && !a.lists@.fifos[t].contains(idx) by {
                assert(old(self).fifo(t));
                assert(v.queue_ok(t));
                let u = a.lists@.fifos[t];
                assert forall|n: int| 0 <= n < u.len() implies #[trigger] u[n] != idx by {
                    assert(v.orders.contains_key(u[n]));
                }
                lemma_fifo_frame(
                    p0,
                    a.pool@,
                    a.header.anchor_tick,
                    a.header.max_lots_per_order,
                    a.levels@[t],
                    a.bid_bitmap.has(t),
                    a.ask_bitmap.has(t),
                    u,
                    t,
                );
            }
            assert forall|t: int| 0 <= t < 128 implies #[trigger] a.chain(t)
                && !a.lists@.chains[t].contains(idx) by {
                assert(old(self).chain(t));
                assert(v.chain_ok(t));
                let u = a.lists@.chains[t];
                assert forall|n: int| 0 <= n < u.len() implies #[trigger] u[n] != idx by {
                    assert(v.orders.contains_key(u[n]));
                }
                lemma_chain_frame(p0, a.pool@, a.seats@[t], a.seats@[t], u, t);
            }
            assert forall|t: int| 0 <= t < 8192 implies !(#[trigger] a.lists@.fifos[t]).contains(
                idx,
            ) by {
                assert(a.fifo(t));
            }
            old(self).lemma_bits(order.tick);
            assert(!v.quoted(order.side.spec_opposite(), order.tick as int));
        }
        self.fifo_append(order.side, order.tick, idx, order.lots);
        let ghost b = *self;
        let ghost f = b.lists@.free;
        proof {
            let s = slot_of(order.tick);
            let q = a.lists@.fifos[s];
            assert forall|n: int| 0 <= n < f.len() implies 0 < #[trigger] f[n] < p0.len() && f[n]
                != idx && b.pool@[f[n] as int] == p0[f[n] as int] by {
                assert(f[n] == v.free[n + 1]);
                assert(v.free.contains(v.free[n + 1]));
                assert(v.queue_ok(s));
                if q.contains(f[n]) {
                    let m = q.index_of(f[n]);
                    assert(v.orders.contains_key(q[m]));
                }
            }
            assert forall|t: int| 0 <= t < 128 implies #[trigger] b.chain(t) by {
                assert(a.chain(t));
                lemma_chain_frame(
                    a.pool@,
                    b.pool@,
                    b.seats@[t],
                    b.seats@[t],
                    b.lists@.chains[t],
                    t,
                );
            }
            let c = b.lists@.chains[order.maker as int];
            assert(b.pool@[idx as int].spec_maker() == order.maker);
            assert(key_of(b.pool@[idx as int]) == order.key());
            assert(v.chain_ok(order.maker as int));
            if k > 0 {
                assert(v.orders.contains_key(c[k - 1]));
                assert(same_but_queue(a.pool@[c[k - 1] as int], b.pool@[c[k - 1] as int]));
                assert(a.chain(order.maker as int));
                assert(c.contains(c[k - 1]));
                assert(!a.lists@.chains[order.maker as int].contains(idx));
            }
            if k < c.len() {
                assert(v.orders.contains_key(c[k]));
                assert(same_but_queue(a.pool@[c[k] as int], b.pool@[c[k] as int]));
                assert(c.contains(c[k]));
                assert(!a.lists@.chains[order.maker as int].contains(idx));
            }
        }
        self.chain_splice(order.maker, prev, next, idx, Ghost(k));
        proof {
            assert forall|t: int| 0 <= t < 8192 implies #[trigger] self.fifo(t) by {
                assert(b.fifo(t));
                lemma_fifo_frame(
                    b.pool@,
                    self.pool@,
                    self.header.anchor_tick,
                    self.header.max_lots_per_order,
                    self.levels@[t],
                    self.bid_bitmap.has(t),
                    self.ask_bitmap.has(t),
                    self.lists@.fifos[t],
                    t,
                );
            }
            assert(self.frees_ok()) by {
                assert(old(self).frees_ok());
                assert forall|n: int| 0 <= n < f.len() implies 0 < #[trigger] f[n]
                    < self.pool@.len() && self.pool@[f[n] as int].seq == FREED_SEQ
                    && self.pool@[f[n] as int].next == at(f, n + 1) by {
                    assert(f[n] == v.free[n + 1]);
                    assert(same_but_chain(b.pool@[f[n] as int], self.pool@[f[n] as int]));
                }
            }
            let w = v.posted(order, k);
            assert forall|i: u16| 1 <= i < self.pool@.len() implies self.pool@[i as int].seq
                == b.pool@[i as int].seq && order_of(#[trigger] self.pool@[i as int]) == order_of(
                b.pool@[i as int],
            ) && b.pool@[i as int].seq == a.pool@[i as int].seq && order_of(b.pool@[i as int])
                == order_of(a.pool@[i as int]) by {
                assert(same_but_queue(a.pool@[i as int], b.pool@[i as int]));
                assert(same_but_chain(b.pool@[i as int], self.pool@[i as int]));
            }
            assert(self@.orders =~= w.orders);
            assert(self@.seats =~= w.seats);
            assert(self@ =~= w);
        }
        Ok(idx)
    }

    /// Refuse the insert when the seat is at its order cap.
    pub(crate) fn ensure_order_slot(&self, seat: u16) -> (r: Result<(), ProgramError>)
        requires
            self.chains_ok(),
            seat < 128,
        ensures
            r == (if self@.chains[seat as int].len() >= MAX_ORDERS_PER_SEAT {
                Err::<(), ProgramError>(clob(ClobError::TooManyOrders))
            } else {
                Ok(())
            }),
    {
        assert(self.chain(seat as int));
        if unlikely(self.seats[seat as usize].order_count() >= MAX_ORDERS_PER_SEAT) {
            return fail(ClobError::TooManyOrders);
        }
        Ok(())
    }

    /// The neighbours of the position where an order at `(side, tick)` belongs
    /// on the seat's chain.
    pub(crate) fn chain_position(&self, seat: u16, side: Side, tick: u32) -> (r: (u16, u16))
        requires
            self.links_ok(),
            self@.structured(),
            seat < 128,
        ensures
            ({
                let c = self@.chains[seat as int];
                let k = self@.rank(seat as int, key(side, tick));
                r.0 == at(c, k - 1) && r.1 == at(c, k)
            }),
    {
        let k0: u64 = quote_key(side, tick);
        let mut prev: u16 = NIL;
        let mut cur: u16 = self.seats[seat as usize].orders_head();
        let ghost s = seat as int;
        let ghost c = self@.chains[s];
        let ghost mut k: int = 0;
        assert(self.chain(s));
        assert(self@.chain_ok(s));
        while cur != NIL && self.chain_key(cur) < k0
            invariant
                self.chain(s),
                self@.chain_ok(s),
                self.chains_ok(),
                c == self@.chains[s],
                0 <= s < 128,
                k0 == key(side, tick),
                0 <= k <= c.len(),
                prev == at(c, k - 1),
                cur == at(c, k),
                cur != NIL ==> cur < self.pool@.len(),
                self@.rank(s, k0 as int) == self@.rank_from(s, k0 as int, k),
            decreases c.len() - k,
        {
            assert(c[k] == cur);
            assert(self@.orders.contains_key(c[k]));
            prev = cur;
            cur = self.pool[cur as usize].maker_next();
            proof {
                k = k + 1;
                if k < c.len() {
                    assert(0 < c[k] < self.pool@.len());
                }
            }
        }
        proof {
            if k < c.len() {
                assert(c[k] == cur);
                assert(self@.orders.contains_key(c[k]));
            }
        }
        (prev, cur)
    }

    /// A maker's live quote at `(side, tick)`. The chain is sorted, so the
    /// walk stops as soon as it passes the key.
    pub(crate) fn find_quote(&self, maker: u16, side: Side, tick: u32) -> (r: Option<u16>)
        requires
            self.links_ok(),
            self@.structured(),
            maker < 128,
        ensures
            r == self@.quote_at(maker as int, side, tick),
    {
        let k0: u64 = quote_key(side, tick);
        let mut cur: u16 = self.seats[maker as usize].orders_head();
        let ghost s = maker as int;
        let ghost c = self@.chains[s];
        let ghost mut k: int = 0;
        assert(self.chain(s));
        assert(self@.chain_ok(s));
        while cur != NIL
            invariant
                self.chain(s),
                self@.chain_ok(s),
                self.chains_ok(),
                c == self@.chains[s],
                s == maker,
                0 <= s < 128,
                k0 == key(side, tick),
                0 <= k <= c.len(),
                cur == at(c, k),
                cur != NIL ==> cur < self.pool@.len(),
                self@.rank(s, k0 as int) == self@.rank_from(s, k0 as int, k),
            decreases c.len() - k,
        {
            assert(c[k] == cur);
            assert(self@.orders.contains_key(c[k]));
            let x: u64 = self.chain_key(cur);
            if x == k0 {
                return Some(cur);
            }
            if x > k0 {
                return None;
            }
            cur = self.pool[cur as usize].maker_next();
            proof {
                k = k + 1;
                if k < c.len() {
                    assert(0 < c[k] < self.pool@.len());
                }
            }
        }
        None
    }

    /// Crossing check of a resting order against the opposing best; may slide
    /// it to one tick off that price. Validates the window bounds too.
    pub(crate) fn check_or_slide_vs(
        &self,
        side: Side,
        tick: u32,
        slide: bool,
        opposing_best: Option<u32>,
    ) -> (r: Result<u32, ProgramError>)
        requires
            self@.structured(),
            opposing_best matches Some(b) ==> in_window(self.header, b),
        ensures
            r == slid(self@.header, side, tick, slide, opposing_best),
            r matches Ok(t) ==> in_window(self.header, t),
    {
        let anchor: u32 = self.header.anchor_tick();
        if tick < anchor || tick > anchor + WINDOW_MASK || tick > self.header.tick_limit() {
            return fail(ClobError::TickOutOfWindow);
        }
        // Price 0 is not a tradeable price.
        if unlikely(tick == 0) {
            return fail(ClobError::TickOutOfWindow);
        }
        match (side, opposing_best) {
            (Side::Bid, Some(ba)) => {
                if tick < ba {
                    return Ok(tick);
                }
                if !slide {
                    return fail(ClobError::WouldCross);
                }
                if ba == anchor {
                    return fail(ClobError::TickOutOfWindow);
                }
                Ok(ba - 1)
            },
            (Side::Ask, Some(bb)) => {
                if tick > bb {
                    return Ok(tick);
                }
                if !slide {
                    return fail(ClobError::WouldCross);
                }
                if bb == anchor + WINDOW_MASK {
                    return fail(ClobError::TickOutOfWindow);
                }
                Ok(bb + 1)
            },
            (_, None) => Ok(tick),
        }
    }

    /// Crossing check against the opposing best of this moment.
    pub(crate) fn check_or_slide(&self, side: Side, tick: u32, slide: bool) -> (r: Result<
        u32,
        ProgramError,
    >)
        requires
            self.links_ok(),
            self@.structured(),
        ensures
            r == slid(self@.header, side, tick, slide, self@.best(side.spec_opposite())),
            r matches Ok(t) ==> in_window(self.header, t) && clear_of(self@, side, t),
    {
        let opposing_best: Option<u32> = match side {
            Side::Bid => self.best_ask(),
            Side::Ask => self.best_bid(),
        };
        proof {
            lemma_best_in_window(self@, side.spec_opposite(), opposing_best);
        }
        let r = self.check_or_slide_vs(side, tick, slide, opposing_best);
        proof {
            if r is Ok {
                lemma_slid_clear(self@, side, tick, slide, opposing_best);
            }
        }
        r
    }

    /// Shrink a live order in place.
    pub(crate) fn resize(&mut self, idx: u16, lots: u32)
        requires
            old(self).links_ok(),
            old(self)@.structured(),
            old(self)@.orders.contains_key(idx),
            1 <= lots <= old(self)@.orders[idx].lots,
        ensures
            final(self).links_ok(),
            final(self)@ == (BookView {
                orders: old(self)@.orders.insert(
                    idx,
                    Order { lots, ..old(self)@.orders[idx] },
                ),
                ..old(self)@
            }),
    {
        proof {
            assert(self@.order_ok(idx));
            assert(self@.orders[idx] == order_of(self.pool@[idx as int]));
        }
        let tick: u32 = self.pool[idx as usize].tick();
        let diff: u32 = self.pool[idx as usize].lots() - lots;
        let lvl: usize = ring_slot(tick);
        self.pool[idx as usize].set_lots(lots);
        self.levels[lvl].sub_lots(diff);
        proof {
            let s = lvl as int;
            let q = self.lists@.fifos[s];
            let k = q.index_of(idx);
            let p = old(self).pool@;
            assert(old(self).fifo(s));
            assert(q[k] == idx);
            lemma_fifo_resized(
                p,
                self.pool@,
                self.header.anchor_tick,
                self.header.max_lots_per_order,
                old(self).levels@[s],
                self.levels@[s],
                self.bid_bitmap.has(s),
                self.ask_bitmap.has(s),
                q,
                k,
                lots,
                s,
            );
            assert forall|t: int| 0 <= t < 8192 && t != s implies #[trigger] self.fifo(t) by {
                assert(old(self).fifo(t));
                let u = self.lists@.fifos[t];
                assert forall|m: int| 0 <= m < u.len() implies #[trigger] u[m] != idx by {
                    assert(p[u[m] as int].tick % 8192 == t);
                }
                lemma_fifo_frame(
                    p,
                    self.pool@,
                    self.header.anchor_tick,
                    self.header.max_lots_per_order,
                    self.levels@[t],
                    self.bid_bitmap.has(t),
                    self.ask_bitmap.has(t),
                    u,
                    t,
                );
            }
            assert(self.fifo(s));
            self.lemma_other_lists_kept(*old(self), idx);
            assert(self@.orders =~= old(self)@.orders.insert(
                idx,
                Order { lots, ..old(self)@.orders[idx] },
            ));
            assert(self@.seats =~= old(self)@.seats);
        }
    }

    /// Size and expiry play no part in chains and free list.
    proof fn lemma_other_lists_kept(&self, b: BookRefMut, idx: u16)
        requires
            b.links_ok(),
            b@.orders.contains_key(idx),
            self.pool@.len() == b.pool@.len(),
            forall|j: int| 0 <= j < b.pool@.len() && j != idx ==> self.pool@[j] == b.pool@[j],
            self.pool@[idx as int] == (OrderNode {
                lots: self.pool@[idx as int].lots,
                expiry_slot: self.pool@[idx as int].expiry_slot,
                ..b.pool@[idx as int]
            }),
            *self == (BookRefMut { pool: self.pool, levels: self.levels, ..b }),
        ensures
            self.frees_ok(),
            self.chains_ok(),
    {
        assert forall|t: int| 0 <= t < 128 implies #[trigger] self.chain(t) by {
            assert(b.chain(t));
            lemma_chain_frame(
                b.pool@,
                self.pool@,
                self.seats@[t],
                self.seats@[t],
                self.lists@.chains[t],
                t,
            );
        }
        let f = self.lists@.free;
        assert forall|k: int| 0 <= k < f.len() implies self.pool@[(#[trigger] f[k]) as int].seq
            == FREED_SEQ && self.pool@[f[k] as int].next == at(f, k + 1) by {
            assert(b.pool@[f[k] as int].seq == FREED_SEQ);
        }
    }

    /// Give a live order a new expiry.
    pub(crate) fn refresh(&mut self, idx: u16, expiry_slot: u32)
        requires
            old(self).wf(),
            old(self)@.orders.contains_key(idx),
        ensures
            final(self).wf(),
            final(self)@ == old(self)@.refreshed(idx, expiry_slot),
    {
        proof {
            assert(self@.order_ok(idx));
        }
        self.pool[idx as usize].set_expiry_slot(expiry_slot);
        proof {
            assert forall|t: int| 0 <= t < 8192 implies #[trigger] self.fifo(t) by {
                assert(old(self).fifo(t));
                lemma_fifo_frame(
                    old(self).pool@,
                    self.pool@,
                    self.header.anchor_tick,
                    self.header.max_lots_per_order,
                    self.levels@[t],
                    self.bid_bitmap.has(t),
                    self.ask_bitmap.has(t),
                    self.lists@.fifos[t],
                    t,
                );
            }
            self.lemma_other_lists_kept(*old(self), idx);
            assert(self@.orders =~= old(self)@.refreshed(idx, expiry_slot).orders);
            assert(self@ =~= old(self)@.refreshed(idx, expiry_slot));
            lemma_refreshed(old(self)@, idx, expiry_slot);
        }
    }

    /// Amend a live order to at most its size: it keeps its place in the
    /// queue, the difference is refunded, and the expiry is renewed.
    #[verifier::rlimit(40)]
    pub(crate) fn amend_down(&mut self, idx: u16, lots: u32, expiry_slot: u32) -> (r: Result<
        (),
        ProgramError,
    >)
        requires
            old(self).wf(),
            old(self)@.orders.contains_key(idx),
            1 <= lots <= old(self)@.orders[idx].lots,
        ensures
            r == Ok::<(), ProgramError>(()),
            final(self).wf(),
            final(self)@ == old(self)@.shrunk(idx, lots).refreshed(idx, expiry_slot),
    {
        let ghost v = self@;
        proof {
            assert(v.order_ok(idx));
            assert(v.orders[idx] == order_of(self.pool@[idx as int]));
            lemma_shrunk(v, idx, lots);
        }
        let diff: u32 = self.pool[idx as usize].lots() - lots;
        if diff > 0 {
            let side: Side = self.pool[idx as usize].side();
            let tick: u32 = self.pool[idx as usize].tick();
            let maker: u16 = self.pool[idx as usize].maker();
            let (base, amount) = self.locked_atoms(side, tick, diff);
            proof {
                lemma_lock_available(v, idx);
                lemma_atoms_split(v.header, side, tick, lots as int, diff as int);
                lemma_atoms_bound(v.header, side, tick, lots as int);
            }
            self.unlock_seat(maker, base, amount)?;
            proof {
                lemma_with_seat(v, maker as int, self@.seats[maker as int]);
            }
            self.resize(idx, lots);
            assert(self@ =~= v.shrunk(idx, lots));
        } else {
            proof {
                lemma_shrunk_same(v, idx);
            }
        }
        self.refresh(idx, expiry_slot);
        Ok(())
    }

    /// Lock funds for a new order and post it at its place on the seat's
    /// chain.
    fn post_order(&mut self, order: Order) -> (r: Result<u16, ProgramError>)
        requires
            old(self).wf(),
            order.maker < 128,
            !no_owner(old(self)@.seats[order.maker as int].owner@),
            1 <= order.lots <= old(self).header.max_lots_per_order,
            in_window(old(self).header, order.tick),
            clear_of(old(self)@, order.side, order.tick),
            old(self)@.quote_at(order.maker as int, order.side, order.tick) is None,
            old(self)@.seats[order.maker as int].within_supply(),
        ensures
            (final(self)@, r) == old(self)@.post(order),
            final(self).wf(),
    {
        let ghost v = self@;
        let ghost s = order.maker as int;
        self.ensure_order_slot(order.maker)?;
        let (base, amount) = self.locked_atoms(order.side, order.tick, order.lots);
        proof {
            lemma_atoms_bound(v.header, order.side, order.tick, order.lots as int);
        }
        self.lock_for_post(order.maker, base, amount)?;
        proof {
            assert(self@ == v.with_lock(s, order.side, order.tick, order.lots));
            lemma_locked(v, s, order.side, order.tick, order.lots);
        }
        let ghost w = self@;
        let ghost k = w.rank(s, order.key());
        proof {
            lemma_rank(w, s, order.key(), 0);
            lemma_rank(v, s, order.key(), 0);
            lemma_rank_agree(v, w, s, order.key(), 0);
            assert(sorted_at(w, s, order.key(), k));
            assert(postable(v, order, k));
            lemma_lock_and_post(v, order, k);
        }
        let (prev, next) = self.chain_position(order.maker, order.side, order.tick);
        self.book_insert(order, prev, next, Ghost(k))
    }

    /// Lock funds of one seat.
    pub(crate) fn lock_seat(&mut self, seat: u16, base: bool, amount: u64) -> (r: Result<
        (),
        ProgramError,
    >)
        requires
            old(self).links_ok(),
            seat < 128,
        ensures
            final(self).links_ok(),
            old(self)@.seats[seat as int].spec_free(base) < amount ==> r == Err::<
                (),
                ProgramError,
            >(clob(ClobError::InsufficientBalance)) && final(self)@ == old(self)@,
            old(self)@.seats[seat as int].spec_free(base) >= amount ==> r == Ok::<
                (),
                ProgramError,
            >(()) && final(self)@ == old(self)@.with_seat(
                seat as int,
                old(self)@.seats[seat as int].spec_lock(base, amount as int),
            ),
    {
        let r = self.seats[seat as usize].lock(base, amount);
        proof {
            self.lemma_accounts_changed(*old(self));
            if r is Ok {
                assert(self@ =~= old(self)@.with_seat(
                    seat as int,
                    old(self)@.seats[seat as int].spec_lock(base, amount as int),
                ));
            } else {
                assert(self@ =~= old(self)@);
            }
        }
        r
    }

    /// Lock funds of one seat for a new order, if there is a node for it: an
    /// order that cannot be posted leaves nothing locked.
    pub(crate) fn lock_for_post(&mut self, seat: u16, base: bool, amount: u64) -> (r: Result<
        (),
        ProgramError,
    >)
        requires
            old(self).links_ok(),
            seat < 128,
        ensures
            final(self).links_ok(),
            r is Err ==> *final(self) == *old(self),
            r == (if old(self)@.seats[seat as int].spec_free(base) < amount {
                Err::<(), ProgramError>(clob(ClobError::InsufficientBalance))
            } else if old(self)@.free.len() == 0 {
                Err(clob(ClobError::PoolFull))
            } else {
                Ok(())
            }),
            r is Ok ==> final(self)@ == old(self)@.with_seat(
                seat as int,
                old(self)@.seats[seat as int].spec_lock(base, amount as int),
            ),
    {
        let free: u64 = if base {
            self.seats[seat as usize].base_free()
        } else {
            self.seats[seat as usize].quote_free()
        };
        if free < amount {
            return fail(ClobError::InsufficientBalance);
        }
        if self.header.free_head() == NIL {
            proof {
                if self@.free.len() > 0 {
                    assert(0 < self.lists@.free[0]);
                }
            }
            return fail(ClobError::PoolFull);
        }
        self.lock_seat(seat, base, amount)
    }

    /// Add or amend one quote, leaving the maker's other quotes alone.
    ///
    /// A maker holds at most one order per side and tick, so a tick they
    /// already quote is amended rather than duplicated: a smaller size shrinks
    /// in place and keeps its place in the queue, a larger one is posted anew
    /// at the back, and a size of zero cancels.
    ///
    /// `slide`: when the tick crosses the opposing best, rest one tick off it
    /// instead of failing. Returns the node index.
    pub fn upsert_order(
        &mut self,
        side: Side,
        tick: u32,
        lots: u32,
        maker: u16,
        expiry_slot: u32,
        slide: bool,
    ) -> (r: Result<u16, ProgramError>)
        requires
            old(self).wf(),
            maker < 128,
            !no_owner(old(self)@.seats[maker as int].owner@),
            old(self)@.seats[maker as int].within_supply(),
        ensures
            final(self).wf(),
            (final(self)@, r) == old(self)@.upsert(
                (Order { side, tick, maker, lots, expiry_slot, seq: 0 }),
                slide,
            ),
    {
        let ghost v = self@;
        let ghost s = maker as int;
        if unlikely(lots == 0) {
            let t: u32 = self.check_or_slide_vs(side, tick, false, None)?;
            match self.find_quote(maker, side, t) {
                None => {
                    return fail(ClobError::OrderNotFound);
                },
                Some(cur) => {
                    proof {
                        lemma_quote_at(v, s, side, t);
                    }
                    self.kill_order(cur)?;
                    return Ok(cur);
                },
            }
        }
        // Bound lots before they are multiplied, not after.
        if unlikely(lots > self.header.max_lots_per_order()) {
            return fail(ClobError::InvalidLots);
        }
        let t: u32 = self.check_or_slide(side, tick, slide)?;
        let order: Order = Order { side, tick: t, maker, lots, expiry_slot, seq: 0 };
        let found: Option<u16> = self.find_quote(maker, side, t);
        proof {
            lemma_quote_at(v, s, side, t);
        }
        if let Some(cur) = found {
            assert(v.orders[cur] == order_of(self.pool@[cur as int]));
            let node_lots: u32 = self.pool[cur as usize].lots();
            if lots <= node_lots {
                self.amend_down(cur, lots, expiry_slot)?;
                return Ok(cur);
            }
            self.kill_order(cur)?;
            proof {
                lemma_killed_quote(v, cur);
                lemma_killed_supply(v, cur);
            }
        }
        self.post_order(order)
    }

    /// Cancel one order by pool index. The node's own back links locate it on
    /// both of its lists.
    ///
    /// `expected_seq` must be the order's id: pool slots are reused, and
    /// without this check a stale cancel could end a stranger's order that now
    /// lives in the same slot. A freed node carries `FREED_SEQ`, which names
    /// no order.
    pub fn cancel_order(&mut self, seat: u16, idx: u16, expected_seq: u64) -> (r: Result<
        (),
        ProgramError,
    >)
        requires
            old(self).wf(),
        ensures
            final(self).wf(),
            (final(self)@, r) == old(self)@.cancel(seat, idx, expected_seq),
    {
        if idx == NIL || idx as usize >= self.pool.len() || expected_seq == FREED_SEQ {
            assert(self@.orders.contains_key(idx) ==> self@.order_ok(idx));
            return fail(ClobError::OrderNotFound);
        }
        if self.pool[idx as usize].seq() != expected_seq || self.pool[idx as usize].maker()
            != seat {
            return fail(ClobError::OrderNotFound);
        }
        self.kill_order(idx)
    }
}

/// No opposing order rests at or past `tick`.
pub open spec fn clear_of(v: BookView, side: Side, tick: u32) -> bool {
    forall|i: u16|
        #[trigger] v.orders.contains_key(i) && v.orders[i].side != side ==> match side {
            Side::Bid => tick < v.orders[i].tick,
            Side::Ask => v.orders[i].tick < tick,
        }
}

pub proof fn lemma_best_in_window(v: BookView, side: Side, r: Option<u32>)
    requires
        v.structured(),
        v.has_best(side, r),
    ensures
        r matches Some(t) ==> in_window(v.header, t),
{
    if let Some(t) = r {
        let i = choose|i: u16|
            #[trigger] v.orders.contains_key(i) && v.orders[i].side == side && v.orders[i].tick
                == t;
        assert(v.order_ok(i));
    }
}

/// Where a quote may rest, it crosses nothing.
pub proof fn lemma_slid_clear(
    v: BookView,
    side: Side,
    tick: u32,
    slide: bool,
    opposing: Option<u32>,
)
    requires
        v.structured(),
        v.has_best(side.spec_opposite(), opposing),
        slid(v.header, side, tick, slide, opposing) is Ok,
    ensures
        clear_of(v, side, slid(v.header, side, tick, slide, opposing)->Ok_0),
{
    lemma_best_in_window(v, side.spec_opposite(), opposing);
    let t = slid(v.header, side, tick, slide, opposing)->Ok_0;
    assert forall|i: u16|
        #[trigger] v.orders.contains_key(i) && v.orders[i].side != side implies match side {
        Side::Bid => t < v.orders[i].tick,
        Side::Ask => v.orders[i].tick < t,
    } by {
        assert(v.orders[i].side == side.spec_opposite());
        assert(v.order_ok(i));
    }
}

/// What the rank says of the chain.
pub proof fn lemma_rank(v: BookView, s: int, key: int, k: int)
    requires
        v.chain_ok(s),
        0 <= k <= v.chains[s].len(),
        forall|j: int| 0 <= j < k ==> v.orders[#[trigger] v.chains[s][j]].key() < key,
    ensures
        ({
            let r = v.rank_from(s, key, k);
            let c = v.chains[s];
            &&& k <= r <= c.len()
            &&& forall|j: int| 0 <= j < r ==> v.orders[#[trigger] c[j]].key() < key
            &&& forall|j: int| r <= j < c.len() ==> v.orders[#[trigger] c[j]].key() >= key
        }),
    decreases v.chains[s].len() - k,
{
    let c = v.chains[s];
    if k < c.len() && v.orders[c[k]].key() < key {
        lemma_rank(v, s, key, k + 1);
    } else if k < c.len() {
        assert forall|j: int| k <= j < c.len() implies v.orders[#[trigger] c[j]].key() >= key by {
            if j > k {
                assert(v.orders[c[k]].key() < v.orders[c[j]].key());
            }
        }
    }
}

pub proof fn lemma_rank_agree(v: BookView, w: BookView, s: int, key: int, k: int)
    requires
        w.chains == v.chains,
        w.orders == v.orders,
        0 <= k <= v.chains[s].len(),
    ensures
        w.rank_from(s, key, k) == v.rank_from(s, key, k),
    decreases v.chains[s].len() - k,
{
    if k < v.chains[s].len() {
        lemma_rank_agree(v, w, s, key, k + 1);
    }
}

/// `quote_at` finds exactly the seat's order at a side and tick.
pub proof fn lemma_quote_at(v: BookView, s: int, side: Side, tick: u32)
    requires
        v.structured(),
        0 <= s < 128,
    ensures
        match v.quote_at(s, side, tick) {
            Some(i) => v.orders.contains_key(i) && v.orders[i].maker == s && v.orders[i].side
                == side && v.orders[i].tick == tick,
            None => forall|i: u16|
                #[trigger] v.orders.contains_key(i) && v.orders[i].maker == s && v.orders[i].side
                    == side ==> v.orders[i].tick != tick,
        },
{
    let c = v.chains[s];
    let k = v.rank(s, key(side, tick));
    assert(v.chain_ok(s));
    lemma_rank(v, s, key(side, tick), 0);
    match v.quote_at(s, side, tick) {
        Some(i) => {
            assert(c[k] == i);
        },
        None => {
            assert forall|i: u16|
                #[trigger] v.orders.contains_key(i) && v.orders[i].maker == s && v.orders[i].side
                    == side implies v.orders[i].tick != tick by {
                assert(v.order_ok(i));
                let j = c.index_of(i);
                assert(c[j] == i);
                if v.orders[i].tick == tick {
                    assert(j >= k);
                    if j > k {
                        assert(v.orders[c[k]].key() < v.orders[c[j]].key());
                    }
                }
            }
        },
    }
}

/// Ending a quote leaves none at its side and tick.
pub proof fn lemma_killed_quote(v: BookView, i: u16)
    requires
        v.ok(),
        v.orders.contains_key(i),
    ensures
        v.killed(i).quote_at(v.orders[i].maker as int, v.orders[i].side, v.orders[i].tick) is None,
{
    let o = v.orders[i];
    let s = o.maker as int;
    let w = v.killed(i);
    assert(v.order_ok(i));
    lemma_killed(v, i);
    lemma_quote_at(w, s, o.side, o.tick);
    if let Some(j) = w.quote_at(s, o.side, o.tick) {
        assert(v.orders.contains_key(j) && j != i);
        assert(v.order_ok(j));
        let c = v.chains[s];
        assert(v.chain_ok(s));
        let a = c.index_of(i);
        let b = c.index_of(j);
        assert(c[a] == i && c[b] == j);
        if a < b {
            assert(v.orders[c[a]].key() < v.orders[c[b]].key());
        } else {
            assert(v.orders[c[b]].key() < v.orders[c[a]].key());
        }
    }
}

/// A refund moves atoms inside the seat.
pub proof fn lemma_killed_supply(v: BookView, i: u16)
    requires
        v.ok(),
        v.orders.contains_key(i),
    ensures
        forall|t: int|
            0 <= t < 128 && (#[trigger] v.seats[t]).within_supply() ==> v.killed(
                i,
            ).seats[t].within_supply() && v.killed(i).seats[t].base_held()
                == v.seats[t].base_held() && v.killed(i).seats[t].quote_held()
                == v.seats[t].quote_held(),
{
    assert(v.order_ok(i));
    lemma_lock_available(v, i);
}

/// Shrinking to the same size changes nothing.
pub proof fn lemma_shrunk_same(v: BookView, i: u16)
    requires
        v.structured(),
        v.orders.contains_key(i),
    ensures
        v.shrunk(i, v.orders[i].lots) == v,
{
    let o = v.orders[i];
    assert(v.order_ok(i));
    assert(atoms(v.header, o.side, o.tick, 0) == 0) by {
        let x = o.tick * v.header.tick_size;
        assert(x * 0 == 0) by (nonlinear_arith);
        let y = v.header.base_lot_size as int;
        assert(0 * y == 0) by (nonlinear_arith);
    }
    let w = v.shrunk(i, o.lots);
    assert(w.orders =~= v.orders);
    assert(w.seats =~= v.seats);
}


/// The best price is one tick.
pub proof fn lemma_best_unique(v: BookView, side: Side, t: u32)
    requires
        v.is_best(side, t),
    ensures
        v.best(side) == Some(t),
{
    let u = choose|u: u32| v.is_best(side, u);
    assert(v.is_best(side, u));
    let i = choose|i: u16|
        #[trigger] v.orders.contains_key(i) && v.orders[i].side == side && v.orders[i].tick == t;
    let j = choose|j: u16|
        #[trigger] v.orders.contains_key(j) && v.orders[j].side == side && v.orders[j].tick == u;
    assert(v.orders.contains_key(i) && v.orders.contains_key(j));
}

/// A side without orders has no best price.
pub proof fn lemma_no_best(v: BookView, side: Side)
    requires
        v.has_best(side, None),
    ensures
        v.best(side) is None,
{
    if exists|t: u32| v.is_best(side, t) {
        let t = choose|t: u32| v.is_best(side, t);
        assert(v.quoted(side, t as int));
    }
}

} // verus!
