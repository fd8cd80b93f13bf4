//! Housekeeping: moving the price window and reaping expired orders.

use crate::bitmap::slot_of;
use crate::book::{order_of, resting, ring_slot, BookRefMut};
use crate::constants::{NIL, WINDOW_MASK};
use crate::errors::ProgramError;
use crate::lists::{at, lemma_in_pool_len, lemma_index_of, without};
use crate::market::Market;
use crate::model::{in_window, lemma_same_slot, params_ok, slot, BookView};
use crate::side::Side;
use vstd::prelude::*;

verus! {

/// Largest multiple of 64 at or below `x`.
fn word_floor(x: u32) -> (r: u32)
    ensures
        r == x as int / 64 * 64,
{
    assert(x & !63u32 == x / 64 * 64) by (bit_vector);
    x & !63u32
}

impl BookRefMut {
    /// Whether an order of `side` rests on the ring slot of `tick`.
    pub(crate) fn is_occupied(&self, side: Side, tick: u32) -> (r: bool)
        ensures
            r == match side {
                Side::Bid => self.bid_bitmap.has(slot_of(tick)),
                Side::Ask => self.ask_bitmap.has(slot_of(tick)),
            },
    {
        match side {
            Side::Bid => self.bid_bitmap.get(tick),
            Side::Ask => self.ask_bitmap.get(tick),
        }
    }

    /// The occupancy bit of one side of a ring slot.
    pub open spec fn bit_of(&self, side: Side, s: int) -> bool {
        match side {
            Side::Bid => self.bid_bitmap.has(s),
            Side::Ask => self.ask_bitmap.has(s),
        }
    }

    /// End every order on one occupied level, oldest first, refunding the
    /// makers. Returns the number of orders.
    fn evict_level(&mut self, side: Side, tick: u32) -> (r: Result<u32, ProgramError>)
        requires
            old(self).wf(),
            old(self).bit_of(side, slot_of(tick)),
        ensures
            final(self).wf(),
            r == Ok::<u32, ProgramError>(old(self)@.queues[slot_of(tick)].len() as u32),
            final(self)@ == old(self)@.killed_all(old(self)@.queues[slot_of(tick)]),
            final(self)@.queues == old(self)@.queues.update(slot_of(tick), seq![]),
            final(self)@.header == old(self)@.header,
            final(self).header.anchor_tick == old(self).header.anchor_tick,
    {
        let lvl: usize = ring_slot(tick);
        let mut n: u32 = 0;
        let ghost s = lvl as int;
        let ghost v = self@;
        let ghost q = v.queues[s];
        proof {
            assert(self.fifo(s));
            lemma_in_pool_len(self.pool@, q);
            assert(q.skip(0) =~= q);
            assert(q.take(0) =~= Seq::<u16>::empty());
            assert(v.queues.update(s, q) =~= v.queues);
            assert forall|k: int| 0 <= k < q.len() implies self@.orders[#[trigger] q[k]].side
                == side by {
                assert(v.queue_ok(s));
                assert(v.orders.contains_key(q[k]));
            }
        }
        while self.is_occupied(side, tick)
            invariant
                self.wf(),
                lvl == slot_of(tick),
                s == lvl,
                0 <= s < 8192,
                n <= q.len() <= 65535,
                q == v.queues[s],
                q.no_duplicates(),
                v.queues.len() == 8192,
                self@.queues == v.queues.update(s, q.skip(n as int)),
                self@ == v.killed_all(q.take(n as int)),
                self@.header == v.header,
                self.header.anchor_tick == v.header.anchor_tick,
                forall|k: int|
                    n <= k < q.len() ==> self@.orders[#[trigger] q[k]].side == side,
            decreases q.len() - n,
        {
            let head: u16 = self.levels[lvl].head();
            let ghost w = self@;
            let ghost r = q.skip(n as int);
            proof {
                assert(self.fifo(s));
                assert(w.queue_ok(s));
                assert(w.queues[s] == r);
                assert(r.len() > 0);
                assert(r[0] == head);
                assert(r[0] == q[n as int]);
                assert(w.orders.contains_key(r[0]));
                assert(w.order_ok(head));
            }
            self.kill_order(head)?;
            proof {
                lemma_index_of(r, head, 0);
                assert(without(r, head) =~= q.skip(n as int + 1));
                assert(self@.queues =~= v.queues.update(s, q.skip(n as int + 1)));
                assert(q.take(n as int + 1).drop_last() =~= q.take(n as int));
                assert(q.take(n as int + 1).last() == head);
                assert forall|k: int|
                    n + 1 <= k < q.len() implies self@.orders[#[trigger] q[k]].side == side by {
                    assert(q[k] != q[n as int]);
                    assert(w.orders[q[k]].side == side);
                }
            }
            n = n + 1;
        }
        proof {
            assert(self.fifo(s));
            if n < q.len() {
                let r = q.skip(n as int);
                assert(self@.queues[s] == r);
                assert(r[0] == q[n as int]);
                assert(self@.queue_ok(s));
                assert(self@.orders.contains_key(r[0]));
                assert(self@.orders[r[0]] == order_of(self.pool@[r[0] as int]));
            }
            assert(q.take(n as int) =~= q);
            assert(q.skip(n as int) =~= Seq::<u16>::empty());
        }
        Ok(n)
    }

    /// Whether no order rests on the 64 levels from `base` on: one load per
    /// side in place of 64 probes.
    fn word_is_empty(&self, base: u32) -> (r: bool)
        requires
            self.fifos_ok(),
            base % 64 == 0,
        ensures
            r ==> forall|j: int|
                0 <= j < 64 ==> (#[trigger] self@.queues[(base + j) % 8192]).len() == 0,
    {
        let r: bool = self.bid_bitmap.word_empty(base) && self.ask_bitmap.word_empty(base);
        proof {
            lemma_word_slots(base as int);
            if r {
                assert forall|j: int| 0 <= j < 64 implies (#[trigger] self@.queues[(base + j)
                    % 8192]).len() == 0 by {
                    let s = (base + j) % 8192;
                    assert(s == slot_of(base) + j);
                    assert(!self.bid_bitmap.has(s));
                    assert(!self.ask_bitmap.has(s));
                    assert(self.fifo(s));
                }
            }
        }
        r
    }

    /// Empty the 64 levels from `base` on. Returns how many were occupied.
    #[verifier::rlimit(40)]
    fn evict_word(&mut self, base: u32) -> (r: Result<u32, ProgramError>)
        requires
            old(self).wf(),
            base % 64 == 0,
            base + 64 <= u32::MAX,
        ensures
            final(self).wf(),
            final(self)@ == old(self)@.cleared(base as int, 64),
            r == Ok::<u32, ProgramError>(old(self)@.levels_in(base as int, 64) as u32),
            0 <= old(self)@.levels_in(base as int, 64) <= 64,
            final(self)@.header == old(self)@.header,
            forall|i: u16| #[trigger]
                final(self)@.orders.contains_key(i) ==> old(self)@.orders.contains_key(i)
                    && final(self)@.orders[i] == old(self)@.orders[i] && !(base
                    <= final(self)@.orders[i].tick < base + 64),
    {
        let ghost v = self@;
        let ghost s0 = slot_of(base);
        proof {
            lemma_word_slots(base as int);
        }
        if self.word_is_empty(base) {
            proof {
                lemma_cleared_nothing(v, base as int, 64);
                assert forall|s: int| s0 <= s < s0 + 64 implies (#[trigger] v.queues[s]).len()
                    == 0 by {
                    assert((base + (s - s0)) % 8192 == s);
                }
                lemma_word_vacated(v, v, base as int);
            }
            return Ok(0);
        }
        let word_end: u32 = base + 64;
        let mut t: u32 = base;
        let mut evicted: u32 = 0;
        while t < word_end
            invariant
                self.wf(),
                base % 64 == 0,
                word_end == base + 64,
                base <= t <= word_end,
                s0 == slot_of(base),
                v.queues.len() == 8192,
                self@ == v.cleared(base as int, (t - base) as nat),
                evicted == v.levels_in(base as int, (t - base) as nat),
                evicted <= t - base,
                self@.header == v.header,
                forall|s: int|
                    0 <= s < 8192 ==> #[trigger] self@.queues[s] == (if s0 <= s < s0 + (t - base) {
                        seq![]
                    } else {
                        v.queues[s]
                    }),
            decreases word_end - t,
        {
            let ghost w = self@;
            let ghost s = slot_of(t);
            let ghost j = (t - base) as nat;
            proof {
                lemma_word_slots(base as int);
                assert((base + j) % 8192 == s0 + j);
                assert(s == s0 + j);
                assert(self.fifo(s));
                assert(w.queues[s] == v.queues[s]);
                assert(v.cleared(base as int, (j + 1) as nat) == w.killed_all(w.queues[s]));
                assert(v.levels_in(base as int, (j + 1) as nat) == evicted + if v.queues[s].len()
                    > 0 {
                    1int
                } else {
                    0
                });
            }
            if self.is_occupied(Side::Bid, t) {
                self.evict_level(Side::Bid, t)?;
                evicted = evicted + 1;
            } else if self.is_occupied(Side::Ask, t) {
                self.evict_level(Side::Ask, t)?;
                evicted = evicted + 1;
            } else {
                assert(w.queues[s] =~= Seq::<u16>::empty());
            }
            t = t + 1;
        }
        proof {
            lemma_word_slots(base as int);
            lemma_word_vacated(v, self@, base as int);
        }
        Ok(evicted)
    }

    /// `evict_word` on a book that needs no further looking into.
    fn evict_word_sealed(&mut self, base: u32) -> (r: Result<u32, ProgramError>)
        requires
            old(self).sealed(),
            base % 64 == 0,
            base + 64 <= u32::MAX,
        ensures
            final(self).sealed(),
            final(self)@ == old(self)@.cleared(base as int, 64),
            r == Ok::<u32, ProgramError>(old(self)@.levels_in(base as int, 64) as u32),
            0 <= old(self)@.levels_in(base as int, 64) <= 64,
            final(self)@.header == old(self)@.header,
            forall|i: u16| #[trigger]
                final(self)@.orders.contains_key(i) ==> old(self)@.orders.contains_key(i)
                    && final(self)@.orders[i] == old(self)@.orders[i] && !(base
                    <= final(self)@.orders[i].tick < base + 64),
    {
        proof {
            reveal(BookRefMut::sealed);
        }
        self.evict_word(base)
    }

    /// Move the price window to start at `target`, evicting every order that
    /// falls outside it; each is refunded through its maker's seat.
    ///
    /// The level array is a ring, so the slots vacated at the departing edge
    /// become the fresh slots at the arriving edge: only the anchor changes.
    ///
    /// Eviction is bounded by `max_levels` occupied levels per call, so a long
    /// move is completed by calling again. The budget is checked before each
    /// word of 64 ticks, and a word is vacated as a whole or not touched.
    /// Returns the levels evicted and the new anchor.
    #[verifier::rlimit(30)]
    pub fn reanchor_step(&mut self, target: u32, max_levels: u32) -> (r: Result<
        (u32, u32),
        ProgramError,
    >)
        requires
            old(self).wf(),
            old(self).header.tick_limit * old(self).header.tick_size
                * old(self).header.max_lots_per_order <= u64::MAX,
        ensures
            final(self).wf(),
            ({
                let (w, n, at) = old(self)@.reanchored(target, max_levels);
                &&& final(self)@ == w
                &&& 0 <= n <= u32::MAX
                &&& 0 <= at <= u32::MAX
                &&& r == Ok::<(u32, u32), ProgramError>((n as u32, at as u32))
            }),
    {
        let ghost v = self@;
        let anchor: u32 = self.header.anchor_tick();
        let limit: u32 = self.header.tick_limit();
        let max_anchor: u32 = word_floor(limit.saturating_sub(WINDOW_MASK));
        let word: u32 = word_floor(target);
        let low: u32 = if word > 64 {
            word
        } else {
            64
        };
        let ideal: u32 = if low < max_anchor {
            low
        } else {
            max_anchor
        };
        let mut evicted: u32 = 0;
        let mut cur: u32 = anchor;
        assert(ideal == v.anchor_for(target));
        assert(ideal % 64 == 0 && ideal >= 64 && ideal + 8191 <= limit);
        proof {
            lemma_orders_in_window(v);
        }
        proof {
            reveal(BookRefMut::sealed);
        }
        if ideal > cur {
            // The window slides up: vacate words at the bottom.
            while cur < ideal && evicted < max_levels
                invariant
                    self.sealed(),
                    cur % 64 == 0,
                    anchor <= cur <= ideal,
                    ideal % 64 == 0,
                    ideal <= u32::MAX - 16384,
                    evicted <= cur - anchor,
                    self@.header == v.header,
                    v.moved_up(anchor as int, ideal as int, 0, max_levels as int)
                        == self@.moved_up(
                        cur as int,
                        ideal as int,
                        evicted as int,
                        max_levels as int,
                    ),
                    forall|i: u16| #[trigger]
                        self@.orders.contains_key(i) ==> self@.orders[i].tick >= cur,
                decreases ideal - cur,
            {
                let n: u32 = self.evict_word_sealed(cur)?;
                evicted = evicted + n;
                cur = cur + 64;
            }
        } else {
            // The window slides down: vacate words at the top.
            while cur > ideal && evicted < max_levels
                invariant
                    self.sealed(),
                    cur % 64 == 0,
                    64 <= ideal <= cur <= anchor,
                    ideal % 64 == 0,
                    anchor <= u32::MAX - 16384,
                    evicted <= anchor - cur,
                    self@.header == v.header,
                    v.moved_down(anchor as int, ideal as int, 0, max_levels as int)
                        == self@.moved_down(
                        cur as int,
                        ideal as int,
                        evicted as int,
                        max_levels as int,
                    ),
                    forall|i: u16| #[trigger]
                        self@.orders.contains_key(i) ==> self@.orders[i].tick <= cur + 8191,
                decreases cur - ideal,
            {
                let ghost w = self@;
                let top: u32 = cur + (WINDOW_MASK - 63);
                let n: u32 = self.evict_word_sealed(top)?;
                proof {
                    lemma_moved_down_step(
                        w,
                        cur as int,
                        ideal as int,
                        evicted as int,
                        max_levels as int,
                    );
                }
                evicted = evicted + n;
                cur = cur - 64;
            }
        }
        let ghost b = *self;
        proof {
            lemma_orders_in_window(b@);
        }
        self.header.set_anchor_tick(cur);
        proof {
            self.lemma_window_moved(b, cur);
        }
        Ok((evicted, cur))
    }

    /// End up to `max_count` expired orders of one side, walking levels in
    /// tick order from `start_tick`. Returns the number of orders.
    #[verifier::rlimit(40)]
    pub fn reap_expired(
        &mut self,
        side: Side,
        start_tick: u32,
        max_count: u32,
        slot: u64,
    ) -> (r: Result<u32, ProgramError>)
        requires
            old(self).wf(),
        ensures
            final(self).wf(),
            ({
                let (w, n) = old(self)@.reaped(side, start_tick, max_count, slot);
                &&& final(self)@ == w
                &&& 0 <= n <= max_count
                &&& r == Ok::<u32, ProgramError>(n as u32)
            }),
    {
        let ghost v = self@;
        let anchor: u32 = self.header.anchor_tick();
        let mut reaped: u32 = 0;
        // The scan must start inside the window.
        let mut tick: u32 = if start_tick < anchor {
            anchor
        } else if start_tick > anchor + WINDOW_MASK {
            anchor + WINDOW_MASK
        } else {
            start_tick
        };
        let ghost e = v.stale_from(side, slot, tick as int);
        proof {
            assert(e.take(0) =~= Seq::<u16>::empty());
            assert(e.skip(0) =~= e);
        }
        if max_count == 0 {
            return Ok(0);
        }
        loop
            invariant
                self.wf(),
                v == old(self)@,
                self@.header == v.header,
                v.header.anchor_tick == anchor,
                anchor + 8191 <= u32::MAX - 16384,
                anchor <= tick <= anchor + 8191,
                reaped < max_count,
                reaped <= e.len(),
                self@ == v.killed_all(e.take(reaped as int)),
                e.skip(reaped as int) == self@.stale_from(side, slot, tick as int),
                v.reaped(side, start_tick, max_count, slot) == (if e.len() < max_count {
                    (v.killed_all(e.take(e.len() as int)), e.len() as int)
                } else {
                    (v.killed_all(e.take(max_count as int)), max_count as int)
                }),
            decreases anchor + 8192 - tick,
        {
            assert(self.header.anchor_tick == anchor);
            let found: Option<u32> = match side {
                Side::Bid => self.bid_bitmap.next_at_or_after(anchor, tick),
                Side::Ask => self.ask_bitmap.next_at_or_after(anchor, tick),
            };
            let t: u32 = match found {
                Some(t) => t,
                None => {
                    proof {
                        self.lemma_unquoted(side, tick as int, anchor + 8192);
                        lemma_stale_skip(self@, side, slot, tick as int, anchor + 8192);
                        assert(e.take(reaped as int) =~= e.take(e.len() as int));
                    }
                    return Ok(reaped);
                },
            };
            let ghost q0 = self@.queues[t as int % 8192];
            proof {
                self.lemma_unquoted(side, tick as int, t as int);
                lemma_stale_skip(self@, side, slot, tick as int, t as int);
                self.lemma_bits(t);
                assert(self.fifo(t as int % 8192));
            }
            // Walk the level queue. The link is read before a kill frees the
            // node.
            let lvl: usize = ring_slot(t);
            let mut cur: u16 = self.levels[lvl].head();
            let ghost mut k: int = 0;
            let ghost s = lvl as int;
            while cur != NIL
                invariant
                    self.wf(),
                    v == old(self)@,
                    self@.header == v.header,
                    v.header.anchor_tick == anchor,
                    anchor <= t <= anchor + 8191,
                    s == t as int % 8192,
                    reaped < max_count,
                    reaped <= e.len(),
                    self@ == v.killed_all(e.take(reaped as int)),
                    0 <= k <= self@.queues[s].len(),
                    cur == at(self@.queues[s], k),
                    e.skip(reaped as int) == self@.stale_in(self@.queues[s], slot, k)
                        + self@.stale_from(side, slot, t + 1),
                    v.reaped(side, start_tick, max_count, slot) == (if e.len() < max_count {
                        (v.killed_all(e.take(e.len() as int)), e.len() as int)
                    } else {
                        (v.killed_all(e.take(max_count as int)), max_count as int)
                    }),
                decreases self@.queues[s].len() - k,
            {
                let ghost w = self@;
                let ghost q = w.queues[s];
                proof {
                    assert(self.fifo(s));
                    assert(w.queue_ok(s));
                    assert(q[k] == cur);
                    assert(w.orders.contains_key(q[k]));
                    assert(w.orders[q[k]] == order_of(self.pool@[cur as int]));
                    assert(w.order_ok(cur));
                }
                let next: u16 = self.pool[cur as usize].next();
                if self.pool[cur as usize].is_expired(slot) {
                    proof {
                        lemma_reap_step(w, e, reaped as int, cur, side, slot, k, t);
                    }
                    self.kill_order(cur)?;
                    reaped = reaped + 1;
                    if reaped >= max_count {
                        return Ok(reaped);
                    }
                } else {
                    proof {
                        k = k + 1;
                    }
                }
                cur = next;
            }
            proof {
                if k < self@.queues[s].len() {
                    assert(self.fifo(s));
                    assert(0 < self@.queues[s][k]);
                }
                assert(self@.stale_in(self@.queues[s], slot, k) =~= Seq::<u16>::empty());
                assert(e.skip(reaped as int) =~= self@.stale_from(side, slot, t + 1));
            }
            if t >= anchor + WINDOW_MASK {
                proof {
                    assert(self@.stale_from(side, slot, t + 1) =~= Seq::<u16>::empty());
                    assert(e.take(reaped as int) =~= e.take(e.len() as int));
                }
                return Ok(reaped);
            }
            tick = t + 1;
        }
    }

    /// Ticks without an occupancy bit carry no order of the side.
    proof fn lemma_unquoted(&self, side: Side, from: int, to: int)
        requires
            self.wf(),
            self.header.anchor_tick <= from,
            to <= self.header.anchor_tick + 8192,
            forall|u: int|
                from <= u < to ==> !(match side {
                    Side::Bid => #[trigger] self.bid_bitmap.at(u),
                    Side::Ask => self.ask_bitmap.at(u),
                }),
            forall|u: int|
                from <= u < to ==> !(match side {
                    Side::Bid => self.bid_bitmap.at(u),
                    Side::Ask => #[trigger] self.ask_bitmap.at(u),
                }),
        ensures
            forall|u: int| from <= u < to ==> !#[trigger] self@.quoted(side, u),
    {
        assert forall|u: int| from <= u < to implies !#[trigger] self@.quoted(side, u) by {
            self.lemma_bits(u as u32);
            assert(self.bid_bitmap.at(u) == self.bid_bitmap.at((u as u32) as int));
            assert(self.ask_bitmap.at(u) == self.ask_bitmap.at((u as u32) as int));
        }
    }

    /// The window may be relabelled once every order lies in the new one.
    proof fn lemma_window_moved(&self, b: BookRefMut, cur: u32)
        requires
            b.wf(),
            *self == (BookRefMut { header: Market { anchor_tick: cur, ..b.header }, ..b }),
            cur % 64 == 0,
            cur >= 64,
            cur + 8191 <= b.header.tick_limit,
            b.header.tick_limit * b.header.tick_size * b.header.max_lots_per_order <= u64::MAX,
            forall|i: u16|
                #[trigger] b@.orders.contains_key(i) ==> cur <= b@.orders[i].tick <= cur + 8191,
        ensures
            self.wf(),
            self@ == (BookView { header: Market { anchor_tick: cur, ..b@.header }, ..b@ }),
            forall|t: int, base: bool|
                0 <= t < 128 ==> #[trigger] self@.surplus(t, base) == b@.surplus(t, base),
    {
        let v = b@;
        let w = self@;
        reveal(BookView::uncrossed);
        assert(w =~= (BookView { header: Market { anchor_tick: cur, ..v.header }, ..v }));
        assert(params_ok(w.header)) by {
            let x = (cur + 8191) as int;
            let l = b.header.tick_limit as int;
            let ts = b.header.tick_size as int;
            let ml = b.header.max_lots_per_order as int;
            assert(x * ts <= l * ts) by (nonlinear_arith)
                requires
                    0 <= x <= l,
                    0 <= ts,
            ;
            let a = x * ts;
            let c = l * ts;
            assert(a * ml <= c * ml) by (nonlinear_arith)
                requires
                    a <= c,
                    0 <= ml,
            ;
        }
        assert forall|i: u16| w.orders.contains_key(i) implies #[trigger] w.order_ok(i) by {
            assert(v.order_ok(i));
        }
        assert forall|t: int| 0 <= t < 8192 implies #[trigger] w.queue_ok(t) by {
            assert(v.queue_ok(t));
        }
        assert forall|t: int| 0 <= t < 128 implies #[trigger] w.chain_ok(t) by {
            assert(v.chain_ok(t));
        }
        assert forall|t: int, base: bool|
            0 <= t < 128 implies #[trigger] w.surplus(t, base) == v.surplus(t, base) by {
            crate::lists::lemma_total_agree(v.chains[t], w.locks(base), v.locks(base));
        }
        assert forall|t: int, base: bool| 0 <= t < 128 implies #[trigger] w.surplus(t, base)
            >= 0 by {
            assert(v.surplus(t, base) >= 0);
        }
        assert forall|t: int| 0 <= t < 8192 implies #[trigger] self.fifo(t) by {
            assert(b.fifo(t));
            assert(v.queue_ok(t));
            let q = self.lists@.fifos[t];
            assert forall|k: int| 0 <= k < q.len() implies resting(
                self.pool@[(#[trigger] q[k]) as int],
                cur,
                self.header.max_lots_per_order,
                t,
            ) by {
                assert(v.orders.contains_key(q[k]));
                assert(v.orders[q[k]] == order_of(b.pool@[q[k] as int]));
            }
        }
        assert forall|t: int| 0 <= t < 128 implies #[trigger] self.chain(t) by {
            assert(b.chain(t));
        }
    }
}

proof fn lemma_moved_down_step(v: BookView, cur: int, goal: int, evicted: int, budget: int)
    requires
        cur > goal,
        evicted < budget,
    ensures
        v.moved_down(cur, goal, evicted, budget) == v.cleared(cur + 8128, 64).moved_down(
            cur - 64,
            goal,
            evicted + v.levels_in(cur + 8128, 64),
            budget,
        ),
{
}

/// A word of 64 ticks covers 64 consecutive ring slots.
pub proof fn lemma_word_slots(base: int)
    requires
        base >= 0,
        base % 64 == 0,
    ensures
        base % 8192 / 64 * 64 == base % 8192,
        base % 8192 + 64 <= 8192,
        forall|j: int| 0 <= j < 64 ==> #[trigger] ((base + j) % 8192) == base % 8192 + j,
{
}

/// A tick that does not lie in the word at `base` but in a window that starts
/// or ends with it has another ring slot.
proof fn lemma_word_ticks(t: int, base: int)
    requires
        base >= 0,
        base % 64 == 0,
        base <= t < base + 64,
    ensures
        base % 8192 <= t % 8192 < base % 8192 + 64,
{
    lemma_word_slots(base);
    assert((base + (t - base)) % 8192 == base % 8192 + (t - base));
}

/// No order is left on a word whose queues are empty.
proof fn lemma_word_vacated(w: BookView, x: BookView, base: int)
    requires
        x.structured(),
        x == w.cleared(base, 64),
        base >= 0,
        base % 64 == 0,
        forall|s: int|
            base % 8192 <= s < base % 8192 + 64 ==> (#[trigger] x.queues[s]).len() == 0,
    ensures
        forall|i: u16|
            #[trigger] x.orders.contains_key(i) ==> w.orders.contains_key(i) && x.orders[i]
                == w.orders[i] && !(base <= x.orders[i].tick < base + 64),
{
    assert forall|i: u16| #[trigger] x.orders.contains_key(i) implies w.orders.contains_key(i)
        && x.orders[i] == w.orders[i] && !(base <= x.orders[i].tick < base + 64) by {
        lemma_cleared_orders(w, base, 64, i);
        assert(x.order_ok(i));
        if base <= x.orders[i].tick < base + 64 {
            lemma_word_ticks(x.orders[i].tick as int, base);
        }
    }
}

proof fn lemma_orders_in_window(v: BookView)
    requires
        v.structured(),
    ensures
        forall|i: u16| #[trigger] v.orders.contains_key(i) ==> in_window(v.header, v.orders[i].tick),
{
    assert forall|i: u16| #[trigger] v.orders.contains_key(i) implies in_window(
        v.header,
        v.orders[i].tick,
    ) by {
        assert(v.order_ok(i));
    }
}

/// Emptying empty levels changes nothing.
pub proof fn lemma_cleared_nothing(v: BookView, t: int, n: nat)
    requires
        forall|j: int| 0 <= j < n ==> (#[trigger] v.queues[(t + j) % 8192]).len() == 0,
    ensures
        v.cleared(t, n) == v,
        v.levels_in(t, n) == 0,
    decreases n,
{
    if n > 0 {
        lemma_cleared_nothing(v, t, (n - 1) as nat);
        assert(v.queues[(t + (n - 1)) % 8192].len() == 0);
    }
}

/// Levels without orders of the side hold nothing stale.
pub proof fn lemma_stale_skip(v: BookView, side: Side, now: u64, from: int, to: int)
    requires
        from <= to <= v.header.anchor_tick + 8192,
        forall|u: int| from <= u < to ==> !#[trigger] v.quoted(side, u),
    ensures
        v.stale_from(side, now, from) == v.stale_from(side, now, to),
    decreases to - from,
{
    if from < to {
        assert(!v.quoted(side, from));
        lemma_stale_skip(v, side, now, from + 1, to);
        assert(v.stale_from(side, now, from) =~= v.stale_from(side, now, from + 1));
    }
}

/// Ending the order at position `k` of its queue leaves the stale orders
/// behind it as they were.
pub proof fn lemma_stale_in_killed(v: BookView, q: Seq<u16>, i: u16, now: u64, k: int, j: int)
    requires
        q.no_duplicates(),
        0 <= k <= j < q.len(),
        q[k] == i,
    ensures
        v.killed(i).stale_in(q.remove(k), now, j) == v.stale_in(q, now, j + 1),
    decreases q.len() - j,
{
    let r = q.remove(k);
    let w = v.killed(i);
    if j < r.len() {
        assert(r[j] == q[j + 1]);
        assert(q[j + 1] != q[k]);
        assert(w.orders[r[j]] == v.orders[q[j + 1]]);
        lemma_stale_in_killed(v, q, i, now, k, j + 1);
    }
}

pub proof fn lemma_stale_in_agree(v: BookView, w: BookView, q: Seq<u16>, now: u64, k: int)
    requires
        forall|j: int| 0 <= j < q.len() ==> w.orders[#[trigger] q[j]] == v.orders[q[j]],
        0 <= k,
    ensures
        w.stale_in(q, now, k) == v.stale_in(q, now, k),
    decreases q.len() - k,
{
    if k < q.len() {
        assert(w.orders[q[k]] == v.orders[q[k]]);
        lemma_stale_in_agree(v, w, q, now, k + 1);
    }
}

/// Ending an order leaves the stale orders on higher ticks as they were.
pub proof fn lemma_stale_from_killed(v: BookView, i: u16, side: Side, now: u64, u: int)
    requires
        v.structured(),
        v.orders.contains_key(i),
        v.orders[i].tick < u,
    ensures
        v.killed(i).stale_from(side, now, u) == v.stale_from(side, now, u),
    decreases v.header.anchor_tick + 8192 - u,
{
    let w = v.killed(i);
    let o = v.orders[i];
    if u <= v.header.anchor_tick + 8191 {
        lemma_stale_from_killed(v, i, side, now, u + 1);
        assert(v.order_ok(i));
        let s = u % 8192;
        assert(s != slot(o.tick));
        assert(w.queues[s] == v.queues[s]);
        assert(w.quoted(side, u) == v.quoted(side, u)) by {
            if v.quoted(side, u) {
                let j = choose|j: u16|
                    #[trigger] v.orders.contains_key(j) && v.orders[j].side == side
                        && v.orders[j].tick == u;
                assert(w.orders.contains_key(j) && w.orders[j] == v.orders[j]);
            }
        }
        let q = v.queues[s];
        assert(v.queue_ok(s));
        assert forall|j: int| 0 <= j < q.len() implies w.orders[#[trigger] q[j]] == v.orders[q[j]] by {
            assert(slot(v.orders[q[j]].tick) == s);
        }
        lemma_stale_in_agree(v, w, q, now, 0);
    }
}

/// Ending the next stale order moves on by one in the list `e` of all of them.
proof fn lemma_reap_step(
    w: BookView,
    e: Seq<u16>,
    n: int,
    i: u16,
    side: Side,
    now: u64,
    k: int,
    t: u32,
)
    requires
        w.structured(),
        in_window(w.header, t),
        0 <= k < w.queues[slot(t)].len(),
        w.queues[slot(t)][k] == i,
        w.orders[i].expired(now),
        0 <= n <= e.len(),
        e.skip(n) == w.stale_in(w.queues[slot(t)], now, k) + w.stale_from(side, now, t + 1),
    ensures
        n < e.len(),
        e.take(n + 1).drop_last() == e.take(n),
        e.take(n + 1).last() == i,
        ({
            let x = w.killed(i);
            let q = w.queues[slot(t)];
            &&& x.queues[slot(t)] == q.remove(k)
            &&& at(x.queues[slot(t)], k) == at(q, k + 1)
            &&& e.skip(n + 1) == x.stale_in(x.queues[slot(t)], now, k) + x.stale_from(
                side,
                now,
                t + 1,
            )
        }),
{
    let q = w.queues[slot(t)];
    let x = w.killed(i);
    assert(w.queue_ok(slot(t)));
    assert(w.orders.contains_key(q[k]));
    assert(w.order_ok(i));
    lemma_same_slot(w.orders[i].tick, t, w.header.anchor_tick);
    let rest = w.stale_in(q, now, k + 1) + w.stale_from(side, now, t + 1);
    assert(e.skip(n) =~= seq![i] + rest);
    assert(e.skip(n)[0] == i);
    assert(e[n] == i);
    assert(e.skip(n + 1) =~= e.skip(n).skip(1));
    assert(e.skip(n + 1) =~= rest);
    assert(e.take(n + 1).drop_last() =~= e.take(n));
    lemma_index_of(q, i, k);
    lemma_stale_in_killed(w, q, i, now, k, k);
    lemma_stale_from_killed(w, i, side, now, t + 1);
}

/// Ending orders touches no other order.
pub proof fn lemma_killed_all_orders(v: BookView, l: Seq<u16>, i: u16)
    ensures
        v.killed_all(l).orders.contains_key(i) ==> v.orders.contains_key(i)
            && v.killed_all(l).orders[i] == v.orders[i],
    decreases l.len(),
{
    if l.len() > 0 {
        lemma_killed_all_orders(v, l.drop_last(), i);
    }
}

/// Emptying levels touches no order elsewhere.
pub proof fn lemma_cleared_orders(v: BookView, t: int, n: nat, i: u16)
    ensures
        v.cleared(t, n).orders.contains_key(i) ==> v.orders.contains_key(i) && v.cleared(
            t,
            n,
        ).orders[i] == v.orders[i],
    decreases n,
{
    if n > 0 {
        lemma_cleared_orders(v, t, (n - 1) as nat, i);
        let w = v.cleared(t, (n - 1) as nat);
        lemma_killed_all_orders(w, w.queues[(t + n - 1) % 8192], i);
    }
}

} // verus!
