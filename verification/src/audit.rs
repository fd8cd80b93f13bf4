//! An audit of a whole market, from its stored regions alone: levels, free
//! list, seats and vaults must tell the same story.

use crate::book::{key_of, lots_by, resting, BookRefMut};
use crate::constants::FREED_SEQ;
use crate::laws::exact;
use crate::level::Level;
use crate::lists::{at, fwd, in_pool, lemma_in_pool_len, lemma_total_agree, total};
use crate::market::Market;
use crate::model::{atoms, held, locks_base, slot, total_held, BookView};
use crate::node::OrderNode;
use crate::seat::{no_owner, Seat};
use crate::side::Side;
use crate::vacancy::vacant_empty;
use vstd::prelude::*;

verus! {

/// The nodes met from `i` on along the links of one kind, `n` at most.
pub open spec fn trail(p: Seq<OrderNode>, chain: bool, i: u16, n: nat) -> Seq<u16>
    decreases n,
{
    if n == 0 || i == 0 || i >= p.len() {
        Seq::empty()
    } else {
        seq![i] + trail(p, chain, fwd(p, chain, i), (n - 1) as nat)
    }
}

/// The links from `i` on stay in the pool and come to an end after `n` nodes
/// at the latest.
pub open spec fn ends(p: Seq<OrderNode>, chain: bool, i: u16, n: nat) -> bool
    decreases n,
{
    if i == 0 {
        true
    } else if n == 0 || i >= p.len() {
        false
    } else {
        ends(p, chain, fwd(p, chain, i), (n - 1) as nat)
    }
}

/// The queue of ring slot `s`, as it is linked.
pub open spec fn queue(b: BookRefMut, s: int) -> Seq<u16> {
    trail(b.pool@, false, b.levels@[s].head, b.pool@.len())
}

/// The order chain of seat `s`, as it is linked.
pub open spec fn orders(b: BookRefMut, s: int) -> Seq<u16> {
    trail(b.pool@, true, b.seats@[s].orders_head, b.pool@.len())
}

/// A node that may rest at `tick` on the given side.
pub open spec fn rests_at(n: OrderNode, tick: int, side: Side) -> bool {
    &&& n.lots > 0
    &&& n.seq != FREED_SEQ
    &&& n.tick == tick
    &&& n.spec_side() == side
}

/// The level at `tick`: at most one side occupies it, exactly when it has
/// orders; they all belong here, and their lots add up to its total.
pub open spec fn level_sound(b: BookRefMut, tick: int) -> bool {
    let s = tick % 8192;
    let bid = b.bid_bitmap.has(s);
    let ask = b.ask_bitmap.has(s);
    let q = queue(b, s);
    &&& ends(b.pool@, false, b.levels@[s].head, b.pool@.len())
    &&& !(bid && ask)
    &&& (bid || ask) == (q.len() > 0)
    &&& forall|k: int|
        0 <= k < q.len() ==> rests_at(
            b.pool@[(#[trigger] q[k]) as int],
            tick,
            if bid {
                Side::Bid
            } else {
                Side::Ask
            },
        )
    &&& b.levels@[s].total_lots == total(q, lots_by(b.pool@))
}

/// The free list: freed nodes, as many as the header counts.
pub open spec fn free_sound(b: BookRefMut) -> bool {
    let f = trail(b.pool@, false, b.header.free_head, b.pool@.len());
    &&& ends(b.pool@, false, b.header.free_head, b.pool@.len())
    &&& f.len() == b.header.free_count
    &&& forall|k: int| 0 <= k < f.len() ==> b.pool@[(#[trigger] f[k]) as int].seq == FREED_SEQ
}

/// What a node keeps locked of one asset.
pub open spec fn node_lock(h: Market, n: OrderNode, base: bool) -> int {
    if locks_base(n.spec_side()) == base {
        atoms(h, n.spec_side(), n.tick, n.lots as int)
    } else {
        0
    }
}

pub open spec fn locks_by(h: Market, p: Seq<OrderNode>, base: bool) -> spec_fn(u16) -> int {
    |i: u16| node_lock(h, p[i as int], base)
}

/// Key of the chain node before position `k`, or 0.
pub open spec fn key_before(p: Seq<OrderNode>, c: Seq<u16>, k: int) -> int {
    if k == 0 {
        0
    } else {
        key_of(p[c[k - 1] as int])
    }
}

/// Position `k` of a chain of seat `s`: linked both ways, the seat's own, in
/// strictly ascending order, and resting in the level of its tick.
pub open spec fn member_sound(b: BookRefMut, s: int, c: Seq<u16>, k: int) -> bool {
    let n = b.pool@[c[k] as int];
    &&& n.maker_prev == at(c, k - 1)
    &&& n.spec_maker() == s
    &&& n.lots > 0
    &&& key_before(b.pool@, c, k) < key_of(n)
    &&& queue(b, slot(n.tick)).contains(c[k])
}

/// A taken seat counts its orders and has locked exactly what they need.
pub open spec fn seat_sound(b: BookRefMut, s: int) -> bool {
    let seat = b.seats@[s];
    let c = orders(b, s);
    no_owner(seat.owner@) || {
        &&& ends(b.pool@, true, seat.orders_head, b.pool@.len())
        &&& forall|k: int| 0 <= k < c.len() ==> #[trigger] member_sound(b, s, c, k)
        &&& seat.order_count == c.len()
        &&& seat.base_locked == total(c, locks_by(b.header, b.pool@, true))
        &&& seat.quote_locked == total(c, locks_by(b.header, b.pool@, false))
    }
}

/// The chain of some taken seat below `n` lists node `i`.
pub open spec fn owned_below(b: BookRefMut, n: int, i: u16) -> bool {
    exists|s: int|
        0 <= s < n && !no_owner(b.seats@[s].owner@) && (#[trigger] orders(b, s)).contains(i)
}

/// Some level among the first `n` of the window lists node `i`.
pub open spec fn queued_below(b: BookRefMut, n: int, i: u16) -> bool {
    exists|o: int| 0 <= o < n && (#[trigger] queue_at(b, o)).contains(i)
}

/// The queue of the tick `o` above the anchor.
pub open spec fn queue_at(b: BookRefMut, o: int) -> Seq<u16> {
    queue(b, (b.header.anchor_tick + o) % 8192)
}

/// What the taken seats hold of one asset.
pub open spec fn taken_held(seats: Seq<Seat>, base: bool) -> int
    decreases seats.len(),
{
    if seats.len() == 0 {
        0
    } else {
        taken_held(seats.drop_last(), base) + if no_owner(seats.last().owner@) {
            0
        } else {
            held(seats.last(), base)
        }
    }
}

/// No bid stands at or above an ask, among the first `n` ticks.
pub open spec fn ordered_below(b: BookRefMut, n: int) -> bool {
    forall|x: int, y: int|
        #![trigger b.ask_bitmap.at(b.header.anchor_tick + x), b.bid_bitmap.at(
            b.header.anchor_tick + y,
        )]
        0 <= x <= y < n ==> !(b.ask_bitmap.at(b.header.anchor_tick + x) && b.bid_bitmap.at(
            b.header.anchor_tick + y,
        ))
}

/// Everything a market's regions must agree on, and what the vaults must
/// hold.
pub open spec fn sound(b: BookRefMut, base_vault: u64, quote_vault: u64) -> bool {
    &&& b.header.anchor_tick + 8191 <= u32::MAX
    &&& forall|o: int| 0 <= o < 8192 ==> #[trigger] level_sound(b, b.header.anchor_tick + o)
    &&& ordered_below(b, 8192)
    &&& free_sound(b)
    &&& forall|s: int| 0 <= s < 128 ==> #[trigger] seat_sound(b, s)
    &&& forall|i: u16| #[trigger]
        queued_below(b, 8192, i) ==> owned_below(b, 128, i)
    &&& taken_held(b.seats@, true) == base_vault
    &&& taken_held(b.seats@, false) + b.header.fees_accrued_quote == quote_vault
}

/// One node further along a list.
pub proof fn lemma_step(p: Seq<OrderNode>, chain: bool, head: u16, seen: Seq<u16>, cur: u16, left: nat)
    requires
        trail(p, chain, head, p.len()) == seen + trail(p, chain, cur, left),
        ends(p, chain, head, p.len()) == ends(p, chain, cur, left),
        left > 0,
        0 < cur < p.len(),
    ensures
        trail(p, chain, head, p.len()) == seen.push(cur) + trail(
            p,
            chain,
            fwd(p, chain, cur),
            (left - 1) as nat,
        ),
        ends(p, chain, head, p.len()) == ends(p, chain, fwd(p, chain, cur), (left - 1) as nat),
        trail(p, chain, head, p.len())[seen.len() as int] == cur,
        seen.len() < trail(p, chain, head, p.len()).len(),
{
    let rest = trail(p, chain, fwd(p, chain, cur), (left - 1) as nat);
    assert(seen + (seq![cur] + rest) =~= seen.push(cur) + rest);
}

pub proof fn lemma_total_push(q: Seq<u16>, i: u16, f: spec_fn(u16) -> int)
    ensures
        total(q.push(i), f) == total(q, f) + f(i),
{
    assert(q.push(i).drop_last() =~= q);
}

impl BookRefMut {
    /// Walk the level at `tick`, marking its nodes.
    fn audit_level(&self, tick: u32, queued: &mut Vec<bool>) -> (r: bool)
        requires
            self.sized(),
            old(queued)@.len() == self.pool@.len(),
        ensures
            r == level_sound(*self, tick as int),
            final(queued)@.len() == old(queued)@.len(),
            r ==> forall|i: u16|
                i < self.pool@.len() ==> #[trigger] final(queued)@[i as int] == (old(
                    queued,
                )@[i as int] || queue(*self, tick as int % 8192).contains(i)),
    {
        let bid: bool = self.bid_bitmap.get(tick);
        let ask: bool = self.ask_bitmap.get(tick);
        let lvl: &Level = &self.levels[(tick % 8192) as usize];
        let side: Side = if bid {
            Side::Bid
        } else {
            Side::Ask
        };
        let ghost p = self.pool@;
        let ghost s = tick as int % 8192;
        let ghost q = queue(*self, s);
        let ghost mut seen: Seq<u16> = Seq::empty();
        let mut cur: u16 = lvl.head();
        let mut left: usize = self.pool.len();
        let mut sum: u64 = 0;
        assert(q =~= seen + trail(p, false, cur, left as nat));
        while cur != 0
            invariant
                self.sized(),
                p == self.pool@,
                s == tick as int % 8192,
                q == queue(*self, s),
                bid == self.bid_bitmap.has(s),
                side == (if bid {
                    Side::Bid
                } else {
                    Side::Ask
                }),
                left <= p.len() <= u32::MAX,
                q == seen + trail(p, false, cur, left as nat),
                ends(p, false, self.levels@[s].head, p.len()) == ends(p, false, cur, left as nat),
                seen.len() == p.len() - left,
                sum == total(seen, lots_by(p)),
                sum <= (p.len() - left) * u32::MAX,
                forall|k: int|
                    0 <= k < seen.len() ==> rests_at(
                        p[(#[trigger] seen[k]) as int],
                        tick as int,
                        side,
                    ),
                queued@.len() == p.len(),
                old(queued)@.len() == p.len(),
                forall|i: u16|
                    i < p.len() ==> #[trigger] queued@[i as int] == (old(queued)@[i as int]
                        || seen.contains(i)),
            decreases left,
        {
            if left == 0 || cur as usize >= self.pool.len() {
                return false;
            }
            proof {
                lemma_step(p, false, self.levels@[s].head, seen, cur, left as nat);
                lemma_total_push(seen, cur, lots_by(p));
            }
            let node: &OrderNode = &self.pool[cur as usize];
            if !(node.lots() > 0 && node.seq() != FREED_SEQ && node.tick() == tick && node.side()
                == side) {
                assert(!rests_at(p[q[seen.len() as int] as int], tick as int, side));
                return false;
            }
            queued.set(cur as usize, true);
            sum = sum + node.lots() as u64;
            let ghost before = seen;
            proof {
                seen = seen.push(cur);
                assert forall|i: u16| i < p.len() implies #[trigger] queued@[i as int] == (old(
                    queued,
                )@[i as int] || seen.contains(i)) by {
                    if before.contains(i) {
                        let k = before.index_of(i);
                        assert(seen[k] == i);
                    }
                    if i == cur {
                        assert(seen[before.len() as int] == cur);
                    }
                    if seen.contains(i) && i != cur {
                        let k = seen.index_of(i);
                        assert(before[k] == i);
                    }
                }
            }
            cur = node.next();
            left = left - 1;
        }
        assert(q =~= seen);
        !(bid && ask) && (bid || ask) == (lvl.head() != 0) && sum == lvl.total_lots()
    }

    /// Walk the free list.
    fn audit_free(&self) -> (r: bool)
        requires
            self.sized(),
        ensures
            r == free_sound(*self),
    {
        let ghost p = self.pool@;
        let ghost f = trail(p, false, self.header.free_head, p.len());
        let ghost mut seen: Seq<u16> = Seq::empty();
        let mut cur: u16 = self.header.free_head();
        let mut left: usize = self.pool.len();
        assert(f =~= seen + trail(p, false, cur, left as nat));
        while cur != 0
            invariant
                self.sized(),
                p == self.pool@,
                f == trail(p, false, self.header.free_head, p.len()),
                left <= p.len() <= u32::MAX,
                f == seen + trail(p, false, cur, left as nat),
                ends(p, false, self.header.free_head, p.len()) == ends(
                    p,
                    false,
                    cur,
                    left as nat,
                ),
                seen.len() == p.len() - left,
                forall|k: int|
                    0 <= k < seen.len() ==> p[(#[trigger] seen[k]) as int].seq == FREED_SEQ,
            decreases left,
        {
            if left == 0 || cur as usize >= self.pool.len() {
                return false;
            }
            proof {
                lemma_step(p, false, self.header.free_head, seen, cur, left as nat);
            }
            if self.pool[cur as usize].seq() != FREED_SEQ {
                assert(p[f[seen.len() as int] as int].seq != FREED_SEQ);
                return false;
            }
            proof {
                seen = seen.push(cur);
            }
            cur = self.pool[cur as usize].next();
            left = left - 1;
        }
        assert(f =~= seen);
        self.pool.len() - left == self.header.free_count() as usize
    }

    /// Walk the chain of a taken seat, marking its nodes.
    fn audit_seat(&self, s: usize, queued: &Vec<bool>, owned: &mut Vec<bool>) -> (r: bool)
        requires
            self.sized(),
            s < 128,
            !no_owner(self.seats@[s as int].owner@),
            queued@.len() == self.pool@.len(),
            forall|i: u16|
                i < self.pool@.len() ==> #[trigger] queued@[i as int] == queue(
                    *self,
                    slot(self.pool@[i as int].tick),
                ).contains(i),
            old(owned)@.len() == self.pool@.len(),
        ensures
            r == seat_sound(*self, s as int),
            final(owned)@.len() == old(owned)@.len(),
            r ==> forall|i: u16|
                i < self.pool@.len() ==> #[trigger] final(owned)@[i as int] == (old(
                    owned,
                )@[i as int] || orders(*self, s as int).contains(i)),
    {
        let seat: &Seat = &self.seats[s];
        let ghost p = self.pool@;
        let ghost c = orders(*self, s as int);
        let ghost fb = locks_by(self.header, p, true);
        let ghost fq = locks_by(self.header, p, false);
        let ghost mut seen: Seq<u16> = Seq::empty();
        let mut cur: u16 = seat.orders_head();
        let mut left: usize = self.pool.len();
        let mut prev: u16 = 0;
        let mut last_key: u64 = 0;
        let mut base_locked: u128 = 0;
        let mut quote_locked: u128 = 0;
        assert(c =~= seen + trail(p, true, cur, left as nat));
        while cur != 0
            invariant
                self.sized(),
                s < 128,
                p == self.pool@,
                c == orders(*self, s as int),
                fb == locks_by(self.header, p, true),
                fq == locks_by(self.header, p, false),
                left <= p.len() <= u32::MAX,
                *seat == self.seats@[s as int],
                !no_owner(seat.owner@),
                c == seen + trail(p, true, cur, left as nat),
                ends(p, true, seat.orders_head, p.len()) == ends(p, true, cur, left as nat),
                seen.len() == p.len() - left,
                prev == at(c, seen.len() - 1),
                last_key == key_before(p, c, seen.len() as int),
                base_locked == total(seen, fb),
                quote_locked == total(seen, fq),
                base_locked <= u64::MAX,
                quote_locked <= u64::MAX,
                forall|k: int| 0 <= k < seen.len() ==> #[trigger] member_sound(*self, s as int, c, k),
                queued@.len() == p.len(),
                forall|i: u16|
                    i < p.len() ==> #[trigger] queued@[i as int] == queue(
                        *self,
                        slot(p[i as int].tick),
                    ).contains(i),
                owned@.len() == p.len(),
                old(owned)@.len() == p.len(),
                forall|i: u16|
                    i < p.len() ==> #[trigger] owned@[i as int] == (old(owned)@[i as int]
                        || seen.contains(i)),
            decreases left,
        {
            if left == 0 || cur as usize >= self.pool.len() {
                return false;
            }
            let ghost k = seen.len() as int;
            proof {
                lemma_step(p, true, seat.orders_head, seen, cur, left as nat);
                lemma_total_push(seen, cur, fb);
                lemma_total_push(seen, cur, fq);
                assert(c[k] == cur);
            }
            let node: &OrderNode = &self.pool[cur as usize];
            let this_key: u64 = self.chain_key(cur);
            if !(node.maker_prev() == prev && node.maker() as usize == s && node.lots() > 0
                && last_key < this_key && queued[cur as usize]) {
                assert(!member_sound(*self, s as int, c, k));
                return false;
            }
            assert(member_sound(*self, s as int, c, k));
            let (base, amount) = self.node_amount(node);
            if base {
                base_locked = base_locked + amount;
            } else {
                quote_locked = quote_locked + amount;
            }
            let ghost before = seen;
            proof {
                seen = seen.push(cur);
                assert forall|i: u16| i < p.len() implies #[trigger] owned@.update(
                    cur as int,
                    true,
                )[i as int] == (old(owned)@[i as int] || seen.contains(i)) by {
                    if before.contains(i) {
                        let j = before.index_of(i);
                        assert(seen[j] == i);
                    }
                    if i == cur {
                        assert(seen[before.len() as int] == cur);
                    }
                    if seen.contains(i) && i != cur {
                        let j = seen.index_of(i);
                        assert(before[j] == i);
                    }
                }
            }
            if base_locked > u64::MAX as u128 || quote_locked > u64::MAX as u128 {
                proof {
                    assert(seen =~= c.take(seen.len() as int));
                    assert forall|i: u16| #[trigger] fb(i) >= 0 && fq(i) >= 0 by {
                        lemma_lock_nonneg(self.header, p[i as int], true);
                        lemma_lock_nonneg(self.header, p[i as int], false);
                    }
                    assert forall|i: u16| #[trigger] fq(i) >= 0 by {
                        lemma_lock_nonneg(self.header, p[i as int], false);
                    }
                    lemma_part(seen, c, fb);
                    lemma_part(seen, c, fq);
                }
                return false;
            }
            owned.set(cur as usize, true);
            prev = cur;
            last_key = this_key;
            cur = node.maker_next();
            left = left - 1;
        }
        assert(c =~= seen);
        self.pool.len() - left == seat.order_count() as usize && base_locked
            == seat.base_locked() as u128 && quote_locked == seat.quote_locked() as u128
    }

    /// What a node keeps locked: whether base, and how much.
    pub(crate) fn node_amount(&self, n: &OrderNode) -> (r: (bool, u128))
        ensures
            r.1 == node_lock(self.header, *n, r.0),
            node_lock(self.header, *n, !r.0) == 0,
            r.1 <= 0xffff_ffff_ffff_ffff_0000_0000_0000_0000,
    {
        let lots: u128 = n.lots() as u128;
        match n.side() {
            Side::Bid => {
                let tick: u128 = n.tick() as u128;
                let size: u128 = self.header.tick_size() as u128;
                proof {
                    lemma_product(tick as int, size as int, lots as int);
                }
                (false, tick * size * lots)
            },
            Side::Ask => {
                let size: u128 = self.header.base_lot_size() as u128;
                proof {
                    lemma_product(1, size as int, lots as int);
                    assert(lots * size == size * lots) by (nonlinear_arith);
                }
                (true, lots * size)
            },
        }
    }
}

/// A price, a size and a count never fill the last 64 bits of 128.
pub proof fn lemma_product(a: int, b: int, c: int)
    requires
        0 <= a <= u32::MAX,
        0 <= b <= u64::MAX,
        0 <= c <= u32::MAX,
    ensures
        0 <= a * b <= u128::MAX,
        0 <= a * b * c <= 0xffff_ffff_ffff_ffff_0000_0000_0000_0000,
{
    assert(0 <= a * b <= u32::MAX * u64::MAX) by (nonlinear_arith)
        requires
            0 <= a <= u32::MAX,
            0 <= b <= u64::MAX,
    ;
    let d = a * b;
    assert(0 <= d * c <= u32::MAX * u64::MAX * u32::MAX) by (nonlinear_arith)
        requires
            0 <= d <= u32::MAX * u64::MAX,
            0 <= c <= u32::MAX,
    ;
}

/// Locks are never negative.
pub proof fn lemma_lock_nonneg(h: Market, n: OrderNode, base: bool)
    ensures
        node_lock(h, n, base) >= 0,
{
    lemma_product(n.tick as int, h.tick_size as int, n.lots as int);
    lemma_product(1, h.base_lot_size as int, n.lots as int);
    assert(n.lots * h.base_lot_size == h.base_lot_size * n.lots) by (nonlinear_arith);
}

/// A part of a list locks no more than the whole.
pub proof fn lemma_part(a: Seq<u16>, c: Seq<u16>, f: spec_fn(u16) -> int)
    requires
        a.len() <= c.len(),
        a == c.take(a.len() as int),
        forall|i: u16| #[trigger] f(i) >= 0,
    ensures
        total(a, f) <= total(c, f),
    decreases c.len(),
{
    if a.len() == c.len() {
        assert(c.take(a.len() as int) =~= c);
    } else {
        assert(c.drop_last().take(a.len() as int) =~= c.take(a.len() as int));
        lemma_part(a, c.drop_last(), f);
    }
}

/// A trail stays in the pool.
proof fn lemma_trail_in(p: Seq<OrderNode>, chain: bool, i: u16, n: nat, k: int)
    requires
        0 <= k < trail(p, chain, i, n).len(),
    ensures
        0 < trail(p, chain, i, n)[k] < p.len(),
    decreases n,
{
    if k > 0 {
        lemma_trail_in(p, chain, fwd(p, chain, i), (n - 1) as nat, k - 1);
    }
}

/// A node that some level of the window lists, when all of them are sound, is
/// listed by the level of its own tick.
proof fn lemma_queued(b: BookRefMut, i: u16)
    requires
        b.sized(),
        b.header.anchor_tick + 8191 <= u32::MAX,
        forall|o: int| 0 <= o < 8192 ==> #[trigger] level_sound(b, b.header.anchor_tick + o),
        i < b.pool@.len(),
    ensures
        queued_below(b, 8192, i) == queue(b, slot(b.pool@[i as int].tick)).contains(i),
{
    let lo = b.header.anchor_tick as int;
    if queued_below(b, 8192, i) {
        let o = choose|o: int| 0 <= o < 8192 && (#[trigger] queue_at(b, o)).contains(i);
        assert(level_sound(b, lo + o));
        let q = queue_at(b, o);
        let k = q.index_of(i);
        assert(q[k] == i);
    }
    let s = slot(b.pool@[i as int].tick);
    if queue(b, s).contains(i) {
        let o = (s - lo) % 8192;
        assert(0 <= o < 8192 && (lo + o) % 8192 == s);
        assert(queue_at(b, o).contains(i));
    }
}

/// Check everything that a market's regions must agree on: that each level's
/// bit, list and total agree; that no bid reaches an ask; that the free list
/// is what the header counts; that each taken seat's chain is sorted, counted
/// and backed by exactly the locks it needs; that no resting order lacks an
/// owner; and that the vaults hold what the seats and the fees come to.
pub fn check_invariants(b: &BookRefMut, base_vault: u64, quote_vault: u64) -> (r: bool)
    requires
        b.sized(),
    ensures
        r == sound(*b, base_vault, quote_vault),
{
    let anchor: u32 = b.header.anchor_tick();
    if anchor > u32::MAX - 8191 {
        return false;
    }
    let ghost p = b.pool@;
    let n: usize = b.pool.len();
    let mut queued: Vec<bool> = unmarked(n);
    let mut ask_seen: bool = false;
    let mut o: u32 = 0;
    while o < 8192
        invariant
            b.sized(),
            p == b.pool@,
            n == p.len(),
            anchor == b.header.anchor_tick,
            anchor + 8191 <= u32::MAX,
            o <= 8192,
            queued@.len() == p.len(),
            forall|x: int| 0 <= x < o ==> #[trigger] level_sound(*b, b.header.anchor_tick + x),
            forall|i: u16|
                i < p.len() ==> #[trigger] queued@[i as int] == queued_below(*b, o as int, i),
            ask_seen == exists|x: int|
                0 <= x < o && #[trigger] b.ask_bitmap.at(b.header.anchor_tick + x),
            ordered_below(*b, o as int),
        decreases 8192 - o,
    {
        let tick: u32 = anchor + o;
        let ghost old_queued = queued@;
        if !b.audit_level(tick, &mut queued) {
            assert(!level_sound(*b, b.header.anchor_tick + o));
            return false;
        }
        assert(level_sound(*b, b.header.anchor_tick + o));
        let ask: bool = b.ask_bitmap.get(tick);
        let bid: bool = b.bid_bitmap.get(tick);
        assert(ask == b.ask_bitmap.at(b.header.anchor_tick + o));
        assert(bid == b.bid_bitmap.at(b.header.anchor_tick + o));
        if bid && ask_seen {
            proof {
                let x = choose|x: int|
                    0 <= x < o && #[trigger] b.ask_bitmap.at(b.header.anchor_tick + x);
                assert(!ordered_below(*b, 8192));
            }
            return false;
        }
        proof {
            assert forall|i: u16| i < p.len() implies #[trigger] queued@[i as int] == queued_below(
                *b,
                o + 1,
                i,
            ) by {
                assert(queue_at(*b, o as int) == queue(*b, tick as int % 8192));
                assert(queued@[i as int] == (old_queued[i as int] || queue_at(
                    *b,
                    o as int,
                ).contains(i)));
                assert(old_queued[i as int] == queued_below(*b, o as int, i));
                if queued_below(*b, o as int, i) {
                    let x = choose|x: int|
                        0 <= x < o && (#[trigger] queue_at(*b, x)).contains(i);
                    assert(queue_at(*b, x).contains(i));
                }
            }
        }
        ask_seen = ask_seen || ask;
        o = o + 1;
    }
    if !b.audit_free() {
        return false;
    }
    proof {
        assert forall|i: u16| i < p.len() implies #[trigger] queued@[i as int] == queue(
            *b,
            slot(p[i as int].tick),
        ).contains(i) by {
            lemma_queued(*b, i);
        }
    }
    let mut owned: Vec<bool> = unmarked(n);
    let mut base_total: u128 = 0;
    let mut quote_total: u128 = 0;
    let mut s: usize = 0;
    while s < 128
        invariant
            b.sized(),
            p == b.pool@,
            s <= 128,
            queued@.len() == p.len(),
            owned@.len() == p.len(),
            forall|i: u16|
                i < p.len() ==> #[trigger] queued@[i as int] == queue(
                    *b,
                    slot(p[i as int].tick),
                ).contains(i),
            forall|i: u16|
                i < p.len() ==> #[trigger] queued@[i as int] == queued_below(*b, 8192, i),
            forall|x: int| 0 <= x < s ==> #[trigger] seat_sound(*b, x),
            forall|i: u16|
                i < p.len() ==> #[trigger] owned@[i as int] == owned_below(*b, s as int, i),
            base_total == taken_held(b.seats@.take(s as int), true),
            quote_total == taken_held(b.seats@.take(s as int), false),
            base_total <= s * 0x2_0000_0000_0000_0000,
            quote_total <= s * 0x2_0000_0000_0000_0000,
        decreases 128 - s,
    {
        let seat: &Seat = &b.seats[s];
        let ghost old_owned = owned@;
        proof {
            assert(b.seats@.take(s + 1).drop_last() =~= b.seats@.take(s as int));
            assert(b.seats@.take(s + 1).last() == *seat);
        }
        if !seat.is_free() {
            if !b.audit_seat(s, &queued, &mut owned) {
                assert(!seat_sound(*b, s as int));
                return false;
            }
            base_total = base_total + seat.base_free() as u128 + seat.base_locked() as u128;
            quote_total = quote_total + seat.quote_free() as u128 + seat.quote_locked() as u128;
        }
        proof {
            assert(seat_sound(*b, s as int));
            assert forall|i: u16| i < p.len() implies #[trigger] owned@[i as int] == owned_below(
                *b,
                s + 1,
                i,
            ) by {
                assert(old_owned[i as int] == owned_below(*b, s as int, i));
                if owned_below(*b, s as int, i) {
                    let x = choose|x: int|
                        0 <= x < s && !no_owner(b.seats@[x].owner@) && (#[trigger] orders(
                            *b,
                            x,
                        )).contains(i);
                    assert(orders(*b, x).contains(i));
                }
            }
        }
        s = s + 1;
    }
    let top: usize = if n < 65536 {
        n
    } else {
        65536
    };
    let mut i: usize = 0;
    while i < top
        invariant
            top <= p.len(),
            top <= 65536,
            p == b.pool@,
            queued@.len() == p.len(),
            owned@.len() == p.len(),
            forall|j: u16|
                j < p.len() ==> #[trigger] queued@[j as int] == queued_below(*b, 8192, j),
            forall|j: u16|
                j < p.len() ==> #[trigger] owned@[j as int] == owned_below(*b, 128, j),
            forall|j: u16| j < i ==> (#[trigger] queued@[j as int] ==> owned@[j as int]),
        decreases top - i,
    {
        if queued[i] && !owned[i] {
            proof {
                let j = i as u16;
                assert(queued@[j as int] && !owned@[j as int]);
                assert(queued_below(*b, 8192, j) && !owned_below(*b, 128, j));
            }
            return false;
        }
        i = i + 1;
    }
    proof {
        assert forall|j: u16| #[trigger] queued_below(*b, 8192, j) implies owned_below(
            *b,
            128,
            j,
        ) by {
            let o = choose|o: int| 0 <= o < 8192 && (#[trigger] queue_at(*b, o)).contains(j);
            let q = queue_at(*b, o);
            let k = q.index_of(j);
            assert(q[k] == j);
            lemma_trail_in(
                p,
                false,
                b.levels@[(b.header.anchor_tick + o) % 8192].head,
                p.len(),
                k,
            );
            assert(j < p.len());
            assert(queued@[j as int]);
            assert(owned@[j as int]);
        }
    }
    assert(b.seats@.take(128) =~= b.seats@);
    base_total == base_vault as u128 && quote_total + b.header.fees_accrued_quote() as u128
        == quote_vault as u128
}

/// `n` marks, none of them set.
pub(crate) fn unmarked(n: usize) -> (r: Vec<bool>)
    ensures
        r@.len() == n,
        forall|i: int| 0 <= i < n ==> !(#[trigger] r@[i]),
{
    let mut v: Vec<bool> = Vec::new();
    while v.len() < n
        invariant
            v@.len() <= n,
            forall|i: int| 0 <= i < v@.len() ==> !(#[trigger] v@[i]),
        decreases n - v@.len(),
    {
        v.push(false);
    }
    v
}

/// A list that the links thread is the trail from its head.
proof fn lemma_trail_of(p: Seq<OrderNode>, chain: bool, q: Seq<u16>, k: int, n: nat)
    requires
        in_pool(p, q),
        forall|j: int| 0 <= j < q.len() ==> fwd(p, chain, #[trigger] q[j]) == at(q, j + 1),
        0 <= k <= q.len(),
        q.len() - k <= n,
    ensures
        trail(p, chain, at(q, k), n) == q.skip(k),
        ends(p, chain, at(q, k), n),
    decreases n,
{
    if k < q.len() {
        assert(0 < q[k] < p.len());
        lemma_trail_of(p, chain, q, k + 1, (n - 1) as nat);
        assert(seq![q[k]] + q.skip(k + 1) =~= q.skip(k));
    } else {
        assert(q.skip(k) =~= Seq::<u16>::empty());
    }
}

/// A list that the links thread is the trail from its head, over the pool.
pub proof fn lemma_list(p: Seq<OrderNode>, chain: bool, q: Seq<u16>)
    requires
        in_pool(p, q),
        forall|j: int| 0 <= j < q.len() ==> fwd(p, chain, #[trigger] q[j]) == at(q, j + 1),
    ensures
        trail(p, chain, at(q, 0), p.len()) == q,
        ends(p, chain, at(q, 0), p.len()),
{
    lemma_in_pool_len(p, q);
    lemma_trail_of(p, chain, q, 0, p.len());
    assert(q.skip(0) =~= q);
}

/// In a well-formed book the linked queues and chains are the book's own.
pub proof fn lemma_linked(b: BookRefMut)
    requires
        b.links_ok(),
    ensures
        forall|s: int|
            0 <= s < 8192 ==> #[trigger] queue(b, s) == b.lists@.fifos[s] && ends(
                b.pool@,
                false,
                b.levels@[s].head,
                b.pool@.len(),
            ),
        forall|s: int|
            0 <= s < 128 ==> #[trigger] orders(b, s) == b.lists@.chains[s] && ends(
                b.pool@,
                true,
                b.seats@[s].orders_head,
                b.pool@.len(),
            ),
        free_sound(b),
{
    let p = b.pool@;
    assert forall|s: int| 0 <= s < 8192 implies #[trigger] queue(b, s) == b.lists@.fifos[s] && ends(
        p,
        false,
        b.levels@[s].head,
        p.len(),
    ) by {
        assert(b.fifo(s));
        lemma_list(p, false, b.lists@.fifos[s]);
    }
    assert forall|s: int| 0 <= s < 128 implies #[trigger] orders(b, s) == b.lists@.chains[s] && ends(
        p,
        true,
        b.seats@[s].orders_head,
        p.len(),
    ) by {
        assert(b.chain(s));
        lemma_list(p, true, b.lists@.chains[s]);
    }
    lemma_list(p, false, b.lists@.free);
}

/// A node that rests on the slot of a tick of the window rests at that tick.
proof fn lemma_rests(n: OrderNode, lo: u32, cap: u32, tick: int)
    requires
        resting(n, lo, cap, tick % 8192),
        lo <= tick <= lo + 8191,
    ensures
        rests_at(n, tick, n.spec_side()),
{
}

proof fn lemma_levels(b: BookRefMut, o: int)
    requires
        b.links_ok(),
        0 <= o < 8192,
    ensures
        level_sound(b, b.header.anchor_tick + o),
{
    let tick = b.header.anchor_tick + o;
    let s = tick % 8192;
    let q = b.lists@.fifos[s];
    assert(queue(b, s) == q && ends(b.pool@, false, b.levels@[s].head, b.pool@.len())) by {
        lemma_linked(b);
    }
    assert(b.fifo(s));
    assert forall|k: int| 0 <= k < q.len() implies rests_at(
        b.pool@[(#[trigger] q[k]) as int],
        tick,
        if b.bid_bitmap.has(s) {
            Side::Bid
        } else {
            Side::Ask
        },
    ) by {
        lemma_rests(
            b.pool@[q[k] as int],
            b.header.anchor_tick,
            b.header.max_lots_per_order,
            tick,
        );
    }
}

/// An occupied tick has an order on that side.
proof fn lemma_occupied(b: BookRefMut, o: int, side: Side) -> (i: u16)
    requires
        b.wf(),
        0 <= o < 8192,
        match side {
            Side::Bid => b.bid_bitmap.at(b.header.anchor_tick + o),
            Side::Ask => b.ask_bitmap.at(b.header.anchor_tick + o),
        },
    ensures
        b@.orders.contains_key(i),
        b@.orders[i].side == side,
        b@.orders[i].tick == b.header.anchor_tick + o,
{
    lemma_levels(b, o);
    lemma_linked(b);
    let s = (b.header.anchor_tick + o) % 8192;
    let q = b.lists@.fifos[s];
    assert(b.fifo(s));
    assert(queue(b, s) == q);
    assert(rests_at(
        b.pool@[q[0] as int],
        b.header.anchor_tick + o,
        if b.bid_bitmap.has(s) {
            Side::Bid
        } else {
            Side::Ask
        },
    ));
    q[0]
}

proof fn lemma_ordered(b: BookRefMut)
    requires
        b.wf(),
    ensures
        ordered_below(b, 8192),
{
    assert forall|x: int, y: int|
        #![trigger b.ask_bitmap.at(b.header.anchor_tick + x), b.bid_bitmap.at(
            b.header.anchor_tick + y,
        )]
        0 <= x <= y < 8192 implies !(b.ask_bitmap.at(b.header.anchor_tick + x) && b.bid_bitmap.at(
        b.header.anchor_tick + y,
    )) by {
        if b.ask_bitmap.at(b.header.anchor_tick + x) && b.bid_bitmap.at(
            b.header.anchor_tick + y,
        ) {
            let j = lemma_occupied(b, x, Side::Ask);
            let i = lemma_occupied(b, y, Side::Bid);
            reveal(BookView::uncrossed);
            assert(b@.orders[i].tick < b@.orders[j].tick);
        }
    }
}

proof fn lemma_seats(b: BookRefMut, s: int)
    requires
        b.wf(),
        exact(b@),
        0 <= s < 128,
    ensures
        seat_sound(b, s),
{
    lemma_linked(b);
    let p = b.pool@;
    let c = b.lists@.chains[s];
    assert(b.chain(s));
    assert(orders(b, s) == c);
    assert forall|k: int| 0 <= k < c.len() implies #[trigger] member_sound(b, s, c, k) by {
        let i = c[k];
        assert(0 < i < p.len());
        assert(p[i as int].seq != FREED_SEQ);
        assert(b@.orders.contains_key(i));
        assert(b@.order_ok(i));
        if k > 0 {
            assert(key_of(p[c[k - 1] as int]) < key_of(p[c[k] as int]));
        }
        let t = slot(p[i as int].tick);
        assert(queue(b, t) == b.lists@.fifos[t]);
    }
    assert forall|base: bool| seat_lock(b, s, base) == total(
        c,
        #[trigger] locks_by(b.header, p, base),
    ) by {
        assert(b@.surplus(s, base) == 0);
        assert forall|k: int| 0 <= k < c.len() implies b@.locks(base)(#[trigger] c[k]) == locks_by(
            b.header,
            p,
            base,
        )(c[k]) by {
            assert(0 < c[k] < p.len());
            assert(p[c[k] as int].seq != FREED_SEQ);
            assert(b@.orders.contains_key(c[k]));
        }
        lemma_total_agree(c, b@.locks(base), locks_by(b.header, p, base));
    }
    assert(seat_lock(b, s, true) == total(c, locks_by(b.header, p, true)));
    assert(seat_lock(b, s, false) == total(c, locks_by(b.header, p, false)));
}

/// What seat `s` has locked of one asset.
spec fn seat_lock(b: BookRefMut, s: int, base: bool) -> int {
    b.seats@[s].spec_locked(base) as int
}

proof fn lemma_owned(b: BookRefMut, i: u16)
    requires
        b.wf(),
        queued_below(b, 8192, i),
    ensures
        owned_below(b, 128, i),
{
    lemma_linked(b);
    let o = choose|o: int| 0 <= o < 8192 && (#[trigger] queue_at(b, o)).contains(i);
    let s = (b.header.anchor_tick + o) % 8192;
    let q = b.lists@.fifos[s];
    assert(queue(b, s) == q);
    assert(b.fifo(s));
    let k = q.index_of(i);
    assert(q[k] == i);
    assert(0 < i < b.pool@.len());
    assert(b.pool@[i as int].seq != FREED_SEQ);
    assert(b@.orders.contains_key(i));
    assert(b@.order_ok(i));
    let m = b@.orders[i].maker as int;
    assert(orders(b, m) == b.lists@.chains[m]);
    assert(b@.seats[m].owner == b.seats@[m].owner);
    assert(orders(b, m).contains(i));
}

/// Vacant seats add nothing to what all seats hold.
proof fn lemma_taken(seats: Seq<Seat>, accounts: Seq<Seat>, base: bool)
    requires
        seats.len() == accounts.len(),
        forall|s: int|
            0 <= s < seats.len() ==> held(#[trigger] seats[s], base) == held(accounts[s], base),
        forall|s: int|
            0 <= s < seats.len() && no_owner((#[trigger] seats[s]).owner@) ==> held(seats[s], base)
                == 0,
    ensures
        taken_held(seats, base) == total_held(accounts, base),
    decreases seats.len(),
{
    if seats.len() > 0 {
        let n = seats.len() - 1;
        assert(held(seats[n], base) == held(accounts[n], base));
        lemma_taken(seats.drop_last(), accounts.drop_last(), base);
    }
}

/// The audit passes on every well-formed book whose locks are exact and whose
/// vaults hold what the book owes.
pub proof fn lemma_audit_passes(b: BookRefMut, base_vault: u64, quote_vault: u64)
    requires
        b.wf(),
        exact(b@),
        vacant_empty(b@),
        b@.owed(true) == base_vault,
        b@.owed(false) == quote_vault,
    ensures
        sound(b, base_vault, quote_vault),
{
    lemma_linked(b);
    assert forall|o: int| 0 <= o < 8192 implies #[trigger] level_sound(
        b,
        b.header.anchor_tick + o,
    ) by {
        lemma_levels(b, o);
    }
    lemma_ordered(b);
    assert forall|s: int| 0 <= s < 128 implies #[trigger] seat_sound(b, s) by {
        lemma_seats(b, s);
    }
    assert forall|i: u16| #[trigger] queued_below(b, 8192, i) implies owned_below(b, 128, i) by {
        lemma_owned(b, i);
    }
    assert forall|base: bool| #[trigger] taken_held(b.seats@, base) == total_held(b@.seats, base) by {
        assert forall|s: int| 0 <= s < b.seats@.len() implies held(#[trigger] b.seats@[s], base)
            == held(b@.seats[s], base) by {}
        assert forall|s: int|
            0 <= s < b.seats@.len() && no_owner((#[trigger] b.seats@[s]).owner@) implies held(
            b.seats@[s],
            base,
        ) == 0 by {
            assert(no_owner(b@.seats[s].owner@));
            assert(held(b@.seats[s], base) == 0);
        }
        lemma_taken(b.seats@, b@.seats, base);
    }
}

} // verus!
