//! Telling from its bytes alone whether an account holds a well-formed market:
//! one whose regions agree with each other, whose terms overflow nowhere, and
//! whose seats hold no more than a mint can issue.

use crate::account::{
    lemma_bytes_len,
    lemma_header_bytes,
    lemma_links_transfer,
    lemma_lists_unique,
    lemma_reload,
    linked_by,
    lists_of,
    no_lists,
};
use crate::audit::{
    ends,
    lemma_linked,
    lemma_list,
    lemma_lock_nonneg,
    lemma_part,
    lemma_product,
    lemma_step,
    lemma_total_push,
    locks_by,
    orders,
    queue,
    trail,
    unmarked,
};
use crate::bitmap::{bit, lemma_bit_test, Bitmap};
use crate::book::{chain_ok, fifo_ok, free_ok, key_of, lots_by, resting, BookRefMut, Lists};
use crate::codec::read32;
use crate::constants::{FREED_SEQ, MAX_FEE_BPS, MAX_POOL_CAPACITY};
use crate::custody::lemma_same_totals;
use crate::level::Level;
use crate::lists::{at, back, fwd, lemma_in_pool_len, lemma_total_agree, threads, total};
use crate::market::Market;
use crate::model::{held, market_ok, params_ok, slot, total_held, BookView};
use crate::node::OrderNode;
use crate::seat::{no_owner, Seat};
use crate::side::Side;
use vstd::prelude::*;

verus! {

/// Whether no amount overflows under these terms, wherever the window stands.
pub fn terms_hold(h: &Market) -> (r: bool)
    ensures
        r == (params_ok(*h) && market_ok(*h)),
{
    let anchor: u64 = h.anchor_tick() as u64;
    let limit: u64 = h.tick_limit() as u64;
    if anchor % 64 != 0 || anchor < 64 || anchor + 8191 > limit || limit > u32::MAX as u64 - 16384
        || h.order_pool_capacity() > MAX_POOL_CAPACITY {
        return false;
    }
    if h.tick_size() == 0 || h.base_lot_size() == 0 || h.max_lots_per_order() == 0 || h.fee_bps()
        > MAX_FEE_BPS {
        return false;
    }
    let size: u128 = h.tick_size() as u128;
    let lots: u128 = h.max_lots_per_order() as u128;
    let unit: u128 = h.base_lot_size() as u128;
    proof {
        lemma_product(limit as int, size as int, lots as int);
        lemma_product(anchor + 8191, size as int, lots as int);
        lemma_product(1, unit as int, lots as int);
        assert(lots * unit == unit * lots) by (nonlinear_arith);
    }
    let most: u128 = limit as u128 * size * lots;
    let here: u128 = (anchor + 8191) as u128 * size * lots;
    let base: u128 = lots * unit;
    here <= u64::MAX as u128 && base <= u64::MAX as u128 && most <= u64::MAX as u128 / 10_500
}

/// Whether the summary of a bitmap agrees with its leaves.
fn summary_holds(m: &Bitmap) -> (r: bool)
    ensures
        r == m.wf(),
{
    let mut w: usize = 0;
    while w < 128
        invariant
            w <= 128,
            forall|x: int|
                0 <= x < w ==> (bit(m.summary@[x / 64], (x % 64) as u64)
                    <==> #[trigger] m.leaves@[x] != 0),
        decreases 128 - w,
    {
        proof {
            lemma_bit_test(m.summary@[w as int / 64], (w % 64) as u64);
        }
        let set: bool = m.summary[w / 64] & (1u64 << (w % 64)) != 0;
        if set != (m.leaves[w] != 0) {
            assert(!m.wf()) by {
                assert(m.leaves@[w as int] == m.leaves@[w as int]);
            }
            return false;
        }
        w = w + 1;
    }
    true
}

/// The list that the links of one kind thread from `head`.
pub open spec fn linked(p: Seq<OrderNode>, chain: bool, head: u16) -> Seq<u16> {
    trail(p, chain, head, p.len())
}

/// The links of one kind thread a list from `head`.
pub open spec fn links_hold(p: Seq<OrderNode>, chain: bool, head: u16) -> bool {
    ends(p, chain, head, p.len()) && threads(p, chain, linked(p, chain, head))
}

/// Distinct back links: a list that is linked both ways never repeats.
proof fn lemma_distinct(p: Seq<OrderNode>, chain: bool, q: Seq<u16>, a: int, b: int)
    requires
        forall|k: int| 0 <= k < q.len() ==> 0 < #[trigger] q[k] < p.len(),
        forall|k: int|
            0 <= k < q.len() ==> back(p, chain, #[trigger] q[k]) == at(q, k - 1),
        0 <= a < b < q.len(),
    ensures
        q[a] != q[b],
    decreases a,
{
    if q[a] == q[b] {
        assert(at(q, a - 1) == at(q, b - 1));
        assert(q[b - 1] > 0);
        if a > 0 {
            lemma_distinct(p, chain, q, a - 1, b - 1);
        }
    }
}

/// Follow the links of one kind from `head`, forward and back.
fn walk(pool: &Vec<OrderNode>, chain: bool, head: u16) -> (r: Option<Vec<u16>>)
    requires
        pool@.len() <= u32::MAX,
    ensures
        match r {
            Some(q) => links_hold(pool@, chain, head) && q@ == linked(pool@, chain, head),
            None => !links_hold(pool@, chain, head),
        },
{
    let ghost p = pool@;
    let ghost l = linked(p, chain, head);
    let mut q: Vec<u16> = Vec::new();
    let mut cur: u16 = head;
    let mut prev: u16 = 0;
    let mut left: usize = pool.len();
    assert(l =~= q@ + trail(p, chain, cur, left as nat));
    while cur != 0
        invariant
            p == pool@,
            p.len() <= u32::MAX,
            l == linked(p, chain, head),
            left <= p.len(),
            l == q@ + trail(p, chain, cur, left as nat),
            ends(p, chain, head, p.len()) == ends(p, chain, cur, left as nat),
            q@.len() == p.len() - left,
            prev == at(l, q@.len() - 1),
            forall|k: int| 0 <= k < q@.len() ==> 0 < #[trigger] q@[k] < p.len(),
            forall|k: int|
                0 <= k < q@.len() ==> back(p, chain, #[trigger] q@[k]) == at(q@, k - 1),
            forall|k: int|
                0 <= k < q@.len() ==> fwd(p, chain, #[trigger] q@[k]) == if k + 1 < q@.len() {
                    q@[k + 1]
                } else {
                    cur
                },
        decreases left,
    {
        if left == 0 || cur as usize >= pool.len() {
            return None;
        }
        proof {
            lemma_step(p, chain, head, q@, cur, left as nat);
        }
        let node: &OrderNode = &pool[cur as usize];
        let before: u16 = if chain {
            node.maker_prev()
        } else {
            node.prev()
        };
        if before != prev {
            assert(l[q@.len() as int] == cur);
            assert(!threads(p, chain, l));
            return None;
        }
        prev = cur;
        q.push(cur);
        cur = if chain {
            node.maker_next()
        } else {
            node.next()
        };
        left = left - 1;
    }
    assert(l =~= q@);
    proof {
        assert forall|a: int, b: int|
            0 <= a < q@.len() && 0 <= b < q@.len() && a != b implies q@[a] != q@[b] by {
            if a < b {
                lemma_distinct(p, chain, q@, a, b);
            } else {
                lemma_distinct(p, chain, q@, b, a);
            }
        }
    }
    Some(q)
}

/// Ring slot `s` of a book, with the queue that its links thread.
pub open spec fn slot_holds(b: BookRefMut, s: int) -> bool {
    fifo_ok(
        b.pool@,
        b.header.anchor_tick,
        b.header.max_lots_per_order,
        b.levels@[s],
        b.bid_bitmap.has(s),
        b.ask_bitmap.has(s),
        queue(b, s),
        s,
    )
}

impl BookRefMut {
    /// Check ring slot `s` and hand out its queue.
    fn inspect_slot(&self, s: u32) -> (r: Option<Vec<u16>>)
        requires
            self.sized(),
            s < 8192,
            self.header.anchor_tick + 8191 <= u32::MAX,
        ensures
            match r {
                Some(q) => slot_holds(*self, s as int) && q@ == queue(*self, s as int),
                None => !slot_holds(*self, s as int),
            },
    {
        let ghost p = self.pool@;
        let level: &Level = &self.levels[s as usize];
        let bid: bool = self.bid_bitmap.get(s);
        let ask: bool = self.ask_bitmap.get(s);
        let side: Side = if bid {
            Side::Bid
        } else {
            Side::Ask
        };
        let q: Vec<u16> = match walk(&self.pool, false, level.head()) {
            Some(q) => q,
            None => {
                proof {
                    if slot_holds(*self, s as int) {
                        lemma_list(p, false, queue(*self, s as int));
                    }
                }
                return None;
            },
        };
        let lo: u32 = self.header.anchor_tick();
        let cap: u32 = self.header.max_lots_per_order();
        let mut sum: u64 = 0;
        let mut k: usize = 0;
        proof {
            lemma_in_pool_len(p, q@);
            assert(q@.take(0) =~= Seq::<u16>::empty());
        }
        while k < q.len()
            invariant
                self.sized(),
                p == self.pool@,
                q@ == queue(*self, s as int),
                threads(p, false, q@),
                q@.len() <= u32::MAX,
                s < 8192,
                lo == self.header.anchor_tick,
                lo + 8191 <= u32::MAX,
                cap == self.header.max_lots_per_order,
                bid == self.bid_bitmap.has(s as int),
                side == (if bid {
                    Side::Bid
                } else {
                    Side::Ask
                }),
                k <= q@.len(),
                sum == total(q@.take(k as int), lots_by(p)),
                sum <= k * u32::MAX,
                forall|j: int|
                    0 <= j < k ==> resting(p[(#[trigger] q@[j]) as int], lo, cap, s as int)
                        && p[q@[j] as int].spec_side() == side,
            decreases q@.len() - k,
        {
            let node: &OrderNode = &self.pool[q[k] as usize];
            if node.seq() == FREED_SEQ || node.tick() % 8192 != s || node.tick() < lo
                || node.tick() > lo + 8191 || node.lots() == 0 || node.lots() > cap || node.side()
                != side {
                assert(!slot_holds(*self, s as int)) by {
                    assert(q@[k as int] == queue(*self, s as int)[k as int]);
                }
                return None;
            }
            proof {
                assert(q@.take(k + 1).drop_last() =~= q@.take(k as int));
            }
            sum = sum + node.lots() as u64;
            k = k + 1;
        }
        assert(q@.take(k as int) =~= q@);
        let last: u16 = if q.len() > 0 {
            q[q.len() - 1]
        } else {
            0
        };
        if level.tail() != last || level.total_lots() != sum || (bid && ask) || (bid || ask) != (
        q.len() > 0) {
            return None;
        }
        proof {
            lemma_list(p, false, q@);
        }
        Some(q)
    }

    /// Check seat `s` and hand out its order chain.
    fn inspect_seat(&self, s: usize) -> (r: Option<Vec<u16>>)
        requires
            self.sized(),
            s < 128,
        ensures
            match r {
                Some(c) => seat_holds(*self, s as int) && c@ == orders(*self, s as int),
                None => !seat_holds(*self, s as int),
            },
    {
        let ghost p = self.pool@;
        let ghost fb = locks_by(self.header, p, true);
        let ghost fq = locks_by(self.header, p, false);
        let seat: &Seat = &self.seats[s];
        let c: Vec<u16> = match walk(&self.pool, true, seat.orders_head()) {
            Some(c) => c,
            None => {
                proof {
                    if seat_holds(*self, s as int) {
                        lemma_list(p, true, orders(*self, s as int));
                    }
                }
                return None;
            },
        };
        if seat.order_count() as usize != c.len() || (seat.is_free() && c.len() > 0) {
            return None;
        }
        let mut base: u128 = 0;
        let mut quote: u128 = 0;
        let mut last: u64 = 0;
        let mut k: usize = 0;
        proof {
            lemma_list(p, true, c@);
            assert(c@.take(0) =~= Seq::<u16>::empty());
        }
        while k < c.len()
            invariant
                self.sized(),
                s < 128,
                p == self.pool@,
                *seat == self.seats@[s as int],
                fb == locks_by(self.header, p, true),
                fq == locks_by(self.header, p, false),
                c@ == orders(*self, s as int),
                threads(p, true, c@),
                k <= c@.len(),
                base == total(c@.take(k as int), fb),
                quote == total(c@.take(k as int), fq),
                base <= seat.base_locked,
                quote <= seat.quote_locked,
                k > 0 ==> last == key_of(p[c@[k - 1] as int]),
                forall|j: int|
                    0 <= j < k ==> p[(#[trigger] c@[j]) as int].seq != FREED_SEQ
                        && p[c@[j] as int].spec_maker() == s,
                forall|j: int, m: int|
                    0 <= j < m < k ==> key_of(p[(#[trigger] c@[j]) as int]) < key_of(
                        p[(#[trigger] c@[m]) as int],
                    ),
            decreases c@.len() - k,
        {
            let i: u16 = c[k];
            let node: &OrderNode = &self.pool[i as usize];
            let this: u64 = self.chain_key(i);
            if node.seq() == FREED_SEQ || node.maker() as usize != s || (k > 0 && last >= this) {
                assert(!seat_holds(*self, s as int)) by {
                    assert(c@[k as int] == i);
                    if k > 0 {
                        assert(c@[k - 1] == c@[k - 1]);
                    }
                }
                return None;
            }
            let (of_base, amount) = self.node_amount(node);
            if of_base {
                base = base + amount;
            } else {
                quote = quote + amount;
            }
            proof {
                assert(c@.take(k + 1) =~= c@.take(k as int).push(i));
                lemma_total_push(c@.take(k as int), i, fb);
                lemma_total_push(c@.take(k as int), i, fq);
            }
            if base > seat.base_locked() as u128 || quote > seat.quote_locked() as u128 {
                proof {
                    assert forall|j: u16| #[trigger] fb(j) >= 0 by {
                        lemma_lock_nonneg(self.header, p[j as int], true);
                    }
                    assert forall|j: u16| #[trigger] fq(j) >= 0 by {
                        lemma_lock_nonneg(self.header, p[j as int], false);
                    }
                    lemma_part(c@.take(k + 1), c@, fb);
                    lemma_part(c@.take(k + 1), c@, fq);
                }
                return None;
            }
            last = this;
            k = k + 1;
        }
        assert(c@.take(k as int) =~= c@);
        Some(c)
    }

    /// Check the free list and mark its nodes.
    fn inspect_free(&self) -> (r: Option<Vec<bool>>)
        requires
            self.sized(),
        ensures
            match r {
                Some(m) => free_holds(*self) && marks(m@, self.pool@, free_in(*self)),
                None => !free_holds(*self),
            },
    {
        let ghost p = self.pool@;
        let ghost f = free_in(*self);
        let ghost mut seen: Seq<u16> = Seq::empty();
        let head: u16 = self.header.free_head();
        let mut freed: Vec<bool> = unmarked(self.pool.len());
        let mut cur: u16 = head;
        let mut left: usize = self.pool.len();
        assert(f =~= seen + trail(p, false, cur, left as nat));
        while cur != 0
            invariant
                self.sized(),
                p == self.pool@,
                f == free_in(*self),
                head == self.header.free_head,
                left <= p.len() <= u32::MAX,
                f == seen + trail(p, false, cur, left as nat),
                ends(p, false, head, p.len()) == ends(p, false, cur, left as nat),
                seen.len() == p.len() - left,
                seen.no_duplicates(),
                marks(freed@, p, seen),
                forall|k: int|
                    0 <= k < seen.len() ==> 0 < #[trigger] seen[k] < p.len()
                        && p[seen[k] as int].seq == FREED_SEQ && p[seen[k] as int].next == if k
                        + 1 < seen.len() {
                        seen[k + 1]
                    } else {
                        cur
                    },
                seen.len() > 0 ==> seen[0] == head,
                seen.len() == 0 ==> cur == head,
            decreases left,
        {
            if left == 0 || cur as usize >= self.pool.len() {
                return None;
            }
            proof {
                lemma_step(p, false, head, seen, cur, left as nat);
            }
            if freed[cur as usize] || self.pool[cur as usize].seq() != FREED_SEQ {
                assert(!free_holds(*self)) by {
                    let n = seen.len() as int;
                    assert(f[n] == cur);
                    if seen.contains(cur) {
                        let k = seen.index_of(cur);
                        assert(f[k] == cur);
                    }
                }
                return None;
            }
            let ghost before = seen;
            let ghost m = freed@;
            freed.set(cur as usize, true);
            proof {
                seen = seen.push(cur);
                lemma_marked(m, freed@, p, before, cur);
            }
            cur = self.pool[cur as usize].next();
            left = left - 1;
        }
        assert(f =~= seen);
        if self.pool.len() - left != self.header.free_count() as usize {
            return None;
        }
        Some(freed)
    }
}

/// Seat `s` of a book, with the order chain that its links thread. Its locks
/// cover its orders, and a vacant seat has none.
pub open spec fn seat_holds(b: BookRefMut, s: int) -> bool {
    let seat = b.seats@[s];
    let c = orders(b, s);
    &&& chain_ok(b.pool@, seat, c, s)
    &&& no_owner(seat.owner@) ==> c.len() == 0
    &&& total(c, locks_by(b.header, b.pool@, true)) <= seat.base_locked
    &&& total(c, locks_by(b.header, b.pool@, false)) <= seat.quote_locked
}

/// The free list, as it is linked.
pub open spec fn free_in(b: BookRefMut) -> Seq<u16> {
    linked(b.pool@, false, b.header.free_head)
}

pub open spec fn free_holds(b: BookRefMut) -> bool {
    &&& ends(b.pool@, false, b.header.free_head, b.pool@.len())
    &&& free_ok(b.pool@, b.header.free_head, b.header.free_count, free_in(b))
}

/// `m` marks the nodes of `q`.
pub open spec fn marks(m: Seq<bool>, p: Seq<OrderNode>, q: Seq<u16>) -> bool {
    &&& m.len() == p.len()
    &&& forall|i: u16| i < p.len() ==> #[trigger] m[i as int] == q.contains(i)
}

proof fn lemma_marked(m: Seq<bool>, n: Seq<bool>, p: Seq<OrderNode>, q: Seq<u16>, i: u16)
    requires
        i < p.len(),
        n == m.update(i as int, true),
        m.len() == p.len(),
        forall|j: u16| j < p.len() && j != i ==> #[trigger] m[j as int] == q.contains(j),
    ensures
        marks(n, p, q.push(i)),
{
    assert forall|j: u16| j < p.len() implies #[trigger] n[j as int] == q.push(i).contains(j) by {
        if q.contains(j) {
            let k = q.index_of(j);
            assert(q.push(i)[k] == j);
        }
        if j == i {
            assert(q.push(i)[q.len() as int] == i);
        } else {
            assert(n[j as int] == m[j as int]);
            if q.push(i).contains(j) {
                let k = q.push(i).index_of(j);
                assert(q[k] == j);
            }
        }
    }
}

/// Mark the nodes of `q` too.
fn mark_all(q: &Vec<u16>, m: &mut Vec<bool>)
    requires
        forall|k: int| 0 <= k < q@.len() ==> (#[trigger] q@[k]) < old(m)@.len(),
    ensures
        final(m)@.len() == old(m)@.len(),
        forall|i: u16|
            i < old(m)@.len() ==> #[trigger] final(m)@[i as int] == (old(m)@[i as int] || q@.contains(
                i,
            )),
{
    let mut k: usize = 0;
    while k < q.len()
        invariant
            k <= q@.len(),
            m@.len() == old(m)@.len(),
            forall|j: int| 0 <= j < q@.len() ==> (#[trigger] q@[j]) < m@.len(),
            forall|i: u16|
                i < m@.len() ==> #[trigger] m@[i as int] == (old(m)@[i as int] || exists|j: int|
                    0 <= j < k && #[trigger] q@[j] == i),
        decreases q@.len() - k,
    {
        let ghost n = m@;
        m.set(q[k] as usize, true);
        proof {
            assert forall|i: u16| i < m@.len() implies #[trigger] m@[i as int] == (
            old(m)@[i as int] || exists|j: int| 0 <= j < k + 1 && #[trigger] q@[j] == i) by {
                assert(n[i as int] == (old(m)@[i as int] || exists|j: int|
                    0 <= j < k && #[trigger] q@[j] == i));
                if i == q@[k as int] {
                    assert(m@[i as int]);
                } else {
                    assert(m@[i as int] == n[i as int]);
                }
            }
        }
        k = k + 1;
    }
    proof {
        assert forall|i: u16| i < m@.len() implies #[trigger] m@[i as int] == (old(m)@[i as int]
            || q@.contains(i)) by {
            if q@.contains(i) {
                let j = q@.index_of(i);
                assert(q@[j] == i);
            }
        }
    }
}

/// One of the first `n` ring slots lists node `i`.
pub open spec fn queued_in(b: BookRefMut, n: int, i: u16) -> bool {
    exists|s: int| 0 <= s < n && (#[trigger] queue(b, s)).contains(i)
}

/// One of the first `n` seats lists node `i`.
pub open spec fn chained_in(b: BookRefMut, n: int, i: u16) -> bool {
    exists|s: int| 0 <= s < n && (#[trigger] orders(b, s)).contains(i)
}

impl BookRefMut {
    /// Check every ring slot and mark what they list.
    fn inspect_slots(&self) -> (r: Option<Vec<bool>>)
        requires
            self.sized(),
            self.header.anchor_tick + 8191 <= u32::MAX,
        ensures
            match r {
                Some(m) => {
                    &&& forall|s: int| 0 <= s < 8192 ==> #[trigger] slot_holds(*self, s)
                    &&& m@.len() == self.pool@.len()
                    &&& forall|i: u16|
                        i < m@.len() ==> #[trigger] m@[i as int] == queued_in(*self, 8192, i)
                },
                None => exists|s: int| 0 <= s < 8192 && !#[trigger] slot_holds(*self, s),
            },
    {
        let mut m: Vec<bool> = unmarked(self.pool.len());
        let mut s: u32 = 0;
        while s < 8192
            invariant
                self.sized(),
                self.header.anchor_tick + 8191 <= u32::MAX,
                s <= 8192,
                forall|t: int| 0 <= t < s ==> #[trigger] slot_holds(*self, t),
                m@.len() == self.pool@.len(),
                forall|i: u16|
                    i < m@.len() ==> #[trigger] m@[i as int] == queued_in(*self, s as int, i),
            decreases 8192 - s,
        {
            let ghost n = m@;
            match self.inspect_slot(s) {
                None => {
                    return None;
                },
                Some(q) => {
                    assert(q@ == queue(*self, s as int));
                    mark_all(&q, &mut m);
                    proof {
                        assert forall|i: u16| i < m@.len() implies #[trigger] m@[i as int]
                            == queued_in(*self, s + 1, i) by {
                            assert(n[i as int] == queued_in(*self, s as int, i));
                            if queued_in(*self, s + 1, i) && !queued_in(*self, s as int, i) {
                                let t = choose|t: int|
                                    0 <= t < s + 1 && (#[trigger] queue(*self, t)).contains(i);
                                assert(t == s);
                            }
                        }
                    }
                },
            }
            s = s + 1;
        }
        Some(m)
    }

    /// Check every seat and mark what their chains list.
    fn inspect_seats(&self) -> (r: Option<Vec<bool>>)
        requires
            self.sized(),
        ensures
            match r {
                Some(m) => {
                    &&& forall|s: int| 0 <= s < 128 ==> #[trigger] seat_holds(*self, s)
                    &&& m@.len() == self.pool@.len()
                    &&& forall|i: u16|
                        i < m@.len() ==> #[trigger] m@[i as int] == chained_in(*self, 128, i)
                },
                None => exists|s: int| 0 <= s < 128 && !#[trigger] seat_holds(*self, s),
            },
    {
        let mut m: Vec<bool> = unmarked(self.pool.len());
        let mut s: usize = 0;
        while s < 128
            invariant
                self.sized(),
                s <= 128,
                forall|t: int| 0 <= t < s ==> #[trigger] seat_holds(*self, t),
                m@.len() == self.pool@.len(),
                forall|i: u16|
                    i < m@.len() ==> #[trigger] m@[i as int] == chained_in(*self, s as int, i),
            decreases 128 - s,
        {
            let ghost n = m@;
            match self.inspect_seat(s) {
                None => {
                    return None;
                },
                Some(c) => {
                    assert(c@ == orders(*self, s as int));
                    mark_all(&c, &mut m);
                    proof {
                        assert forall|i: u16| i < m@.len() implies #[trigger] m@[i as int]
                            == chained_in(*self, s + 1, i) by {
                            assert(n[i as int] == chained_in(*self, s as int, i));
                            if chained_in(*self, s + 1, i) && !chained_in(*self, s as int, i) {
                                let t = choose|t: int|
                                    0 <= t < s + 1 && (#[trigger] orders(*self, t)).contains(i);
                                assert(t == s);
                            }
                        }
                    }
                },
            }
            s = s + 1;
        }
        Some(m)
    }
}

/// Every node is either on the free list, or live, on a queue and on a chain.
pub open spec fn covered(b: BookRefMut) -> bool {
    forall|i: u16| 1 <= i < b.pool@.len() ==> #[trigger] node_covered(b, i)
}

pub open spec fn node_covered(b: BookRefMut, i: u16) -> bool {
    if b.pool@[i as int].seq == FREED_SEQ {
        free_in(b).contains(i)
    } else {
        !free_in(b).contains(i) && queued_in(b, 8192, i) && chained_in(b, 128, i)
    }
}

impl BookRefMut {
    /// A live node of `side` before node `n`.
    spec fn quotes_before(&self, side: Side, n: int, j: int) -> bool {
        &&& 1 <= j < n
        &&& j < self.pool@.len()
        &&& self.pool@[j].seq != FREED_SEQ
        &&& self.pool@[j].spec_side() == side
    }

    /// Check that every node is where it should be and no bid reaches an ask.
    fn inspect_nodes(
        &self,
        queued: &Vec<bool>,
        chained: &Vec<bool>,
        freed: &Vec<bool>,
    ) -> (r: bool)
        requires
            self.sized(),
            params_ok(self.header),
            forall|s: int| 0 <= s < 8192 ==> #[trigger] slot_holds(*self, s),
            queued@.len() == self.pool@.len(),
            chained@.len() == self.pool@.len(),
            forall|i: u16|
                i < queued@.len() ==> #[trigger] queued@[i as int] == queued_in(*self, 8192, i),
            forall|i: u16|
                i < chained@.len() ==> #[trigger] chained@[i as int] == chained_in(*self, 128, i),
            marks(freed@, self.pool@, free_in(*self)),
        ensures
            r == (covered(*self) && self@.uncrossed()),
    {
        let n: usize = self.pool.len();
        let mut top: u32 = 0;
        let mut bottom: u32 = u32::MAX;
        let mut i: usize = 1;
        while i < n
            invariant
                self.sized(),
                params_ok(self.header),
                n == self.pool@.len() <= MAX_POOL_CAPACITY,
                forall|s: int| 0 <= s < 8192 ==> #[trigger] slot_holds(*self, s),
                queued@.len() == self.pool@.len(),
                chained@.len() == self.pool@.len(),
                forall|j: u16|
                    j < queued@.len() ==> #[trigger] queued@[j as int] == queued_in(
                        *self,
                        8192,
                        j,
                    ),
                forall|j: u16|
                    j < chained@.len() ==> #[trigger] chained@[j as int] == chained_in(
                        *self,
                        128,
                        j,
                    ),
                marks(freed@, self.pool@, free_in(*self)),
                1 <= i,
                forall|j: u16| 1 <= j < i && j < n ==> #[trigger] node_covered(*self, j),
                forall|j: int| #[trigger]
                    self.quotes_before(Side::Bid, i as int, j) ==> self.pool@[j].tick <= top,
                forall|j: int| #[trigger]
                    self.quotes_before(Side::Ask, i as int, j) ==> self.pool@[j].tick >= bottom,
                top == 0 || exists|j: int| #[trigger]
                    self.quotes_before(Side::Bid, i as int, j) && self.pool@[j].tick == top,
                bottom == u32::MAX || exists|j: int| #[trigger]
                    self.quotes_before(Side::Ask, i as int, j) && self.pool@[j].tick == bottom,
                top < u32::MAX,
                bottom > 0,
            decreases n - i,
        {
            let node: &OrderNode = &self.pool[i];
            let ghost k = i as u16;
            let ghost old_top = top;
            let ghost old_bottom = bottom;
            assert(freed@[k as int] == free_in(*self).contains(k));
            assert(queued@[k as int] == queued_in(*self, 8192, k));
            assert(chained@[k as int] == chained_in(*self, 128, k));
            if node.seq() == FREED_SEQ {
                if !freed[i] {
                    assert(!node_covered(*self, k));
                    return false;
                }
            } else {
                if freed[i] || !queued[i] || !chained[i] {
                    assert(!node_covered(*self, k));
                    return false;
                }
                proof {
                    let s = choose|s: int|
                        0 <= s < 8192 && (#[trigger] queue(*self, s)).contains(k);
                    assert(slot_holds(*self, s));
                    let j = queue(*self, s).index_of(k);
                    assert(queue(*self, s)[j] == k);
                }
                match node.side() {
                    Side::Bid => {
                        if node.tick() > top {
                            top = node.tick();
                        }
                    },
                    Side::Ask => {
                        if node.tick() < bottom {
                            bottom = node.tick();
                        }
                    },
                }
            }
            assert(node_covered(*self, k));
            proof {
                self.lemma_extremes(i as int, old_top, old_bottom, top, bottom);
            }
            i = i + 1;
        }
        proof {
            self.lemma_separated(i as int, top, bottom);
        }
        top < bottom
    }

    proof fn lemma_extremes(&self, i: int, t: u32, b: u32, top: u32, bottom: u32)
        requires
            1 <= i < self.pool@.len(),
            forall|j: int| #[trigger]
                self.quotes_before(Side::Bid, i, j) ==> self.pool@[j].tick <= t,
            forall|j: int| #[trigger]
                self.quotes_before(Side::Ask, i, j) ==> self.pool@[j].tick >= b,
            t == 0 || exists|j: int| #[trigger]
                self.quotes_before(Side::Bid, i, j) && self.pool@[j].tick == t,
            b == u32::MAX || exists|j: int| #[trigger]
                self.quotes_before(Side::Ask, i, j) && self.pool@[j].tick == b,
            ({
                let n = self.pool@[i];
                let live = n.seq != FREED_SEQ;
                &&& top == if live && n.spec_side() == Side::Bid && n.tick > t {
                    n.tick
                } else {
                    t
                }
                &&& bottom == if live && n.spec_side() == Side::Ask && n.tick < b {
                    n.tick
                } else {
                    b
                }
            }),
        ensures
            forall|j: int| #[trigger]
                self.quotes_before(Side::Bid, i + 1, j) ==> self.pool@[j].tick <= top,
            forall|j: int| #[trigger]
                self.quotes_before(Side::Ask, i + 1, j) ==> self.pool@[j].tick >= bottom,
            top == 0 || exists|j: int| #[trigger]
                self.quotes_before(Side::Bid, i + 1, j) && self.pool@[j].tick == top,
            bottom == u32::MAX || exists|j: int| #[trigger]
                self.quotes_before(Side::Ask, i + 1, j) && self.pool@[j].tick == bottom,
    {
        assert forall|j: int| #[trigger] self.quotes_before(Side::Bid, i + 1, j) implies
            self.pool@[j].tick <= top by {
            if j < i {
                assert(self.quotes_before(Side::Bid, i, j));
            }
        }
        assert forall|j: int| #[trigger] self.quotes_before(Side::Ask, i + 1, j) implies
            self.pool@[j].tick >= bottom by {
            if j < i {
                assert(self.quotes_before(Side::Ask, i, j));
            }
        }
        if top != 0 {
            if top == t {
                let j = choose|j: int| #[trigger]
                    self.quotes_before(Side::Bid, i, j) && self.pool@[j].tick == t;
                assert(self.quotes_before(Side::Bid, i + 1, j));
            } else {
                assert(self.quotes_before(Side::Bid, i + 1, i));
            }
        }
        if bottom != u32::MAX {
            if bottom == b {
                let j = choose|j: int| #[trigger]
                    self.quotes_before(Side::Ask, i, j) && self.pool@[j].tick == b;
                assert(self.quotes_before(Side::Ask, i + 1, j));
            } else {
                assert(self.quotes_before(Side::Ask, i + 1, i));
            }
        }
    }

    /// The highest bid is below the lowest ask exactly when every bid is below
    /// every ask.
    proof fn lemma_separated(&self, n: int, top: u32, bottom: u32)
        requires
            self.pool@.len() <= MAX_POOL_CAPACITY,
            n >= self.pool@.len(),
            forall|j: int| #[trigger]
                self.quotes_before(Side::Bid, n, j) ==> self.pool@[j].tick <= top,
            forall|j: int| #[trigger]
                self.quotes_before(Side::Ask, n, j) ==> self.pool@[j].tick >= bottom,
            top == 0 || exists|j: int| #[trigger]
                self.quotes_before(Side::Bid, n, j) && self.pool@[j].tick == top,
            bottom == u32::MAX || exists|j: int| #[trigger]
                self.quotes_before(Side::Ask, n, j) && self.pool@[j].tick == bottom,
            top < u32::MAX,
            bottom > 0,
        ensures
            self@.uncrossed() == (top < bottom),
    {
        reveal(BookView::uncrossed);
        if top < bottom {
            assert forall|i: u16, j: u16|
                #![trigger self@.orders[i], self@.orders[j]]
                self@.orders.contains_key(i) && self@.orders.contains_key(j)
                    && self@.orders[i].side == Side::Bid && self@.orders[j].side
                    == Side::Ask implies self@.orders[i].tick < self@.orders[j].tick by {
                assert(self.quotes_before(Side::Bid, n, i as int));
                assert(self.quotes_before(Side::Ask, n, j as int));
            }
        } else {
            let i = choose|i: int| #[trigger]
                self.quotes_before(Side::Bid, n, i) && self.pool@[i].tick == top;
            let j = choose|j: int| #[trigger]
                self.quotes_before(Side::Ask, n, j) && self.pool@[j].tick == bottom;
            let x = i as u16;
            let y = j as u16;
            assert(self@.orders.contains_key(x) && self@.orders.contains_key(y));
            assert(self@.orders[x].tick >= self@.orders[y].tick);
        }
    }
}

/// The lists that a book's links thread, whatever they are.
pub open spec fn lists_in(b: BookRefMut) -> Lists {
    Lists {
        free: free_in(b),
        fifos: Seq::new(8192, |s: int| queue(b, s)),
        chains: Seq::new(128, |s: int| orders(b, s)),
    }
}

/// All regions of a book agree.
pub open spec fn agrees(b: BookRefMut) -> bool {
    &&& b.sized()
    &&& params_ok(b.header)
    &&& b.bid_bitmap.wf()
    &&& b.ask_bitmap.wf()
    &&& forall|s: int| 0 <= s < 8192 ==> #[trigger] slot_holds(b, s)
    &&& forall|s: int| 0 <= s < 128 ==> #[trigger] seat_holds(b, s)
    &&& free_holds(b)
    &&& covered(b)
    &&& b@.uncrossed()
}

/// A well-formed book agrees with itself, and its lists are those that its
/// links thread.
pub proof fn lemma_wf_agrees(b: BookRefMut)
    requires
        b.wf(),
    ensures
        agrees(b),
        b.lists@ == lists_in(b),
{
    lemma_linked(b);
    assert forall|s: int| 0 <= s < 8192 implies #[trigger] slot_holds(b, s) by {
        assert(b.fifo(s));
        assert(queue(b, s) == b.lists@.fifos[s]);
    }
    assert forall|s: int| 0 <= s < 128 implies #[trigger] seat_holds(b, s) by {
        assert(b.chain(s));
        assert(orders(b, s) == b.lists@.chains[s]);
        lemma_needs(b, s, true);
        lemma_needs(b, s, false);
        assert(b@.surplus(s, true) >= 0);
        assert(b@.surplus(s, false) >= 0);
        assert(b@.vacant_ok());
        assert(b@.seats[s].owner == b.seats@[s].owner);
    }
    lemma_list(b.pool@, false, b.lists@.free);
    assert forall|i: u16| 1 <= i < b.pool@.len() implies #[trigger] node_covered(b, i) by {
        if b.pool@[i as int].seq != FREED_SEQ {
            assert(b@.orders.contains_key(i));
            assert(b@.order_ok(i));
            let t = slot(b@.orders[i].tick);
            assert(queue(b, t) == b.lists@.fifos[t]);
            let m = b@.orders[i].maker as int;
            assert(orders(b, m) == b.lists@.chains[m]);
        } else {
            assert(!b@.orders.contains_key(i));
        }
    }
    assert forall|s: int| 0 <= s < 8192 implies b.lists@.fifos[s] == lists_in(b).fifos[s] by {
        assert(queue(b, s) == b.lists@.fifos[s]);
    }
    assert forall|s: int| 0 <= s < 128 implies b.lists@.chains[s] == lists_in(b).chains[s] by {
        assert(orders(b, s) == b.lists@.chains[s]);
    }
    assert(b.lists@ =~= lists_in(b));
}

/// What the orders of a seat need, told from its chain.
proof fn lemma_needs(b: BookRefMut, s: int, base: bool)
    requires
        b.lists@.chains.len() == 128,
        0 <= s < 128,
        b.chain(s),
        orders(b, s) == b.lists@.chains[s],
    ensures
        b@.needed(s, base) == total(orders(b, s), locks_by(b.header, b.pool@, base)),
{
    let p = b.pool@;
    let c = b.lists@.chains[s];
    assert forall|k: int| 0 <= k < c.len() implies b@.locks(base)(#[trigger] c[k]) == locks_by(
        b.header,
        p,
        base,
    )(c[k]) by {
        assert(0 < c[k] < p.len());
        assert(p[c[k] as int].seq != FREED_SEQ);
        assert(b@.orders.contains_key(c[k]));
    }
    lemma_total_agree(c, b@.locks(base), locks_by(b.header, p, base));
}

/// Every live node of an agreeing book rests on its queue and its chain.
proof fn lemma_rests(b: BookRefMut, i: u16)
    requires
        agrees(b),
        b.lists@ == lists_in(b),
        b@.orders.contains_key(i),
    ensures
        b@.order_ok(i),
{
    assert(node_covered(b, i));
    let s = choose|s: int| 0 <= s < 8192 && (#[trigger] queue(b, s)).contains(i);
    assert(slot_holds(b, s));
    let k = queue(b, s).index_of(i);
    assert(queue(b, s)[k] == i);
    let t = choose|t: int| 0 <= t < 128 && (#[trigger] orders(b, t)).contains(i);
    assert(seat_holds(b, t));
    let j = orders(b, t).index_of(i);
    assert(orders(b, t)[j] == i);
}

/// A book whose regions agree, with the lists that its links thread, is
/// well-formed.
pub proof fn lemma_agrees_wf(b: BookRefMut)
    requires
        agrees(b),
        b.lists@ == lists_in(b),
    ensures
        b.wf(),
{
    let v = b@;
    assert forall|s: int| 0 <= s < 8192 implies #[trigger] b.fifo(s) by {
        assert(slot_holds(b, s));
    }
    assert forall|s: int| 0 <= s < 128 implies #[trigger] b.chain(s) by {
        assert(seat_holds(b, s));
    }
    assert(b.links_ok());
    assert forall|i: u16| v.orders.contains_key(i) implies #[trigger] v.order_ok(i) by {
        lemma_rests(b, i);
    }
    assert forall|s: int| 0 <= s < 8192 implies #[trigger] v.queue_ok(s) by {
        assert(slot_holds(b, s));
        let q = v.queues[s];
        assert forall|k: int| 0 <= k < q.len() implies v.orders.contains_key(#[trigger] q[k])
            && slot(v.orders[q[k]].tick) == s by {
            assert(0 < q[k] < b.pool@.len());
            assert(resting(
                b.pool@[q[k] as int],
                b.header.anchor_tick,
                b.header.max_lots_per_order,
                s,
            ));
        }
    }
    assert forall|s: int| 0 <= s < 128 implies #[trigger] v.chain_ok(s) by {
        assert(seat_holds(b, s));
        let c = v.chains[s];
        assert forall|k: int| 0 <= k < c.len() implies v.orders.contains_key(#[trigger] c[k])
            && v.orders[c[k]].maker == s by {
            assert(0 < c[k] < b.pool@.len());
        }
        assert forall|k: int, m: int| 0 <= k < m < c.len() implies v.orders[#[trigger] c[k]].key()
            < v.orders[#[trigger] c[m]].key() by {
            assert(key_of(b.pool@[c[k] as int]) < key_of(b.pool@[c[m] as int]));
            assert(v.orders.contains_key(c[k]) && v.orders.contains_key(c[m]));
        }
    }
    assert(v.free_ok()) by {
        assert forall|i: u16| #[trigger] v.free.contains(i) <==> (1 <= i
            < v.header.order_pool_capacity && !v.orders.contains_key(i)) by {
            if v.free.contains(i) {
                let k = v.free.index_of(i);
                assert(v.free[k] == i);
            }
            if 1 <= i < v.header.order_pool_capacity {
                assert(node_covered(b, i));
            }
        }
    }
    assert(v.vacant_ok()) by {
        assert forall|s: int| 0 <= s < 128 && no_owner((#[trigger] v.seats[s]).owner@) implies
            v.chains[s].len() == 0 by {
            assert(seat_holds(b, s));
        }
    }
    assert forall|s: int, base: bool| 0 <= s < 128 implies #[trigger] v.surplus(s, base)
        >= 0 by {
        assert(b.chain(s));
        assert(seat_holds(b, s));
        lemma_needs(b, s, base);
    }
}

/// What all seats hold of one asset, the fees included, stays within what a
/// mint can issue.
fn supply_holds(b: &BookRefMut) -> (r: bool)
    requires
        b.sized(),
    ensures
        r == b@.solvent(),
{
    let mut base: u128 = 0;
    let mut quote: u128 = 0;
    let mut s: usize = 0;
    assert(b.seats@.take(0) =~= Seq::<Seat>::empty());
    while s < 128
        invariant
            b.sized(),
            s <= 128,
            base == total_held(b.seats@.take(s as int), true),
            quote == total_held(b.seats@.take(s as int), false),
            base <= s * 0x2_0000_0000_0000_0000,
            quote <= s * 0x2_0000_0000_0000_0000,
        decreases 128 - s,
    {
        let seat: &Seat = &b.seats[s];
        assert(b.seats@.take(s + 1).drop_last() =~= b.seats@.take(s as int));
        base = base + seat.base_free() as u128 + seat.base_locked() as u128;
        quote = quote + seat.quote_free() as u128 + seat.quote_locked() as u128;
        s = s + 1;
    }
    proof {
        assert(b.seats@.take(128) =~= b.seats@);
        assert forall|t: int| 0 <= t < b.seats@.len() implies #[trigger] held(b@.seats[t], true)
            == held(b.seats@[t], true) && held(b@.seats[t], false) == held(
            b.seats@[t],
            false,
        ) by {}
        lemma_same_totals(b.seats@, b@.seats, true);
        lemma_same_totals(b.seats@, b@.seats, false);
    }
    base <= u64::MAX as u128 && quote + b.header.fees_accrued_quote() as u128 <= u64::MAX as u128
}

/// A market that every instruction can work on.
pub open spec fn usable(b: BookRefMut) -> bool {
    b.wf() && market_ok(b.header) && b@.solvent()
}

/// Whether all regions agree, the terms hold and the supply does.
fn passes(b: &BookRefMut) -> (r: bool)
    requires
        b.sized(),
    ensures
        r == (agrees(*b) && market_ok(b.header) && b@.solvent()),
{
    if !terms_hold(&b.header) || !summary_holds(&b.bid_bitmap) || !summary_holds(&b.ask_bitmap) {
        return false;
    }
    let queued: Vec<bool> = match b.inspect_slots() {
        Some(m) => m,
        None => {
            return false;
        },
    };
    let chained: Vec<bool> = match b.inspect_seats() {
        Some(m) => m,
        None => {
            return false;
        },
    };
    let freed: Vec<bool> = match b.inspect_free() {
        Some(m) => m,
        None => {
            return false;
        },
    };
    b.inspect_nodes(&queued, &chained, &freed) && supply_holds(b)
}

/// The lists of a book are no matter to what its regions say.
proof fn lemma_relisted(a: BookRefMut, b: BookRefMut)
    requires
        a.same_regions(b),
        agrees(b),
    ensures
        agrees(a),
        lists_in(a) == lists_in(b),
{
    assert forall|s: int| 0 <= s < 8192 implies #[trigger] slot_holds(a, s) by {
        assert(slot_holds(b, s));
    }
    assert forall|s: int| 0 <= s < 128 implies #[trigger] seat_holds(a, s) by {
        assert(seat_holds(b, s));
    }
    assert forall|s: int| #[trigger] queue(a, s) == queue(b, s) by {}
    assert forall|s: int| #[trigger] orders(a, s) == orders(b, s) by {}
    assert forall|i: u16| 1 <= i < a.pool@.len() implies #[trigger] node_covered(a, i) by {
        assert(node_covered(b, i));
        if queued_in(b, 8192, i) {
            let s = choose|s: int| 0 <= s < 8192 && (#[trigger] queue(b, s)).contains(i);
            assert(queue(a, s).contains(i));
        }
        if chained_in(b, 128, i) {
            let s = choose|s: int| 0 <= s < 128 && (#[trigger] orders(b, s)).contains(i);
            assert(orders(a, s).contains(i));
        }
    }
    reveal(BookView::uncrossed);
    assert(a@.orders == b@.orders);
    assert(lists_in(a) =~= lists_in(b));
}

/// A book carved out of bytes, whose regions agree, is well-formed.
proof fn lemma_carved(b: BookRefMut)
    requires
        agrees(b),
        b.lists@ == lists_of(b),
    ensures
        b.wf(),
{
    let x = b.with_lists(lists_in(b));
    lemma_relisted(x, b);
    lemma_agrees_wf(x);
    let c = b.with_lists(no_lists());
    assert(c.with_lists(lists_in(b)) == x);
    assert(linked_by(c, lists_in(b)));
    let y = c.with_lists(lists_of(b));
    assert(y.links_ok());
    lemma_links_transfer(b, y);
    lemma_lists_unique(b, x);
    lemma_agrees_wf(b);
}

impl BookRefMut {
    /// Carve a book out of account bytes, if they are those of a market that
    /// every instruction can work on.
    pub fn load(data: &[u8]) -> (r: Option<BookRefMut>)
        ensures
            match r {
                Some(b) => usable(b) && b.bytes() == data@,
                None => forall|b: BookRefMut| b.bytes() == data@ ==> !#[trigger] usable(b),
            },
    {
        let ghost s = data@;
        assert(data@.len() == data.len());
        if data.len() < 143712 {
            proof {
                assert forall|b: BookRefMut| b.bytes() == s implies !#[trigger] usable(b) by {
                    if usable(b) {
                        lemma_bytes_len(b);
                    }
                }
            }
            return None;
        }
        let capacity: u32 = read32(data, 256);
        if data.len() as u64 != 143712 + 30 * capacity as u64 {
            proof {
                assert forall|b: BookRefMut| b.bytes() == s implies !#[trigger] usable(b) by {
                    if usable(b) {
                        lemma_bytes_len(b);
                        lemma_header_bytes(b);
                    }
                }
            }
            return None;
        }
        let book: BookRefMut = BookRefMut::from_bytes_unchecked_mut(data);
        if passes(&book) {
            proof {
                lemma_carved(book);
            }
            Some(book)
        } else {
            proof {
                assert forall|b: BookRefMut| b.bytes() == s implies !#[trigger] usable(b) by {
                    if usable(b) {
                        lemma_reload(b, book);
                        lemma_wf_agrees(book);
                    }
                }
            }
            None
        }
    }
}

} // verus!
