//! The book: its regions, what makes them consistent, and the list surgery
//! that every operation is made of.

use crate::bitmap::{slot_of, Bitmap};
use crate::constants::{FREED_SEQ, NIL, WINDOW_MASK};
use crate::errors::{clob, fail, ClobError, ProgramError};
use crate::level::Level;
use crate::lists::{
    at,
    back,
    fwd,
    in_pool,
    lemma_in_pool_len,
    lemma_link,
    lemma_threads_frame,
    lemma_total_agree,
    lemma_total_bound,
    lemma_total_insert,
    lemma_total_remove,
    lemma_unlink,
    threads,
    total,
    without,
};
use crate::market::{lemma_wrapping, wrapping, Market};
use crate::model::{key, BookView, Order};
use crate::node::OrderNode;
use crate::seat::Seat;
use crate::side::Side;
use vstd::prelude::*;

verus! {

/// The lists that the pool threads.
#[verifier::ext_equal]
pub struct Lists {
    /// Free nodes, the next one to hand out first.
    pub free: Seq<u16>,
    /// Queue of each ring slot, oldest order first.
    pub fifos: Seq<Seq<u16>>,
    /// Order chain of each seat, bids before asks, ascending ticks.
    pub chains: Seq<Seq<u16>>,
}

/// A whole market, carved once per instruction. Matching works on these plain
/// values alone; the current slot is passed in.
pub struct BookRefMut {
    pub header: Market,
    pub bid_bitmap: Bitmap,
    pub ask_bitmap: Bitmap,
    pub levels: Vec<Level>,
    pub seats: Vec<Seat>,
    pub pool: Vec<OrderNode>,
    pub lists: Ghost<Lists>,
}

pub open spec fn lots_by(p: Seq<OrderNode>) -> spec_fn(u16) -> int {
    |i: u16| p[i as int].lots as int
}

pub open spec fn key_of(n: OrderNode) -> int {
    key(n.spec_side(), n.tick)
}

/// A live node that may rest on ring slot `s` of the window that starts at
/// `lo`, with at most `cap` lots.
pub open spec fn resting(n: OrderNode, lo: u32, cap: u32, s: int) -> bool {
    &&& n.seq != FREED_SEQ
    &&& n.tick % 8192 == s
    &&& lo <= n.tick <= lo + 8191
    &&& 1 <= n.lots <= cap
}

/// Ring slot `s`: its level, its two occupancy bits and its queue agree.
pub open spec fn fifo_ok(
    p: Seq<OrderNode>,
    lo: u32,
    cap: u32,
    lv: Level,
    bid: bool,
    ask: bool,
    q: Seq<u16>,
    s: int,
) -> bool {
    &&& threads(p, false, q)
    &&& lv.head == at(q, 0)
    &&& lv.tail == at(q, q.len() - 1)
    &&& lv.total_lots == total(q, lots_by(p))
    &&& forall|k: int| 0 <= k < q.len() ==> resting(p[(#[trigger] q[k]) as int], lo, cap, s)
    &&& forall|k: int|
        0 <= k < q.len() ==> (p[(#[trigger] q[k]) as int].spec_side() == if bid {
            Side::Bid
        } else {
            Side::Ask
        })
    &&& !(bid && ask)
    &&& (bid || ask) == (q.len() > 0)
}

/// Seat `s`: its record and its order chain agree.
pub open spec fn chain_ok(p: Seq<OrderNode>, seat: Seat, c: Seq<u16>, s: int) -> bool {
    &&& threads(p, true, c)
    &&& seat.orders_head == at(c, 0)
    &&& seat.order_count == c.len()
    &&& forall|k: int|
        0 <= k < c.len() ==> p[(#[trigger] c[k]) as int].seq != FREED_SEQ
            && p[c[k] as int].spec_maker() == s
    &&& forall|k: int, m: int|
        0 <= k < m < c.len() ==> key_of(p[(#[trigger] c[k]) as int]) < key_of(
            p[(#[trigger] c[m]) as int],
        )
}

/// The free list: freed nodes threaded through `next`.
pub open spec fn free_ok(p: Seq<OrderNode>, head: u16, count: u32, free: Seq<u16>) -> bool {
    &&& in_pool(p, free)
    &&& head == at(free, 0)
    &&& count == free.len()
    &&& forall|k: int|
        0 <= k < free.len() ==> p[(#[trigger] free[k]) as int].seq == FREED_SEQ
            && p[free[k] as int].next == at(free, k + 1)
}

/// `b` is `a` but for its queue links.
pub open spec fn same_but_queue(a: OrderNode, b: OrderNode) -> bool {
    b == (OrderNode { prev: b.prev, next: b.next, ..a })
}

/// `a` and `b` are alike in what a queue depends on.
pub open spec fn same_in_queue(a: OrderNode, b: OrderNode) -> bool {
    &&& b.prev == a.prev
    &&& b.next == a.next
    &&& b.tick == a.tick
    &&& b.maker_and_side == a.maker_and_side
    &&& b.lots == a.lots
    &&& b.seq == a.seq
}

/// `b` is `a` but for its chain links.
pub open spec fn same_but_chain(a: OrderNode, b: OrderNode) -> bool {
    b == (OrderNode { maker_prev: b.maker_prev, maker_next: b.maker_next, ..a })
}

/// `b` is `a` but for its chain head and its order count.
pub open spec fn same_but_orders(a: Seat, b: Seat) -> bool {
    b == (Seat { orders_head: b.orders_head, order_count: b.order_count, ..a })
}

pub proof fn lemma_fifo_frame(
    p: Seq<OrderNode>,
    p2: Seq<OrderNode>,
    lo: u32,
    cap: u32,
    lv: Level,
    bid: bool,
    ask: bool,
    q: Seq<u16>,
    s: int,
)
    requires
        fifo_ok(p, lo, cap, lv, bid, ask, q, s),
        p2.len() == p.len(),
        forall|k: int|
            0 <= k < q.len() ==> same_in_queue(p[q[k] as int], p2[(#[trigger] q[k]) as int]),
    ensures
        fifo_ok(p2, lo, cap, lv, bid, ask, q, s),
{
    lemma_threads_frame(p, p2, false, q);
    lemma_total_agree(q, lots_by(p), lots_by(p2));
}

pub proof fn lemma_chain_frame(
    p: Seq<OrderNode>,
    p2: Seq<OrderNode>,
    seat: Seat,
    seat2: Seat,
    c: Seq<u16>,
    s: int,
)
    requires
        chain_ok(p, seat, c, s),
        p2.len() == p.len(),
        seat2.orders_head == seat.orders_head,
        seat2.order_count == seat.order_count,
        forall|k: int|
            0 <= k < c.len() ==> ({
                let a = p[(#[trigger] c[k]) as int];
                let b = p2[c[k] as int];
                &&& b.maker_prev == a.maker_prev
                &&& b.maker_next == a.maker_next
                &&& b.tick == a.tick
                &&& b.maker_and_side == a.maker_and_side
                &&& b.seq == a.seq
            }),
    ensures
        chain_ok(p2, seat2, c, s),
{
    lemma_threads_frame(p, p2, true, c);
}

/// A queue after the node at position `k` was unlinked.
#[verifier::rlimit(30)]
proof fn lemma_fifo_unlinked(
    p: Seq<OrderNode>,
    p2: Seq<OrderNode>,
    lo: u32,
    cap: u32,
    lv: Level,
    lv2: Level,
    bid: bool,
    ask: bool,
    q: Seq<u16>,
    k: int,
    s: int,
)
    requires
        fifo_ok(p, lo, cap, lv, bid, ask, q, s),
        0 <= k < q.len(),
        p2.len() == p.len(),
        forall|j: int|
            0 <= j < p.len() ==> #[trigger] p2[j] == (OrderNode {
                next: if k > 0 && j == q[k - 1] {
                    at(q, k + 1)
                } else {
                    p[j].next
                },
                prev: if k + 1 < q.len() && j == q[k + 1] {
                    at(q, k - 1)
                } else {
                    p[j].prev
                },
                ..p[j]
            }),
        lv2.head == (if k == 0 {
            at(q, 1)
        } else {
            lv.head
        }),
        lv2.tail == (if k + 1 == q.len() {
            at(q, k - 1)
        } else {
            lv.tail
        }),
        q.len() == 1 ==> lv2.total_lots == 0,
        q.len() > 1 ==> lv2.total_lots == wrapping(lv.total_lots - p[q[k] as int].lots),
    ensures
        fifo_ok(p2, lo, cap, lv2, bid && q.len() > 1, ask && q.len() > 1, without(q, q[k]), s),
{
    let r = q.remove(k);
    assert forall|j: int|
        0 <= j < q.len() && j != k implies fwd(p2, false, #[trigger] q[j]) == (if j == k - 1 {
        at(q, k + 1)
    } else {
        fwd(p, false, q[j])
    }) && back(p2, false, q[j]) == (if j == k + 1 {
        at(q, k - 1)
    } else {
        back(p, false, q[j])
    }) by {
        if k > 0 && j != k - 1 {
            assert(q[j] != q[k - 1]);
        }
        if k + 1 < q.len() && j != k + 1 {
            assert(q[j] != q[k + 1]);
        }
    }
    lemma_unlink(p, p2, false, q, k);
    lemma_total_remove(q, k, lots_by(p));
    assert forall|m: int| 0 <= m < r.len() implies resting(
        p2[(#[trigger] r[m]) as int],
        lo,
        cap,
        s,
    ) && p2[r[m] as int].spec_side() == (if bid {
        Side::Bid
    } else {
        Side::Ask
    }) && p2[r[m] as int].lots == p[r[m] as int].lots by {
        let n = if m < k {
            m
        } else {
            m + 1
        };
        assert(r[m] == q[n]);
    }
    lemma_total_agree(r, lots_by(p), lots_by(p2));
    lemma_in_pool_len(p, q);
    lemma_total_bound(q, lots_by(p), u32::MAX as int);
    lemma_in_pool_len(p2, r);
    lemma_total_bound(r, lots_by(p2), u32::MAX as int);
    lemma_wrapping(total(r, lots_by(p2)));
}

/// A queue after node `i` was appended.
#[verifier::rlimit(30)]
proof fn lemma_fifo_appended(
    p: Seq<OrderNode>,
    p2: Seq<OrderNode>,
    lo: u32,
    cap: u32,
    lv: Level,
    lv2: Level,
    bid: bool,
    ask: bool,
    q: Seq<u16>,
    i: u16,
    s: int,
)
    requires
        fifo_ok(p, lo, cap, lv, bid, ask, q, s),
        0 < i < p.len(),
        !q.contains(i),
        p2.len() == p.len(),
        forall|j: int|
            0 <= j < p.len() ==> #[trigger] p2[j] == (OrderNode {
                next: if j == i {
                    0
                } else if q.len() > 0 && j == q.last() {
                    i
                } else {
                    p[j].next
                },
                prev: if j == i {
                    at(q, q.len() - 1)
                } else {
                    p[j].prev
                },
                ..p[j]
            }),
        resting(p[i as int], lo, cap, s),
        bid ==> p[i as int].spec_side() == Side::Bid,
        ask ==> p[i as int].spec_side() == Side::Ask,
        lv2.head == (if q.len() == 0 {
            i
        } else {
            lv.head
        }),
        lv2.tail == i,
        lv2.total_lots == wrapping(lv.total_lots + p[i as int].lots),
    ensures
        fifo_ok(
            p2,
            lo,
            cap,
            lv2,
            p[i as int].spec_side() == Side::Bid,
            p[i as int].spec_side() == Side::Ask,
            q.push(i),
            s,
        ),
{
    let r = q.push(i);
    assert(r =~= q.insert(q.len() as int, i));
    assert forall|j: int| 0 <= j < q.len() implies fwd(p2, false, #[trigger] q[j]) == (if j
        == q.len() - 1 {
        i
    } else {
        fwd(p, false, q[j])
    }) && back(p2, false, q[j]) == back(p, false, q[j]) by {
        assert(q.contains(q[j]));
    }
    lemma_link(p, p2, false, q, q.len() as int, i);
    lemma_total_insert(q, q.len() as int, i, lots_by(p));
    assert forall|m: int| 0 <= m < r.len() implies resting(
        p2[(#[trigger] r[m]) as int],
        lo,
        cap,
        s,
    ) && p2[r[m] as int].spec_side() == p[i as int].spec_side() && p2[r[m] as int].lots
        == p[r[m] as int].lots by {
        if m < q.len() {
            assert(r[m] == q[m]);
        }
    }
    lemma_total_agree(r, lots_by(p), lots_by(p2));
    lemma_in_pool_len(p2, r);
    lemma_total_bound(r, lots_by(p2), u32::MAX as int);
    lemma_wrapping(total(r, lots_by(p2)));
}

/// A queue after `diff` lots left the node at position `k`.
pub proof fn lemma_fifo_resized(
    p: Seq<OrderNode>,
    p2: Seq<OrderNode>,
    lo: u32,
    cap: u32,
    lv: Level,
    lv2: Level,
    bid: bool,
    ask: bool,
    q: Seq<u16>,
    k: int,
    lots: u32,
    s: int,
)
    requires
        fifo_ok(p, lo, cap, lv, bid, ask, q, s),
        0 <= k < q.len(),
        1 <= lots <= p[q[k] as int].lots,
        p2 == p.update(q[k] as int, OrderNode { lots, ..p[q[k] as int] }),
        lv2 == (Level {
            total_lots: wrapping(lv.total_lots - (p[q[k] as int].lots - lots)),
            ..lv
        }),
    ensures
        fifo_ok(p2, lo, cap, lv2, bid, ask, q, s),
{
    lemma_threads_frame(p, p2, false, q);
    lemma_total_remove(q, k, lots_by(p));
    lemma_total_remove(q, k, lots_by(p2));
    let r = q.remove(k);
    assert forall|m: int| 0 <= m < r.len() implies lots_by(p)(#[trigger] r[m]) == lots_by(p2)(
        r[m],
    ) by {
        let n = if m < k {
            m
        } else {
            m + 1
        };
        assert(r[m] == q[n]);
        assert(q[n] != q[k]);
    }
    lemma_total_agree(r, lots_by(p), lots_by(p2));
    lemma_in_pool_len(p2, q);
    lemma_total_bound(q, lots_by(p2), u32::MAX as int);
    lemma_wrapping(total(q, lots_by(p2)));
}

/// A chain after the node at position `k` was unlinked.
proof fn lemma_chain_unlinked(
    p: Seq<OrderNode>,
    p2: Seq<OrderNode>,
    seat: Seat,
    seat2: Seat,
    c: Seq<u16>,
    k: int,
    s: int,
)
    requires
        chain_ok(p, seat, c, s),
        0 <= k < c.len(),
        p2.len() == p.len(),
        forall|j: int|
            0 <= j < p.len() && j != c[k] ==> #[trigger] p2[j] == (OrderNode {
                maker_next: if k > 0 && j == c[k - 1] {
                    at(c, k + 1)
                } else {
                    p[j].maker_next
                },
                maker_prev: if k + 1 < c.len() && j == c[k + 1] {
                    at(c, k - 1)
                } else {
                    p[j].maker_prev
                },
                ..p[j]
            }),
        seat2.orders_head == (if k == 0 {
            at(c, 1)
        } else {
            seat.orders_head
        }),
        seat2.order_count == seat.order_count - 1,
    ensures
        chain_ok(p2, seat2, without(c, c[k]), s),
{
    let r = c.remove(k);
    assert forall|j: int|
        0 <= j < c.len() && j != k implies fwd(p2, true, #[trigger] c[j]) == (if j == k - 1 {
        at(c, k + 1)
    } else {
        fwd(p, true, c[j])
    }) && back(p2, true, c[j]) == (if j == k + 1 {
        at(c, k - 1)
    } else {
        back(p, true, c[j])
    }) by {
        assert(c[j] != c[k]);
        if k > 0 && j != k - 1 {
            assert(c[j] != c[k - 1]);
        }
        if k + 1 < c.len() && j != k + 1 {
            assert(c[j] != c[k + 1]);
        }
    }
    lemma_unlink(p, p2, true, c, k);
    assert forall|m: int| 0 <= m < r.len() implies ({
        let a = p[(#[trigger] r[m]) as int];
        let b = p2[r[m] as int];
        r[m] == c[if m < k {
            m
        } else {
            m + 1
        }] && b.seq == a.seq && b.maker_and_side == a.maker_and_side && b.tick == a.tick
    }) by {
        let n = if m < k {
            m
        } else {
            m + 1
        };
        assert(r[m] == c[n]);
        assert(c[n] != c[k]);
    }
}

/// A chain after node `i` was spliced in at position `k`.
#[verifier::rlimit(30)]
proof fn lemma_chain_spliced(
    p: Seq<OrderNode>,
    p2: Seq<OrderNode>,
    seat: Seat,
    seat2: Seat,
    c: Seq<u16>,
    k: int,
    i: u16,
    s: int,
)
    requires
        chain_ok(p, seat, c, s),
        0 <= k <= c.len(),
        0 < i < p.len(),
        !c.contains(i),
        p2.len() == p.len(),
        forall|j: int|
            0 <= j < p.len() ==> #[trigger] p2[j] == (OrderNode {
                maker_next: if j == i {
                    at(c, k)
                } else if k > 0 && j == c[k - 1] {
                    i
                } else {
                    p[j].maker_next
                },
                maker_prev: if j == i {
                    at(c, k - 1)
                } else if k < c.len() && j == c[k] {
                    i
                } else {
                    p[j].maker_prev
                },
                ..p[j]
            }),
        p[i as int].seq != FREED_SEQ,
        p[i as int].spec_maker() == s,
        k > 0 ==> key_of(p[c[k - 1] as int]) < key_of(p[i as int]),
        k < c.len() ==> key_of(p[i as int]) < key_of(p[c[k] as int]),
        seat2.orders_head == (if k == 0 {
            i
        } else {
            seat.orders_head
        }),
        seat2.order_count == seat.order_count + 1,
    ensures
        chain_ok(p2, seat2, c.insert(k, i), s),
{
    let r = c.insert(k, i);
    assert forall|j: int| 0 <= j < c.len() implies fwd(p2, true, #[trigger] c[j]) == (if j == k
        - 1 {
        i
    } else {
        fwd(p, true, c[j])
    }) && back(p2, true, c[j]) == (if j == k {
        i
    } else {
        back(p, true, c[j])
    }) by {
        assert(c.contains(c[j]));
        if k > 0 && j != k - 1 {
            assert(c[j] != c[k - 1]);
        }
        if k < c.len() && j != k {
            assert(c[j] != c[k]);
        }
    }
    lemma_link(p, p2, true, c, k, i);
    assert(forall|m: int| 0 <= m < k ==> r[m] == c[m]);
    assert(forall|m: int| k < m < r.len() ==> r[m] == c[m - 1]);
    assert forall|m: int, n: int| 0 <= m < n < r.len() implies key_of(
        p2[(#[trigger] r[m]) as int],
    ) < key_of(p2[(#[trigger] r[n]) as int]) by {
        if m < k {
            assert(r[m] == c[m]);
            assert(m < k - 1 ==> key_of(p[c[m] as int]) < key_of(p[c[k - 1] as int]));
        }
        if n > k {
            assert(r[n] == c[n - 1]);
            assert(k < n - 1 ==> key_of(p[c[k] as int]) < key_of(p[c[n - 1] as int]));
        }
        if m > k {
            assert(r[m] == c[m - 1]);
        }
        if n < k {
            assert(r[n] == c[n]);
        }
    }
}

/// The order that a live node carries.
pub open spec fn order_of(n: OrderNode) -> Order {
    Order {
        side: n.spec_side(),
        tick: n.tick,
        maker: n.spec_maker(),
        lots: n.lots,
        expiry_slot: n.expiry_slot,
        seq: n.seq,
    }
}

/// The live orders of a pool. Node 0 is reserved and a freed node carries
/// `FREED_SEQ`.
pub open spec fn orders_of(p: Seq<OrderNode>) -> Map<u16, Order> {
    Map::new(
        |i: u16| 1 <= i < p.len() && p[i as int].seq != FREED_SEQ,
        |i: u16| order_of(p[i as int]),
    )
}

/// A seat with its chain fields blanked.
pub open spec fn account_of(seat: Seat) -> Seat {
    Seat { orders_head: 0, order_count: 0, ..seat }
}

pub open spec fn accounts_of(seats: Seq<Seat>) -> Seq<Seat> {
    Seq::new(seats.len(), |s: int| account_of(seats[s]))
}

/// A header with its free-list fields blanked.
pub open spec fn terms_of(h: Market) -> Market {
    Market { free_head: 0, free_count: 0, ..h }
}

impl View for BookRefMut {
    type V = BookView;

    open spec fn view(&self) -> BookView {
        BookView {
            header: terms_of(self.header),
            orders: orders_of(self.pool@),
            queues: self.lists@.fifos,
            chains: self.lists@.chains,
            free: self.lists@.free,
            seats: accounts_of(self.seats@),
        }
    }
}

impl BookRefMut {
    /// Ring slot `s` is consistent.
    pub open spec fn fifo(&self, s: int) -> bool {
        fifo_ok(
            self.pool@,
            self.header.anchor_tick,
            self.header.max_lots_per_order,
            self.levels@[s],
            self.bid_bitmap.has(s),
            self.ask_bitmap.has(s),
            self.lists@.fifos[s],
            s,
        )
    }

    pub open spec fn fifos_ok(&self) -> bool {
        &&& self.levels@.len() == 8192
        &&& self.lists@.fifos.len() == 8192
        &&& self.bid_bitmap.wf()
        &&& self.ask_bitmap.wf()
        &&& forall|s: int| 0 <= s < 8192 ==> #[trigger] self.fifo(s)
    }

    /// The record of seat `s` is consistent with its chain.
    pub open spec fn chain(&self, s: int) -> bool {
        chain_ok(self.pool@, self.seats@[s], self.lists@.chains[s], s)
    }

    pub open spec fn chains_ok(&self) -> bool {
        &&& self.seats@.len() == 128
        &&& self.lists@.chains.len() == 128
        &&& forall|s: int| 0 <= s < 128 ==> #[trigger] self.chain(s)
    }

    pub open spec fn frees_ok(&self) -> bool {
        free_ok(self.pool@, self.header.free_head, self.header.free_count, self.lists@.free)
    }

    /// The regions of the account agree with the lists.
    pub open spec fn links_ok(&self) -> bool {
        &&& self.pool@.len() == self.header.order_pool_capacity
        &&& self.frees_ok()
        &&& self.fifos_ok()
        &&& self.chains_ok()
    }

    /// The invariant of every book.
    pub open spec fn wf(&self) -> bool {
        &&& self.links_ok()
        &&& self@.ok()
    }

    /// `wf`, as one fact.
    #[verifier::opaque]
    pub open spec fn sealed(&self) -> bool {
        self.wf()
    }

    /* Pool */

    pub(crate) fn alloc_node(&mut self) -> (r: Result<u16, ProgramError>)
        requires
            old(self).frees_ok(),
        ensures
            final(self).frees_ok(),
            old(self).lists@.free.len() == 0 ==> r == Err::<u16, ProgramError>(
                clob(ClobError::PoolFull),
            ) && *final(self) == *old(self),
            old(self).lists@.free.len() > 0 ==> r == Ok::<u16, ProgramError>(
                old(self).lists@.free[0],
            ) && *final(self) == (BookRefMut {
                header: Market {
                    free_head: final(self).header.free_head,
                    free_count: final(self).header.free_count,
                    ..old(self).header
                },
                lists: final(self).lists,
                ..*old(self)
            }) && final(self).lists@ == (Lists {
                free: old(self).lists@.free.skip(1),
                ..old(self).lists@
            }),
    {
        let idx: u16 = self.header.free_head();
        if idx == NIL {
            return fail(ClobError::PoolFull);
        }
        let next: u16 = self.pool[idx as usize].next();
        self.header.set_free_head(next);
        let count: u32 = self.header.free_count() - 1;
        self.header.set_free_count(count);
        proof {
            let free = self.lists@.free;
            self.lists@ = Lists { free: free.skip(1), ..self.lists@ };
            assert forall|k: int| 0 <= k < free.skip(1).len() implies 0 < #[trigger] free.skip(
                1,
            )[k] < self.pool@.len() && self.pool@[free.skip(1)[k] as int].seq == FREED_SEQ
                && self.pool@[free.skip(1)[k] as int].next == at(free.skip(1), k + 1) by {
                assert(free.skip(1)[k] == free[k + 1]);
            }
        }
        Ok(idx)
    }

    pub(crate) fn free_node(&mut self, idx: u16)
        requires
            old(self).frees_ok(),
            0 < idx < old(self).pool@.len(),
            !old(self).lists@.free.contains(idx),
        ensures
            final(self).frees_ok(),
            final(self).lists@ == (Lists {
                free: seq![idx] + old(self).lists@.free,
                ..old(self).lists@
            }),
            final(self).pool@ == old(self).pool@.update(
                idx as int,
                OrderNode {
                    next: old(self).header.free_head,
                    seq: FREED_SEQ,
                    lots: 0,
                    ..old(self).pool@[idx as int]
                },
            ),
            *final(self) == (BookRefMut {
                header: Market {
                    free_head: final(self).header.free_head,
                    free_count: final(self).header.free_count,
                    ..old(self).header
                },
                pool: final(self).pool,
                lists: final(self).lists,
                ..*old(self)
            }),
    {
        proof {
            lemma_in_pool_len(self.pool@, self.lists@.free);
        }
        let head: u16 = self.header.free_head();
        self.pool[idx as usize].set_next(head);
        self.pool[idx as usize].set_seq(FREED_SEQ);
        self.pool[idx as usize].set_lots(0);
        self.header.set_free_head(idx);
        let count: u32 = self.header.free_count() + 1;
        self.header.set_free_count(count);
        proof {
            let free = self.lists@.free;
            let g = seq![idx] + free;
            self.lists@ = Lists { free: g, ..self.lists@ };
            assert forall|k: int| 0 <= k < g.len() implies 0 < #[trigger] g[k] < self.pool@.len()
                && self.pool@[g[k] as int].seq == FREED_SEQ && self.pool@[g[k] as int].next == at(
                g,
                k + 1,
            ) by {
                if k > 0 {
                    assert(g[k] == free[k - 1]);
                    assert(free.contains(free[k - 1]));
                }
            }
            assert(g.no_duplicates()) by {
                assert forall|a: int, b: int|
                    0 <= a < g.len() && 0 <= b < g.len() && a != b implies g[a] != g[b] by {
                    if a > 0 {
                        assert(free.contains(free[a - 1]));
                    }
                    if b > 0 {
                        assert(free.contains(free[b - 1]));
                    }
                }
            }
        }
    }

    /* Level queues */

    /// Unlink a live node from its level queue, updating the level total and
    /// zeroing the level if it empties. Touches neither the seat chain nor
    /// funds.
    #[verifier::rlimit(40)]
    pub(crate) fn fifo_unlink(&mut self, side: Side, idx: u16)
        requires
            old(self).fifos_ok(),
            0 < idx < old(self).pool@.len(),
            side == old(self).pool@[idx as int].spec_side(),
            old(self).lists@.fifos[slot_of(old(self).pool@[idx as int].tick)].contains(idx),
        ensures
            final(self).fifos_ok(),
            ({
                let s = slot_of(old(self).pool@[idx as int].tick);
                let q = old(self).lists@.fifos[s];
                &&& final(self).lists@ == (Lists {
                    fifos: old(self).lists@.fifos.update(s, without(q, idx)),
                    ..old(self).lists@
                })
                &&& final(self).pool@.len() == old(self).pool@.len()
                &&& final(self).pool@[idx as int] == old(self).pool@[idx as int]
                &&& forall|j: int|
                    0 <= j < old(self).pool@.len() ==> same_but_queue(
                        old(self).pool@[j],
                        #[trigger] final(self).pool@[j],
                    )
                &&& forall|j: int|
                    0 <= j < old(self).pool@.len() && !q.contains(j as u16)
                        ==> #[trigger] final(self).pool@[j] == old(self).pool@[j]
            }),
            *final(self) == (BookRefMut {
                bid_bitmap: final(self).bid_bitmap,
                ask_bitmap: final(self).ask_bitmap,
                levels: final(self).levels,
                pool: final(self).pool,
                lists: final(self).lists,
                ..*old(self)
            }),
    {
        let tick: u32 = self.pool[idx as usize].tick();
        let prev: u16 = self.pool[idx as usize].prev();
        let next: u16 = self.pool[idx as usize].next();
        let lots: u32 = self.pool[idx as usize].lots();
        let lvl: usize = ring_slot(tick);
        let ghost s = lvl as int;
        let ghost q = self.lists@.fifos[s];
        let ghost k = q.index_of(idx);
        let ghost p = self.pool@;
        proof {
            assert(self.fifo(s));
            assert(q[k] == idx);
            if k > 0 {
                assert(q[k - 1] == prev);
            }
            if k + 1 < q.len() {
                assert(q[k + 1] == next);
            }
        }
        if prev != NIL {
            self.pool[prev as usize].set_next(next);
        } else {
            self.levels[lvl].set_head(next);
        }
        if next != NIL {
            self.pool[next as usize].set_prev(prev);
        } else {
            self.levels[lvl].set_tail(prev);
        }
        if self.levels[lvl].head() == NIL {
            self.levels[lvl].zero();
            match side {
                Side::Bid => self.bid_bitmap.clear(tick),
                Side::Ask => self.ask_bitmap.clear(tick),
            }
        } else {
            self.levels[lvl].sub_lots(lots);
        }
        proof {
            self.lists@ = Lists {
                fifos: self.lists@.fifos.update(s, without(q, idx)),
                ..self.lists@
            };
            lemma_fifo_unlinked(
                p,
                self.pool@,
                self.header.anchor_tick,
                self.header.max_lots_per_order,
                old(self).levels@[s],
                self.levels@[s],
                old(self).bid_bitmap.has(s),
                old(self).ask_bitmap.has(s),
                q,
                k,
                s,
            );
            assert forall|t: int| 0 <= t < 8192 && t != s implies #[trigger] self.fifo(t) by {
                assert(old(self).fifo(t));
                let u = old(self).lists@.fifos[t];
                assert forall|m: int|
                    0 <= m < u.len() implies self.pool@[(#[trigger] u[m]) as int] == p[u[m] as int] by {
                    assert(resting(
                        p[u[m] as int],
                        self.header.anchor_tick,
                        self.header.max_lots_per_order,
                        t,
                    ));
                    if q.contains(u[m]) {
                        assert(p[q[q.index_of(u[m])] as int].tick % 8192 == s);
                    }
                }
                lemma_fifo_frame(
                    p,
                    self.pool@,
                    self.header.anchor_tick,
                    self.header.max_lots_per_order,
                    self.levels@[t],
                    self.bid_bitmap.has(t),
                    self.ask_bitmap.has(t),
                    u,
                    t,
                );
            }
            assert(self.fifo(s));
        }
    }

    /// Append a live node to the tail of its level queue; sets the occupancy
    /// bit if the level was empty.
    #[verifier::rlimit(40)]
    pub(crate) fn fifo_append(&mut self, side: Side, tick: u32, idx: u16, lots: u32)
        requires
            old(self).fifos_ok(),
            0 < idx < old(self).pool@.len(),
            forall|s: int| 0 <= s < 8192 ==> !(#[trigger] old(self).lists@.fifos[s]).contains(idx),
            side == old(self).pool@[idx as int].spec_side(),
            tick == old(self).pool@[idx as int].tick,
            lots == old(self).pool@[idx as int].lots,
            resting(
                old(self).pool@[idx as int],
                old(self).header.anchor_tick,
                old(self).header.max_lots_per_order,
                slot_of(tick),
            ),
            match side {
                Side::Bid => !old(self).ask_bitmap.has(slot_of(tick)),
                Side::Ask => !old(self).bid_bitmap.has(slot_of(tick)),
            },
        ensures
            final(self).fifos_ok(),
            ({
                let s = slot_of(tick);
                let q = old(self).lists@.fifos[s];
                &&& final(self).lists@ == (Lists {
                    fifos: old(self).lists@.fifos.update(s, q.push(idx)),
                    ..old(self).lists@
                })
                &&& final(self).pool@.len() == old(self).pool@.len()
                &&& forall|j: int|
                    0 <= j < old(self).pool@.len() ==> same_but_queue(
                        old(self).pool@[j],
                        #[trigger] final(self).pool@[j],
                    )
                &&& forall|j: int|
                    0 <= j < old(self).pool@.len() && j != idx && !q.contains(j as u16)
                        ==> #[trigger] final(self).pool@[j] == old(self).pool@[j]
            }),
            *final(self) == (BookRefMut {
                bid_bitmap: if side == Side::Bid {
                    final(self).bid_bitmap
                } else {
                    old(self).bid_bitmap
                },
                ask_bitmap: if side == Side::Ask {
                    final(self).ask_bitmap
                } else {
                    old(self).ask_bitmap
                },
                levels: final(self).levels,
                pool: final(self).pool,
                lists: final(self).lists,
                ..*old(self)
            }),
    {
        let lvl: usize = ring_slot(tick);
        let ghost s = lvl as int;
        let ghost q = self.lists@.fifos[s];
        let ghost p = self.pool@;
        assert(self.fifo(s));
        let occupied: bool = match side {
            Side::Bid => self.bid_bitmap.get(tick),
            Side::Ask => self.ask_bitmap.get(tick),
        };
        if occupied {
            let tail: u16 = self.levels[lvl].tail();
            assert(q[q.len() - 1] == tail);
            assert(q.contains(q[q.len() - 1]));
            self.pool[tail as usize].set_next(idx);
            self.pool[idx as usize].set_prev(tail);
            self.pool[idx as usize].set_next(NIL);
            self.levels[lvl].set_tail(idx);
            self.levels[lvl].add_lots(lots);
        } else {
            assert(q.len() == 0);
            self.levels[lvl].set_head(idx);
            self.levels[lvl].set_tail(idx);
            self.levels[lvl].add_lots(lots);
            self.pool[idx as usize].set_prev(NIL);
            self.pool[idx as usize].set_next(NIL);
            match side {
                Side::Bid => self.bid_bitmap.set(tick),
                Side::Ask => self.ask_bitmap.set(tick),
            }
        }
        proof {
            self.lists@ = Lists { fifos: self.lists@.fifos.update(s, q.push(idx)), ..self.lists@ };
            lemma_fifo_appended(
                p,
                self.pool@,
                self.header.anchor_tick,
                self.header.max_lots_per_order,
                old(self).levels@[s],
                self.levels@[s],
                old(self).bid_bitmap.has(s),
                old(self).ask_bitmap.has(s),
                q,
                idx,
                s,
            );
            assert forall|t: int| 0 <= t < 8192 && t != s implies #[trigger] self.fifo(t) by {
                assert(old(self).fifo(t));
                let u = old(self).lists@.fifos[t];
                assert forall|m: int|
                    0 <= m < u.len() implies self.pool@[(#[trigger] u[m]) as int] == p[u[m] as int] by {
                    assert(u.contains(u[m]));
                    assert(p[u[m] as int].tick % 8192 == t);
                    if q.len() > 0 {
                        assert(p[q[q.len() - 1] as int].tick % 8192 == s);
                    }
                }
                lemma_fifo_frame(
                    p,
                    self.pool@,
                    self.header.anchor_tick,
                    self.header.max_lots_per_order,
                    self.levels@[t],
                    self.bid_bitmap.has(t),
                    self.ask_bitmap.has(t),
                    u,
                    t,
                );
            }
            assert(self.fifo(s));
        }
    }

    /* Seat order chains */

    /// Sort key: bids before asks, then ascending tick.
    pub(crate) fn chain_key(&self, idx: u16) -> (r: u64)
        requires
            idx < self.pool@.len(),
        ensures
            r == key_of(self.pool@[idx as int]),
    {
        quote_key(self.pool[idx as usize].side(), self.pool[idx as usize].tick())
    }

    /// Unlink `idx` from its seat chain through its own back link and free it.
    #[verifier::rlimit(40)]
    pub(crate) fn chain_unlink(&mut self, idx: u16)
        requires
            old(self).chains_ok(),
            old(self).frees_ok(),
            0 < idx < old(self).pool@.len(),
            old(self).pool@[idx as int].spec_maker() < 128,
            old(self).lists@.chains[old(self).pool@[idx as int].spec_maker() as int].contains(idx),
        ensures
            final(self).chains_ok(),
            final(self).frees_ok(),
            ({
                let s = old(self).pool@[idx as int].spec_maker() as int;
                let c = old(self).lists@.chains[s];
                &&& final(self).lists@ == (Lists {
                    chains: old(self).lists@.chains.update(s, without(c, idx)),
                    free: seq![idx] + old(self).lists@.free,
                    ..old(self).lists@
                })
                &&& final(self).pool@.len() == old(self).pool@.len()
                &&& final(self).pool@[idx as int].seq == FREED_SEQ
                &&& forall|j: int|
                    0 <= j < old(self).pool@.len() && j != idx ==> same_but_chain(
                        old(self).pool@[j],
                        #[trigger] final(self).pool@[j],
                    )
                &&& same_but_orders(old(self).seats@[s], final(self).seats@[s])
                &&& final(self).seats@ == old(self).seats@.update(s, final(self).seats@[s])
            }),
            *final(self) == (BookRefMut {
                header: Market {
                    free_head: final(self).header.free_head,
                    free_count: final(self).header.free_count,
                    ..old(self).header
                },
                seats: final(self).seats,
                pool: final(self).pool,
                lists: final(self).lists,
                ..*old(self)
            }),
    {
        let seat: u16 = self.pool[idx as usize].maker();
        let prev: u16 = self.pool[idx as usize].maker_prev();
        let next: u16 = self.pool[idx as usize].maker_next();
        let ghost s = seat as int;
        let ghost c = self.lists@.chains[s];
        let ghost k = c.index_of(idx);
        let ghost p = self.pool@;
        proof {
            assert(self.chain(s));
            assert(c[k] == idx);
            assert(p[c[k] as int].seq != FREED_SEQ);
            if k > 0 {
                assert(c[k - 1] == prev);
            }
            if k + 1 < c.len() {
                assert(c[k + 1] == next);
            }
        }
        if prev == NIL {
            self.seats[seat as usize].set_orders_head(next);
        } else {
            self.pool[prev as usize].set_maker_next(next);
        }
        if next != NIL {
            self.pool[next as usize].set_maker_prev(prev);
        }
        self.seats[seat as usize].dec_order_count();
        proof {
            self.lists@ = Lists {
                chains: self.lists@.chains.update(s, without(c, idx)),
                ..self.lists@
            };
            assert(!self.lists@.free.contains(idx)) by {
                if self.lists@.free.contains(idx) {
                    assert(p[self.lists@.free[self.lists@.free.index_of(idx)] as int].seq
                        == FREED_SEQ);
                }
            }
        }
        self.free_node(idx);
        proof {
            lemma_chain_unlinked(p, self.pool@, old(self).seats@[s], self.seats@[s], c, k, s);
            assert forall|t: int| 0 <= t < 128 && t != s implies #[trigger] self.chain(t) by {
                assert(old(self).chain(t));
                let u = old(self).lists@.chains[t];
                assert forall|m: int|
                    0 <= m < u.len() implies self.pool@[(#[trigger] u[m]) as int] == p[u[m] as int] by {
                    assert(p[u[m] as int].spec_maker() == t);
                    assert(p[c[k] as int].spec_maker() == s);
                    if k > 0 {
                        assert(p[c[k - 1] as int].spec_maker() == s);
                    }
                    if k + 1 < c.len() {
                        assert(p[c[k + 1] as int].spec_maker() == s);
                    }
                }
                lemma_chain_frame(p, self.pool@, self.seats@[t], self.seats@[t], u, t);
            }
            assert(self.chain(s));
        }
    }

    /// Splice `idx` between `prev` and `next`, the neighbours of position `k`
    /// of the seat's chain, and count it.
    #[verifier::rlimit(40)]
    pub(crate) fn chain_splice(
        &mut self,
        seat: u16,
        prev: u16,
        next: u16,
        idx: u16,
        Ghost(k): Ghost<int>,
    )
        requires
            old(self).chains_ok(),
            seat < 128,
            0 < idx < old(self).pool@.len(),
            old(self).pool@[idx as int].seq != FREED_SEQ,
            old(self).pool@[idx as int].spec_maker() == seat,
            ({
                let p = old(self).pool@;
                let c = old(self).lists@.chains[seat as int];
                &&& !c.contains(idx)
                &&& c.len() < 65535
                &&& 0 <= k <= c.len()
                &&& prev == at(c, k - 1)
                &&& next == at(c, k)
                &&& k > 0 ==> key_of(p[c[k - 1] as int]) < key_of(p[idx as int])
                &&& k < c.len() ==> key_of(p[idx as int]) < key_of(p[c[k] as int])
            }),
        ensures
            final(self).chains_ok(),
            ({
                let c = old(self).lists@.chains[seat as int];
                &&& final(self).lists@ == (Lists {
                    chains: old(self).lists@.chains.update(seat as int, c.insert(k, idx)),
                    ..old(self).lists@
                })
                &&& final(self).pool@.len() == old(self).pool@.len()
                &&& forall|j: int|
                    0 <= j < old(self).pool@.len() ==> same_but_chain(
                        old(self).pool@[j],
                        #[trigger] final(self).pool@[j],
                    )
                &&& same_but_orders(old(self).seats@[seat as int], final(self).seats@[seat as int])
                &&& final(self).seats@ == old(self).seats@.update(
                    seat as int,
                    final(self).seats@[seat as int],
                )
            }),
            *final(self) == (BookRefMut {
                seats: final(self).seats,
                pool: final(self).pool,
                lists: final(self).lists,
                ..*old(self)
            }),
    {
        let ghost s = seat as int;
        let ghost c = self.lists@.chains[s];
        let ghost p = self.pool@;
        proof {
            assert(self.chain(s));
            if k > 0 {
                assert(c.contains(c[k - 1]));
            }
            if k < c.len() {
                assert(c.contains(c[k]));
            }
        }
        self.pool[idx as usize].set_maker_prev(prev);
        self.pool[idx as usize].set_maker_next(next);
        if prev == NIL {
            self.seats[seat as usize].set_orders_head(idx);
        } else {
            self.pool[prev as usize].set_maker_next(idx);
        }
        if next != NIL {
            self.pool[next as usize].set_maker_prev(idx);
        }
        self.seats[seat as usize].inc_order_count();
        proof {
            self.lists@ = Lists {
                chains: self.lists@.chains.update(s, c.insert(k, idx)),
                ..self.lists@
            };
            lemma_chain_spliced(p, self.pool@, old(self).seats@[s], self.seats@[s], c, k, idx, s);
            assert forall|t: int| 0 <= t < 128 && t != s implies #[trigger] self.chain(t) by {
                assert(old(self).chain(t));
                let u = old(self).lists@.chains[t];
                assert forall|m: int|
                    0 <= m < u.len() implies self.pool@[(#[trigger] u[m]) as int] == p[u[m] as int] by {
                    assert(p[u[m] as int].spec_maker() == t);
                    if k > 0 {
                        assert(p[c[k - 1] as int].spec_maker() == s);
                    }
                    if k < c.len() {
                        assert(p[c[k] as int].spec_maker() == s);
                    }
                }
                lemma_chain_frame(p, self.pool@, self.seats@[t], self.seats@[t], u, t);
            }
            assert(self.chain(s));
        }
    }
}

/// The chain key of a quote at `(side, tick)`.
pub fn quote_key(side: Side, tick: u32) -> (r: u64)
    ensures
        r == key(side, tick),
{
    let s: u64 = match side {
        Side::Bid => 0,
        Side::Ask => 1,
    };
    let t: u64 = tick as u64;
    assert((s << 32) | t == s * 0x1_0000_0000 + t) by (bit_vector)
        requires
            s <= 1,
            t <= 0xffff_ffff,
    ;
    (s << 32) | t
}

/// Ring slot of `tick`.
pub fn ring_slot(tick: u32) -> (r: usize)
    ensures
        r == slot_of(tick),
        r < 8192,
{
    assert(tick & 8191 == tick % 8192) by (bit_vector);
    (tick & WINDOW_MASK) as usize
}

} // verus!
