//! Each step of the model keeps the invariant and every seat's surplus.

use crate::lists::{
    lemma_inserted,
    lemma_total_agree,
    lemma_total_bound,
    lemma_total_insert,
    lemma_total_remove,
    lemma_without,
};
use crate::market::Market;
use crate::model::{atoms, in_window, key, locks_base, params_ok, slot, BookView, Order};
use crate::seat::{no_owner, Seat};
use crate::side::Side;
use vstd::prelude::*;

verus! {

/// An order of legal size inside the window locks an amount that fits.
pub proof fn lemma_atoms_bound(h: Market, side: Side, tick: u32, lots: int)
    requires
        params_ok(h),
        in_window(h, tick),
        0 <= lots <= h.max_lots_per_order,
    ensures
        0 <= atoms(h, side, tick, lots) <= u64::MAX,
        0 <= tick * h.tick_size * lots <= u64::MAX,
        0 <= lots * h.base_lot_size <= u64::MAX,
        lots > 0 ==> tick * h.tick_size <= u64::MAX,
{
    let top = (h.anchor_tick + 8191) as int;
    let ts = h.tick_size as int;
    let ml = h.max_lots_per_order as int;
    let ls = h.base_lot_size as int;
    let t = tick as int;
    assert(0 <= t * ts <= top * ts) by (nonlinear_arith)
        requires
            0 <= t <= top,
            0 <= ts,
    ;
    let a = t * ts;
    let b = top * ts;
    assert(0 <= a * lots <= b * ml) by (nonlinear_arith)
        requires
            0 <= a <= b,
            0 <= lots <= ml,
    ;
    if lots > 0 {
        assert(b <= b * ml) by (nonlinear_arith)
            requires
                0 <= b,
                1 <= ml,
        ;
    }
    assert(0 <= lots * ls <= ml * ls) by (nonlinear_arith)
        requires
            0 <= lots <= ml,
            0 <= ls,
    ;
}

/// What is locked for a size splits over its parts.
pub proof fn lemma_atoms_split(h: Market, side: Side, tick: u32, a: int, b: int)
    ensures
        atoms(h, side, tick, a + b) == atoms(h, side, tick, a) + atoms(h, side, tick, b),
{
    let x = tick * h.tick_size;
    assert(x * (a + b) == x * a + x * b) by (nonlinear_arith);
    let y = h.base_lot_size as int;
    assert((a + b) * y == a * y + b * y) by (nonlinear_arith);
}

/// A chain's total is at least each of its terms.
pub proof fn lemma_needed_covers(v: BookView, i: u16, base: bool)
    requires
        v.structured(),
        v.orders.contains_key(i),
    ensures
        0 <= v.lock_of(i, base) <= v.needed(v.orders[i].maker as int, base),
{
    assert(v.order_ok(i));
    let s = v.orders[i].maker as int;
    let c = v.chains[s];
    assert(v.chain_ok(s));
    assert forall|k: int| 0 <= k < c.len() implies 0 <= v.locks(base)(#[trigger] c[k])
        <= u64::MAX by {
        assert(v.order_ok(c[k]));
        let o = v.orders[c[k]];
        lemma_atoms_bound(v.header, o.side, o.tick, o.lots as int);
    }
    lemma_total_bound(c, v.locks(base), u64::MAX as int);
    let k = c.index_of(i);
    assert(c[k] == i);
    assert(v.locks(base)(c[k]) == v.lock_of(i, base));
}

/// The seat of a live order has its lock.
pub proof fn lemma_lock_available(v: BookView, i: u16)
    requires
        v.ok(),
        v.orders.contains_key(i),
    ensures
        ({
            let o = v.orders[i];
            0 <= atoms(v.header, o.side, o.tick, o.lots as int)
                <= v.seats[o.maker as int].spec_locked(locks_base(o.side))
        }),
{
    let o = v.orders[i];
    assert(v.order_ok(i));
    lemma_needed_covers(v, i, locks_base(o.side));
    assert(v.surplus(o.maker as int, locks_base(o.side)) >= 0);
}

pub proof fn lemma_removed(v: BookView, i: u16)
    requires
        v.structured(),
        v.orders.contains_key(i),
    ensures
        v.removed(i).structured(),
        forall|t: int, base: bool|
            0 <= t < 128 ==> #[trigger] v.removed(i).needed(t, base) == v.needed(t, base) - (if t
                == v.orders[i].maker {
                v.lock_of(i, base)
            } else {
                0
            }),
{
    let o = v.orders[i];
    let w = v.removed(i);
    let s = slot(o.tick);
    let m = o.maker as int;
    assert(v.order_ok(i));
    assert(v.queue_ok(s));
    assert(v.chain_ok(m));
    lemma_without(v.queues[s], i);
    lemma_without(v.chains[m], i);
    assert forall|j: u16| w.orders.contains_key(j) implies #[trigger] w.order_ok(j) by {
        assert(v.order_ok(j));
    }
    assert forall|t: int| 0 <= t < 8192 implies #[trigger] w.queue_ok(t) by {
        assert(v.queue_ok(t));
        let q = w.queues[t];
        assert forall|k: int| 0 <= k < q.len() implies w.orders.contains_key(#[trigger] q[k])
            && slot(w.orders[q[k]].tick) == t by {
            assert(q.contains(q[k]));
            assert(v.queues[t].contains(q[k]));
            let n = v.queues[t].index_of(q[k]);
            assert(v.queues[t][n] == q[k]);
        }
    }
    assert forall|t: int| 0 <= t < 128 implies #[trigger] w.chain_ok(t) by {
        assert(v.chain_ok(t));
        let c = w.chains[t];
        let d = v.chains[t];
        if t == m {
            let x = d.index_of(i);
            assert forall|k: int| 0 <= k < c.len() implies w.orders.contains_key(#[trigger] c[k])
                && w.orders[c[k]].maker == t && c[k] == d[if k < x {
                k
            } else {
                k + 1
            }] && w.orders[c[k]] == v.orders[c[k]] by {
                assert(c.contains(c[k]));
                let n = if k < x {
                    k
                } else {
                    k + 1
                };
                assert(d[n] == c[k]);
            }
        } else {
            assert forall|k: int| 0 <= k < c.len() implies w.orders.contains_key(#[trigger] c[k])
                && w.orders[c[k]] == v.orders[c[k]] by {
                assert(d[k] == c[k]);
            }
        }
    }
    assert(w.free_ok()) by {
        let f = w.free;
        assert(!v.free.contains(i));
        assert forall|j: u16| #[trigger] f.contains(j) <==> (1 <= j < w.header.order_pool_capacity
            && !w.orders.contains_key(j)) by {
            if j == i {
                assert(f[0] == i);
            }
            if v.free.contains(j) {
                assert(f[v.free.index_of(j) + 1] == j);
            }
            if f.contains(j) && j != i {
                let n = f.index_of(j);
                assert(v.free[n - 1] == j);
            }
        }
        assert forall|a: int, b: int| 0 <= a < f.len() && 0 <= b < f.len() && a != b implies f[a]
            != f[b] by {
            if a > 0 {
                assert(v.free.contains(v.free[a - 1]));
            }
            if b > 0 {
                assert(v.free.contains(v.free[b - 1]));
            }
        }
    }
    assert(w.uncrossed()) by {
        reveal(BookView::uncrossed);
        assert forall|a: u16, b: u16|
            #![trigger w.orders[a], w.orders[b]]
            w.orders.contains_key(a) && w.orders.contains_key(b) && w.orders[a].side == Side::Bid
                && w.orders[b].side == Side::Ask implies w.orders[a].tick < w.orders[b].tick by {
            assert(w.orders[a] == v.orders[a]);
            assert(w.orders[b] == v.orders[b]);
        }
    }
    assert(w.vacant_ok()) by {
        assert forall|t: int| 0 <= t < 128 && no_owner((#[trigger] w.seats[t]).owner@) implies
            w.chains[t].len() == 0 by {
            assert(v.chains[t].len() == 0);
        }
    }
    assert forall|t: int, base: bool|
        0 <= t < 128 implies #[trigger] w.needed(t, base) == v.needed(t, base) - (if t == m {
        v.lock_of(i, base)
    } else {
        0
    }) by {
        let c = w.chains[t];
        assert(w.chain_ok(t));
        assert(v.chain_ok(t));
        assert forall|k: int| 0 <= k < c.len() implies w.locks(base)(#[trigger] c[k]) == v.locks(
            base,
        )(c[k]) by {
            assert(w.orders.contains_key(c[k]));
        }
        lemma_total_agree(c, w.locks(base), v.locks(base));
        if t == m {
            lemma_total_remove(v.chains[m], v.chains[m].index_of(i), v.locks(base));
        }
    }
}

/// Changing seats alone touches nothing but balances.
pub proof fn lemma_with_seat(v: BookView, s: int, seat: Seat)
    requires
        v.structured(),
        0 <= s < 128,
        no_owner(seat.owner@) ==> v.chains[s].len() == 0,
    ensures
        v.with_seat(s, seat).structured(),
        forall|t: int, base: bool|
            0 <= t < 128 ==> #[trigger] v.with_seat(s, seat).needed(t, base) == v.needed(t, base),
{
    let w = v.with_seat(s, seat);
    reveal(BookView::uncrossed);
    assert(w.vacant_ok()) by {
        assert forall|t: int| 0 <= t < 128 && no_owner((#[trigger] w.seats[t]).owner@) implies
            w.chains[t].len() == 0 by {
            if t != s {
                assert(w.seats[t] == v.seats[t]);
            }
        }
    }
    assert forall|j: u16| w.orders.contains_key(j) implies #[trigger] w.order_ok(j) by {
        assert(v.order_ok(j));
    }
    assert forall|t: int| 0 <= t < 8192 implies #[trigger] w.queue_ok(t) by {
        assert(v.queue_ok(t));
    }
    assert forall|t: int| 0 <= t < 128 implies #[trigger] w.chain_ok(t) by {
        assert(v.chain_ok(t));
    }
    assert forall|t: int, base: bool|
        0 <= t < 128 implies #[trigger] w.needed(t, base) == v.needed(t, base) by {
        lemma_total_agree(v.chains[t], w.locks(base), v.locks(base));
    }
}

/// Header fields that no part of the invariant reads.
pub open spec fn same_terms(a: Market, b: Market) -> bool {
    &&& b.anchor_tick == a.anchor_tick
    &&& b.tick_limit == a.tick_limit
    &&& b.tick_size == a.tick_size
    &&& b.base_lot_size == a.base_lot_size
    &&& b.max_lots_per_order == a.max_lots_per_order
    &&& b.order_pool_capacity == a.order_pool_capacity
}

/// Counters, keys and fees in the header play no part in the invariant.
pub proof fn lemma_header_changed(v: BookView, h: Market)
    requires
        v.ok(),
        same_terms(v.header, h),
    ensures
        (BookView { header: h, ..v }).ok(),
        forall|t: int, base: bool|
            0 <= t < 128 ==> #[trigger] (BookView { header: h, ..v }).surplus(t, base)
                == v.surplus(t, base),
{
    let w = BookView { header: h, ..v };
    reveal(BookView::uncrossed);
    assert forall|j: u16| w.orders.contains_key(j) implies #[trigger] w.order_ok(j) by {
        assert(v.order_ok(j));
    }
    assert forall|t: int| 0 <= t < 8192 implies #[trigger] w.queue_ok(t) by {
        assert(v.queue_ok(t));
    }
    assert forall|t: int| 0 <= t < 128 implies #[trigger] w.chain_ok(t) by {
        assert(v.chain_ok(t));
    }
    assert forall|t: int, base: bool|
        0 <= t < 128 implies #[trigger] w.surplus(t, base) == v.surplus(t, base) by {
        lemma_total_agree(v.chains[t], w.locks(base), v.locks(base));
    }
    assert forall|t: int, base: bool| 0 <= t < 128 implies #[trigger] w.surplus(t, base)
        >= 0 by {
        assert(v.surplus(t, base) >= 0);
    }
}

/// Ending an order keeps the invariant and every surplus.
pub proof fn lemma_killed(v: BookView, i: u16)
    requires
        v.ok(),
        v.orders.contains_key(i),
    ensures
        v.killed(i).ok(),
        forall|t: int, base: bool|
            0 <= t < 128 ==> #[trigger] v.killed(i).surplus(t, base) == v.surplus(t, base),
{
    let o = v.orders[i];
    let m = o.maker as int;
    assert(v.order_ok(i));
    lemma_removed(v, i);
    lemma_lock_available(v, i);
    let w = v.removed(i);
    let seat = v.seats[m].spec_unlock(
        locks_base(o.side),
        atoms(v.header, o.side, o.tick, o.lots as int),
    );
    lemma_with_seat(w, m, seat);
    let x = v.killed(i);
    assert forall|t: int, base: bool|
        0 <= t < 128 implies #[trigger] x.surplus(t, base) == v.surplus(t, base) by {
        assert(x.needed(t, base) == w.needed(t, base));
        assert(w.needed(t, base) == v.needed(t, base) - (if t == m {
            v.lock_of(i, base)
        } else {
            0
        }));
    }
    assert forall|t: int, base: bool| 0 <= t < 128 implies #[trigger] x.surplus(t, base)
        >= 0 by {
        assert(v.surplus(t, base) >= 0);
    }
}

/// Rewriting the size and the expiry of an order in place.
pub proof fn lemma_resized(v: BookView, i: u16, n: Order)
    requires
        v.structured(),
        v.orders.contains_key(i),
        1 <= n.lots <= v.header.max_lots_per_order,
        n == (Order { lots: n.lots, expiry_slot: n.expiry_slot, ..v.orders[i] }),
    ensures
        (BookView { orders: v.orders.insert(i, n), ..v }).structured(),
        forall|t: int, base: bool|
            0 <= t < 128 ==> #[trigger] (BookView { orders: v.orders.insert(i, n), ..v }).needed(
                t,
                base,
            ) == v.needed(t, base) - (if t == n.maker && base == locks_base(n.side) {
                atoms(v.header, n.side, n.tick, v.orders[i].lots as int) - atoms(
                    v.header,
                    n.side,
                    n.tick,
                    n.lots as int,
                )
            } else {
                0
            }),
{
    let w = BookView { orders: v.orders.insert(i, n), ..v };
    let m = n.maker as int;
    assert(v.order_ok(i));
    assert forall|j: u16| w.orders.contains_key(j) implies #[trigger] w.order_ok(j) by {
        assert(v.order_ok(j));
    }
    assert forall|t: int| 0 <= t < 8192 implies #[trigger] w.queue_ok(t) by {
        assert(v.queue_ok(t));
    }
    assert forall|t: int| 0 <= t < 128 implies #[trigger] w.chain_ok(t) by {
        assert(v.chain_ok(t));
    }
    assert(w.free_ok()) by {
        assert forall|j: u16| #[trigger] w.free.contains(j) <==> (1 <= j
            < w.header.order_pool_capacity && !w.orders.contains_key(j)) by {
            assert(v.free.contains(j) <==> (1 <= j < v.header.order_pool_capacity
                && !v.orders.contains_key(j)));
        }
    }
    assert(w.uncrossed()) by {
        reveal(BookView::uncrossed);
        assert forall|a: u16, b: u16|
            #![trigger w.orders[a], w.orders[b]]
            w.orders.contains_key(a) && w.orders.contains_key(b) && w.orders[a].side == Side::Bid
                && w.orders[b].side == Side::Ask implies w.orders[a].tick < w.orders[b].tick by {
            assert(v.orders.contains_key(a) && v.orders[a].tick == w.orders[a].tick);
            assert(v.orders.contains_key(b) && v.orders[b].tick == w.orders[b].tick);
        }
    }
    assert forall|t: int, base: bool|
        0 <= t < 128 implies #[trigger] w.needed(t, base) == v.needed(t, base) - (if t == m && base
        == locks_base(n.side) {
        atoms(v.header, n.side, n.tick, v.orders[i].lots as int) - atoms(
            v.header,
            n.side,
            n.tick,
            n.lots as int,
        )
    } else {
        0
    }) by {
        let c = v.chains[t];
        assert(v.chain_ok(t));
        if t == m {
            let k = c.index_of(i);
            assert(c[k] == i);
            lemma_total_remove(c, k, w.locks(base));
            lemma_total_remove(c, k, v.locks(base));
            let r = c.remove(k);
            assert forall|j: int| 0 <= j < r.len() implies w.locks(base)(#[trigger] r[j])
                == v.locks(base)(r[j]) by {
                let a = if j < k {
                    j
                } else {
                    j + 1
                };
                assert(r[j] == c[a]);
                assert(c[a] != c[k]);
            }
            lemma_total_agree(r, w.locks(base), v.locks(base));
        } else {
            assert forall|j: int| 0 <= j < c.len() implies w.locks(base)(#[trigger] c[j])
                == v.locks(base)(c[j]) by {
                assert(v.orders[c[j]].maker == t);
            }
            lemma_total_agree(c, w.locks(base), v.locks(base));
        }
    }
}

/// Shrinking an order in place keeps the invariant and every surplus.
pub proof fn lemma_shrunk(v: BookView, i: u16, lots: u32)
    requires
        v.ok(),
        v.orders.contains_key(i),
        1 <= lots <= v.orders[i].lots,
    ensures
        v.shrunk(i, lots).ok(),
        forall|t: int, base: bool|
            0 <= t < 128 ==> #[trigger] v.shrunk(i, lots).surplus(t, base) == v.surplus(t, base),
{
    let o = v.orders[i];
    let m = o.maker as int;
    assert(v.order_ok(i));
    let n = Order { lots, ..o };
    lemma_resized(v, i, n);
    lemma_lock_available(v, i);
    lemma_atoms_split(v.header, o.side, o.tick, lots as int, o.lots - lots);
    lemma_atoms_bound(v.header, o.side, o.tick, lots as int);
    lemma_atoms_bound(v.header, o.side, o.tick, o.lots - lots);
    let w = BookView { orders: v.orders.insert(i, n), ..v };
    let seat = v.seats[m].spec_unlock(
        locks_base(o.side),
        atoms(v.header, o.side, o.tick, o.lots - lots),
    );
    lemma_with_seat(w, m, seat);
    let x = v.shrunk(i, lots);
    assert forall|t: int, base: bool|
        0 <= t < 128 implies #[trigger] x.surplus(t, base) == v.surplus(t, base) by {
        assert(x.needed(t, base) == w.needed(t, base));
    }
    assert forall|t: int, base: bool| 0 <= t < 128 implies #[trigger] x.surplus(t, base)
        >= 0 by {
        assert(v.surplus(t, base) >= 0);
    }
}

/// A new expiry keeps the invariant and every surplus.
pub proof fn lemma_refreshed(v: BookView, i: u16, expiry_slot: u32)
    requires
        v.ok(),
        v.orders.contains_key(i),
    ensures
        v.refreshed(i, expiry_slot).ok(),
        forall|t: int, base: bool|
            0 <= t < 128 ==> #[trigger] v.refreshed(i, expiry_slot).surplus(t, base) == v.surplus(
                t,
                base,
            ),
{
    assert(v.order_ok(i));
    let n = Order { expiry_slot, ..v.orders[i] };
    lemma_resized(v, i, n);
    let x = v.refreshed(i, expiry_slot);
    assert forall|t: int, base: bool|
        0 <= t < 128 implies #[trigger] x.surplus(t, base) == v.surplus(t, base) by {
        assert(x.needed(t, base) == v.needed(t, base));
    }
    assert forall|t: int, base: bool| 0 <= t < 128 implies #[trigger] x.surplus(t, base)
        >= 0 by {
        assert(v.surplus(t, base) >= 0);
    }
}

/// A fill keeps the invariant and every surplus.
pub proof fn lemma_filled(v: BookView, i: u16, fill: u32)
    requires
        v.ok(),
        v.orders.contains_key(i),
        1 <= fill <= v.orders[i].lots,
    ensures
        v.filled(i, fill).ok(),
        forall|t: int, base: bool|
            0 <= t < 128 ==> #[trigger] v.filled(i, fill).surplus(t, base) == v.surplus(t, base),
{
    let o = v.orders[i];
    let m = o.maker as int;
    assert(v.order_ok(i));
    lemma_lock_available(v, i);
    lemma_atoms_split(v.header, o.side, o.tick, fill as int, o.lots - fill);
    lemma_atoms_bound(v.header, o.side, o.tick, fill as int);
    lemma_atoms_bound(v.header, o.side, o.tick, o.lots - fill);
    let seat = v.settled(i, fill as int);
    let x = v.filled(i, fill);
    if fill == o.lots {
        lemma_removed(v, i);
        let w = v.removed(i);
        lemma_with_seat(w, m, seat);
        assert forall|t: int, base: bool|
            0 <= t < 128 implies #[trigger] x.surplus(t, base) == v.surplus(t, base) by {
            assert(x.needed(t, base) == w.needed(t, base));
            assert(w.needed(t, base) == v.needed(t, base) - (if t == m {
                v.lock_of(i, base)
            } else {
                0
            }));
        }
    } else {
        let n = Order { lots: (o.lots - fill) as u32, ..o };
        lemma_resized(v, i, n);
        let w = BookView { orders: v.orders.insert(i, n), ..v };
        lemma_with_seat(w, m, seat);
        assert forall|t: int, base: bool|
            0 <= t < 128 implies #[trigger] x.surplus(t, base) == v.surplus(t, base) by {
            assert(x.needed(t, base) == w.needed(t, base));
        }
    }
    assert forall|t: int, base: bool| 0 <= t < 128 implies #[trigger] x.surplus(t, base)
        >= 0 by {
        assert(v.surplus(t, base) >= 0);
    }
}

/// `o` may be posted: legal fields, the node is there, it does not cross, and
/// position `k` keeps the chain sorted.
pub open spec fn postable(v: BookView, o: Order, k: int) -> bool {
    &&& v.free.len() > 0
    &&& o.maker < 128
    &&& !no_owner(v.seats[o.maker as int].owner@)
    &&& in_window(v.header, o.tick)
    &&& 1 <= o.lots <= v.header.max_lots_per_order
    &&& forall|i: u16|
        #[trigger] v.orders.contains_key(i) && v.orders[i].side != o.side ==> match o.side {
            Side::Bid => o.tick < v.orders[i].tick,
            Side::Ask => v.orders[i].tick < o.tick,
        }
    &&& sorted_at(v, o.maker as int, o.key(), k)
}

/// A key strictly between the neighbours of position `k` of a chain.
pub open spec fn sorted_at(v: BookView, s: int, key: int, k: int) -> bool {
    let c = v.chains[s];
    &&& 0 <= k <= c.len()
    &&& k > 0 ==> v.orders[c[k - 1]].key() < key
    &&& k < c.len() ==> key < v.orders[c[k]].key()
}

#[verifier::rlimit(40)]
pub proof fn lemma_posted(v: BookView, o: Order, k: int)
    requires
        v.structured(),
        postable(v, o, k),
    ensures
        v.posted(o, k).structured(),
        forall|t: int, base: bool|
            0 <= t < 128 ==> #[trigger] v.posted(o, k).needed(t, base) == v.needed(t, base) + (if t
                == o.maker && base == locks_base(o.side) {
                atoms(v.header, o.side, o.tick, o.lots as int)
            } else {
                0
            }),
{
    let w = v.posted(o, k);
    let i = v.free[0];
    let s = slot(o.tick);
    let m = o.maker as int;
    assert(v.free.contains(i));
    assert(v.queue_ok(s));
    assert(v.chain_ok(m));
    assert(!v.queues[s].contains(i));
    assert(!v.chains[m].contains(i));
    lemma_inserted(v.queues[s], v.queues[s].len() as int, i);
    assert(v.queues[s].push(i) =~= v.queues[s].insert(v.queues[s].len() as int, i));
    lemma_inserted(v.chains[m], k, i);
    assert forall|j: u16| w.orders.contains_key(j) implies #[trigger] w.order_ok(j) by {
        if j != i {
            assert(v.order_ok(j));
        }
    }
    assert forall|t: int| 0 <= t < 8192 implies #[trigger] w.queue_ok(t) by {
        assert(v.queue_ok(t));
        let q = w.queues[t];
        assert forall|n: int| 0 <= n < q.len() implies w.orders.contains_key(#[trigger] q[n])
            && slot(w.orders[q[n]].tick) == t by {
            if n < v.queues[t].len() {
                assert(q[n] == v.queues[t][n]);
                assert(v.orders.contains_key(v.queues[t][n]));
            }
        }
    }
    assert forall|t: int| 0 <= t < 128 implies #[trigger] w.chain_ok(t) by {
        assert(v.chain_ok(t));
        let c = w.chains[t];
        let d = v.chains[t];
        if t == m {
            assert forall|n: int| 0 <= n < c.len() implies w.orders.contains_key(#[trigger] c[n])
                && w.orders[c[n]].maker == t && (n < k ==> c[n] == d[n] && w.orders[c[n]]
                == v.orders[d[n]]) && (n > k ==> c[n] == d[n - 1] && w.orders[c[n]] == v.orders[d[n
                - 1]]) by {
                if n < k {
                    assert(c[n] == d[n]);
                    assert(v.orders.contains_key(d[n]));
                } else if n > k {
                    assert(c[n] == d[n - 1]);
                    assert(v.orders.contains_key(d[n - 1]));
                }
            }
            assert forall|a: int, b: int| 0 <= a < b < c.len() implies w.orders[#[trigger] c[a]].key()
                < w.orders[#[trigger] c[b]].key() by {
                if a < k {
                    assert(a < k - 1 ==> v.orders[d[a]].key() < v.orders[d[k - 1]].key());
                }
                if b > k {
                    assert(k < b - 1 ==> v.orders[d[k]].key() < v.orders[d[b - 1]].key());
                }
            }
        } else {
            assert forall|n: int| 0 <= n < c.len() implies w.orders.contains_key(#[trigger] c[n])
                && w.orders[c[n]] == v.orders[c[n]] by {
                assert(v.orders.contains_key(d[n]));
            }
        }
    }
    assert(w.free_ok()) by {
        let f = w.free;
        let g = v.free;
        assert forall|j: u16| #[trigger] f.contains(j) <==> (1 <= j < w.header.order_pool_capacity
            && !w.orders.contains_key(j)) by {
            if f.contains(j) {
                let n = f.index_of(j);
                assert(g[n + 1] == j);
                assert(g.contains(g[n + 1]));
            }
            if g.contains(j) && j != i {
                let n = g.index_of(j);
                assert(f[n - 1] == j);
            }
        }
    }
    assert(w.uncrossed()) by {
        reveal(BookView::uncrossed);
        assert forall|a: u16, b: u16|
            #![trigger w.orders[a], w.orders[b]]
            w.orders.contains_key(a) && w.orders.contains_key(b) && w.orders[a].side == Side::Bid
                && w.orders[b].side == Side::Ask implies w.orders[a].tick < w.orders[b].tick by {
            if a != i {
                assert(v.orders.contains_key(a) && w.orders[a] == v.orders[a]);
            }
            if b != i {
                assert(v.orders.contains_key(b) && w.orders[b] == v.orders[b]);
            }
        }
    }
    assert forall|t: int, base: bool|
        0 <= t < 128 implies #[trigger] w.needed(t, base) == v.needed(t, base) + (if t == m && base
        == locks_base(o.side) {
        atoms(v.header, o.side, o.tick, o.lots as int)
    } else {
        0
    }) by {
        let d = v.chains[t];
        assert(v.chain_ok(t));
        assert forall|n: int| 0 <= n < d.len() implies w.locks(base)(#[trigger] d[n]) == v.locks(
            base,
        )(d[n]) by {
            assert(v.orders.contains_key(d[n]));
        }
        lemma_total_agree(d, w.locks(base), v.locks(base));
        if t == m {
            lemma_total_insert(d, k, i, w.locks(base));
        }
    }
}

/// Locking funds and posting keeps the invariant and every surplus.
pub proof fn lemma_lock_and_post(v: BookView, o: Order, k: int)
    requires
        v.ok(),
        postable(v, o, k),
        v.seats[o.maker as int].spec_free(locks_base(o.side)) >= atoms(
            v.header,
            o.side,
            o.tick,
            o.lots as int,
        ),
        v.seats[o.maker as int].within_supply(),
    ensures
        v.with_lock(o.maker as int, o.side, o.tick, o.lots).posted(o, k).ok(),
        forall|t: int, base: bool|
            0 <= t < 128 ==> #[trigger] v.with_lock(o.maker as int, o.side, o.tick, o.lots).posted(
                o,
                k,
            ).surplus(t, base) == v.surplus(t, base),
{
    let m = o.maker as int;
    lemma_locked(v, m, o.side, o.tick, o.lots);
    let w = v.with_lock(m, o.side, o.tick, o.lots);
    assert(postable(w, o, k));
    lemma_posted(w, o, k);
    lemma_atoms_bound(v.header, o.side, o.tick, o.lots as int);
    let x = w.posted(o, k);
    assert forall|t: int, base: bool|
        0 <= t < 128 implies #[trigger] x.surplus(t, base) == v.surplus(t, base) by {
        assert(x.needed(t, base) == w.needed(t, base) + (if t == o.maker && base == locks_base(
            o.side,
        ) {
            atoms(v.header, o.side, o.tick, o.lots as int)
        } else {
            0
        }));
        assert(w.needed(t, base) == v.needed(t, base));
    }
    assert forall|t: int, base: bool| 0 <= t < 128 implies #[trigger] x.surplus(t, base)
        >= 0 by {
        assert(v.surplus(t, base) >= 0);
    }
}

/// Locking funds keeps the invariant; it only adds to the seat's surplus.
pub proof fn lemma_locked(v: BookView, s: int, side: Side, tick: u32, lots: u32)
    requires
        v.ok(),
        0 <= s < 128,
        in_window(v.header, tick),
        lots <= v.header.max_lots_per_order,
        v.seats[s].spec_free(locks_base(side)) >= atoms(v.header, side, tick, lots as int),
        v.seats[s].within_supply(),
    ensures
        v.with_lock(s, side, tick, lots).ok(),
        forall|t: int, base: bool|
            0 <= t < 128 ==> #[trigger] v.with_lock(s, side, tick, lots).needed(t, base)
                == v.needed(t, base),
        v.with_lock(s, side, tick, lots).seats[s].within_supply(),
        v.with_lock(s, side, tick, lots).seats[s].spec_locked(locks_base(side))
            == v.seats[s].spec_locked(locks_base(side)) + atoms(v.header, side, tick, lots as int),
{
    lemma_atoms_bound(v.header, side, tick, lots as int);
    let x = v.with_lock(s, side, tick, lots);
    let seat = v.seats[s].spec_lock(
        locks_base(side),
        atoms(v.header, side, tick, lots as int),
    );
    lemma_with_seat(v, s, seat);
    assert forall|t: int, base: bool| 0 <= t < 128 implies #[trigger] x.surplus(t, base)
        >= 0 by {
        assert(v.surplus(t, base) >= 0);
        assert(x.needed(t, base) == v.needed(t, base));
    }
}

} // verus!
