//! Laws of undoing: a cancel takes back all that a post did.

use crate::bitmap::lemma_same_bitmap;
use crate::book::{lots_by, BookRefMut};
use crate::custody::lemma_has_best;
use crate::errors::{clob, ClobError, ProgramError};
use crate::level::Level;
use crate::lists::{lemma_index_of, lemma_total_agree, without};
use crate::market::Market;
use crate::model::{atoms, locks_base, slid, slot, BookView, Order};
use crate::orders::{lemma_best_in_window, lemma_rank, lemma_rank_agree};
use crate::seat::no_owner;
use crate::steps::lemma_atoms_bound;
use vstd::prelude::*;

verus! {

/// The book `v`, once the next order id has been given out.
pub open spec fn with_id_spent(v: BookView) -> BookView {
    BookView {
        header: Market { order_seq: (v.header.spec_next_id() + 1) as u64, ..v.header },
        ..v
    }
}

/// Taking a value out of where it was put.
proof fn lemma_put_and_taken(q: Seq<u16>, k: int, i: u16)
    requires
        q.no_duplicates(),
        !q.contains(i),
        0 <= k <= q.len(),
    ensures
        without(q.insert(k, i), i) == q,
        without(q.push(i), i) == q,
{
    let p = q.insert(k, i);
    assert forall|a: int, b: int| 0 <= a < p.len() && 0 <= b < p.len() && a != b implies p[a]
        != p[b] by {
        let x = if a < k {
            a
        } else {
            a - 1
        };
        let y = if b < k {
            b
        } else {
            b - 1
        };
        if a == k {
            assert(p[b] == q[y]);
        } else if b == k {
            assert(p[a] == q[x]);
        } else {
            assert(p[a] == q[x] && p[b] == q[y]);
        }
    }
    lemma_index_of(p, i, k);
    assert(without(p, i) =~= q);
    let r = q.push(i);
    assert forall|a: int, b: int| 0 <= a < r.len() && 0 <= b < r.len() && a != b implies r[a]
        != r[b] by {
        if a == q.len() {
            assert(r[b] == q[b]);
        } else if b == q.len() {
            assert(r[a] == q[a]);
        } else {
            assert(r[a] == q[a] && r[b] == q[b]);
        }
    }
    lemma_index_of(r, i, q.len() as int);
    assert(without(r, i) =~= q);
}

/// Ending an order that was just posted gives back the book that it was posted
/// to, all of it but the order id that was spent.
pub proof fn lemma_post_undone(v: BookView, o: Order, k: int)
    requires
        v.structured(),
        v.free.len() > 0,
        o.maker < 128,
        crate::model::in_window(v.header, o.tick),
        o.lots <= v.header.max_lots_per_order,
        0 <= k <= v.chains[o.maker as int].len(),
        v.seats[o.maker as int].within_supply(),
        v.seats[o.maker as int].spec_free(locks_base(o.side)) >= atoms(
            v.header,
            o.side,
            o.tick,
            o.lots as int,
        ),
    ensures
        v.with_lock(o.maker as int, o.side, o.tick, o.lots).posted(o, k).killed(v.free[0])
            == with_id_spent(v),
{
    let s = o.maker as int;
    let i = v.free[0];
    let w = v.with_lock(s, o.side, o.tick, o.lots).posted(o, k);
    let x = w.killed(i);
    let a = atoms(v.header, o.side, o.tick, o.lots as int);
    lemma_atoms_bound(v.header, o.side, o.tick, o.lots as int);
    assert(v.free.contains(i));
    assert(!v.orders.contains_key(i));
    assert(v.queue_ok(slot(o.tick)));
    assert(v.chain_ok(s));
    assert(!v.queues[slot(o.tick)].contains(i)) by {
        if v.queues[slot(o.tick)].contains(i) {
            let j = choose|j: int|
                0 <= j < v.queues[slot(o.tick)].len() && v.queues[slot(o.tick)][j] == i;
            assert(v.orders.contains_key(v.queues[slot(o.tick)][j]));
        }
    }
    assert(!v.chains[s].contains(i)) by {
        if v.chains[s].contains(i) {
            let j = choose|j: int| 0 <= j < v.chains[s].len() && v.chains[s][j] == i;
            assert(v.orders.contains_key(v.chains[s][j]));
        }
    }
    lemma_put_and_taken(v.queues[slot(o.tick)], 0, i);
    lemma_put_and_taken(v.chains[s], k, i);
    assert(x.orders =~= v.orders);
    assert(x.queues =~= v.queues);
    assert(x.chains =~= v.chains);
    assert(x.free =~= v.free);
    assert(x.seats =~= v.seats) by {
        assert(w.seats[s].spec_unlock(locks_base(o.side), a) == v.seats[s]);
    }
}

/// A quote that was posted anew and is then cancelled by its id leaves the
/// book as it was, all of it but the order id that was spent: the seat's four
/// balances and its orders, the level, the bids and asks, and the free list. A
/// second cancel is refused and changes nothing.
pub proof fn lemma_upsert_then_cancel(v: BookView, o: Order, slide: bool)
    requires
        v.ok(),
        o.maker < 128,
        !no_owner(v.seats[o.maker as int].owner@),
        v.seats[o.maker as int].within_supply(),
        o.lots > 0,
        v.upsert(o, slide).1 is Ok,
        !v.orders.contains_key(v.upsert(o, slide).1->Ok_0),
    ensures
        ({
            let (w, r) = v.upsert(o, slide);
            let i = r->Ok_0;
            let id = w.orders[i].seq;
            &&& id == v.header.spec_next_id()
            &&& w.cancel(o.maker, i, id) == (with_id_spent(v), Ok::<(), ProgramError>(()))
            &&& with_id_spent(v).cancel(o.maker, i, id) == (
                with_id_spent(v),
                Err::<(), ProgramError>(clob(ClobError::OrderNotFound)),
            )
        }),
{
    let s = o.maker as int;
    let opp = o.side.spec_opposite();
    let b = v.best(opp);
    let t = slid(v.header, o.side, o.tick, slide, b)->Ok_0;
    let n = Order { tick: t, ..o };
    lemma_has_best(v, opp);
    lemma_best_in_window(v, opp, b);
    assert(v.chain_ok(s));
    lemma_rank(v, s, n.key(), 0);
    match v.quote_at(s, o.side, t) {
        None => {
            let x = v.with_lock(s, o.side, t, o.lots);
            lemma_rank_agree(v, x, s, n.key(), 0);
            lemma_post_undone(v, n, x.rank(s, n.key()));
        },
        Some(i) => {
            assert(v.orders.contains_key(i));
        },
    }
}

/// A cancel is refused, and changes nothing, unless it names an order of the
/// seat by its node and its id: so for node 0, for a node past the pool, for
/// another seat's order and for another id.
pub proof fn lemma_cancel_refused(v: BookView, s: u16, i: u16, id: u64)
    requires
        v.structured(),
        i == 0 || i >= v.header.order_pool_capacity || !v.orders.contains_key(i)
            || v.orders[i].maker != s || v.orders[i].seq != id,
    ensures
        v.cancel(s, i, id) == (v, Err::<(), ProgramError>(clob(ClobError::OrderNotFound))),
{
    if v.orders.contains_key(i) {
        assert(v.order_ok(i));
    }
}

/// Two books with the same orders and lists.
pub open spec fn alike(a: BookView, b: BookView) -> bool {
    &&& a.orders == b.orders
    &&& a.queues == b.queues
    &&& a.chains == b.chains
    &&& a.free == b.free
    &&& a.seats == b.seats
}

/// Two levels with the same queue and size.
pub open spec fn same_level(a: Level, b: Level) -> bool {
    a.head == b.head && a.tail == b.tail && a.total_lots == b.total_lots
}

proof fn lemma_level(a: BookRefMut, b: BookRefMut, s: int)
    requires
        a.fifo(s),
        b.fifo(s),
        a@.queue_ok(s),
        alike(a@, b@),
    ensures
        same_level(a.levels@[s], b.levels@[s]),
        a.bid_bitmap.has(s) == b.bid_bitmap.has(s),
        a.ask_bitmap.has(s) == b.ask_bitmap.has(s),
{
    let q = a@.queues[s];
    assert forall|k: int| 0 <= k < q.len() implies lots_by(a.pool@)(#[trigger] q[k]) == lots_by(
        b.pool@,
    )(q[k]) by {
        assert(a@.orders.contains_key(q[k]));
        assert(a@.orders[q[k]] == b@.orders[q[k]]);
    }
    lemma_total_agree(q, lots_by(a.pool@), lots_by(b.pool@));
    if q.len() > 0 {
        assert(a@.orders.contains_key(q[0]));
        assert(a@.orders[q[0]] == b@.orders[q[0]]);
        assert(a.pool@[q[0] as int].spec_side() == b.pool@[q[0] as int].spec_side());
    }
}

proof fn lemma_levels(a: BookRefMut, b: BookRefMut)
    requires
        a.fifos_ok(),
        b.fifos_ok(),
        a@.structured(),
        alike(a@, b@),
    ensures
        a.bid_bitmap == b.bid_bitmap,
        a.ask_bitmap == b.ask_bitmap,
        forall|s: int| 0 <= s < 8192 ==> same_level(#[trigger] a.levels@[s], b.levels@[s]),
{
    assert forall|p: int| 0 <= p < 8192 implies a.bid_bitmap.has(p) == b.bid_bitmap.has(p)
        && a.ask_bitmap.has(p) == b.ask_bitmap.has(p) && same_level(
        #[trigger] a.levels@[p],
        b.levels@[p],
    ) by {
        assert(a.fifo(p));
        assert(b.fifo(p));
        assert(a@.queue_ok(p));
        lemma_level(a, b, p);
    }
    assert forall|p: int| 0 <= p < 8192 implies #[trigger] a.bid_bitmap.has(p)
        == b.bid_bitmap.has(p) by {
        assert(same_level(a.levels@[p], b.levels@[p]));
    }
    assert forall|p: int| 0 <= p < 8192 implies #[trigger] a.ask_bitmap.has(p)
        == b.ask_bitmap.has(p) by {
        assert(same_level(a.levels@[p], b.levels@[p]));
    }
    lemma_same_bitmap(a.bid_bitmap, b.bid_bitmap);
    lemma_same_bitmap(a.ask_bitmap, b.ask_bitmap);
}

proof fn lemma_seat_record(a: BookRefMut, b: BookRefMut, s: int)
    requires
        0 <= s < a.seats@.len(),
        s < b.seats@.len(),
        a.chain(s),
        b.chain(s),
        alike(a@, b@),
    ensures
        a.seats@[s] == b.seats@[s],
{
    assert(a@.seats[s] == b@.seats[s]);
}

/// The regions of an account follow from the orders and lists: two books with
/// the same ones have the same free list, bitmaps, levels and seats.
pub proof fn lemma_regions(a: BookRefMut, b: BookRefMut)
    requires
        a.wf(),
        b.wf(),
        alike(a@, b@),
    ensures
        a.header.free_head == b.header.free_head,
        a.header.free_count == b.header.free_count,
        a.bid_bitmap == b.bid_bitmap,
        a.ask_bitmap == b.ask_bitmap,
        a.seats@ == b.seats@,
        forall|s: int| 0 <= s < 8192 ==> same_level(#[trigger] a.levels@[s], b.levels@[s]),
{
    lemma_levels(a, b);
    assert forall|s: int| 0 <= s < 128 implies a.seats@[s] == b.seats@[s] by {
        assert(a.chain(s));
        assert(b.chain(s));
        lemma_seat_record(a, b, s);
    }
    assert(a.seats@ =~= b.seats@);
}

} // verus!
