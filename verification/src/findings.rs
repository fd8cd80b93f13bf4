//! Laws of the audit: what it tells of a market that passes, in the fields of
//! its records.

use crate::audit::{
    level_sound,
    locks_by,
    member_sound,
    orders,
    owned_below,
    queue,
    queue_at,
    queued_below,
    seat_sound,
    sound,
    taken_held,
    trail,
};
use crate::book::{lots_by, BookRefMut};
use crate::lists::total;
use crate::node::OrderNode;
use crate::seat::{no_owner, Seat};
use vstd::prelude::*;

verus! {

/// What the seats with an owner hold, free and locked.
pub open spec fn owners_hold(seats: Seq<Seat>, base: bool) -> int
    decreases seats.len(),
{
    if seats.len() == 0 {
        0
    } else {
        let s = seats.last();
        owners_hold(seats.drop_last(), base) + if forall|k: int| 0 <= k < 32 ==> s.owner@[k] == 0 {
            0
        } else if base {
            s.base_free + s.base_locked
        } else {
            s.quote_free + s.quote_locked
        }
    }
}

proof fn lemma_owners_hold(seats: Seq<Seat>, base: bool)
    ensures
        owners_hold(seats, base) == taken_held(seats, base),
    decreases seats.len(),
{
    if seats.len() > 0 {
        lemma_owners_hold(seats.drop_last(), base);
        let s = seats.last();
        assert(s.owner@.len() == 32);
        assert(no_owner(s.owner@) <==> forall|k: int| 0 <= k < 32 ==> s.owner@[k] == 0);
    }
}

/// In a market that passes, each vault holds what the owners of its seats
/// hold, and the quote vault the accrued fees besides.
pub proof fn lemma_vaults_covered(b: BookRefMut, base_vault: u64, quote_vault: u64)
    requires
        sound(b, base_vault, quote_vault),
    ensures
        owners_hold(b.seats@, true) == base_vault,
        owners_hold(b.seats@, false) + b.header.fees_accrued_quote == quote_vault,
{
    lemma_owners_hold(b.seats@, true);
    lemma_owners_hold(b.seats@, false);
}

/// An ask, by the highest bit of its field.
pub open spec fn is_ask(n: OrderNode) -> bool {
    n.maker_and_side >= 32768
}

/// Some level of the window lists node `i`.
pub open spec fn rests(b: BookRefMut, i: u16) -> bool {
    queued_below(b, 8192, i)
}

/// In a market that passes, an order that rests has lots and an id, stands in
/// the window at the level of its tick, and is in the chain of a seat that has
/// an owner and is its maker.
pub proof fn lemma_order_accounted(b: BookRefMut, base_vault: u64, quote_vault: u64, i: u16)
    requires
        b.sized(),
        sound(b, base_vault, quote_vault),
        rests(b, i),
    ensures
        ({
            let n = b.pool@[i as int];
            let s = n.maker_and_side as int % 32768;
            &&& n.lots > 0
            &&& n.seq != u64::MAX
            &&& b.header.anchor_tick <= n.tick <= b.header.anchor_tick + 8191
            &&& queue(b, n.tick as int % 8192).contains(i)
            &&& 0 <= s < 128
            &&& !no_owner(b.seats@[s].owner@)
            &&& orders(b, s).contains(i)
        }),
{
    let o = choose|o: int| 0 <= o < 8192 && (#[trigger] queue_at(b, o)).contains(i);
    let t = b.header.anchor_tick + o;
    assert(level_sound(b, t));
    let q = queue(b, t % 8192);
    assert(queue_at(b, o) == q);
    let k = q.index_of(i);
    assert(q[k] == i);
    assert(owned_below(b, 128, i));
    let s = choose|s: int|
        0 <= s < 128 && !no_owner(b.seats@[s].owner@) && (#[trigger] orders(b, s)).contains(i);
    assert(seat_sound(b, s));
    let c = orders(b, s);
    let j = c.index_of(i);
    assert(c[j] == i);
    assert(member_sound(b, s, c, j));
}

/// In a market that passes, every bid that rests is below every ask that
/// rests.
pub proof fn lemma_sides_apart(b: BookRefMut, base_vault: u64, quote_vault: u64, i: u16, j: u16)
    requires
        b.sized(),
        sound(b, base_vault, quote_vault),
        rests(b, i),
        rests(b, j),
        !is_ask(b.pool@[i as int]),
        is_ask(b.pool@[j as int]),
    ensures
        b.pool@[i as int].tick < b.pool@[j as int].tick,
{
    let x = choose|o: int| 0 <= o < 8192 && (#[trigger] queue_at(b, o)).contains(i);
    let y = choose|o: int| 0 <= o < 8192 && (#[trigger] queue_at(b, o)).contains(j);
    let lo = b.header.anchor_tick;
    assert(level_sound(b, lo + x));
    assert(level_sound(b, lo + y));
    let p = queue(b, (lo + x) % 8192);
    let q = queue(b, (lo + y) % 8192);
    assert(p[p.index_of(i)] == i);
    assert(q[q.index_of(j)] == j);
    assert(b.bid_bitmap.at(lo + x));
    assert(b.ask_bitmap.at(lo + y));
}

/// In a market that passes, each level's total is the lots of the orders that
/// it lists, and its bit is set for their side exactly when it lists any.
pub proof fn lemma_level_told(b: BookRefMut, base_vault: u64, quote_vault: u64, tick: int)
    requires
        b.sized(),
        sound(b, base_vault, quote_vault),
        b.header.anchor_tick <= tick <= b.header.anchor_tick + 8191,
    ensures
        ({
            let q = queue(b, tick % 8192);
            let l = b.levels@[tick % 8192];
            &&& l.total_lots == total(q, |i: u16| b.pool@[i as int].lots as int)
            &&& b.bid_bitmap.at(tick) <==> q.len() > 0 && !is_ask(b.pool@[q[0] as int])
            &&& b.ask_bitmap.at(tick) <==> q.len() > 0 && is_ask(b.pool@[q[0] as int])
            &&& forall|k: int|
                0 <= k < q.len() ==> b.pool@[(#[trigger] q[k]) as int].tick == tick && is_ask(
                    b.pool@[q[k] as int],
                ) == is_ask(b.pool@[q[0] as int])
        }),
{
    let o = tick - b.header.anchor_tick;
    assert(level_sound(b, b.header.anchor_tick + o));
    let q = queue(b, tick % 8192);
    let f = |i: u16| b.pool@[i as int].lots as int;
    crate::lists::lemma_total_agree(q, lots_by(b.pool@), f);
    if q.len() > 0 {
        let n = b.pool@[q[0] as int];
        assert(n.tick == tick);
    }
}

/// In a market that passes, a seat with an owner counts the orders of its
/// chain and has locked, of base, the lots of its asks and, of quote, what its
/// bids cost at their prices.
pub proof fn lemma_seat_told(b: BookRefMut, base_vault: u64, quote_vault: u64, s: int)
    requires
        b.sized(),
        sound(b, base_vault, quote_vault),
        0 <= s < 128,
        !no_owner(b.seats@[s].owner@),
    ensures
        ({
            let seat = b.seats@[s];
            let c = orders(b, s);
            let h = b.header;
            &&& seat.order_count == c.len()
            &&& seat.base_locked == total(
                c,
                |i: u16|
                    if is_ask(b.pool@[i as int]) {
                        b.pool@[i as int].lots * h.base_lot_size
                    } else {
                        0
                    },
            )
            &&& seat.quote_locked == total(
                c,
                |i: u16|
                    if is_ask(b.pool@[i as int]) {
                        0
                    } else {
                        b.pool@[i as int].tick * h.tick_size * b.pool@[i as int].lots
                    },
            )
            &&& forall|k: int|
                0 <= k < c.len() ==> b.pool@[(#[trigger] c[k]) as int].maker_and_side as int % 32768
                    == s
        }),
{
    let c = orders(b, s);
    let h = b.header;
    assert(seat_sound(b, s));
    let f = |i: u16|
        if is_ask(b.pool@[i as int]) {
            b.pool@[i as int].lots * h.base_lot_size
        } else {
            0
        };
    let g = |i: u16|
        if is_ask(b.pool@[i as int]) {
            0
        } else {
            b.pool@[i as int].tick * h.tick_size * b.pool@[i as int].lots
        };
    crate::lists::lemma_total_agree(c, locks_by(h, b.pool@, true), f);
    crate::lists::lemma_total_agree(c, locks_by(h, b.pool@, false), g);
    assert forall|k: int| 0 <= k < c.len() implies b.pool@[(
    #[trigger] c[k]) as int].maker_and_side as int % 32768 == s by {
        assert(member_sound(b, s, c, k));
    }
}

/// In a market that passes, the free list is as long as the header says, and
/// no node on it is an order.
pub proof fn lemma_free_told(b: BookRefMut, base_vault: u64, quote_vault: u64)
    requires
        b.sized(),
        sound(b, base_vault, quote_vault),
    ensures
        ({
            let f = trail(b.pool@, false, b.header.free_head, b.pool@.len());
            &&& f.len() == b.header.free_count
            &&& forall|k: int| 0 <= k < f.len() ==> b.pool@[(#[trigger] f[k]) as int].seq == u64::MAX
            &&& forall|i: u16| #[trigger] f.contains(i) ==> !rests(b, i)
        }),
{
    let f = trail(b.pool@, false, b.header.free_head, b.pool@.len());
    assert forall|i: u16| #[trigger] f.contains(i) implies !rests(b, i) by {
        assert(b.pool@[f[f.index_of(i)] as int].seq == u64::MAX);
        if rests(b, i) {
            lemma_order_accounted(b, base_vault, quote_vault, i);
        }
    }
}

} // verus!
