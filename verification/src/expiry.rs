//! Laws of expiry: an order with an expiry slot is live before that slot and
//! dead from it on, and one without never dies of age.

use crate::cranks::ReapExpired;
use crate::model::{held, lemma_finite_below, BookView};
use crate::side::Side;
use crate::windows::{lemma_on_level, lemma_reap, lemma_stale, lemma_stale_in};
use vstd::prelude::*;

verus! {

/// What a reap that starts at `start` of a book covers: its side, from the
/// start tick on. A start past the window covers the last tick of it.
pub open spec fn covers(v: BookView, d: ReapExpired, i: u16) -> bool {
    &&& v.orders.contains_key(i)
    &&& v.orders[i].side == d.side
    &&& v.orders[i].tick >= d.start_tick || v.orders[i].tick == v.header.anchor_tick + 8191
}

/// The stale orders of a side come in the order of their ticks.
proof fn lemma_ascending(v: BookView, side: Side, now: u64, t: int, a: int, b: int)
    requires
        v.structured(),
        t >= v.header.anchor_tick,
        0 <= a <= b < v.stale_from(side, now, t).len(),
    ensures
        ({
            let l = v.stale_from(side, now, t);
            v.orders[l[a]].tick <= v.orders[l[b]].tick
        }),
    decreases v.header.anchor_tick + 8192 - t,
{
    if t <= v.header.anchor_tick + 8191 {
        let l = v.stale_from(side, now, t);
        let rest = v.stale_from(side, now, t + 1);
        let q = v.queues[t % 8192];
        let here = if v.quoted(side, t) {
            v.stale_in(q, now, 0)
        } else {
            seq![]
        };
        assert(l == here + rest);
        lemma_stale(v, side, now, t + 1);
        assert(v.queue_ok(t % 8192));
        lemma_stale_in(v, q, now, 0);
        assert forall|k: int| 0 <= k < here.len() implies v.orders[#[trigger] here[k]].tick
            == t by {
            assert(here.contains(here[k]));
            lemma_on_level(v, side, t, here[k]);
        }
        if b < here.len() {
            assert(l[a] == here[a] && l[b] == here[b]);
        } else if a < here.len() {
            assert(l[a] == here[a] && l[b] == rest[b - here.len()]);
            assert(rest.contains(rest[b - here.len()]));
        } else {
            lemma_ascending(v, side, now, t + 1, a - here.len(), b - here.len());
        }
    }
}

/// A reap at slot `now` ends only orders of its side, at or above its start
/// tick, whose expiry slot has come; it ends the lowest of them first, counts
/// what it ended, and stops short of its count only when none is left. It
/// leaves all other orders as they are, and every seat holds what it held.
#[verifier::rlimit(30)]
pub proof fn lemma_reaps(d: ReapExpired, v: BookView, now: u64)
    requires
        v.ok(),
        v.solvent(),
    ensures
        ({
            let (w, n) = d.outcome(v, now);
            let stale = |i: u16|
                covers(v, d, i) && 0 < v.orders[i].expiry_slot && v.orders[i].expiry_slot <= now;
            &&& n <= d.max_count
            &&& w.orders.dom().len() + n == v.orders.dom().len()
            &&& forall|i: u16| #[trigger]
                w.orders.contains_key(i) ==> v.orders.contains_key(i) && w.orders[i]
                    == v.orders[i]
            &&& forall|i: u16| #[trigger]
                v.orders.contains_key(i) && !w.orders.contains_key(i) ==> stale(i)
            &&& n < d.max_count ==> forall|i: u16| #[trigger]
                w.orders.contains_key(i) ==> !stale(i)
            &&& forall|i: u16, j: u16|
                #![trigger v.orders.contains_key(i), w.orders.contains_key(j)]
                v.orders.contains_key(i) && !w.orders.contains_key(i) && w.orders.contains_key(j)
                    && stale(j) ==> v.orders[i].tick <= v.orders[j].tick
            &&& forall|s: int, base: bool|
                0 <= s < 128 ==> #[trigger] held(w.seats[s], base)
                    == held(v.seats[s], base)
        }),
{
    let (x, k) = v.reaped(d.side, d.start_tick, d.max_count, now);
    let (w, n) = d.outcome(v, now);
    lemma_reap(v, d.side, d.start_tick, d.max_count, now);
    let lo = v.header.anchor_tick as int;
    let t = if d.start_tick < lo {
        lo
    } else if d.start_tick > lo + 8191 {
        lo + 8191
    } else {
        d.start_tick as int
    };
    let l = v.stale_from(d.side, now, t);
    let p = l.take(k);
    lemma_stale(v, d.side, now, t);
    crate::custody::lemma_supplied(v);
    assert forall|m: int| 0 <= m < p.len() implies v.orders.contains_key(#[trigger] p[m]) by {
        assert(l.contains(l[m]));
    }
    assert(p.no_duplicates());
    crate::custody::lemma_killed_all_keeps(v, p);
    lemma_finite_below(v.orders.dom(), 0x10000);
    p.unique_seq_to_set();
    let gone = p.to_set();
    assert(gone.subset_of(v.orders.dom())) by {
        assert forall|i: u16| gone.contains(i) implies v.orders.dom().contains(i) by {
            let m = choose|m: int| 0 <= m < p.len() && p[m] == i;
            assert(v.orders.contains_key(p[m]));
        }
    }
    assert(w.orders.dom() == v.orders.dom().difference(gone));
    lemma_difference(v.orders.dom(), gone);
    let stale = |i: u16|
        covers(v, d, i) && 0 < v.orders[i].expiry_slot && v.orders[i].expiry_slot <= now;
    assert forall|i: u16| v.orders.contains_key(i) implies #[trigger] l.contains(i) == stale(
        i,
    ) by {
        assert(v.order_ok(i));
    }
    assert forall|i: u16| #[trigger] v.orders.contains_key(i) && !w.orders.contains_key(
        i,
    ) implies stale(i) by {
        assert(gone.contains(i));
        let m = choose|m: int| 0 <= m < p.len() && p[m] == i;
        assert(l[m] == i);
        assert(l.contains(i));
    }
    assert forall|i: u16| n < d.max_count && #[trigger] w.orders.contains_key(i) implies !stale(
        i,
    ) by {
        assert(p =~= l);
        assert(v.orders.contains_key(i));
        assert(w.orders.dom().contains(i));
        assert(!l.to_set().contains(i));
        assert(!l.contains(i));
    }
    assert forall|i: u16, j: u16|
        #![trigger v.orders.contains_key(i), w.orders.contains_key(j)]
        v.orders.contains_key(i) && !w.orders.contains_key(i) && w.orders.contains_key(j)
            && stale(j) implies v.orders[i].tick <= v.orders[j].tick by {
        assert(gone.contains(i));
        let a = choose|m: int| 0 <= m < p.len() && p[m] == i;
        assert(l[a] == i);
        assert(l.contains(j));
        let b = choose|m: int| 0 <= m < l.len() && l[m] == j;
        assert(w.orders.dom().contains(j));
        if b < k {
            assert(p[b] == j);
            assert(gone.contains(j));
        }
        lemma_ascending(v, d.side, now, t, a, b);
    }
    assert forall|s: int, base: bool| 0 <= s < 128 implies #[trigger] held(
        w.seats[s],
        base,
    ) == held(v.seats[s], base) by {
        assert(held(x.seats[s], base) == held(v.seats[s], base));
    }
}

/// What a part of a set leaves.
proof fn lemma_difference(a: Set<u16>, b: Set<u16>)
    requires
        a.finite(),
        b.subset_of(a),
    ensures
        a.difference(b).len() + b.len() == a.len(),
{
    vstd::set_lib::lemma_set_disjoint_lens(a.difference(b), b);
    assert(a.difference(b).union(b) =~= a);
    assert(a.difference(b).disjoint(b));
}

} // verus!
