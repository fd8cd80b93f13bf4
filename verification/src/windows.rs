//! Laws of book hygiene: what a moving window and a reaper end, and what they
//! leave alone.

use crate::cranks::{Reanchor, ReapExpired};
use crate::custody::{
    emptied,
    keeps,
    lemma_bump_keeps,
    lemma_cleared_keeps,
    lemma_keeps_owed,
    lemma_keeps_refl,
    lemma_keeps_trans,
    lemma_killed_all_keeps,
    lemma_supplied,
    supplied,
};
use crate::lists::lemma_total_agree;
use crate::market::Market;
use crate::model::{in_window, lemma_market_ok, market_ok, slot, BookView};
use crate::side::Side;
use vstd::prelude::*;

verus! {

/// Numbers less than a ring apart share a slot only if they are equal.
proof fn lemma_same_mod(a: int, b: int)
    requires
        a % 8192 == b % 8192,
        -8192 < a - b < 8192,
    ensures
        a == b,
{
}

/// In a window that starts at `lo`, emptying a word's slots ends the word's
/// ticks.
proof fn lemma_word_emptied(tick: u32, lo: int, t: int)
    requires
        lo <= tick <= lo + 8191,
        lo <= t <= lo + 8128,
    ensures
        emptied(tick, t, 64) == (t <= tick < t + 64),
{
    if emptied(tick, t, 64) {
        let j = choose|j: int| 0 <= j < 64 && #[trigger] ((t + j) % 8192) == slot(tick);
        lemma_same_mod(t + j, tick as int);
    }
    if t <= tick < t + 64 {
        assert((t + (tick - t)) % 8192 == slot(tick));
    }
}

proof fn lemma_levels_bound(v: BookView, t: int, n: nat)
    ensures
        0 <= v.levels_in(t, n) <= n,
    decreases n,
{
    if n > 0 {
        lemma_levels_bound(v, t, (n - 1) as nat);
    }
}

/// Whether any order rests at a tick.
pub open spec fn rests_at(v: BookView, t: int) -> bool {
    exists|i: u16| #[trigger] v.orders.contains_key(i) && v.orders[i].tick == t
}

/// How many of the `n` ticks from `t` on have an order.
pub open spec fn occupied(v: BookView, t: int, n: nat) -> int
    decreases n,
{
    if n == 0 {
        0
    } else {
        occupied(v, t, (n - 1) as nat) + if rests_at(v, t + n - 1) {
            1int
        } else {
            0
        }
    }
}

/// A run of ticks has the orders of its two parts.
proof fn lemma_occupied_split(v: BookView, t: int, a: nat, b: nat)
    ensures
        occupied(v, t, a + b) == occupied(v, t, a) + occupied(v, t + a, b),
    decreases b,
{
    if b > 0 {
        lemma_occupied_split(v, t, a, (b - 1) as nat);
        assert((a + b - 1) as nat == a + (b - 1) as nat);
        assert(t + (a + b) - 1 == t + a + b - 1);
    }
}

/// Only the orders of those ticks count.
proof fn lemma_occupied_agree(v: BookView, w: BookView, t: int, n: nat)
    requires
        forall|i: u16|
            #![trigger w.orders.contains_key(i)]
            #![trigger v.orders.contains_key(i)]
            (w.orders.contains_key(i) && t <= w.orders[i].tick < t + n) == (v.orders.contains_key(i)
                && t <= v.orders[i].tick < t + n) && (w.orders.contains_key(i) && v.orders.contains_key(
                i,
            ) ==> w.orders[i] == v.orders[i]),
    ensures
        occupied(w, t, n) == occupied(v, t, n),
    decreases n,
{
    if n > 0 {
        lemma_occupied_agree(v, w, t, (n - 1) as nat);
        let k = t + n - 1;
        if rests_at(v, k) {
            let i = choose|i: u16| #[trigger] v.orders.contains_key(i) && v.orders[i].tick == k;
            assert(w.orders.contains_key(i));
        }
        if rests_at(w, k) {
            let i = choose|i: u16| #[trigger] w.orders.contains_key(i) && w.orders[i].tick == k;
            assert(v.orders.contains_key(i));
        }
    }
}

/// The levels of a word are its ticks, as long as no tick elsewhere shares one
/// of its ring slots.
proof fn lemma_levels_are_ticks(v: BookView, t: int, n: nat)
    requires
        v.structured(),
        n <= 64,
        forall|i: u16| #[trigger]
            v.orders.contains_key(i) && emptied(v.orders[i].tick, t, 64) ==> t <= v.orders[i].tick
                < t + 64,
    ensures
        v.levels_in(t, n) == occupied(v, t, n),
    decreases n,
{
    if n > 0 {
        lemma_levels_are_ticks(v, t, (n - 1) as nat);
        let k = t + n - 1;
        let q = v.queues[k % 8192];
        assert(v.queue_ok(k % 8192));
        if q.len() > 0 {
            let i = q[0];
            assert(v.orders.contains_key(i));
            assert((t + (n - 1)) % 8192 == slot(v.orders[i].tick));
            assert(emptied(v.orders[i].tick, t, 64));
            lemma_same_mod(k, v.orders[i].tick as int);
            assert(rests_at(v, k));
        }
        if rests_at(v, k) {
            let i = choose|i: u16| #[trigger] v.orders.contains_key(i) && v.orders[i].tick == k;
            assert(v.order_ok(i));
        }
    }
}

/// The orders of `w` are those of `v` with a tick from `lo` to `hi`.
pub open spec fn restricted(v: BookView, w: BookView, lo: int, hi: int) -> bool {
    forall|i: u16|
        #![trigger w.orders.contains_key(i)]
        #![trigger v.orders.contains_key(i)]
        w.orders.contains_key(i) == (v.orders.contains_key(i) && lo <= v.orders[i].tick <= hi) && (
        w.orders.contains_key(i) ==> w.orders[i] == v.orders[i])
}

proof fn lemma_up(v: BookView, cur: int, goal: int, evicted: int, budget: int)
    requires
        v.ok(),
        supplied(v),
        cur % 64 == 0,
        goal % 64 == 0,
        v.header.anchor_tick <= cur <= goal,
        restricted(v, v, cur, v.header.anchor_tick + 8191),
    ensures
        ({
            let (w, n, at) = v.moved_up(cur, goal, evicted, budget);
            &&& keeps(v, w)
            &&& supplied(w)
            &&& w.header == v.header
            &&& cur <= at <= goal
            &&& at % 64 == 0
            &&& evicted <= n
            &&& n <= evicted || n <= budget + 63
            &&& at < goal ==> n >= budget
            &&& restricted(v, w, at, v.header.anchor_tick + 8191)
            &&& n == evicted + occupied(v, cur, (at - cur) as nat)
        }),
    decreases
        if goal > cur {
            goal - cur
        } else {
            0
        },
{
    let lo = v.header.anchor_tick as int;
    if cur < goal && evicted < budget {
        let x = v.cleared(cur, 64);
        lemma_cleared_keeps(v, cur, 64);
        lemma_levels_bound(v, cur, 64);
        assert(restricted(v, x, cur + 64, lo + 8191)) by {
            assert forall|i: u16|
                #![trigger x.orders.contains_key(i)]
                #![trigger v.orders.contains_key(i)]
                x.orders.contains_key(i) == (v.orders.contains_key(i) && cur + 64
                    <= v.orders[i].tick <= lo + 8191) && (x.orders.contains_key(i)
                    ==> x.orders[i] == v.orders[i]) by {
                if v.orders.contains_key(i) {
                    assert(v.orders[i].tick >= cur);
                    if cur <= lo + 8128 {
                        lemma_word_emptied(v.orders[i].tick, lo, cur);
                    }
                }
            }
        }
        assert(restricted(x, x, cur + 64, lo + 8191));
        let e = evicted + v.levels_in(cur, 64);
        lemma_up(x, cur + 64, goal, e, budget);
        let (w, n, at) = v.moved_up(cur, goal, evicted, budget);
        assert forall|i: u16| #[trigger]
            v.orders.contains_key(i) && emptied(v.orders[i].tick, cur, 64) implies cur
            <= v.orders[i].tick < cur + 64 by {
            lemma_word_emptied(v.orders[i].tick, lo, cur);
        }
        lemma_levels_are_ticks(v, cur, 64);
        lemma_occupied_agree(v, x, cur + 64, (at - cur - 64) as nat);
        lemma_occupied_split(v, cur, 64, (at - cur - 64) as nat);
        assert((64 + (at - cur - 64) as nat) as nat == (at - cur) as nat);
        lemma_keeps_trans(v, x, w);
        assert(restricted(v, w, at, lo + 8191)) by {
            assert forall|i: u16|
                #![trigger w.orders.contains_key(i)]
                #![trigger v.orders.contains_key(i)]
                w.orders.contains_key(i) == (v.orders.contains_key(i) && at <= v.orders[i].tick
                    <= lo + 8191) && (w.orders.contains_key(i) ==> w.orders[i]
                    == v.orders[i]) by {
                assert(x.orders.contains_key(i) == x.orders.contains_key(i));
            }
        }
    } else {
        lemma_keeps_refl(v);
    }
}

proof fn lemma_down(v: BookView, cur: int, goal: int, evicted: int, budget: int)
    requires
        v.ok(),
        supplied(v),
        cur % 64 == 0,
        goal % 64 == 0,
        0 <= goal <= cur <= v.header.anchor_tick,
        restricted(v, v, v.header.anchor_tick as int, cur + 8191),
    ensures
        ({
            let (w, n, at) = v.moved_down(cur, goal, evicted, budget);
            &&& keeps(v, w)
            &&& supplied(w)
            &&& w.header == v.header
            &&& goal <= at <= cur
            &&& at % 64 == 0
            &&& evicted <= n
            &&& n <= evicted || n <= budget + 63
            &&& at > goal ==> n >= budget
            &&& restricted(v, w, v.header.anchor_tick as int, at + 8191)
            &&& n == evicted + occupied(v, at + 8192, (cur - at) as nat)
        }),
    decreases
        if cur > goal {
            cur - goal
        } else {
            0
        },
{
    let lo = v.header.anchor_tick as int;
    if cur > goal && evicted < budget {
        let x = v.cleared(cur + 8128, 64);
        lemma_cleared_keeps(v, cur + 8128, 64);
        lemma_levels_bound(v, cur + 8128, 64);
        assert(restricted(v, x, lo, cur - 64 + 8191)) by {
            assert forall|i: u16|
                #![trigger x.orders.contains_key(i)]
                #![trigger v.orders.contains_key(i)]
                x.orders.contains_key(i) == (v.orders.contains_key(i) && lo <= v.orders[i].tick
                    <= cur - 64 + 8191) && (x.orders.contains_key(i) ==> x.orders[i]
                    == v.orders[i]) by {
                if v.orders.contains_key(i) {
                    assert(v.orders[i].tick <= cur + 8191);
                    lemma_word_emptied(v.orders[i].tick, cur, cur + 8128);
                }
            }
        }
        assert(restricted(x, x, lo, cur - 64 + 8191));
        let e = evicted + v.levels_in(cur + 8128, 64);
        lemma_down(x, cur - 64, goal, e, budget);
        let (w, n, at) = v.moved_down(cur, goal, evicted, budget);
        assert forall|i: u16| #[trigger]
            v.orders.contains_key(i) && emptied(v.orders[i].tick, cur + 8128, 64) implies cur + 8128
            <= v.orders[i].tick < cur + 8128 + 64 by {
            lemma_word_emptied(v.orders[i].tick, cur, cur + 8128);
        }
        lemma_levels_are_ticks(v, cur + 8128, 64);
        lemma_occupied_agree(v, x, at + 8192, (cur - 64 - at) as nat);
        lemma_occupied_split(v, at + 8192, (cur - 64 - at) as nat, 64);
        assert(((cur - 64 - at) as nat + 64) as nat == (cur - at) as nat);
        lemma_keeps_trans(v, x, w);
        assert(restricted(v, w, lo, at + 8191)) by {
            assert forall|i: u16|
                #![trigger w.orders.contains_key(i)]
                #![trigger v.orders.contains_key(i)]
                w.orders.contains_key(i) == (v.orders.contains_key(i) && lo <= v.orders[i].tick
                    <= at + 8191) && (w.orders.contains_key(i) ==> w.orders[i]
                    == v.orders[i]) by {
                assert(x.orders.contains_key(i) == x.orders.contains_key(i));
            }
        }
    } else {
        lemma_keeps_refl(v);
    }
}

/// A window start may change as long as all orders stay inside.
proof fn lemma_window(v: BookView, at: u32)
    requires
        v.ok(),
        market_ok(v.header),
        at % 64 == 0,
        at >= 64,
        at + 8191 <= v.header.tick_limit,
        forall|i: u16| #[trigger]
            v.orders.contains_key(i) ==> at <= v.orders[i].tick <= at + 8191,
    ensures
        keeps(v, BookView { header: Market { anchor_tick: at, ..v.header }, ..v }),
{
    let h = Market { anchor_tick: at, ..v.header };
    let w = BookView { header: h, ..v };
    lemma_market_ok(v.header);
    let x = (at + 8191) as int;
    let l = h.tick_limit as int;
    let ts = h.tick_size as int;
    let ml = h.max_lots_per_order as int;
    assert(x * ts * ml <= l * ts * ml) by (nonlinear_arith)
        requires
            0 <= x <= l,
            0 <= ts,
            0 <= ml,
    ;
    reveal(BookView::uncrossed);
    assert forall|i: u16| w.orders.contains_key(i) implies #[trigger] w.order_ok(i) by {
        assert(v.order_ok(i));
    }
    assert forall|t: int| 0 <= t < 8192 implies #[trigger] w.queue_ok(t) by {
        assert(v.queue_ok(t));
    }
    assert forall|t: int| 0 <= t < 128 implies #[trigger] w.chain_ok(t) by {
        assert(v.chain_ok(t));
    }
    assert forall|t: int, base: bool| 0 <= t < 128 implies #[trigger] w.surplus(t, base)
        == v.surplus(t, base) by {
        lemma_total_agree(v.chains[t], w.locks(base), v.locks(base));
    }
    assert forall|t: int, base: bool| 0 <= t < 128 implies #[trigger] w.surplus(t, base)
        >= 0 by {
        assert(v.surplus(t, base) >= 0);
    }
}

/// Moving the window ends exactly the orders that the new window does not
/// cover, refunds them, and touches no other order. The window starts at a
/// whole word, and either reaches its goal or has spent its budget, which it
/// exceeds by less than a word.
pub proof fn lemma_reanchor(v: BookView, target: u32, max_levels: u32)
    requires
        v.ok(),
        market_ok(v.header),
        v.solvent(),
    ensures
        ({
            let (w, n, at) = v.reanchored(target, max_levels);
            &&& keeps(v, w)
            &&& w.owed(true) == v.owed(true)
            &&& w.owed(false) == v.owed(false)
            &&& w.header.anchor_tick == at
            &&& at % 64 == 0
            &&& 0 <= n <= max_levels + 63
            &&& at != v.anchor_for(target) ==> n >= max_levels
            &&& forall|i: u16|
                #![trigger w.orders.contains_key(i)]
                #![trigger v.orders.contains_key(i)]
                w.orders.contains_key(i) == (v.orders.contains_key(i) && in_window(
                    w.header,
                    v.orders[i].tick,
                )) && (w.orders.contains_key(i) ==> w.orders[i] == v.orders[i])
        }),
{
    let goal = v.anchor_for(target);
    let lo = v.header.anchor_tick as int;
    lemma_supplied(v);
    let top = (v.header.tick_limit - 8191) / 64 * 64;
    assert(top >= lo);
    assert(goal % 64 == 0 && 64 <= goal && goal + 8191 <= v.header.tick_limit);
    assert(restricted(v, v, lo, lo + 8191)) by {
        assert forall|i: u16| #[trigger] v.orders.contains_key(i) implies lo <= v.orders[i].tick
            <= lo + 8191 by {
            assert(v.order_ok(i));
        }
    }
    let (x, n, at) = if goal > lo {
        v.moved_up(lo, goal, 0, max_levels as int)
    } else {
        v.moved_down(lo, goal, 0, max_levels as int)
    };
    if goal > lo {
        lemma_up(v, lo, goal, 0, max_levels as int);
    } else {
        lemma_down(v, lo, goal, 0, max_levels as int);
    }
    let w = v.reanchored(target, max_levels).0;
    assert forall|i: u16| #[trigger] x.orders.contains_key(i) implies at <= x.orders[i].tick <= at
        + 8191 by {
        assert(v.orders.contains_key(i));
    }
    lemma_keeps_owed(v, x);
    lemma_window(x, at as u32);
    lemma_keeps_trans(v, x, w);
    lemma_keeps_owed(v, w);
}

/// How many levels a move ends.
proof fn lemma_reanchor_counts(v: BookView, target: u32, max_levels: u32)
    requires
        v.ok(),
        market_ok(v.header),
        v.solvent(),
    ensures
        ({
            let (w, n, at) = v.reanchored(target, max_levels);
            let from = v.header.anchor_tick as int;
            let goal = v.anchor_for(target);
            &&& goal > from ==> from <= at <= goal && n == occupied(v, from, (at - from) as nat)
            &&& goal <= from ==> goal <= at <= from && n == occupied(
                v,
                at + 8192,
                (from - at) as nat,
            )
            &&& 0 <= n <= u32::MAX
            &&& asked_start(v.header, target, goal)
        }),
{
    let goal = v.anchor_for(target);
    let lo = v.header.anchor_tick as int;
    lemma_supplied(v);
    let top = (v.header.tick_limit - 8191) / 64 * 64;
    assert(top >= lo);
    assert(goal % 64 == 0 && 64 <= goal && goal + 8191 <= v.header.tick_limit);
    assert(restricted(v, v, lo, lo + 8191)) by {
        assert forall|i: u16| #[trigger] v.orders.contains_key(i) implies lo <= v.orders[i].tick
            <= lo + 8191 by {
            assert(v.order_ok(i));
        }
    }
    if goal > lo {
        lemma_up(v, lo, goal, 0, max_levels as int);
        let at = v.reanchored(target, max_levels).2;
        lemma_occupied_bound(v, lo, (at - lo) as nat);
    } else {
        lemma_down(v, lo, goal, 0, max_levels as int);
        let at = v.reanchored(target, max_levels).2;
        lemma_occupied_bound(v, at + 8192, (lo - at) as nat);
    }
}

proof fn lemma_occupied_bound(v: BookView, t: int, n: nat)
    ensures
        0 <= occupied(v, t, n) <= n,
    decreases n,
{
    if n > 0 {
        lemma_occupied_bound(v, t, (n - 1) as nat);
    }
}

/// The window start that a target asks for: the highest whole word not above
/// the target, nor below 64, from which the window ends within the tick limit.
pub open spec fn asked_start(h: Market, target: u32, g: int) -> bool {
    let want = if target > 64 {
        target as int
    } else {
        64
    };
    &&& g % 64 == 0
    &&& 64 <= g <= want
    &&& g + 8191 <= h.tick_limit
    &&& g + 64 <= want ==> g + 64 + 8191 > h.tick_limit
}

/// The window moves towards the start that its target asks for. It gets there,
/// or stops as soon as it has ended the orders of as many ticks as it may; the
/// count is of the ticks that had orders and are no longer in the window.
pub proof fn lemma_moves(d: Reanchor, v: BookView)
    requires
        v.ok(),
        market_ok(v.header),
        v.solvent(),
    ensures
        ({
            let (w, (n, at)) = d.outcome(v);
            let from = v.header.anchor_tick;
            &&& w.header.anchor_tick == at
            &&& at % 64 == 0
            &&& n <= d.max_levels + 63
            &&& n < d.max_levels ==> asked_start(v.header, d.target_anchor, at as int)
            &&& at > from ==> at <= d.target_anchor && n == occupied(
                v,
                from as int,
                (at - from) as nat,
            )
            &&& at < from ==> at + 64 > d.target_anchor && n == occupied(
                v,
                at + 8192,
                (from - at) as nat,
            )
            &&& at == from ==> n == 0
            &&& forall|i: u16|
                #![trigger w.orders.contains_key(i)]
                #![trigger v.orders.contains_key(i)]
                w.orders.contains_key(i) == (v.orders.contains_key(i) && at <= v.orders[i].tick
                    <= at + 8191) && (w.orders.contains_key(i) ==> w.orders[i] == v.orders[i])
        }),
{
    lemma_reanchor(v, d.target_anchor, d.max_levels);
    lemma_reanchor_counts(v, d.target_anchor, d.max_levels);
}

/// Every listed order is expired, of one side, at or above a tick, and rests
/// in the book; none is listed twice.
pub proof fn lemma_stale(v: BookView, side: Side, now: u64, t: int)
    requires
        v.structured(),
        t >= v.header.anchor_tick,
    ensures
        ({
            let l = v.stale_from(side, now, t);
            &&& l.no_duplicates()
            &&& forall|i: u16|
                #[trigger] l.contains(i) <==> (v.orders.contains_key(i) && v.orders[i].side == side
                    && v.orders[i].expired(now) && v.orders[i].tick >= t)
        }),
    decreases v.header.anchor_tick + 8192 - t,
{
    let l = v.stale_from(side, now, t);
    if t > v.header.anchor_tick + 8191 {
        assert forall|i: u16|
            #[trigger] l.contains(i) <==> (v.orders.contains_key(i) && v.orders[i].side == side
                && v.orders[i].expired(now) && v.orders[i].tick >= t) by {
            if v.orders.contains_key(i) {
                assert(v.order_ok(i));
            }
        }
    } else {
        lemma_stale(v, side, now, t + 1);
        let rest = v.stale_from(side, now, t + 1);
        let q = v.queues[t % 8192];
        let here = if v.quoted(side, t) {
            v.stale_in(q, now, 0)
        } else {
            seq![]
        };
        assert(l == here + rest);
        assert(v.queue_ok(t % 8192));
        lemma_stale_in(v, q, now, 0);
        assert forall|i: u16| #[trigger] here.contains(i) <==> (v.orders.contains_key(i)
            && v.orders[i].side == side && v.orders[i].expired(now) && v.orders[i].tick == t) by {
            lemma_on_level(v, side, t, i);
            if v.quoted(side, t) && q.contains(i) {
                let k = choose|k: int| 0 <= k < q.len() && q[k] == i;
                assert(v.orders.contains_key(q[k]));
            }
        }
        assert forall|i: u16| #[trigger] l.contains(i) <==> (here.contains(i) || rest.contains(
            i,
        )) by {
            if here.contains(i) {
                let k = choose|k: int| 0 <= k < here.len() && here[k] == i;
                assert(l[k] == i);
            }
            if rest.contains(i) {
                let k = choose|k: int| 0 <= k < rest.len() && rest[k] == i;
                assert(l[here.len() + k] == i);
            }
            if l.contains(i) {
                let k = choose|k: int| 0 <= k < l.len() && l[k] == i;
                if k < here.len() {
                    assert(here[k] == i);
                } else {
                    assert(rest[k - here.len()] == i);
                }
            }
        }
        assert(l.no_duplicates()) by {
            assert forall|a: int, b: int| 0 <= a < l.len() && 0 <= b < l.len() && a != b implies l[a]
                != l[b] by {
                if a < here.len() && b >= here.len() {
                    assert(here.contains(here[a]));
                    assert(rest.contains(rest[b - here.len()]));
                } else if b < here.len() && a >= here.len() {
                    assert(here.contains(here[b]));
                    assert(rest.contains(rest[a - here.len()]));
                } else if a < here.len() {
                    assert(here[a] != here[b]);
                } else {
                    assert(rest[a - here.len()] != rest[b - here.len()]);
                }
            }
        }
    }
}

/// What a level's queue holds of a side that is quoted there.
pub proof fn lemma_on_level(v: BookView, side: Side, t: int, i: u16)
    requires
        v.structured(),
        v.header.anchor_tick <= t <= v.header.anchor_tick + 8191,
    ensures
        v.quoted(side, t) ==> (v.queues[t % 8192].contains(i) <==> v.orders.contains_key(i)
            && v.orders[i].side == side && v.orders[i].tick == t),
        !v.quoted(side, t) ==> !(v.orders.contains_key(i) && v.orders[i].side == side
            && v.orders[i].tick == t),
{
    let q = v.queues[t % 8192];
    assert(v.queue_ok(t % 8192));
    if v.orders.contains_key(i) {
        assert(v.order_ok(i));
    }
    if v.quoted(side, t) && q.contains(i) {
        let k = choose|k: int| 0 <= k < q.len() && q[k] == i;
        assert(v.orders.contains_key(q[k]));
        assert(v.order_ok(i));
        lemma_same_mod(v.orders[i].tick as int, t);
        let j = choose|j: u16|
            #[trigger] v.orders.contains_key(j) && v.orders[j].side == side && v.orders[j].tick
                == t;
        reveal(BookView::uncrossed);
        if v.orders[i].side != side {
            assert(v.orders[i].tick == v.orders[j].tick);
        }
    }
}

/// The expired orders of a queue from a position on.
pub proof fn lemma_stale_in(v: BookView, q: Seq<u16>, now: u64, k: int)
    requires
        q.no_duplicates(),
        0 <= k,
    ensures
        ({
            let l = v.stale_in(q, now, k);
            &&& l.no_duplicates()
            &&& forall|i: u16|
                #[trigger] l.contains(i) <==> v.orders[i].expired(now) && exists|j: int|
                    k <= j < q.len() && #[trigger] q[j] == i
        }),
    decreases q.len() - k,
{
    let l = v.stale_in(q, now, k);
    if k < q.len() {
        lemma_stale_in(v, q, now, k + 1);
        let rest = v.stale_in(q, now, k + 1);
        if v.orders[q[k]].expired(now) {
            assert(l == seq![q[k]] + rest);
            assert(!rest.contains(q[k]));
            assert forall|i: u16| #[trigger] l.contains(i) <==> (i == q[k] || rest.contains(i)) by {
                if rest.contains(i) {
                    let j = choose|j: int| 0 <= j < rest.len() && rest[j] == i;
                    assert(l[j + 1] == i);
                }
                if l.contains(i) {
                    let j = choose|j: int| 0 <= j < l.len() && l[j] == i;
                    if j > 0 {
                        assert(rest[j - 1] == i);
                    }
                }
                assert(l[0] == q[k]);
            }
            assert forall|a: int, b: int|
                0 <= a < l.len() && 0 <= b < l.len() && a != b implies l[a] != l[b] by {
                if a > 0 && b > 0 {
                    assert(rest[a - 1] != rest[b - 1]);
                } else if a > 0 {
                    assert(rest.contains(rest[a - 1]));
                } else {
                    assert(rest.contains(rest[b - 1]));
                }
            }
        }
        assert forall|i: u16| #[trigger] l.contains(i) <==> v.orders[i].expired(now) && exists|
            j: int,
        |
            k <= j < q.len() && #[trigger] q[j] == i by {
            if v.orders[i].expired(now) && exists|j: int| k <= j < q.len() && #[trigger] q[j] == i {
                let j = choose|j: int| k <= j < q.len() && #[trigger] q[j] == i;
                if j > k {
                    assert(rest.contains(i));
                }
            }
            if rest.contains(i) {
                let j = choose|j: int| k + 1 <= j < q.len() && #[trigger] q[j] == i;
                assert(q[j] == i);
            }
        }
    }
}

/// A reap ends expired orders of its side only, at most as many as it was
/// asked for, refunds them, and touches no other order. If it ends fewer, no
/// expired order of the side is left from its start tick on.
pub proof fn lemma_reap(v: BookView, side: Side, start_tick: u32, max_count: u32, now: u64)
    requires
        v.ok(),
        v.solvent(),
    ensures
        ({
            let (w, n) = v.reaped(side, start_tick, max_count, now);
            &&& keeps(v, w)
            &&& w.owed(true) == v.owed(true)
            &&& w.owed(false) == v.owed(false)
            &&& 0 <= n <= max_count
            &&& forall|i: u16| #[trigger]
                w.orders.contains_key(i) ==> v.orders.contains_key(i) && w.orders[i]
                    == v.orders[i]
            &&& forall|i: u16| #[trigger]
                v.orders.contains_key(i) && !w.orders.contains_key(i) ==> v.orders[i].side == side
                    && v.orders[i].expired(now)
            &&& n < max_count ==> forall|i: u16| #[trigger]
                w.orders.contains_key(i) && w.orders[i].side == side && w.orders[i].tick
                    >= start_tick && start_tick <= v.header.anchor_tick + 8191
                    ==> !w.orders[i].expired(now)
        }),
{
    lemma_supplied(v);
    let lo = v.header.anchor_tick as int;
    let t = if start_tick < lo {
        lo
    } else if start_tick > lo + 8191 {
        lo + 8191
    } else {
        start_tick as int
    };
    let l = v.stale_from(side, now, t);
    let (w, n) = v.reaped(side, start_tick, max_count, now);
    lemma_stale(v, side, now, t);
    let p = l.take(n);
    assert forall|k: int| 0 <= k < p.len() implies v.orders.contains_key(#[trigger] p[k]) by {
        assert(l.contains(l[k]));
    }
    assert(p.no_duplicates());
    lemma_killed_all_keeps(v, p);
    lemma_keeps_owed(v, w);
    assert forall|i: u16| #[trigger] v.orders.contains_key(i) && !w.orders.contains_key(i) implies
        v.orders[i].side == side && v.orders[i].expired(now) by {
        assert(p.to_set().contains(i));
        let k = choose|k: int| 0 <= k < p.len() && p[k] == i;
        assert(l.contains(l[k]));
    }
    if n < max_count {
        assert(p =~= l);
        assert forall|i: u16|
            #[trigger] w.orders.contains_key(i) && w.orders[i].side == side && w.orders[i].tick
                >= start_tick && start_tick <= lo + 8191 implies !w.orders[i].expired(now) by {
            assert(v.orders.contains_key(i));
            assert(v.order_ok(i));
            assert(w.orders.dom().contains(i));
            assert(!l.to_set().contains(i));
            assert(!l.contains(i));
        }
    }
}

/// The cranks move no value.
pub proof fn lemma_cranks_keep(v: BookView, a: Reanchor, b: ReapExpired, slot: u64)
    requires
        v.ok(),
        market_ok(v.header),
        v.solvent(),
    ensures
        keeps(v, a.outcome(v).0),
        keeps(v, b.outcome(v, slot).0),
{
    lemma_reanchor(v, a.target_anchor, a.max_levels);
    let w = v.reanchored(a.target_anchor, a.max_levels).0;
    lemma_bump_keeps(w);
    lemma_keeps_trans(v, w, w.bumped());
    lemma_reap(v, b.side, b.start_tick, b.max_count, slot);
    let x = v.reaped(b.side, b.start_tick, b.max_count, slot).0;
    lemma_bump_keeps(x);
    lemma_keeps_trans(v, x, x.bumped());
}

} // verus!
