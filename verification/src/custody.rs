//! Operations that trade nothing leave every seat with exactly what it held.

use crate::flow::{lemma_killed_flow, lemma_total_covers};
use crate::market::Market;
use crate::model::{
    atoms,
    held,
    in_window,
    key,
    locks_base,
    market_ok,
    slid,
    slot,
    total_held,
    BookView,
    Merge,
    Order,
};
use crate::orders::{
    clear_of,
    lemma_best_in_window,
    lemma_best_unique,
    lemma_killed_quote,
    lemma_quote_at,
    lemma_rank,
    lemma_rank_agree,
    lemma_slid_clear,
};
use crate::quote::Quote;
use crate::seat::{no_owner, Seat};
use crate::side::Side;
use crate::steps::{
    lemma_atoms_bound,
    lemma_atoms_split,
    lemma_header_changed,
    lemma_killed,
    lemma_lock_and_post,
    lemma_lock_available,
    lemma_refreshed,
    lemma_shrunk,
    postable,
    sorted_at,
};
use vstd::prelude::*;

verus! {

/// No seat holds more of an asset than a mint can issue.
pub open spec fn supplied(v: BookView) -> bool {
    forall|s: int| 0 <= s < 128 ==> (#[trigger] v.seats[s]).within_supply()
}

/// In a solvent book no seat holds more than a mint can issue.
pub proof fn lemma_supplied(v: BookView)
    requires
        v.seats.len() == 128,
        v.solvent(),
    ensures
        supplied(v),
{
    assert forall|s: int| 0 <= s < 128 implies (#[trigger] v.seats[s]).within_supply() by {
        lemma_total_covers(v.seats, s, s, true);
        lemma_total_covers(v.seats, s, s, false);
    }
}

/// From `v` to `w` no value moved between seats: every seat holds what it held,
/// of each asset, has locked exactly as much more or less as its orders need,
/// and belongs to whom it belonged; fees and terms are unchanged; and the book
/// is consistent.
pub open spec fn keeps(v: BookView, w: BookView) -> bool {
    &&& w.ok()
    &&& w.header == (Market {
        seq: w.header.seq,
        order_seq: w.header.order_seq,
        anchor_tick: w.header.anchor_tick,
        ..v.header
    })
    &&& forall|s: int, base: bool|
        0 <= s < 128 ==> #[trigger] w.surplus(s, base) == v.surplus(s, base)
    &&& forall|s: int, base: bool|
        0 <= s < 128 ==> #[trigger] held(w.seats[s], base) == held(v.seats[s], base)
    &&& forall|s: int| 0 <= s < 128 ==> (#[trigger] w.seats[s]).owner == v.seats[s].owner
}

pub proof fn lemma_keeps_trans(u: BookView, v: BookView, w: BookView)
    requires
        keeps(u, v),
        keeps(v, w),
    ensures
        keeps(u, w),
{
    assert forall|s: int, base: bool| 0 <= s < 128 implies #[trigger] w.surplus(s, base)
        == u.surplus(s, base) by {
        assert(v.surplus(s, base) == u.surplus(s, base));
    }
    assert forall|s: int, base: bool| 0 <= s < 128 implies #[trigger] held(w.seats[s], base)
        == held(u.seats[s], base) by {
        assert(held(v.seats[s], base) == held(u.seats[s], base));
    }
    assert forall|s: int| 0 <= s < 128 implies (#[trigger] w.seats[s]).owner
        == u.seats[s].owner by {
        assert(v.seats[s].owner == u.seats[s].owner);
    }
}

/// A book that keeps value owes what it owed.
pub proof fn lemma_keeps_owed(v: BookView, w: BookView)
    requires
        keeps(v, w),
        v.seats.len() == 128,
    ensures
        w.owed(true) == v.owed(true),
        w.owed(false) == v.owed(false),
        supplied(v) ==> supplied(w),
        market_ok(v.header) ==> market_ok(w.header),
{
    lemma_same_totals(v.seats, w.seats, true);
    lemma_same_totals(v.seats, w.seats, false);
    if supplied(v) {
        assert forall|s: int| 0 <= s < 128 implies (#[trigger] w.seats[s]).within_supply() by {
            assert(v.seats[s].within_supply());
            assert(held(w.seats[s], true) == held(v.seats[s], true));
            assert(held(w.seats[s], false) == held(v.seats[s], false));
        }
    }
}

pub proof fn lemma_same_totals(a: Seq<Seat>, b: Seq<Seat>, base: bool)
    requires
        a.len() == b.len(),
        forall|s: int| 0 <= s < a.len() ==> #[trigger] held(b[s], base) == held(a[s], base),
    ensures
        total_held(a, base) == total_held(b, base),
    decreases a.len(),
{
    if a.len() > 0 {
        assert forall|s: int| 0 <= s < a.drop_last().len() implies #[trigger] held(
            b.drop_last()[s],
            base,
        ) == held(a.drop_last()[s], base) by {
            assert(held(b[s], base) == held(a[s], base));
        }
        lemma_same_totals(a.drop_last(), b.drop_last(), base);
        assert(held(b[b.len() - 1], base) == held(a[a.len() - 1], base));
    }
}

/// Ending an order refunds its lock to its maker, and no one else is touched.
pub proof fn lemma_kill_keeps(v: BookView, i: u16)
    requires
        v.ok(),
        supplied(v),
        v.orders.contains_key(i),
    ensures
        keeps(v, v.killed(i)),
        supplied(v.killed(i)),
{
    let m = v.orders[i].maker as int;
    assert(v.order_ok(i));
    assert(v.seats[m].within_supply());
    lemma_killed(v, i);
    lemma_killed_flow(v, i);
    lemma_keeps_owed(v, v.killed(i));
}

/// Shrinking an order in place refunds the difference.
pub proof fn lemma_shrink_keeps(v: BookView, i: u16, lots: u32, expiry_slot: u32)
    requires
        v.ok(),
        supplied(v),
        v.orders.contains_key(i),
        1 <= lots <= v.orders[i].lots,
    ensures
        keeps(v, v.shrunk(i, lots).refreshed(i, expiry_slot)),
        supplied(v.shrunk(i, lots).refreshed(i, expiry_slot)),
{
    let o = v.orders[i];
    let m = o.maker as int;
    let x = v.shrunk(i, lots);
    let w = x.refreshed(i, expiry_slot);
    assert(v.order_ok(i));
    assert(v.seats[m].within_supply());
    lemma_shrunk(v, i, lots);
    lemma_refreshed(x, i, expiry_slot);
    lemma_lock_available(v, i);
    lemma_atoms_split(v.header, o.side, o.tick, lots as int, o.lots - lots);
    lemma_atoms_bound(v.header, o.side, o.tick, lots as int);
    lemma_atoms_bound(v.header, o.side, o.tick, o.lots - lots);
    assert(w.seats == x.seats);
    assert forall|s: int, base: bool| 0 <= s < 128 implies #[trigger] held(w.seats[s], base)
        == held(v.seats[s], base) by {
        if s == m {
            assert(x.seats[s] == v.seats[m].spec_unlock(
                locks_base(o.side),
                atoms(v.header, o.side, o.tick, o.lots - lots),
            ));
        }
    }
    assert forall|s: int, base: bool| 0 <= s < 128 implies #[trigger] w.surplus(s, base)
        == v.surplus(s, base) by {
        assert(x.surplus(s, base) == v.surplus(s, base));
    }
    lemma_keeps_owed(v, w);
}

/// Posting an order locks what it needs of its maker's free balance.
pub proof fn lemma_post_keeps(v: BookView, o: Order, k: int)
    requires
        v.ok(),
        supplied(v),
        postable(v, o, k),
        v.seats[o.maker as int].spec_free(locks_base(o.side)) >= atoms(
            v.header,
            o.side,
            o.tick,
            o.lots as int,
        ),
    ensures
        keeps(v, v.with_lock(o.maker as int, o.side, o.tick, o.lots).posted(o, k)),
        supplied(v.with_lock(o.maker as int, o.side, o.tick, o.lots).posted(o, k)),
{
    let m = o.maker as int;
    let w = v.with_lock(m, o.side, o.tick, o.lots).posted(o, k);
    assert(v.seats[m].within_supply());
    lemma_lock_and_post(v, o, k);
    lemma_atoms_bound(v.header, o.side, o.tick, o.lots as int);
    assert forall|s: int, base: bool| 0 <= s < 128 implies #[trigger] held(w.seats[s], base)
        == held(v.seats[s], base) by {
        if s == m {
            assert(w.seats[s] == v.seats[m].spec_lock(
                locks_base(o.side),
                atoms(v.header, o.side, o.tick, o.lots as int),
            ));
        }
    }
    lemma_keeps_owed(v, w);
}

/// Counting an instruction changes nothing else.
pub proof fn lemma_bump_keeps(v: BookView)
    requires
        v.ok(),
    ensures
        keeps(v, v.bumped()),
{
    lemma_header_changed(v, v.bumped().header);
}

pub proof fn lemma_keeps_refl(v: BookView)
    requires
        v.ok(),
    ensures
        keeps(v, v),
{
}

/// A quote that is posted on its own, or cannot be.
proof fn lemma_single_post_keeps(v: BookView, o: Order)
    requires
        v.ok(),
        supplied(v),
        o.maker < 128,
        !no_owner(v.seats[o.maker as int].owner@),
        in_window(v.header, o.tick),
        1 <= o.lots <= v.header.max_lots_per_order,
        clear_of(v, o.side, o.tick),
        v.quote_at(o.maker as int, o.side, o.tick) is None,
    ensures
        keeps(v, v.post(o).0),
{
    if v.post(o).1 is Ok {
        lemma_single_posted(v, o);
    }
}

proof fn lemma_single_posted(v: BookView, o: Order)
    requires
        v.ok(),
        supplied(v),
        o.maker < 128,
        !no_owner(v.seats[o.maker as int].owner@),
        in_window(v.header, o.tick),
        1 <= o.lots <= v.header.max_lots_per_order,
        clear_of(v, o.side, o.tick),
        v.quote_at(o.maker as int, o.side, o.tick) is None,
        v.post(o).1 is Ok,
    ensures
        keeps(v, v.post(o).0),
{
    let s = o.maker as int;
    let w = v.with_lock(s, o.side, o.tick, o.lots);
    let k = v.rank(s, o.key());
    assert(v.chain_ok(s));
    lemma_rank(v, s, o.key(), 0);
    lemma_rank_agree(v, w, s, o.key(), 0);
    lemma_quote_at(v, s, o.side, o.tick);
    if k < v.chains[s].len() {
        let i = v.chains[s][k];
        assert(v.orders.contains_key(i));
        assert(v.order_ok(i));
        assert(v.orders[i].key() != o.key());
    }
    if k > 0 {
        assert(v.orders[v.chains[s][k - 1]].key() < o.key());
    }
    assert(sorted_at(v, s, o.key(), k));
    assert(postable(v, o, k));
    lemma_post_keeps(v, o, k);
}

/// Adding, amending or cancelling a single quote keeps value, also where it
/// fails.
pub proof fn lemma_upsert_keeps(v: BookView, o: Order, slide: bool)
    requires
        v.ok(),
        supplied(v),
        o.maker < 128,
        !no_owner(v.seats[o.maker as int].owner@),
    ensures
        keeps(v, v.upsert(o, slide).0),
{
    let s = o.maker as int;
    let opp = o.side.spec_opposite();
    let b = v.best(opp);
    if o.lots == 0 {
        let t = slid(v.header, o.side, o.tick, false, None)->Ok_0;
        if v.upsert(o, slide).1 is Ok {
            lemma_quote_at(v, s, o.side, t);
            lemma_kill_keeps(v, v.quote_at(s, o.side, t)->0);
        }
    } else if o.lots <= v.header.max_lots_per_order && slid(
        v.header,
        o.side,
        o.tick,
        slide,
        b,
    ) is Ok {
        lemma_has_best(v, opp);
        let t = slid(v.header, o.side, o.tick, slide, b)->Ok_0;
        lemma_slid_clear(v, o.side, o.tick, slide, b);
        lemma_best_in_window(v, opp, b);
        let n = Order { tick: t, ..o };
        lemma_quote_at(v, s, o.side, t);
        match v.quote_at(s, o.side, t) {
            None => {
                lemma_single_post_keeps(v, n);
            },
            Some(i) => {
                assert(v.order_ok(i));
                if o.lots <= v.orders[i].lots {
                    lemma_shrink_keeps(v, i, o.lots, o.expiry_slot);
                } else {
                    let x = v.killed(i);
                    lemma_kill_keeps(v, i);
                    lemma_killed_quote(v, i);
                    assert(clear_of(x, n.side, n.tick)) by {
                        assert forall|j: u16| #[trigger] x.orders.contains_key(j) implies
                            v.orders.contains_key(j) && x.orders[j] == v.orders[j] by {}
                    }
                    lemma_single_post_keeps(x, n);
                    lemma_keeps_trans(v, x, x.post(n).0);
                }
            },
        }
    }
}

/// The best price is what it says it is.
pub proof fn lemma_has_best(v: BookView, side: Side)
    requires
        v.structured(),
    ensures
        v.has_best(side, v.best(side)),
{
    if exists|t: u32| v.is_best(side, t) {
        let t = choose|t: u32| v.is_best(side, t);
        lemma_best_unique(v, side, t);
    } else {
        assert forall|i: u16| #[trigger] v.orders.contains_key(i) implies v.orders[i].side
            != side by {
            if v.orders[i].side == side {
                lemma_some_best(v, side, i);
            }
        }
    }
}

/// A side with an order has a best price: walking towards better prices ends.
pub proof fn lemma_some_best(v: BookView, side: Side, i: u16)
    requires
        v.structured(),
        v.orders.contains_key(i),
        v.orders[i].side == side,
    ensures
        exists|t: u32| v.is_best(side, t),
    decreases
        match side {
            Side::Bid => v.header.anchor_tick + 8191 - v.orders[i].tick,
            Side::Ask => v.orders[i].tick - v.header.anchor_tick,
        },
{
    let t = v.orders[i].tick;
    assert(v.order_ok(i));
    assert(v.quoted(side, t as int));
    if !v.is_best(side, t) {
        let j = choose|j: u16|
            #[trigger] v.orders.contains_key(j) && v.orders[j].side == side && !(match side {
                Side::Bid => v.orders[j].tick <= t,
                Side::Ask => v.orders[j].tick >= t,
            });
        assert(v.order_ok(j));
        lemma_some_best(v, side, j);
    }
}

/// A cancel keeps value.
pub proof fn lemma_cancel_keeps(v: BookView, s: u16, i: u16, id: u64)
    requires
        v.ok(),
        supplied(v),
    ensures
        keeps(v, v.cancel(s, i, id).0),
{
    if v.cancel(s, i, id).1 is Ok {
        lemma_kill_keeps(v, i);
    }
}

/// Merging one side of a mass quote keeps value, also where it fails, and
/// counts no instruction.
#[verifier::rlimit(60)]
pub proof fn lemma_merge_keeps(v: BookView, m: Merge, k: int, qi: int, lt: u32, lu: u32)
    requires
        v.ok(),
        supplied(v),
        crate::quoting::merging(v, m, k, lu),
    ensures
        keeps(v, v.merged_from(m, k, qi, lt, lu).0),
        v.merged_from(m, k, qi, lt, lu).0.header.seq == v.header.seq,
    decreases m.quotes.len() - qi, v.chains[m.seat as int].len() - k,
{
    let s = m.seat as int;
    let c = v.chains[s];
    let i = c[k];
    let here = v.merge_here(m, k);
    let q = m.quotes[qi];
    let ct = v.orders[i].tick;
    assert(v.chain_ok(s));
    if here {
        assert(v.orders.contains_key(i));
        assert(v.order_ok(i));
    }
    if (qi < 0 || qi >= m.quotes.len()) && !here {
    } else if 0 < qi < m.quotes.len() && q.tick <= lt {
    } else if 0 <= qi < m.quotes.len() && (q.lots == 0 || q.lots > v.header.max_lots_per_order) {
    } else if here && (qi < 0 || qi >= m.quotes.len() || ct < q.tick) {
        let x = v.killed(i);
        lemma_kill_keeps(v, i);
        crate::quoting::lemma_merge_killed(v, m, k, lu);
        lemma_merge_keeps(x, m, k, qi, lt, lu);
        lemma_keeps_trans(v, x, v.merged_from(m, k, qi, lt, lu).0);
    } else if here && ct == q.tick && q.lots <= v.orders[i].lots {
        let x = v.shrunk(i, q.lots).refreshed(i, m.expiry_slot);
        lemma_shrink_keeps(v, i, q.lots, m.expiry_slot);
        crate::quoting::lemma_merge_kept(v, m, k, lu, q.lots);
        lemma_merge_keeps(x, m, k + 1, qi + 1, q.tick, ct);
        lemma_keeps_trans(v, x, v.merged_from(m, k, qi, lt, lu).0);
    } else if here && ct == q.tick {
        let x = v.killed(i);
        lemma_kill_keeps(v, i);
        crate::quoting::lemma_merge_killed(v, m, k, lu);
        crate::quoting::lemma_reposted_sorted(v, m, k, lu);
        let (y, r) = x.quote_posted(m, q, k, lu, None);
        if r is Ok {
            lemma_quote_posted_keeps(x, m, q, k, lu, None);
            lemma_merge_keeps(y, m, k + 1, qi + 1, q.tick, r->Ok_0);
            lemma_keeps_trans(v, x, y);
            lemma_keeps_trans(v, y, v.merged_from(m, k, qi, lt, lu).0);
        }
    } else {
        crate::quoting::lemma_merge_sorted(v, m, k, lu, q);
        let next = if here {
            Some(ct)
        } else {
            None
        };
        let (y, r) = v.quote_posted(m, q, k, lu, next);
        if r is Ok {
            lemma_quote_posted_keeps(v, m, q, k, lu, next);
            lemma_merge_keeps(y, m, k + 1, qi + 1, q.tick, r->Ok_0);
            lemma_keeps_trans(v, y, v.merged_from(m, k, qi, lt, lu).0);
        }
    }
}

/// Posting one quote of a merge.
pub proof fn lemma_quote_posted_keeps(
    v: BookView,
    m: Merge,
    q: Quote,
    k: int,
    lu: u32,
    next: Option<u32>,
)
    requires
        v.ok(),
        supplied(v),
        crate::quoting::merging(v, m, k, lu),
        1 <= q.lots <= v.header.max_lots_per_order,
        v.quote_posted(m, q, k, lu, next).1 is Ok,
        sorted_at(
            v,
            m.seat as int,
            key(m.side, v.quote_posted(m, q, k, lu, next).1->Ok_0),
            k,
        ),
    ensures
        ({
            let (w, r) = v.quote_posted(m, q, k, lu, next);
            &&& keeps(v, w)
            &&& supplied(w)
            &&& crate::quoting::merging(w, m, k + 1, r->Ok_0)
            &&& w.chains[m.seat as int] == v.chains[m.seat as int].insert(k, v.free[0])
        }),
{
    let t = v.quote_posted(m, q, k, lu, next).1->Ok_0;
    let o = Order {
        side: m.side,
        tick: t,
        maker: m.seat,
        lots: q.lots,
        expiry_slot: m.expiry_slot,
        seq: 0,
    };
    let slide = !q.spec_reject_on_cross();
    lemma_best_in_window(v, m.side.spec_opposite(), m.opposing);
    lemma_slid_clear(v, m.side, q.tick, slide, m.opposing);
    assert(in_window(v.header, t));
    assert(postable(v, o, k));
    lemma_post_keeps(v, o, k);
    crate::quoting::lemma_merge_posted(v, m, o, k, lu);
}

/// Ending a run of orders keeps value.
pub proof fn lemma_killed_all_keeps(v: BookView, l: Seq<u16>)
    requires
        v.ok(),
        supplied(v),
        l.no_duplicates(),
        forall|k: int| 0 <= k < l.len() ==> v.orders.contains_key(#[trigger] l[k]),
    ensures
        keeps(v, v.killed_all(l)),
        supplied(v.killed_all(l)),
        v.killed_all(l).orders.dom() == v.orders.dom().difference(l.to_set()),
        forall|i: u16|
            #[trigger] v.killed_all(l).orders.contains_key(i) ==> v.killed_all(l).orders[i]
                == v.orders[i],
    decreases l.len(),
{
    if l.len() == 0 {
        assert(l.to_set() =~= Set::empty());
        assert(v.orders.dom().difference(l.to_set()) =~= v.orders.dom());
    } else {
        let p = l.drop_last();
        assert(p.no_duplicates());
        assert forall|k: int| 0 <= k < p.len() implies v.orders.contains_key(#[trigger] p[k]) by {
            assert(p[k] == l[k]);
        }
        lemma_killed_all_keeps(v, p);
        let x = v.killed_all(p);
        let i = l.last();
        assert(v.orders.contains_key(l[l.len() - 1]));
        assert(!p.contains(i)) by {
            if p.contains(i) {
                let k = choose|k: int| 0 <= k < p.len() && p[k] == i;
                assert(l[k] == l[l.len() - 1]);
            }
        }
        assert(!p.to_set().contains(i));
        assert(x.orders.dom().contains(i));
        lemma_kill_keeps(x, i);
        lemma_keeps_trans(v, x, x.killed(i));
        assert(x.killed(i).orders.dom() =~= v.orders.dom().difference(l.to_set())) by {
            assert(l =~= p.push(i));
            assert forall|j: u16| l.to_set().contains(j) <==> (p.to_set().contains(j) || j == i) by {
                if l.contains(j) {
                    let k = choose|k: int| 0 <= k < l.len() && l[k] == j;
                    if k < p.len() {
                        assert(p[k] == j);
                    }
                }
                if p.contains(j) {
                    let k = choose|k: int| 0 <= k < p.len() && p[k] == j;
                    assert(l[k] == j);
                }
                assert(l[l.len() - 1] == i);
            }
        }
    }
}

/// Emptying levels keeps value, and ends exactly the orders on their ring
/// slots.
pub proof fn lemma_cleared_keeps(v: BookView, t: int, n: nat)
    requires
        v.ok(),
        supplied(v),
    ensures
        keeps(v, v.cleared(t, n)),
        supplied(v.cleared(t, n)),
        forall|i: u16|
            #![trigger v.cleared(t, n).orders.contains_key(i)]
            #![trigger v.orders.contains_key(i)]
            v.cleared(t, n).orders.contains_key(i) == (v.orders.contains_key(i) && !emptied(
                v.orders[i].tick,
                t,
                n,
            )) && (v.cleared(t, n).orders.contains_key(i) ==> v.cleared(t, n).orders[i]
                == v.orders[i]),
        v.cleared(t, n).header == v.header,
    decreases n,
{
    let w = v.cleared(t, n);
    if n > 0 {
        let m = (n - 1) as nat;
        lemma_cleared_keeps(v, t, m);
        let x = v.cleared(t, m);
        let s = (t + n - 1) % 8192;
        let q = x.queues[s];
        assert(x.queue_ok(s));
        lemma_killed_all_keeps(x, q);
        lemma_killed_all_header(x, q);
        lemma_keeps_trans(v, x, w);
        assert forall|i: u16|
            #![trigger w.orders.contains_key(i)]
            #![trigger v.orders.contains_key(i)]
            w.orders.contains_key(i) == (v.orders.contains_key(i) && !emptied(
                v.orders[i].tick,
                t,
                n,
            )) && (w.orders.contains_key(i) ==> w.orders[i] == v.orders[i]) by {
            lemma_emptied_step(v.orders[i].tick, t, n);
            assert(x.orders.contains_key(i) == (v.orders.contains_key(i) && !emptied(
                v.orders[i].tick,
                t,
                m,
            )));
            assert(w.orders.dom().contains(i) == (x.orders.dom().contains(i)
                && !q.to_set().contains(i)));
            if x.orders.contains_key(i) {
                assert(x.order_ok(i));
                if q.contains(i) {
                    let k = choose|k: int| 0 <= k < q.len() && q[k] == i;
                    assert(slot(x.orders[q[k]].tick) == s);
                }
            }
        }
    }
}

/// The tick lies on one of the `n` ring slots from that of `t` on.
pub open spec fn emptied(tick: u32, t: int, n: nat) -> bool {
    exists|j: int| 0 <= j < n && #[trigger] ((t + j) % 8192) == slot(tick)
}

proof fn lemma_emptied_step(tick: u32, t: int, n: nat)
    requires
        n > 0,
    ensures
        emptied(tick, t, n) == (emptied(tick, t, (n - 1) as nat) || (t + n - 1) % 8192 == slot(
            tick,
        )),
{
    if emptied(tick, t, (n - 1) as nat) {
        let j = choose|j: int| 0 <= j < n - 1 && #[trigger] ((t + j) % 8192) == slot(tick);
        assert((t + j) % 8192 == slot(tick));
    }
    if (t + n - 1) % 8192 == slot(tick) {
        assert((t + (n - 1)) % 8192 == slot(tick));
    }
    if emptied(tick, t, n) {
        let j = choose|j: int| 0 <= j < n && #[trigger] ((t + j) % 8192) == slot(tick);
        if j < n - 1 {
            assert((t + j) % 8192 == slot(tick));
        }
    }
}

proof fn lemma_killed_all_header(v: BookView, l: Seq<u16>)
    ensures
        v.killed_all(l).header == v.header,
    decreases l.len(),
{
    if l.len() > 0 {
        lemma_killed_all_header(v, l.drop_last());
    }
}

} // verus!
