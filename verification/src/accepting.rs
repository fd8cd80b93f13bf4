//! Laws of acceptance: a mass quote that crosses nothing, for which the seat
//! can pay and the book has room, succeeds.

use crate::custody::{
    lemma_has_best,
    lemma_kill_keeps,
    lemma_quote_posted_keeps,
    lemma_shrink_keeps,
    lemma_supplied,
    supplied,
};
use crate::errors::ProgramError;
use crate::funds::owns;
use crate::ledger::lemma_merge_starts;
use crate::maker::{lemma_first_rank, requoted};
use crate::market::{lemma_wrapping, Market};
use crate::model::{atoms, in_window, key, locks_base, slid, BookView, Merge};
use crate::orders::lemma_best_in_window;
use crate::quote::Quote;
use crate::quoting::{
    lemma_merge_kept,
    lemma_merge_killed,
    lemma_merge_sorted,
    lemma_reposted_sorted,
    merging,
};
use crate::refusals::need;
use crate::requote::{
    answers,
    ascending,
    lemma_merge_answers,
    lemma_payload,
    of_side,
    sizes_fit,
};
use crate::seat::no_owner;
use crate::side::Side;
use crate::steps::{lemma_atoms_bound, lemma_atoms_split, lemma_lock_available};
use vstd::prelude::*;

verus! {

/// What the quotes from `from` on lock, each at its own tick.
pub open spec fn needs(h: Market, side: Side, q: Seq<Quote>, from: int) -> int
    decreases q.len() - from,
{
    if from < 0 || from >= q.len() {
        0
    } else {
        need(h, side, q[from].tick, q[from].lots) + needs(h, side, q, from + 1)
    }
}

proof fn lemma_needs(h: Market, side: Side, q: Seq<Quote>, from: int)
    ensures
        needs(h, side, q, from) >= 0,
    decreases q.len() - from,
{
    if 0 <= from < q.len() {
        lemma_needs(h, side, q, from + 1);
        lemma_need(h, side, q[from].tick, q[from].tick, q[from].lots);
    }
}

/// A bid locks less at a lower tick, and an ask the same at any.
proof fn lemma_need(h: Market, side: Side, t: u32, tick: u32, lots: u32)
    ensures
        need(h, side, tick, lots) >= 0,
        need(h, side, t, lots) == atoms(h, side, t, lots as int),
        side == Side::Ask || t <= tick ==> need(h, side, t, lots) <= need(h, side, tick, lots),
{
    let (ts, a, b, n) = (h.tick_size as int, t as int, tick as int, lots as int);
    let ls = h.base_lot_size as int;
    assert(a * ts * n == ts * a * n) by (nonlinear_arith);
    assert(n * ls == ls * n) by (nonlinear_arith);
    assert(ls * n >= 0) by (nonlinear_arith)
        requires
            ls >= 0,
            n >= 0,
    ;
    assert(ts * b * n >= 0) by (nonlinear_arith)
        requires
            ts >= 0,
            b >= 0,
            n >= 0,
    ;
    if a <= b {
        assert(ts * a * n <= ts * b * n) by (nonlinear_arith)
            requires
                0 <= a <= b,
                ts >= 0,
                n >= 0,
        ;
    }
}

/// The quote reaches the best price of the other side.
pub open spec fn reaches(m: Merge, q: Quote) -> bool {
    match (m.side, m.opposing) {
        (_, None) => false,
        (Side::Bid, Some(b)) => q.tick >= b,
        (Side::Ask, Some(b)) => q.tick <= b,
    }
}

/// Some quote does.
pub open spec fn any_reaches(m: Merge) -> bool {
    exists|a: int| 0 <= a < m.quotes.len() && reaches(m, #[trigger] m.quotes[a])
}

/// What the seat has free of the asset that the side locks.
pub open spec fn purse(v: BookView, m: Merge) -> int {
    v.seats[m.seat as int].spec_free(locks_base(m.side)) as int
}

/// What it has free of the other.
pub open spec fn other_purse(v: BookView, m: Merge) -> int {
    v.seats[m.seat as int].spec_free(!locks_base(m.side)) as int
}

/// Ending an order of the seat frees its lock.
proof fn lemma_killed_purse(v: BookView, m: Merge, i: u16)
    requires
        v.ok(),
        supplied(v),
        m.seat < 128,
        v.orders.contains_key(i),
        v.orders[i].maker == m.seat,
        v.orders[i].side == m.side,
    ensures
        purse(v.killed(i), m) >= purse(v, m),
        other_purse(v.killed(i), m) == other_purse(v, m),
        v.killed(i).free.len() == v.free.len() + 1,
        v.killed(i).header == v.header,
{
    let s = m.seat as int;
    let o = v.orders[i];
    assert(v.order_ok(i));
    assert(v.seats[s].within_supply());
    lemma_lock_available(v, i);
    let a = atoms(v.header, o.side, o.tick, o.lots as int);
    lemma_wrapping(v.seats[s].spec_free(locks_base(o.side)) + a);
}

proof fn lemma_shrunk_purse(v: BookView, m: Merge, i: u16, lots: u32)
    requires
        v.ok(),
        supplied(v),
        m.seat < 128,
        v.orders.contains_key(i),
        v.orders[i].maker == m.seat,
        v.orders[i].side == m.side,
        1 <= lots <= v.orders[i].lots,
    ensures
        ({
            let w = v.shrunk(i, lots).refreshed(i, m.expiry_slot);
            &&& purse(w, m) >= purse(v, m)
            &&& other_purse(w, m) == other_purse(v, m)
            &&& w.free.len() == v.free.len()
            &&& w.header == v.header
        }),
{
    let s = m.seat as int;
    let o = v.orders[i];
    assert(v.order_ok(i));
    assert(v.seats[s].within_supply());
    lemma_lock_available(v, i);
    lemma_atoms_split(v.header, o.side, o.tick, lots as int, o.lots - lots);
    lemma_atoms_bound(v.header, o.side, o.tick, lots as int);
    lemma_atoms_bound(v.header, o.side, o.tick, o.lots - lots);
    let a = atoms(v.header, o.side, o.tick, o.lots - lots);
    lemma_wrapping(v.seats[s].spec_free(locks_base(o.side)) + a);
}

/// Posting one quote: what it costs, or why it cannot.
proof fn lemma_posted_purse(v: BookView, m: Merge, qi: int, k: int, lu: u32, next: Option<u32>)
    requires
        v.ok(),
        supplied(v),
        merging(v, m, k, lu),
        0 <= qi < m.quotes.len(),
        1 <= m.quotes[qi].lots <= v.header.max_lots_per_order,
        lu < m.quotes[qi].tick || any_reaches(m),
        next matches Some(t) ==> t > m.quotes[qi].tick,
    ensures
        ({
            let q = m.quotes[qi];
            let (w, r) = v.quote_posted(m, q, k, lu, next);
            match r {
                Ok(t) => {
                    &&& purse(w, m) + need(v.header, m.side, q.tick, q.lots) >= purse(v, m)
                    &&& other_purse(w, m) == other_purse(v, m)
                    &&& w.free.len() + 1 == v.free.len()
                    &&& w.header.tick_size == v.header.tick_size
                    &&& w.header.base_lot_size == v.header.base_lot_size
                    &&& w.header.anchor_tick == v.header.anchor_tick
                    &&& t <= q.tick || any_reaches(m)
                },
                Err(e) => {
                    &&& e == ProgramError::Custom(9) ==> !in_window(v.header, q.tick)
                        || any_reaches(m)
                    &&& e == ProgramError::Custom(13) ==> any_reaches(m)
                    &&& e == ProgramError::Custom(20) ==> purse(v, m) < need(
                        v.header,
                        m.side,
                        q.tick,
                        q.lots,
                    )
                    &&& e == ProgramError::Custom(11) ==> v.free.len() == 0
                },
            }
        }),
{
    let q = m.quotes[qi];
    let s = m.seat as int;
    let opp = m.side.spec_opposite();
    lemma_best_in_window(v, opp, m.opposing);
    if reaches(m, q) {
        assert(reaches(m, m.quotes[qi]));
        assert(any_reaches(m));
    }
    let x = slid(v.header, m.side, q.tick, !q.spec_reject_on_cross(), m.opposing);
    if x is Ok {
        let t = x->Ok_0;
        lemma_need(v.header, m.side, t, q.tick, q.lots);
        assert(in_window(v.header, t));
        lemma_atoms_bound(v.header, m.side, t, q.lots as int);
    }
}

/// A merge fails only for what one of its quotes lacks.
#[verifier::rlimit(60)]
proof fn lemma_merge_from(v: BookView, m: Merge, k: int, qi: int, lt: u32, lu: u32)
    requires
        v.ok(),
        supplied(v),
        merging(v, m, k, lu),
        0 <= qi <= m.quotes.len(),
        qi == 0 ==> lu == 0,
        qi > 0 ==> lu <= lt || any_reaches(m),
    ensures
        ({
            let (w, r) = v.merged_from(m, k, qi, lt, lu);
            let h = v.header;
            match r {
                Ok(_) => {
                    &&& other_purse(w, m) == other_purse(v, m)
                    &&& w.free.len() + m.quotes.len() - qi >= v.free.len()
                },
                Err(e) => {
                    &&& e == ProgramError::Custom(9) ==> any_reaches(m) || exists|a: int|
                        qi <= a < m.quotes.len() && !in_window(h, (#[trigger] m.quotes[a]).tick)
                    &&& e == ProgramError::Custom(13) ==> any_reaches(m)
                    &&& e == ProgramError::Custom(20) ==> purse(v, m) < needs(
                        h,
                        m.side,
                        m.quotes,
                        qi,
                    )
                    &&& e == ProgramError::Custom(11) ==> v.free.len() < m.quotes.len() - qi
                },
            }
        }),
    decreases m.quotes.len() - qi, v.chains[m.seat as int].len() - k,
{
    let s = m.seat as int;
    let c = v.chains[s];
    let i = c[k];
    let here = v.merge_here(m, k);
    let q = m.quotes[qi];
    let ct = v.orders[i].tick;
    let h = v.header;
    assert(v.chain_ok(s));
    if here {
        assert(v.orders.contains_key(i));
        assert(v.order_ok(i));
    }
    lemma_needs(h, m.side, m.quotes, qi);
    lemma_needs(h, m.side, m.quotes, qi + 1);
    if qi >= m.quotes.len() && !here {
    } else if here && (qi >= m.quotes.len() || (!(qi > 0 && q.tick <= lt) && q.lots > 0 && q.lots
        <= h.max_lots_per_order && ct < q.tick)) {
        let x = v.killed(i);
        lemma_kill_keeps(v, i);
        lemma_merge_killed(v, m, k, lu);
        lemma_killed_purse(v, m, i);
        lemma_merge_from(x, m, k, qi, lt, lu);
    } else if qi > 0 && q.tick <= lt {
    } else if q.lots == 0 || q.lots > h.max_lots_per_order {
    } else if here && ct == q.tick && q.lots <= v.orders[i].lots {
        let x = v.shrunk(i, q.lots).refreshed(i, m.expiry_slot);
        lemma_shrink_keeps(v, i, q.lots, m.expiry_slot);
        lemma_merge_kept(v, m, k, lu, q.lots);
        lemma_shrunk_purse(v, m, i, q.lots);
        lemma_need(h, m.side, q.tick, q.tick, q.lots);
        lemma_merge_from(x, m, k + 1, qi + 1, q.tick, ct);
    } else if here && ct == q.tick {
        let x = v.killed(i);
        lemma_kill_keeps(v, i);
        lemma_merge_killed(v, m, k, lu);
        lemma_killed_purse(v, m, i);
        lemma_reposted_sorted(v, m, k, lu);
        assert(v.orders[i].tick >= 64);
        lemma_posted_purse(x, m, qi, k, lu, None);
        let (y, t) = x.quote_posted(m, q, k, lu, None);
        if t is Ok {
            lemma_quote_posted_keeps(x, m, q, k, lu, None);
            lemma_needs_agree(h, y.header, m.side, m.quotes, qi + 1);
            lemma_merge_from(y, m, k + 1, qi + 1, q.tick, t->Ok_0);
        } else {
            assert(m.quotes[qi] == q);
        }
    } else {
        lemma_merge_sorted(v, m, k, lu, q);
        let next = if here {
            Some(ct)
        } else {
            None
        };
        let (y, t) = v.quote_posted(m, q, k, lu, next);
        if lu < q.tick || any_reaches(m) {
            lemma_posted_purse(v, m, qi, k, lu, next);
            if t is Ok {
                lemma_quote_posted_keeps(v, m, q, k, lu, next);
                lemma_needs_agree(h, y.header, m.side, m.quotes, qi + 1);
                lemma_merge_from(y, m, k + 1, qi + 1, q.tick, t->Ok_0);
            } else {
                assert(m.quotes[qi] == q);
            }
        } else {
            // The first quote has tick 0, which no window holds.
            assert(q.tick == 0 && qi == 0);
            assert(!in_window(h, m.quotes[qi].tick));
        }
    }
}

proof fn lemma_needs_agree(h: Market, g: Market, side: Side, q: Seq<Quote>, from: int)
    requires
        h.tick_size == g.tick_size,
        h.base_lot_size == g.base_lot_size,
    ensures
        needs(h, side, q, from) == needs(g, side, q, from),
    decreases q.len() - from,
{
    if 0 <= from < q.len() {
        lemma_needs_agree(h, g, side, q, from + 1);
    }
}

/// All quotes stand in the window.
pub open spec fn all_in_window(h: Market, q: Seq<Quote>) -> bool {
    forall|a: int| 0 <= a < q.len() ==> in_window(h, (#[trigger] q[a]).tick)
}

/// No order of the other side is reached: by a bid no ask, by an ask no bid of
/// another seat and no bid of the same payload.
pub open spec fn apart(v: BookView, seat: u16, bids: Seq<Quote>, asks: Seq<Quote>) -> bool {
    &&& forall|a: int, i: u16|
        0 <= a < bids.len() && #[trigger] v.orders.contains_key(i) && v.orders[i].side == Side::Ask
            ==> (#[trigger] bids[a]).tick < v.orders[i].tick
    &&& forall|a: int, i: u16|
        0 <= a < asks.len() && #[trigger] v.orders.contains_key(i) && v.orders[i].side == Side::Bid
            && v.orders[i].maker != seat ==> (#[trigger] asks[a]).tick > v.orders[i].tick
    &&& forall|a: int, b: int|
        0 <= a < bids.len() && 0 <= b < asks.len() ==> (#[trigger] bids[a]).tick < (
        #[trigger] asks[b]).tick
}

/// One side of a mass quote that reaches nothing.
proof fn lemma_side_accepted(v: BookView, seat: u16, side: Side, quotes: Seq<Quote>, expiry: u32)
    requires
        v.ok(),
        supplied(v),
        seat < 128,
        !no_owner(v.seats[seat as int].owner@),
        ascending(quotes),
        sizes_fit(v.header, quotes),
        all_in_window(v.header, quotes),
        v.seats[seat as int].spec_free(locks_base(side)) >= needs(v.header, side, quotes, 0),
        v.free.len() >= quotes.len(),
        forall|a: int|
            0 <= a < quotes.len() ==> match (side, v.best(side.spec_opposite())) {
                (_, None) => true,
                (Side::Bid, Some(b)) => (#[trigger] quotes[a]).tick < b,
                (Side::Ask, Some(b)) => quotes[a].tick > b,
            },
    ensures
        ({
            let (w, r) = v.merged(seat, side, quotes, expiry);
            &&& r is Ok
            &&& w.seats[seat as int].spec_free(!locks_base(side))
                == v.seats[seat as int].spec_free(!locks_base(side))
            &&& w.free.len() + quotes.len() >= v.free.len()
        }),
{
    let m = Merge {
        seat,
        side,
        expiry_slot: expiry,
        opposing: v.best(side.spec_opposite()),
        quotes,
    };
    let k = v.rank(seat as int, key(side, 0));
    assert(v.seats[seat as int].within_supply());
    lemma_merge_starts(v, seat, side, quotes, expiry);
    lemma_payload(v, seat, side, quotes, expiry);
    assert(!any_reaches(m)) by {
        if any_reaches(m) {
            let a = choose|a: int| 0 <= a < quotes.len() && reaches(m, #[trigger] quotes[a]);
            assert(reaches(m, quotes[a]));
        }
    }
    lemma_merge_from(v, m, k, 0, 0, 0);
}

/// A mass quote succeeds when its owner sends it, it has at most 128 quotes,
/// each side ascends, every size fits and every tick is in the window, nothing
/// on the other side is reached, the seat has free what all the quotes lock at
/// their own ticks, and there are as many free nodes. What it replaces need
/// not be counted.
#[verifier::rlimit(40)]
pub proof fn lemma_quotes_accepted(
    v: BookView,
    seat: u16,
    owner: Seq<u8>,
    bids: Seq<Quote>,
    asks: Seq<Quote>,
    expiry: u32,
)
    requires
        v.ok(),
        v.solvent(),
        !no_owner(owner),
        owns(v, seat, owner),
        bids.len() + asks.len() <= 128,
        ascending(bids),
        ascending(asks),
        sizes_fit(v.header, bids),
        sizes_fit(v.header, asks),
        all_in_window(v.header, bids),
        all_in_window(v.header, asks),
        apart(v, seat, bids, asks),
        v.seats[seat as int].quote_free >= needs(v.header, Side::Bid, bids, 0),
        v.seats[seat as int].base_free >= needs(v.header, Side::Ask, asks, 0),
        v.free.len() >= bids.len() + asks.len(),
    ensures
        requoted(v, seat, owner, bids, asks, expiry).1 is Ok,
{
    let s = seat as int;
    let nb = bids.len() as int;
    lemma_supplied(v);
    lemma_has_best(v, Side::Ask);
    let m = Merge {
        seat,
        side: Side::Bid,
        expiry_slot: expiry,
        opposing: v.best(Side::Ask),
        quotes: bids,
    };
    if v.best(Side::Ask) is Some {
        let b = v.best(Side::Ask)->0;
        let i = choose|i: u16|
            #[trigger] v.orders.contains_key(i) && v.orders[i].side == Side::Ask && v.orders[i].tick
                == b;
        assert(v.orders.contains_key(i));
        assert forall|a: int| 0 <= a < bids.len() implies (#[trigger] bids[a]).tick < b by {
            assert(v.orders[i].tick == b);
        }
    }
    lemma_side_accepted(v, seat, Side::Bid, bids, expiry);
    lemma_payload(v, seat, Side::Bid, bids, expiry);
    assert(v.seats[s].within_supply());
    lemma_merge_starts(v, seat, Side::Bid, bids, expiry);
    lemma_first_rank(v, s);
    lemma_merge_answers(v, m, 0, 0, 0, 0);
    let (x, r) = v.merged(seat, Side::Bid, bids, expiry);
    lemma_needs_agree(v.header, x.header, Side::Ask, asks, 0);
    lemma_has_best(x, Side::Bid);
    if x.best(Side::Bid) is Some {
        let b = x.best(Side::Bid)->0;
        let i = choose|i: u16|
            #[trigger] x.orders.contains_key(i) && x.orders[i].side == Side::Bid && x.orders[i].tick
                == b;
        assert(x.orders.contains_key(i));
        let c = x.chains[s];
        if x.orders[i].maker == seat {
            assert(x.order_ok(i));
            assert(x.chain_ok(s));
            let p = c.index_of(i);
            assert(c[p] == i);
            assert(p < nb) by {
                if p >= nb {
                    assert(x.orders.contains_key(c[nb]));
                    assert(x.orders[c[nb]].side == Side::Ask);
                    if p > nb {
                        assert(x.orders[c[nb]].key() < x.orders[c[p]].key());
                    }
                }
            }
            assert(bids[0 + p - 0] == bids[p]);
            assert(answers(x.header, m, bids[p], x.orders[c[p]]));
            assert(b == bids[p].tick);
        } else {
            assert(!of_side(m, x.orders[i]));
            assert(v.orders.contains_key(i) && v.orders[i] == x.orders[i]);
        }
        assert forall|a: int| 0 <= a < asks.len() implies (#[trigger] asks[a]).tick > b by {
            if x.orders[i].maker == seat {
                let p = c.index_of(i);
                assert(bids[p].tick < asks[a].tick);
            }
        }
    }
    lemma_side_accepted(x, seat, Side::Ask, asks, expiry);
}

} // verus!
