//! Laws of mass quotes: afterwards the seat rests exactly the quotes of the
//! payload, and nobody else's orders are touched.

use crate::custody::{lemma_keeps_owed, lemma_merge_keeps, lemma_supplied, supplied};
use crate::errors::ProgramError;
use crate::ledger::lemma_merge_starts;
use crate::maker::requoted;
use crate::market::Market;
use crate::model::{key, slid, BookView, Merge, Order};
use crate::orders::lemma_rank;
use crate::quote::Quote;
use crate::quoting::{
    lemma_merge_killed,
    lemma_merge_kept,
    lemma_merge_sorted,
    lemma_reposted_sorted,
    lemma_resting_clear,
    merging,
};
use crate::seat::no_owner;
use crate::side::Side;
use vstd::prelude::*;

verus! {

/// The order is what the quote asks for, at its own tick or one tick off the
/// opposing best.
pub open spec fn answers(h: Market, m: Merge, q: Quote, o: Order) -> bool {
    &&& o.maker == m.seat
    &&& o.side == m.side
    &&& o.lots == q.lots
    &&& o.expiry_slot == m.expiry_slot
    &&& slid(h, m.side, q.tick, !q.spec_reject_on_cross(), m.opposing) == Ok::<
        u32,
        crate::errors::ProgramError,
    >(o.tick)
}

/// From position `k` of the seat's chain on stand the orders that answer the
/// quotes from `qi` on.
pub open spec fn answered(w: BookView, m: Merge, k: int, qi: int) -> bool {
    let c = w.chains[m.seat as int];
    &&& k + m.quotes.len() - qi <= c.len()
    &&& forall|j: int|
        k <= j < k + m.quotes.len() - qi ==> w.orders.contains_key(#[trigger] c[j]) && answers(
            w.header,
            m,
            m.quotes[qi + j - k],
            w.orders[c[j]],
        )
}

/// Only the seat's orders of one side differ, and of these only those from
/// chain position `k` on.
pub open spec fn elsewhere_same(v: BookView, w: BookView, m: Merge, k: int) -> bool {
    let s = m.seat as int;
    &&& k <= w.chains[s].len()
    &&& w.chains[s].take(k) == v.chains[s].take(k)
    &&& forall|t: int| 0 <= t < 128 && t != s ==> #[trigger] w.chains[t] == v.chains[t]
    &&& forall|j: int|
        0 <= j < k ==> w.orders.contains_key(#[trigger] v.chains[s][j])
            && w.orders[v.chains[s][j]] == v.orders[v.chains[s][j]]
    &&& forall|i: u16|
        #[trigger] v.orders.contains_key(i) && !of_side(m, v.orders[i]) ==> w.orders.contains_key(i)
            && w.orders[i] == v.orders[i]
    &&& forall|i: u16|
        #[trigger] w.orders.contains_key(i) && !of_side(m, w.orders[i]) ==> v.orders.contains_key(i)
            && v.orders[i] == w.orders[i]
}

/// An order of the seat on the side that is merged.
pub open spec fn of_side(m: Merge, o: Order) -> bool {
    o.maker == m.seat && o.side == m.side
}

pub open spec fn same_header(v: BookView, w: BookView) -> bool {
    w.header == (Market { order_seq: w.header.order_seq, ..v.header })
}

proof fn lemma_elsewhere_trans(u: BookView, v: BookView, w: BookView, m: Merge, k: int, l: int)
    requires
        elsewhere_same(u, v, m, k),
        elsewhere_same(v, w, m, l),
        0 <= k <= l,
        k <= v.chains[m.seat as int].len(),
        k <= u.chains[m.seat as int].len(),
        l <= v.chains[m.seat as int].len(),
    ensures
        elsewhere_same(u, w, m, k),
{
    let s = m.seat as int;
    let cu = u.chains[s];
    let cv = v.chains[s];
    let cw = w.chains[s];
    assert forall|j: int| 0 <= j < k implies cw[j] == cu[j] && cv[j] == cu[j] by {
        assert(cu.take(k)[j] == cu[j]);
        assert(cv.take(k)[j] == cv[j]);
        assert(cv.take(l)[j] == cv[j]);
        assert(cw.take(l)[j] == cw[j]);
    }
    assert(cw.take(k) =~= cu.take(k));
    assert forall|j: int| 0 <= j < k implies w.orders.contains_key(#[trigger] cu[j])
        && w.orders[cu[j]] == u.orders[cu[j]] by {
        assert(cv[j] == cu[j]);
        assert(w.orders.contains_key(cv[j]));
    }
    assert forall|i: u16| #[trigger] u.orders.contains_key(i) && !of_side(m, u.orders[i]) implies
        w.orders.contains_key(i) && w.orders[i] == u.orders[i] by {
        assert(v.orders.contains_key(i));
    }
    assert forall|i: u16| #[trigger] w.orders.contains_key(i) && !of_side(m, w.orders[i]) implies
        u.orders.contains_key(i) && u.orders[i] == w.orders[i] by {
        assert(v.orders.contains_key(i));
    }
}

/// Ending the order at the cursor.
proof fn lemma_step_killed(v: BookView, m: Merge, k: int, lu: u32)
    requires
        v.ok(),
        merging(v, m, k, lu),
        v.merge_here(m, k),
    ensures
        elsewhere_same(v, v.killed(v.chains[m.seat as int][k]), m, k),
        same_header(v, v.killed(v.chains[m.seat as int][k])),
{
    let s = m.seat as int;
    let c = v.chains[s];
    let i = c[k];
    let w = v.killed(i);
    assert(v.chain_ok(s));
    assert(v.orders.contains_key(i));
    lemma_merge_killed(v, m, k, lu);
    assert(w.chains[s] == c.remove(k));
    assert(w.chains[s].take(k) =~= c.take(k));
    assert forall|j: int| 0 <= j < k implies w.orders.contains_key(#[trigger] c[j])
        && w.orders[c[j]] == v.orders[c[j]] by {
        assert(v.orders.contains_key(c[j]));
        assert(c[j] != c[k]);
    }
}

/// Keeping the order at the cursor, with fewer lots.
proof fn lemma_step_kept(v: BookView, m: Merge, k: int, lu: u32, lots: u32)
    requires
        v.ok(),
        merging(v, m, k, lu),
        v.merge_here(m, k),
        1 <= lots <= v.orders[v.chains[m.seat as int][k]].lots,
    ensures
        ({
            let i = v.chains[m.seat as int][k];
            let w = v.shrunk(i, lots).refreshed(i, m.expiry_slot);
            &&& elsewhere_same(v, w, m, k)
            &&& same_header(v, w)
            &&& w.orders.contains_key(i)
            &&& w.orders[i] == (Order { lots, expiry_slot: m.expiry_slot, ..v.orders[i] })
            &&& w.chains == v.chains
        }),
{
    let s = m.seat as int;
    let c = v.chains[s];
    let i = c[k];
    let w = v.shrunk(i, lots).refreshed(i, m.expiry_slot);
    assert(v.chain_ok(s));
    assert(v.orders.contains_key(i));
    assert forall|j: int| 0 <= j < k implies w.orders.contains_key(#[trigger] c[j])
        && w.orders[c[j]] == v.orders[c[j]] by {
        assert(v.orders.contains_key(c[j]));
        assert(c[j] != c[k]);
    }
}

/// Posting a quote at the cursor.
proof fn lemma_step_posted(v: BookView, m: Merge, q: Quote, k: int, lu: u32, next: Option<u32>)
    requires
        v.ok(),
        merging(v, m, k, lu),
        1 <= q.lots <= v.header.max_lots_per_order,
        v.quote_posted(m, q, k, lu, next).1 is Ok,
        v.quote_posted(m, q, k, lu, next).0.chains[m.seat as int]
            == v.chains[m.seat as int].insert(k, v.free[0]),
    ensures
        ({
            let (w, r) = v.quote_posted(m, q, k, lu, next);
            let i = v.free[0];
            &&& elsewhere_same(v, w, m, k)
            &&& same_header(v, w)
            &&& w.orders.contains_key(i)
            &&& answers(w.header, m, q, w.orders[i])
            &&& w.chains[m.seat as int][k] == i
        }),
{
    let s = m.seat as int;
    let c = v.chains[s];
    let (w, r) = v.quote_posted(m, q, k, lu, next);
    let i = v.free[0];
    assert(v.chain_ok(s));
    assert(v.free.contains(v.free[0]));
    assert(!v.orders.contains_key(i));
    assert(w.chains[s].take(k) =~= c.take(k));
    assert forall|j: int| 0 <= j < k implies w.orders.contains_key(#[trigger] c[j])
        && w.orders[c[j]] == v.orders[c[j]] by {
        assert(v.orders.contains_key(c[j]));
    }
}

/// A merge of one side that succeeds leaves, from the cursor on, one order for
/// each quote, in order; behind them stands nothing more of the side; and
/// everything else is as it was.
#[verifier::rlimit(60)]
pub proof fn lemma_merge_answers(v: BookView, m: Merge, k: int, qi: int, lt: u32, lu: u32)
    requires
        v.ok(),
        supplied(v),
        merging(v, m, k, lu),
        0 <= qi <= m.quotes.len(),
        v.merged_from(m, k, qi, lt, lu).1 is Ok,
    ensures
        ({
            let (w, r) = v.merged_from(m, k, qi, lt, lu);
            &&& w.ok()
            &&& r->Ok_0 == k + m.quotes.len() - qi
            &&& answered(w, m, k, qi)
            &&& elsewhere_same(v, w, m, k)
            &&& same_header(v, w)
            &&& !w.merge_here(m, r->Ok_0)
            &&& supplied(w)
        }),
    decreases m.quotes.len() - qi, v.chains[m.seat as int].len() - k,
{
    let s = m.seat as int;
    let c = v.chains[s];
    let i = c[k];
    let here = v.merge_here(m, k);
    let q = m.quotes[qi];
    let ct = v.orders[i].tick;
    let (w, r) = v.merged_from(m, k, qi, lt, lu);
    lemma_merge_keeps(v, m, k, qi, lt, lu);
    lemma_keeps_owed(v, w);
    assert(v.chain_ok(s));
    if here {
        assert(v.orders.contains_key(i));
        assert(v.order_ok(i));
    }
    if qi >= m.quotes.len() && !here {
        assert forall|j: int| 0 <= j < k implies v.orders.contains_key(#[trigger] c[j]) by {}
    } else if here && (qi >= m.quotes.len() || ct < q.tick) {
        let x = v.killed(i);
        crate::custody::lemma_kill_keeps(v, i);
        lemma_merge_killed(v, m, k, lu);
        lemma_step_killed(v, m, k, lu);
        lemma_merge_answers(x, m, k, qi, lt, lu);
        lemma_elsewhere_trans(v, x, w, m, k, k);
    } else if here && ct == q.tick && q.lots <= v.orders[i].lots {
        let x = v.shrunk(i, q.lots).refreshed(i, m.expiry_slot);
        crate::custody::lemma_shrink_keeps(v, i, q.lots, m.expiry_slot);
        lemma_merge_kept(v, m, k, lu, q.lots);
        lemma_step_kept(v, m, k, lu, q.lots);
        lemma_merge_answers(x, m, k + 1, qi + 1, q.tick, ct);
        lemma_elsewhere_trans(v, x, w, m, k, k + 1);
        lemma_resting_clear(v, i, m.opposing);
        lemma_prepend(x, w, m, k, qi);
    } else if here && ct == q.tick {
        let x = v.killed(i);
        crate::custody::lemma_kill_keeps(v, i);
        lemma_merge_killed(v, m, k, lu);
        lemma_step_killed(v, m, k, lu);
        lemma_reposted_sorted(v, m, k, lu);
        let (y, t) = x.quote_posted(m, q, k, lu, None);
        crate::custody::lemma_quote_posted_keeps(x, m, q, k, lu, None);
        lemma_step_posted(x, m, q, k, lu, None);
        lemma_merge_answers(y, m, k + 1, qi + 1, q.tick, t->Ok_0);
        lemma_elsewhere_trans(x, y, w, m, k, k + 1);
        lemma_elsewhere_trans(v, x, w, m, k, k);
        lemma_prepend(y, w, m, k, qi);
    } else {
        lemma_merge_sorted(v, m, k, lu, q);
        let next = if here {
            Some(ct)
        } else {
            None
        };
        let (y, t) = v.quote_posted(m, q, k, lu, next);
        crate::custody::lemma_quote_posted_keeps(v, m, q, k, lu, next);
        lemma_step_posted(v, m, q, k, lu, next);
        lemma_merge_answers(y, m, k + 1, qi + 1, q.tick, t->Ok_0);
        lemma_elsewhere_trans(v, y, w, m, k, k + 1);
        lemma_prepend(y, w, m, k, qi);
    }
}

/// The order at the cursor answers its quote, and the rest follows.
proof fn lemma_prepend(x: BookView, w: BookView, m: Merge, k: int, qi: int)
    requires
        0 <= k < x.chains[m.seat as int].len(),
        0 <= qi < m.quotes.len(),
        elsewhere_same(x, w, m, k + 1),
        same_header(x, w),
        answered(w, m, k + 1, qi + 1),
        answers(x.header, m, m.quotes[qi], x.orders[x.chains[m.seat as int][k]]),
    ensures
        answered(w, m, k, qi),
{
    let s = m.seat as int;
    let c = w.chains[s];
    assert(c.take(k + 1)[k] == c[k]);
    assert(x.chains[s].take(k + 1)[k] == x.chains[s][k]);
    assert(w.orders.contains_key(x.chains[s][k]));
    assert forall|j: int| k <= j < k + m.quotes.len() - qi implies w.orders.contains_key(
        #[trigger] c[j],
    ) && answers(w.header, m, m.quotes[qi + j - k], w.orders[c[j]]) by {
        if j > k {
            assert(w.orders.contains_key(c[j]));
            assert(m.quotes[(qi + 1) + j - (k + 1)] == m.quotes[qi + j - k]);
        }
    }
}

/// After a mass quote that succeeds, the seat's orders are exactly the quotes
/// of the payload: the bids in order, then the asks in order, at most as many
/// as a seat may have. The orders of all other seats are untouched.
pub proof fn lemma_quote_set(
    v: BookView,
    seat: u16,
    owner: Seq<u8>,
    bids: Seq<Quote>,
    asks: Seq<Quote>,
    expiry: u32,
)
    requires
        v.ok(),
        v.solvent(),
        !no_owner(owner),
        requoted(v, seat, owner, bids, asks, expiry).1 is Ok,
    ensures
        ({
            let w = requoted(v, seat, owner, bids, asks, expiry).0;
            let c = w.chains[seat as int];
            let x = v.merged(seat, Side::Bid, bids, expiry).0;
            let m = Merge {
                seat,
                side: Side::Bid,
                expiry_slot: expiry,
                opposing: v.best(Side::Ask),
                quotes: bids,
            };
            let n = Merge {
                seat,
                side: Side::Ask,
                expiry_slot: expiry,
                opposing: x.best(Side::Bid),
                quotes: asks,
            };
            &&& x.ok()
            &&& same_header(v, x)
            &&& w.ok()
            &&& forall|i: u16|
                #![trigger w.orders.contains_key(i)]
                #![trigger x.orders.contains_key(i)]
                (x.orders.contains_key(i) && x.orders[i].side == Side::Bid) == (
                w.orders.contains_key(i) && w.orders[i].side == Side::Bid) && (
                x.orders.contains_key(i) && x.orders[i].side == Side::Bid ==> w.orders[i]
                    == x.orders[i])
            &&& c.len() == bids.len() + asks.len()
            &&& c.len() <= 128
            &&& forall|j: int|
                0 <= j < bids.len() ==> answers(v.header, m, bids[j], w.orders[#[trigger] c[j]])
            &&& forall|j: int|
                bids.len() <= j < c.len() ==> answers(
                    v.header,
                    n,
                    asks[j - bids.len()],
                    w.orders[#[trigger] c[j]],
                )
            &&& forall|i: u16| #[trigger]
                v.orders.contains_key(i) && v.orders[i].maker != seat ==> w.orders.contains_key(i)
                    && w.orders[i] == v.orders[i]
            &&& forall|i: u16| #[trigger]
                w.orders.contains_key(i) && w.orders[i].maker != seat ==> v.orders.contains_key(i)
            &&& forall|t: int| 0 <= t < 128 && t != seat ==> #[trigger] w.chains[t] == v.chains[t]
        }),
{
    let s = seat as int;
    let nb = bids.len() as int;
    let na = asks.len() as int;
    lemma_supplied(v);
    assert(v.seats[s].within_supply());
    let m = Merge {
        seat,
        side: Side::Bid,
        expiry_slot: expiry,
        opposing: v.best(Side::Ask),
        quotes: bids,
    };
    let (x, r) = v.merged(seat, Side::Bid, bids, expiry);
    lemma_merge_starts(v, seat, Side::Bid, bids, expiry);
    crate::maker::lemma_first_rank(v, s);
    lemma_merge_keeps(v, m, 0, 0, 0, 0);
    lemma_merge_answers(v, m, 0, 0, 0, 0);
    assert(r->Ok_0 == nb);
    assert(x.seats[s].within_supply());
    assert(x.seats[s].owner == v.seats[s].owner);
    let cx = x.chains[s];
    assert(x.chain_ok(s));
    // The first ask of the seat stands right behind its bids.
    let k = x.rank(s, key(Side::Ask, 0));
    lemma_rank(x, s, key(Side::Ask, 0), 0);
    assert(k == nb) by {
        if nb > 0 {
            assert(x.orders.contains_key(cx[nb - 1]));
        }
        if k > nb {
            assert(x.orders.contains_key(cx[nb]));
            assert(x.orders[cx[nb]].side == Side::Bid) by {
                assert(x.orders[cx[nb]].key() < key(Side::Ask, 0));
            }
        }
        if k < nb {
            assert(x.orders.contains_key(cx[k]));
            assert(x.orders[cx[k]].side == Side::Bid);
        }
    }
    let n = Merge {
        seat,
        side: Side::Ask,
        expiry_slot: expiry,
        opposing: x.best(Side::Bid),
        quotes: asks,
    };
    let (y, t) = x.merged(seat, Side::Ask, asks, expiry);
    lemma_merge_starts(x, seat, Side::Ask, asks, expiry);
    lemma_merge_answers(x, n, nb, 0, 0, 0);
    let c = y.chains[s];
    assert(y.chain_ok(s));
    assert(c.len() == nb + na) by {
        if c.len() > nb + na {
            let j = c[nb + na];
            assert(y.orders.contains_key(j));
            assert(y.orders[j].side == Side::Bid);
            assert(c.take(nb) == cx.take(nb));
            if na > 0 {
                assert(y.orders.contains_key(c[nb + na - 1]));
                assert(y.orders[c[nb + na - 1]].key() < y.orders[j].key());
            } else {
                assert(x.orders.contains_key(j) && x.orders[j] == y.orders[j]);
                assert(x.order_ok(j));
                let p = choose|p: int| 0 <= p < cx.len() && cx[p] == j;
                assert(x.orders.contains_key(cx[p]));
                if p < nb {
                    assert(cx.take(nb)[p] == j);
                    assert(c.take(nb)[p] == c[p]);
                    assert(c[p] == c[nb + na]);
                } else {
                    assert(x.orders[cx[p]].key() >= key(Side::Ask, 0));
                }
            }
        }
    }
    let w = requoted(v, seat, owner, bids, asks, expiry).0;
    assert(w.orders == y.orders && w.chains == y.chains);
    crate::custody::lemma_bump_keeps(y);
    assert forall|i: u16|
        #![trigger w.orders.contains_key(i)]
        #![trigger x.orders.contains_key(i)]
        (x.orders.contains_key(i) && x.orders[i].side == Side::Bid) == (w.orders.contains_key(i)
            && w.orders[i].side == Side::Bid) && (x.orders.contains_key(i) && x.orders[i].side
            == Side::Bid ==> w.orders[i] == x.orders[i]) by {
        assert(y.orders.contains_key(i) == w.orders.contains_key(i));
    }
    assert forall|t: int| 0 <= t < 128 && t != seat implies #[trigger] w.chains[t]
        == v.chains[t] by {
        assert(x.chains[t] == v.chains[t]);
    }
    assert forall|j: int| 0 <= j < nb implies answers(
        v.header,
        m,
        bids[j],
        w.orders[#[trigger] c[j]],
    ) by {
        assert(c.take(nb)[j] == c[j]);
        assert(cx.take(nb)[j] == cx[j]);
        assert(x.orders.contains_key(cx[j]));
        assert(bids[0 + j - 0] == bids[j]);
        assert(y.orders[cx[j]] == x.orders[cx[j]]);
    }
    assert forall|j: int| nb <= j < c.len() implies answers(
        v.header,
        n,
        asks[j - nb],
        w.orders[#[trigger] c[j]],
    ) by {
        assert(y.orders.contains_key(c[j]));
        assert(asks[0 + j - nb] == asks[j - nb]);
    }
    assert forall|i: u16| #[trigger] v.orders.contains_key(i) && v.orders[i].maker != seat implies
        w.orders.contains_key(i) && w.orders[i] == v.orders[i] by {
        assert(x.orders.contains_key(i));
    }
    assert forall|i: u16| #[trigger] w.orders.contains_key(i) && w.orders[i].maker != seat implies
        v.orders.contains_key(i) by {
        assert(y.orders.contains_key(i));
        assert(x.orders.contains_key(i));
    }
}

/// Quotes by strictly ascending tick.
pub open spec fn ascending(q: Seq<Quote>) -> bool {
    forall|a: int, b: int| 0 <= a < b < q.len() ==> (#[trigger] q[a]).tick < (#[trigger] q[b]).tick
}

/// Sizes that an order may have.
pub open spec fn sizes_fit(h: Market, q: Seq<Quote>) -> bool {
    forall|a: int|
        0 <= a < q.len() ==> 1 <= (#[trigger] q[a]).lots <= h.max_lots_per_order
}

/// What a merge makes of the payload itself: it succeeds only with ascending
/// quotes of sizes that fit, code 14 says that they do not ascend, and code 10
/// that a size does not fit.
#[verifier::rlimit(40)]
proof fn lemma_payload_from(v: BookView, m: Merge, k: int, qi: int, lt: u32, lu: u32)
    requires
        v.ok(),
        supplied(v),
        merging(v, m, k, lu),
        0 <= qi <= m.quotes.len(),
    ensures
        match v.merged_from(m, k, qi, lt, lu).1 {
            Ok(_) => {
                &&& qi > 0 && qi < m.quotes.len() ==> m.quotes[qi].tick > lt
                &&& forall|a: int, b: int|
                    qi <= a < b < m.quotes.len() ==> (#[trigger] m.quotes[a]).tick < (
                    #[trigger] m.quotes[b]).tick
                &&& forall|a: int|
                    qi <= a < m.quotes.len() ==> 1 <= (#[trigger] m.quotes[a]).lots
                        <= v.header.max_lots_per_order
            },
            Err(e) => {
                ||| e == ProgramError::Custom(14) && (0 < qi < m.quotes.len() && m.quotes[qi].tick <= lt || exists|
                    a: int,
                | qi < a < m.quotes.len() && m.quotes[a - 1].tick >= (#[trigger] m.quotes[a]).tick)
                ||| e == ProgramError::Custom(10) && exists|a: int|
                    qi <= a < m.quotes.len() && ((#[trigger] m.quotes[a]).lots == 0
                        || m.quotes[a].lots > v.header.max_lots_per_order)
                ||| e == ProgramError::Custom(9)
                ||| e == ProgramError::Custom(11)
                ||| e == ProgramError::Custom(13)
                ||| e == ProgramError::Custom(20)
            },
        },
    decreases m.quotes.len() - qi, v.chains[m.seat as int].len() - k,
{
    let s = m.seat as int;
    let c = v.chains[s];
    let i = c[k];
    let here = v.merge_here(m, k);
    let q = m.quotes[qi];
    let ct = v.orders[i].tick;
    assert(v.chain_ok(s));
    if here {
        assert(v.orders.contains_key(i));
        assert(v.order_ok(i));
    }
    if qi >= m.quotes.len() && !here {
    } else if here && qi >= m.quotes.len() {
        let x = v.killed(i);
        crate::custody::lemma_kill_keeps(v, i);
        lemma_merge_killed(v, m, k, lu);
        lemma_payload_from(x, m, k, qi, lt, lu);
    } else if qi > 0 && q.tick <= lt {
    } else if q.lots == 0 || q.lots > v.header.max_lots_per_order {
        assert(m.quotes[qi].lots == q.lots);
    } else if here && ct < q.tick {
        let x = v.killed(i);
        crate::custody::lemma_kill_keeps(v, i);
        lemma_merge_killed(v, m, k, lu);
        lemma_payload_from(x, m, k, qi, lt, lu);
    } else if here && ct == q.tick && q.lots <= v.orders[i].lots {
        let x = v.shrunk(i, q.lots).refreshed(i, m.expiry_slot);
        crate::custody::lemma_shrink_keeps(v, i, q.lots, m.expiry_slot);
        lemma_merge_kept(v, m, k, lu, q.lots);
        lemma_payload_from(x, m, k + 1, qi + 1, q.tick, ct);
        lemma_payload_step(v, m, qi);
    } else if here && ct == q.tick {
        let x = v.killed(i);
        crate::custody::lemma_kill_keeps(v, i);
        lemma_merge_killed(v, m, k, lu);
        lemma_reposted_sorted(v, m, k, lu);
        let (y, t) = x.quote_posted(m, q, k, lu, None);
        if t is Ok {
            crate::custody::lemma_quote_posted_keeps(x, m, q, k, lu, None);
            lemma_payload_from(y, m, k + 1, qi + 1, q.tick, t->Ok_0);
            lemma_payload_step(v, m, qi);
        }
    } else {
        lemma_merge_sorted(v, m, k, lu, q);
        let next = if here {
            Some(ct)
        } else {
            None
        };
        let (y, t) = v.quote_posted(m, q, k, lu, next);
        if t is Ok {
            crate::custody::lemma_quote_posted_keeps(v, m, q, k, lu, next);
            lemma_payload_from(y, m, k + 1, qi + 1, q.tick, t->Ok_0);
            lemma_payload_step(v, m, qi);
        }
    }
}

/// Ascending from the second quote on, and from the first to the second, is
/// ascending.
proof fn lemma_payload_step(v: BookView, m: Merge, qi: int)
    requires
        0 <= qi < m.quotes.len(),
    ensures
        (qi + 1 < m.quotes.len() ==> m.quotes[qi + 1].tick > m.quotes[qi].tick) && (forall|
            a: int,
            b: int,
        |
            qi + 1 <= a < b < m.quotes.len() ==> (#[trigger] m.quotes[a]).tick < (
            #[trigger] m.quotes[b]).tick) ==> (forall|a: int, b: int|
            qi <= a < b < m.quotes.len() ==> (#[trigger] m.quotes[a]).tick < (
            #[trigger] m.quotes[b]).tick),
        qi + 1 < m.quotes.len() && m.quotes[qi + 1].tick <= m.quotes[qi].tick ==> exists|a: int|
            qi < a < m.quotes.len() && m.quotes[a - 1].tick >= (#[trigger] m.quotes[a]).tick,
{
    if qi + 1 < m.quotes.len() {
        let n = m.quotes[qi + 1];
        assert(m.quotes[(qi + 1) - 1] == m.quotes[qi]);
    }
}

/// During a merge, an order at the tick of a quote that asks for no more lots
/// keeps its node and its id.
#[verifier::rlimit(60)]
proof fn lemma_place_kept_from(
    v: BookView,
    m: Merge,
    k: int,
    qi: int,
    lt: u32,
    lu: u32,
    i: u16,
    pos: int,
    j: int,
)
    requires
        v.ok(),
        supplied(v),
        merging(v, m, k, lu),
        0 <= qi <= j < m.quotes.len(),
        ascending(m.quotes),
        v.merged_from(m, k, qi, lt, lu).1 is Ok,
        k <= pos < v.chains[m.seat as int].len(),
        v.chains[m.seat as int][pos] == i,
        v.orders[i].side == m.side,
        v.orders[i].tick == m.quotes[j].tick,
        m.quotes[j].lots <= v.orders[i].lots,
    ensures
        ({
            let w = v.merged_from(m, k, qi, lt, lu).0;
            w.orders.contains_key(i) && w.orders[i].seq == v.orders[i].seq && w.orders[i].tick
                == v.orders[i].tick && w.orders[i].side == v.orders[i].side
        }),
    decreases m.quotes.len() - qi, v.chains[m.seat as int].len() - k,
{
    let s = m.seat as int;
    let c = v.chains[s];
    let f = c[k];
    let here = v.merge_here(m, k);
    let q = m.quotes[qi];
    let ct = v.orders[f].tick;
    let (w, r) = v.merged_from(m, k, qi, lt, lu);
    assert(v.chain_ok(s));
    assert(v.orders.contains_key(c[pos]));
    assert(v.orders.contains_key(f));
    assert(v.orders[c[k]].key() >= key(m.side, 0));
    if k < pos {
        assert(v.orders[c[k]].key() < v.orders[c[pos]].key());
    }
    assert(here);
    assert(v.order_ok(f));
    assert(ct <= v.orders[i].tick);
    if qi < j {
        assert(m.quotes[qi].tick < m.quotes[j].tick);
    }
    if ct < q.tick {
        let x = v.killed(f);
        crate::custody::lemma_kill_keeps(v, f);
        lemma_merge_killed(v, m, k, lu);
        assert(x.chains[s] == c.remove(k));
        assert(x.chains[s][pos - 1] == i);
        assert(f != i);
        lemma_place_kept_from(x, m, k, qi, lt, lu, i, pos - 1, j);
    } else if ct == q.tick && q.lots <= v.orders[f].lots {
        let x = v.shrunk(f, q.lots).refreshed(f, m.expiry_slot);
        crate::custody::lemma_shrink_keeps(v, f, q.lots, m.expiry_slot);
        lemma_merge_kept(v, m, k, lu, q.lots);
        lemma_step_kept(v, m, k, lu, q.lots);
        if pos == k {
            lemma_merge_answers(x, m, k + 1, qi + 1, q.tick, ct);
            assert(x.chains[s][k] == i);
            assert(w.orders.contains_key(x.chains[s][k]));
        } else {
            assert(f != i);
            assert(qi < j);
            lemma_place_kept_from(x, m, k + 1, qi + 1, q.tick, ct, i, pos, j);
        }
    } else if ct == q.tick {
        assert(pos > k && qi < j);
        let x = v.killed(f);
        crate::custody::lemma_kill_keeps(v, f);
        lemma_merge_killed(v, m, k, lu);
        assert(x.chains[s] == c.remove(k));
        lemma_reposted_sorted(v, m, k, lu);
        let (y, t) = x.quote_posted(m, q, k, lu, None);
        crate::custody::lemma_quote_posted_keeps(x, m, q, k, lu, None);
        assert(f != i);
        assert(x.orders.contains_key(i));
        assert(x.free.contains(x.free[0]));
        assert(y.chains[s] == x.chains[s].insert(k, x.free[0]));
        assert(y.chains[s][pos] == i);
        lemma_place_kept_from(y, m, k + 1, qi + 1, q.tick, t->Ok_0, i, pos, j);
    } else {
        assert(qi < j);
        lemma_merge_sorted(v, m, k, lu, q);
        let (y, t) = v.quote_posted(m, q, k, lu, Some(ct));
        crate::custody::lemma_quote_posted_keeps(v, m, q, k, lu, Some(ct));
        assert(v.free.contains(v.free[0]));
        assert(y.chains[s] == c.insert(k, v.free[0]));
        assert(y.chains[s][pos + 1] == i);
        lemma_place_kept_from(y, m, k + 1, qi + 1, q.tick, t->Ok_0, i, pos + 1, j);
    }
}

/// One side of a mass quote, as far as its payload decides.
pub proof fn lemma_payload(v: BookView, seat: u16, side: Side, quotes: Seq<Quote>, expiry: u32)
    requires
        v.ok(),
        supplied(v),
        seat < 128,
        !no_owner(v.seats[seat as int].owner@),
    ensures
        ({
            let (w, r) = v.merged(seat, side, quotes, expiry);
            match r {
                Ok(_) => {
                    &&& ascending(quotes)
                    &&& sizes_fit(v.header, quotes)
                    &&& w.ok()
                    &&& supplied(w)
                    &&& w.seats[seat as int].owner == v.seats[seat as int].owner
                    &&& w.header.max_lots_per_order == v.header.max_lots_per_order
                    &&& forall|i: u16| #[trigger]
                        v.orders.contains_key(i) && !(v.orders[i].maker == seat && v.orders[i].side
                            == side) ==> w.orders.contains_key(i) && w.orders[i] == v.orders[i]
                },
                Err(e) => {
                    ||| e == ProgramError::Custom(14) && !ascending(quotes)
                    ||| e == ProgramError::Custom(10) && !sizes_fit(v.header, quotes)
                    ||| e == ProgramError::Custom(9)
                    ||| e == ProgramError::Custom(11)
                    ||| e == ProgramError::Custom(13)
                    ||| e == ProgramError::Custom(20)
                },
            }
        }),
{
    let m = Merge {
        seat,
        side,
        expiry_slot: expiry,
        opposing: v.best(side.spec_opposite()),
        quotes,
    };
    let k = v.rank(seat as int, key(side, 0));
    assert(v.seats[seat as int].within_supply());
    lemma_merge_starts(v, seat, side, quotes, expiry);
    lemma_payload_from(v, m, k, 0, 0, 0);
    lemma_merge_keeps(v, m, k, 0, 0, 0);
    if v.merged(seat, side, quotes, expiry).1 is Ok {
        lemma_merge_answers(v, m, k, 0, 0, 0);
    }
}

/// One side of a mass quote, as far as a resting order keeps its place.
pub proof fn lemma_place_kept(
    v: BookView,
    seat: u16,
    side: Side,
    quotes: Seq<Quote>,
    expiry: u32,
    i: u16,
    j: int,
)
    requires
        v.ok(),
        supplied(v),
        seat < 128,
        !no_owner(v.seats[seat as int].owner@),
        v.merged(seat, side, quotes, expiry).1 is Ok,
        v.orders.contains_key(i),
        v.orders[i].maker == seat,
        v.orders[i].side == side,
        0 <= j < quotes.len(),
        quotes[j].tick == v.orders[i].tick,
        quotes[j].lots <= v.orders[i].lots,
    ensures
        ({
            let w = v.merged(seat, side, quotes, expiry).0;
            w.orders.contains_key(i) && w.orders[i].seq == v.orders[i].seq && w.orders[i].tick
                == v.orders[i].tick && w.orders[i].side == side
        }),
{
    let m = Merge {
        seat,
        side,
        expiry_slot: expiry,
        opposing: v.best(side.spec_opposite()),
        quotes,
    };
    let s = seat as int;
    let k = v.rank(s, key(side, 0));
    let c = v.chains[s];
    assert(v.seats[s].within_supply());
    lemma_merge_starts(v, seat, side, quotes, expiry);
    lemma_payload(v, seat, side, quotes, expiry);
    assert(v.order_ok(i));
    assert(v.chain_ok(s));
    let pos = c.index_of(i);
    assert(c[pos] == i);
    lemma_rank(v, s, key(side, 0), 0);
    assert(pos >= k) by {
        if pos < k {
            assert(v.orders[c[pos]].key() < key(side, 0));
        }
    }
    lemma_place_kept_from(v, m, k, 0, 0, 0, i, pos, j);
}

} // verus!
