//! Laws of quote sets, quote by quote: what each quote of a mass quote comes
//! to, by its own flags, and when it makes the instruction fail.

use crate::custody::{lemma_has_best, lemma_some_best, lemma_supplied};
use crate::errors::ProgramError;
use crate::funds::{not_theirs, owns};
use crate::maker::requoted;
use crate::model::{in_window, key, slid, BookView, Merge};
use crate::placing::{crosses, lemma_resting_place, resting_place};
use crate::quote::Quote;
use crate::requote::{ascending, lemma_payload, lemma_place_kept, lemma_quote_set, sizes_fit};
use crate::seat::no_owner;
use crate::side::Side;
use vstd::prelude::*;

verus! {

/// Two books have the same orders of one side.
pub open spec fn same_side(v: BookView, w: BookView, side: Side) -> bool {
    forall|i: u16|
        #![trigger w.orders.contains_key(i)]
        #![trigger v.orders.contains_key(i)]
        (v.orders.contains_key(i) && v.orders[i].side == side) == (w.orders.contains_key(i)
            && w.orders[i].side == side) && (v.orders.contains_key(i) && v.orders[i].side == side
            ==> w.orders[i] == v.orders[i])
}

/// The orders of a side decide its best price.
proof fn lemma_side_best(v: BookView, w: BookView, side: Side)
    requires
        v.structured(),
        w.structured(),
        same_side(v, w, side),
    ensures
        v.best(side) == w.best(side),
{
    lemma_has_best(v, side);
    lemma_has_best(w, side);
    if v.best(side) is Some {
        let t = v.best(side)->0;
        let i = choose|i: u16|
            #[trigger] v.orders.contains_key(i) && v.orders[i].side == side && v.orders[i].tick
                == t;
        assert(w.orders.contains_key(i));
        lemma_some_best(w, side, i);
        let u = w.best(side)->0;
        let j = choose|j: u16|
            #[trigger] w.orders.contains_key(j) && w.orders[j].side == side && w.orders[j].tick
                == u;
        assert(v.orders.contains_key(j));
        lemma_some_best(v, side, j);
    } else if w.best(side) is Some {
        let u = w.best(side)->0;
        let j = choose|j: u16|
            #[trigger] w.orders.contains_key(j) && w.orders[j].side == side && w.orders[j].tick
                == u;
        assert(v.orders.contains_key(j));
        lemma_some_best(v, side, j);
    }
}

proof fn lemma_side_crosses(v: BookView, w: BookView, side: Side, tick: u32)
    requires
        same_side(v, w, side.spec_opposite()),
    ensures
        crosses(v, side, tick) == crosses(w, side, tick),
{
    let opp = side.spec_opposite();
    if crosses(v, side, tick) {
        let j = choose|j: u16| #[trigger]
            v.orders.contains_key(j) && v.orders[j].side != side && match side {
                Side::Bid => v.orders[j].tick <= tick,
                Side::Ask => v.orders[j].tick >= tick,
            };
        assert(v.orders[j].side == opp);
        assert(w.orders.contains_key(j));
    }
    if crosses(w, side, tick) {
        let j = choose|j: u16| #[trigger]
            w.orders.contains_key(j) && w.orders[j].side != side && match side {
                Side::Bid => w.orders[j].tick <= tick,
                Side::Ask => w.orders[j].tick >= tick,
            };
        assert(w.orders[j].side == opp);
        assert(v.orders.contains_key(j));
    }
}

/// The order at node `i` of `w` is what quote `q` asks for, given the orders
/// of the other side in `v`: with its lots and its expiry, at its own tick or,
/// if bit 0 of its flags is clear, one tick off the opposing best.
pub open spec fn quoted_as(
    v: BookView,
    w: BookView,
    seat: u16,
    side: Side,
    q: Quote,
    expiry_slot: u32,
    i: u16,
) -> bool {
    let o = w.orders[i];
    &&& w.orders.contains_key(i)
    &&& o.maker == seat
    &&& o.side == side
    &&& o.lots == q.lots
    &&& o.expiry_slot == expiry_slot
    &&& resting_place(v, side, q.tick, o.tick)
    &&& q.flags % 2 == 1 ==> o.tick == q.tick && !crosses(v, side, q.tick)
}

/// After a mass quote that succeeds the seat rests its bids and then its asks,
/// one order for each quote, by ascending tick, and no other order. Each has
/// its quote's lots and the common expiry. Bids are measured against the asks
/// that rested before, asks against the bids that rest afterwards; a quote
/// with an odd flags byte stands at exactly its own tick.
pub proof fn lemma_quotes_rest(
    v: BookView,
    seat: u16,
    owner: Seq<u8>,
    bids: Seq<Quote>,
    asks: Seq<Quote>,
    expiry: u32,
)
    requires
        v.ok(),
        v.solvent(),
        !no_owner(owner),
        requoted(v, seat, owner, bids, asks, expiry).1 is Ok,
    ensures
        ({
            let w = requoted(v, seat, owner, bids, asks, expiry).0;
            let c = w.chains[seat as int];
            &&& seat < 128
            &&& v.seats[seat as int].owner@ == owner
            &&& c.len() == bids.len() + asks.len()
            &&& c.len() <= 128
            &&& forall|i: u16| #[trigger]
                w.orders.contains_key(i) && w.orders[i].maker == seat ==> c.contains(i)
            &&& forall|j: int|
                0 <= j < bids.len() ==> quoted_as(
                    v,
                    w,
                    seat,
                    Side::Bid,
                    bids[j],
                    expiry,
                    #[trigger] c[j],
                )
            &&& forall|j: int|
                bids.len() <= j < c.len() ==> quoted_as(
                    w,
                    w,
                    seat,
                    Side::Ask,
                    asks[j - bids.len()],
                    expiry,
                    #[trigger] c[j],
                )
        }),
{
    let s = seat as int;
    let w = requoted(v, seat, owner, bids, asks, expiry).0;
    let c = w.chains[s];
    let x = v.merged(seat, Side::Bid, bids, expiry).0;
    lemma_quote_set(v, seat, owner, bids, asks, expiry);
    assert(same_side(x, w, Side::Bid));
    lemma_side_best(x, w, Side::Bid);
    assert(w.chain_ok(s));
    assert forall|i: u16| #[trigger]
        w.orders.contains_key(i) && w.orders[i].maker == seat implies c.contains(i) by {
        assert(w.order_ok(i));
    }
    assert forall|j: int| 0 <= j < bids.len() implies quoted_as(
        v,
        w,
        seat,
        Side::Bid,
        bids[j],
        expiry,
        #[trigger] c[j],
    ) by {
        let q = bids[j];
        let f = q.flags;
        assert((f & 1 != 0) == (f % 2 == 1)) by (bit_vector);
        assert(w.orders.contains_key(c[j]));
        lemma_resting_place(v, Side::Bid, q.tick, !q.spec_reject_on_cross());
    }
    assert forall|j: int| bids.len() <= j < c.len() implies quoted_as(
        w,
        w,
        seat,
        Side::Ask,
        asks[j - bids.len()],
        expiry,
        #[trigger] c[j],
    ) by {
        let q = asks[j - bids.len()];
        let f = q.flags;
        assert((f & 1 != 0) == (f % 2 == 1)) by (bit_vector);
        assert(w.orders.contains_key(c[j]));
        lemma_resting_place(x, Side::Ask, q.tick, !q.spec_reject_on_cross());
        lemma_side_crosses(x, w, Side::Ask, q.tick);
    }
}

/// A quote with an odd flags byte that meets an order of the other side makes
/// the whole mass quote fail: a bid at or through any ask, an ask at or
/// through the bid of any other seat.
pub proof fn lemma_rejects_on_cross(
    v: BookView,
    seat: u16,
    owner: Seq<u8>,
    bids: Seq<Quote>,
    asks: Seq<Quote>,
    expiry: u32,
)
    requires
        v.ok(),
        v.solvent(),
        !no_owner(owner),
        (exists|j: int|
            0 <= j < bids.len() && (#[trigger] bids[j]).flags % 2 == 1 && crosses(
                v,
                Side::Bid,
                bids[j].tick,
            )) || (exists|j: int, i: u16|
            0 <= j < asks.len() && (#[trigger] asks[j]).flags % 2 == 1
                && #[trigger] v.orders.contains_key(i) && v.orders[i].side == Side::Bid
                && v.orders[i].maker != seat && v.orders[i].tick >= asks[j].tick),
    ensures
        requoted(v, seat, owner, bids, asks, expiry).1 is Err,
{
    if requoted(v, seat, owner, bids, asks, expiry).1 is Ok {
        let w = requoted(v, seat, owner, bids, asks, expiry).0;
        let c = w.chains[seat as int];
        lemma_quotes_rest(v, seat, owner, bids, asks, expiry);
        lemma_quote_set(v, seat, owner, bids, asks, expiry);
        if exists|j: int|
            0 <= j < bids.len() && (#[trigger] bids[j]).flags % 2 == 1 && crosses(
                v,
                Side::Bid,
                bids[j].tick,
            ) {
            let j = choose|j: int|
                0 <= j < bids.len() && (#[trigger] bids[j]).flags % 2 == 1 && crosses(
                    v,
                    Side::Bid,
                    bids[j].tick,
                );
            assert(quoted_as(v, w, seat, Side::Bid, bids[j], expiry, c[j]));
        } else {
            let (j, i) = choose|j: int, i: u16|
                0 <= j < asks.len() && (#[trigger] asks[j]).flags % 2 == 1
                    && #[trigger] v.orders.contains_key(i) && v.orders[i].side == Side::Bid
                    && v.orders[i].maker != seat && v.orders[i].tick >= asks[j].tick;
            let k = bids.len() + j;
            assert(quoted_as(w, w, seat, Side::Ask, asks[k - bids.len()], expiry, c[k]));
            assert(w.orders.contains_key(i));
            assert(crosses(w, Side::Ask, asks[j].tick));
        }
    }
}

/// Where a quote would land.
pub open spec fn lands(v: BookView, side: Side, q: Quote, at: u32) -> bool {
    resting_place(v, side, q.tick, at) && (q.flags % 2 == 1 ==> at == q.tick) && in_window(
        v.header,
        at,
    )
}

/// A mass quote of one quote, by a seat without orders, succeeds wherever the
/// quote has a place to land, the seat can pay for it there, and a node is
/// free: bit 0 of the flags is all that keeps it from sliding.
#[verifier::rlimit(40)]
pub proof fn lemma_one_quote(
    v: BookView,
    seat: u16,
    owner: Seq<u8>,
    side: Side,
    q: Quote,
    at: u32,
    expiry: u32,
)
    requires
        v.ok(),
        v.solvent(),
        seat < 128,
        v.seats[seat as int].owner@ == owner,
        !no_owner(owner),
        v.chains[seat as int].len() == 0,
        1 <= q.lots <= v.header.max_lots_per_order,
        in_window(v.header, q.tick),
        lands(v, side, q, at),
        v.free.len() > 0,
        match side {
            Side::Bid => v.seats[seat as int].quote_free >= at * v.header.tick_size * q.lots,
            Side::Ask => v.seats[seat as int].base_free >= q.lots * v.header.base_lot_size,
        },
    ensures
        match side {
            Side::Bid => requoted(v, seat, owner, seq![q], seq![], expiry).1 is Ok,
            Side::Ask => requoted(v, seat, owner, seq![], seq![q], expiry).1 is Ok,
        },
{
    let s = seat as int;
    let f = q.flags;
    assert((f & 1 != 0) == (f % 2 == 1)) by (bit_vector);
    let opp = side.spec_opposite();
    let b = v.best(opp);
    lemma_has_best(v, opp);
    if crosses(v, side, q.tick) {
        let j = choose|j: u16| #[trigger]
            v.orders.contains_key(j) && v.orders[j].side != side && match side {
                Side::Bid => v.orders[j].tick <= q.tick,
                Side::Ask => v.orders[j].tick >= q.tick,
            };
        lemma_some_best(v, opp, j);
        if q.flags % 2 == 1 {
            let i = choose|i: u16|
                #[trigger] v.orders.contains_key(i) && v.orders[i].side == opp && v.orders[i].tick
                    == b->0;
        }
    } else if b is Some {
        let j = choose|j: u16|
            #[trigger] v.orders.contains_key(j) && v.orders[j].side == opp && v.orders[j].tick
                == b->0;
        assert(v.orders.contains_key(j));
    }
    assert(slid(v.header, side, q.tick, !q.spec_reject_on_cross(), b) == Ok::<
        u32,
        crate::errors::ProgramError,
    >(at));
    assert(v.chain_ok(s));
    let one = seq![q];
    let none = Seq::<Quote>::empty();
    let m = Merge { seat, side, expiry_slot: expiry, opposing: b, quotes: one };
    assert(v.rank(s, key(side, 0)) == 0);
    match side {
        Side::Bid => {
            let w = v.merged(seat, Side::Bid, one, expiry).0;
            lemma_merges_one(v, m, at);
            let k = w.rank(s, key(Side::Ask, 0));
            let n = Merge {
                seat,
                side: Side::Ask,
                expiry_slot: expiry,
                opposing: w.best(Side::Bid),
                quotes: seq![],
            };
            assert(w.orders[w.chains[s][0]].side == Side::Bid);
            assert(!w.merge_here(n, k)) by {
                if w.merge_here(n, k) {
                    assert(k == 0);
                }
            }
        },
        Side::Ask => {
            let l = Merge {
                seat,
                side: Side::Bid,
                expiry_slot: expiry,
                opposing: v.best(Side::Ask),
                quotes: seq![],
            };
            assert(!v.merge_here(l, 0));
            assert(v.merged_from(l, 0, 0, 0, 0) == (v, Ok::<int, crate::errors::ProgramError>(0)));
            lemma_merges_one(v, m, at);
        },
    }
}

/// One quote is merged with an empty chain.
proof fn lemma_merges_one(v: BookView, m: Merge, at: u32)
    requires
        v.ok(),
        m.seat < 128,
        v.chains[m.seat as int].len() == 0,
        m.quotes.len() == 1,
        m.opposing == v.best(m.side.spec_opposite()),
        ({
            let q = m.quotes[0];
            &&& 1 <= q.lots <= v.header.max_lots_per_order
            &&& slid(v.header, m.side, q.tick, !q.spec_reject_on_cross(), m.opposing) == Ok::<
                u32,
                crate::errors::ProgramError,
            >(at)
            &&& match m.side {
                Side::Bid => v.seats[m.seat as int].quote_free >= at * v.header.tick_size * q.lots,
                Side::Ask => v.seats[m.seat as int].base_free >= q.lots * v.header.base_lot_size,
            }
        }),
        at >= 1,
        v.free.len() > 0,
        !no_owner(v.seats[m.seat as int].owner@),
        v.solvent(),
    ensures
        ({
            let (w, r) = v.merged_from(m, 0, 0, 0, 0);
            &&& r == Ok::<int, crate::errors::ProgramError>(1)
            &&& w.ok()
            &&& w.chains[m.seat as int].len() == 1
            &&& w.orders[w.chains[m.seat as int][0]].side == m.side
        }),
{
    let s = m.seat as int;
    let q = m.quotes[0];
    let (w, r) = v.quote_posted(m, q, 0, 0, None);
    crate::custody::lemma_supplied(v);
    assert(v.seats[s].within_supply());
    lemma_has_best(v, m.side.spec_opposite());
    assert(v.chain_ok(s));
    assert(r == Ok::<u32, crate::errors::ProgramError>(at));
    crate::custody::lemma_quote_posted_keeps(v, m, q, 0, 0, None);
    assert(!w.merge_here(m, 1));
    assert(w.merged_from(m, 1, 1, q.tick, at) == (w, Ok::<int, crate::errors::ProgramError>(1)));
    assert(!v.merge_here(m, 0));
}

/// A mass quote succeeds only for the seat's owner, with at most 128 quotes,
/// each side by strictly ascending tick and of sizes that an order may have.
/// It is refused with code 15 exactly for too many quotes, with code 14 only
/// when a side does not ascend, with code 10 only for a size that does not
/// fit, and else for what its prices or balances forbid.
pub proof fn lemma_quotes_refused(
    v: BookView,
    seat: u16,
    owner: Seq<u8>,
    bids: Seq<Quote>,
    asks: Seq<Quote>,
    expiry: u32,
)
    requires
        v.ok(),
        v.solvent(),
        !no_owner(owner),
    ensures
        match requoted(v, seat, owner, bids, asks, expiry).1 {
            Ok(_) => {
                &&& owns(v, seat, owner)
                &&& bids.len() + asks.len() <= 128
                &&& ascending(bids)
                &&& ascending(asks)
                &&& sizes_fit(v.header, bids)
                &&& sizes_fit(v.header, asks)
            },
            Err(e) => {
                ||| not_theirs(v, seat, owner, e)
                ||| owns(v, seat, owner) && bids.len() + asks.len() > 128 && e
                    == ProgramError::Custom(15)
                ||| {
                    &&& owns(v, seat, owner)
                    &&& bids.len() + asks.len() <= 128
                    &&& {
                        ||| e == ProgramError::Custom(14) && !(ascending(bids) && ascending(asks))
                        ||| e == ProgramError::Custom(10) && !(sizes_fit(v.header, bids)
                            && sizes_fit(v.header, asks))
                        ||| e == ProgramError::Custom(9)
                        ||| e == ProgramError::Custom(11)
                        ||| e == ProgramError::Custom(13)
                        ||| e == ProgramError::Custom(20)
                    }
                }
            },
        },
{
    if owns(v, seat, owner) && bids.len() + asks.len() <= 128 {
        lemma_supplied(v);
        lemma_payload(v, seat, Side::Bid, bids, expiry);
        let (x, r) = v.merged(seat, Side::Bid, bids, expiry);
        if r is Ok {
            lemma_payload(x, seat, Side::Ask, asks, expiry);
        }
    }
}

/// A quote that asks for no more than the seat's order at its tick keeps that
/// order's place: the node and the id stay.
pub proof fn lemma_quotes_keep_place(
    v: BookView,
    seat: u16,
    owner: Seq<u8>,
    bids: Seq<Quote>,
    asks: Seq<Quote>,
    expiry: u32,
    i: u16,
    j: int,
)
    requires
        v.ok(),
        v.solvent(),
        !no_owner(owner),
        requoted(v, seat, owner, bids, asks, expiry).1 is Ok,
        v.orders.contains_key(i),
        v.orders[i].maker == seat,
        ({
            let l = if v.orders[i].side == Side::Bid {
                bids
            } else {
                asks
            };
            0 <= j < l.len() && l[j].tick == v.orders[i].tick && l[j].lots <= v.orders[i].lots
        }),
    ensures
        ({
            let w = requoted(v, seat, owner, bids, asks, expiry).0;
            w.orders.contains_key(i) && w.orders[i].seq == v.orders[i].seq && w.orders[i].tick
                == v.orders[i].tick
        }),
{
    lemma_supplied(v);
    lemma_quotes_refused(v, seat, owner, bids, asks, expiry);
    let (x, r) = v.merged(seat, Side::Bid, bids, expiry);
    lemma_payload(v, seat, Side::Bid, bids, expiry);
    lemma_quote_set(v, seat, owner, bids, asks, expiry);
    let w = requoted(v, seat, owner, bids, asks, expiry).0;
    let (y, t) = x.merged(seat, Side::Ask, asks, expiry);
    assert(w.orders == y.orders);
    if v.orders[i].side == Side::Bid {
        lemma_place_kept(v, seat, Side::Bid, bids, expiry, i, j);
        assert(x.orders.contains_key(i));
        assert(x.orders[i].side == Side::Bid);
    } else {
        lemma_place_kept(x, seat, Side::Ask, asks, expiry, i, j);
    }
}

} // verus!
