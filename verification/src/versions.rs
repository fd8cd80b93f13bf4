//! The sequence number of a market counts the instructions that changed it:
//! every one that succeeds adds exactly one, so that a reader of snapshots can
//! order them and see that it missed one.

use crate::admin::{CollectFees, UpdateFee};
use crate::cranks::{Reanchor, ReapExpired};
use crate::custody::{lemma_keeps_owed, lemma_merge_keeps, lemma_supplied};
use crate::flow::{lemma_start, lemma_take_monotone};
use crate::funding::{ClaimSeat, CloseSeat, Deposit, Withdraw};
use crate::ledger::lemma_merge_starts;
use crate::maker::{requoted, Cancel, PlaceLimit};
use crate::market::wrapping_succ;
use crate::model::{key, lemma_market_ok, market_ok, BookView, Merge};
use crate::quote::Quote;
use crate::seat::no_owner;
use crate::side::{Side, TakeParams, TakeResult};
use crate::taker::{PlaceTake, Swap};
use vstd::prelude::*;

verus! {

/// `w` is one instruction further than `v`.
pub open spec fn next_version(v: BookView, w: BookView) -> bool {
    w.header.seq == wrapping_succ(v.header.seq)
}

/// Claiming a seat, closing one, depositing and withdrawing each count once.
pub proof fn lemma_funding_counts(
    v: BookView,
    owner: [u8; 32],
    close: CloseSeat,
    d: Deposit,
    base: (u64, u64),
    quote: (u64, u64),
    x: Withdraw,
)
    ensures
        (ClaimSeat).outcome(v, owner).1 is Ok ==> next_version(v, (ClaimSeat).outcome(v, owner).0),
        close.outcome(v, owner@).1 is Ok ==> next_version(v, close.outcome(v, owner@).0),
        d.outcome(v, owner@, base, quote).1 is Ok ==> next_version(
            v,
            d.outcome(v, owner@, base, quote).0,
        ),
        x.outcome(v, owner@).1 is Ok ==> next_version(v, x.outcome(v, owner@).0),
{
}

/// Changing the fee and collecting fees each count once.
pub proof fn lemma_admin_counts(v: BookView, u: UpdateFee)
    ensures
        u.outcome(v.header).1 is Ok ==> u.outcome(v.header).0.seq == wrapping_succ(v.header.seq),
        (CollectFees).outcome(v.header).0.seq == wrapping_succ(v.header.seq),
{
}

/// A cancel counts once.
pub proof fn lemma_cancel_counts(c: Cancel, v: BookView, owner: Seq<u8>)
    ensures
        c.outcome(v, owner).1 is Ok ==> next_version(v, c.outcome(v, owner).0),
{
}

/// A pass counts no instruction by itself.
proof fn lemma_pass_seq(v: BookView, p: TakeParams)
    requires
        v.ok(),
        market_ok(v.header),
        v.taken(p).1 is Ok,
    ensures
        v.taken(p).0.header.seq == v.header.seq,
        v.taken(p).0.ok(),
        v.taken(p).1->Ok_0.lots <= p.max_lots,
{
    lemma_market_ok(v.header);
    lemma_start(v.header, p);
    lemma_take_monotone(v, p, TakeResult { lots: 0, quote: 0, fee: 0 }, p.max_lots);
}

/// A taker order and a swap each count once.
pub proof fn lemma_taking_counts(
    v: BookView,
    t: PlaceTake,
    owner: Seq<u8>,
    s: Swap,
    delta: u64,
    slot: u64,
)
    requires
        v.ok(),
        market_ok(v.header),
    ensures
        t.outcome(v, owner, slot).1 is Ok ==> next_version(v, t.outcome(v, owner, slot).0),
        s.outcome(v, delta, slot).1 is Ok ==> next_version(v, s.outcome(v, delta, slot).0),
{
    if t.outcome(v, owner, slot).1 is Ok {
        lemma_pass_seq(v, t.pass(slot));
    }
    let p = s.pass(v.header, delta, slot);
    if s.outcome(v, delta, slot).1 is Ok && p.max_lots != 0 {
        lemma_pass_seq(v, p);
    }
}

/// A limit order counts once, whether it posts, amends, cancels or trades.
pub proof fn lemma_placing_counts(v: BookView, d: PlaceLimit, owner: Seq<u8>, slot: u64)
    requires
        v.ok(),
        market_ok(v.header),
        d.outcome(v, owner, slot).1 is Ok,
    ensures
        next_version(v, d.outcome(v, owner, slot).0),
{
    if d.lots != 0 && !d.spec_post_only() {
        lemma_pass_seq(v, d.pass(slot));
    }
}

/// A mass quote counts once, however many quotes it replaces.
pub proof fn lemma_quoting_counts(
    v: BookView,
    seat: u16,
    owner: Seq<u8>,
    bids: Seq<Quote>,
    asks: Seq<Quote>,
    expiry: u32,
)
    requires
        v.ok(),
        v.solvent(),
        !no_owner(owner),
        requoted(v, seat, owner, bids, asks, expiry).1 is Ok,
    ensures
        next_version(v, requoted(v, seat, owner, bids, asks, expiry).0),
{
    lemma_supplied(v);
    let s = seat as int;
    assert(v.seats[s].within_supply());
    let w = v.merged(seat, Side::Bid, bids, expiry).0;
    let m = Merge {
        seat,
        side: Side::Bid,
        expiry_slot: expiry,
        opposing: v.best(Side::Ask),
        quotes: bids,
    };
    lemma_merge_starts(v, seat, Side::Bid, bids, expiry);
    lemma_merge_keeps(v, m, v.rank(s, key(Side::Bid, 0)), 0, 0, 0);
    lemma_keeps_owed(v, w);
    assert(w.seats[s].within_supply());
    assert(w.seats[s].owner == v.seats[s].owner);
    let n = Merge {
        seat,
        side: Side::Ask,
        expiry_slot: expiry,
        opposing: w.best(Side::Bid),
        quotes: asks,
    };
    lemma_merge_starts(w, seat, Side::Ask, asks, expiry);
    lemma_merge_keeps(w, n, w.rank(s, key(Side::Ask, 0)), 0, 0, 0);
}

proof fn lemma_killed_all_seq(v: BookView, l: Seq<u16>)
    ensures
        v.killed_all(l).header == v.header,
    decreases l.len(),
{
    if l.len() > 0 {
        lemma_killed_all_seq(v, l.drop_last());
    }
}

proof fn lemma_cleared_seq(v: BookView, t: int, n: nat)
    ensures
        v.cleared(t, n).header == v.header,
    decreases n,
{
    if n > 0 {
        let w = v.cleared(t, (n - 1) as nat);
        lemma_cleared_seq(v, t, (n - 1) as nat);
        lemma_killed_all_seq(w, w.queues[(t + n - 1) % 8192]);
    }
}

proof fn lemma_moved_up_seq(v: BookView, cur: int, goal: int, evicted: int, budget: int)
    ensures
        v.moved_up(cur, goal, evicted, budget).0.header == v.header,
    decreases
            if goal > cur {
                goal - cur
            } else {
                0
            },
{
    if cur < goal && evicted < budget {
        lemma_cleared_seq(v, cur, 64);
        lemma_moved_up_seq(
            v.cleared(cur, 64),
            cur + 64,
            goal,
            evicted + v.levels_in(cur, 64),
            budget,
        );
    }
}

proof fn lemma_moved_down_seq(v: BookView, cur: int, goal: int, evicted: int, budget: int)
    ensures
        v.moved_down(cur, goal, evicted, budget).0.header == v.header,
    decreases
            if cur > goal {
                cur - goal
            } else {
                0
            },
{
    if cur > goal && evicted < budget {
        lemma_cleared_seq(v, cur + 8128, 64);
        lemma_moved_down_seq(
            v.cleared(cur + 8128, 64),
            cur - 64,
            goal,
            evicted + v.levels_in(cur + 8128, 64),
            budget,
        );
    }
}

/// Moving the window and reaping each count once, however many orders end.
pub proof fn lemma_cranks_count(v: BookView, a: Reanchor, b: ReapExpired, slot: u64)
    ensures
        next_version(v, a.outcome(v).0),
        next_version(v, b.outcome(v, slot).0),
{
    let goal = v.anchor_for(a.target_anchor);
    let from = v.header.anchor_tick as int;
    lemma_moved_up_seq(v, from, goal, 0, a.max_levels as int);
    lemma_moved_down_seq(v, from, goal, 0, a.max_levels as int);
    let lo = v.header.anchor_tick as int;
    let t = if b.start_tick < lo {
        lo
    } else if b.start_tick > lo + 8191 {
        lo + 8191
    } else {
        b.start_tick as int
    };
    let l = v.stale_from(b.side, slot, t);
    let n = if l.len() < b.max_count {
        l.len() as int
    } else {
        b.max_count as int
    };
    lemma_killed_all_seq(v, l.take(n));
}

} // verus!
