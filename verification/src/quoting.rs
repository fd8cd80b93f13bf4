//! Mass quotes: replacing a seat's quotes on one side in one merge.

use crate::book::{order_of, BookRefMut};
use crate::constants::NIL;
use crate::errors::{fail, ClobError, ProgramError};
use crate::lists::{at, lemma_in_pool_len, lemma_index_of};
use crate::model::{atoms, in_window, key, locks_base, slid, BookView, Merge, Order};
use crate::orders::{lemma_best_in_window, lemma_killed_supply, lemma_rank, lemma_slid_clear};
use crate::quote::{quotes_in, Quote};
use crate::seat::no_owner;
use crate::side::{unlikely, Side};
use crate::steps::{
    lemma_atoms_bound,
    lemma_atoms_split,
    lemma_lock_and_post,
    lemma_lock_available,
    lemma_locked,
    lemma_refreshed,
    lemma_shrunk,
    postable,
    sorted_at,
};
use vstd::prelude::*;

verus! {

/// What holds while a side is merged: the chain before position `k` is done,
/// the rest is still to be looked at.
pub open spec fn merging(v: BookView, m: Merge, k: int, last_used: u32) -> bool {
    let c = v.chains[m.seat as int];
    &&& m.seat < 128
    &&& 0 <= k <= c.len()
    &&& forall|j: int| 0 <= j < k ==> v.orders[#[trigger] c[j]].key() <= key(m.side, last_used)
    &&& forall|j: int| k <= j < c.len() ==> v.orders[#[trigger] c[j]].key() >= key(m.side, 0)
    &&& v.has_best(m.side.spec_opposite(), m.opposing)
    &&& v.seats[m.seat as int].within_supply()
    &&& !no_owner(v.seats[m.seat as int].owner@)
}

/// `v` and `w` have the same orders on `side`.
pub open spec fn same_on(v: BookView, w: BookView, side: Side) -> bool {
    forall|i: u16|
        #![trigger v.orders.contains_key(i)]
        #![trigger w.orders.contains_key(i)]
        (v.orders.contains_key(i) && v.orders[i].side == side) == (w.orders.contains_key(i)
            && w.orders[i].side == side) && (v.orders.contains_key(i) && v.orders[i].side == side
            ==> v.orders[i].tick == w.orders[i].tick)
}

proof fn lemma_best_kept(v: BookView, w: BookView, side: Side, r: Option<u32>)
    requires
        v.has_best(side, r),
        same_on(v, w, side),
    ensures
        w.has_best(side, r),
{
    if let Some(t) = r {
        let i = choose|i: u16|
            #[trigger] v.orders.contains_key(i) && v.orders[i].side == side && v.orders[i].tick
                == t;
        assert(w.orders.contains_key(i));
        assert(w.quoted(side, t as int));
        assert forall|j: u16|
            #[trigger] w.orders.contains_key(j) && w.orders[j].side == side implies match side {
            Side::Bid => w.orders[j].tick <= t,
            Side::Ask => w.orders[j].tick >= t,
        } by {
            assert(v.orders.contains_key(j));
        }
    } else {
        assert forall|j: u16| #[trigger] w.orders.contains_key(j) implies w.orders[j].side
            != side by {
            assert(v.orders.contains_key(j) == v.orders.contains_key(j));
        }
    }
}

/// Ending the order at the cursor.
pub proof fn lemma_merge_killed(v: BookView, m: Merge, k: int, last_used: u32)
    requires
        v.ok(),
        merging(v, m, k, last_used),
        v.merge_here(m, k),
    ensures
        v.orders.contains_key(v.chains[m.seat as int][k]),
        merging(v.killed(v.chains[m.seat as int][k]), m, k, last_used),
        v.killed(v.chains[m.seat as int][k]).chains[m.seat as int]
            == v.chains[m.seat as int].remove(k),
{
    let s = m.seat as int;
    let c = v.chains[s];
    let i = c[k];
    assert(v.chain_ok(s));
    assert(v.orders.contains_key(c[k]));
    lemma_index_of(c, i, k);
    let w = v.killed(i);
    let d = c.remove(k);
    assert(w.chains[s] == d);
    assert forall|j: int| 0 <= j < d.len() implies w.orders[#[trigger] d[j]] == v.orders[c[if j < k {
        j
    } else {
        j + 1
    }]] by {
        let n = if j < k {
            j
        } else {
            j + 1
        };
        assert(d[j] == c[n]);
        assert(c[n] != c[k]);
    }
    assert(same_on(v, w, m.side.spec_opposite()));
    lemma_best_kept(v, w, m.side.spec_opposite(), m.opposing);
    lemma_killed_supply(v, i);
}

/// Keeping the order at the cursor, perhaps smaller.
pub proof fn lemma_merge_kept(v: BookView, m: Merge, k: int, last_used: u32, lots: u32)
    requires
        v.ok(),
        merging(v, m, k, last_used),
        v.merge_here(m, k),
        1 <= lots <= v.orders[v.chains[m.seat as int][k]].lots,
    ensures
        v.orders.contains_key(v.chains[m.seat as int][k]),
        ({
            let i = v.chains[m.seat as int][k];
            let w = v.shrunk(i, lots).refreshed(i, m.expiry_slot);
            merging(w, m, k + 1, v.orders[i].tick) && w.chains == v.chains
        }),
{
    let s = m.seat as int;
    let c = v.chains[s];
    let i = c[k];
    assert(v.chain_ok(s));
    assert(v.orders.contains_key(c[k]));
    let w = v.shrunk(i, lots).refreshed(i, m.expiry_slot);
    let o = v.orders[i];
    assert(v.order_ok(i));
    assert forall|j: int| 0 <= j < c.len() implies w.orders[#[trigger] c[j]].key()
        == v.orders[c[j]].key() by {
        if j != k {
            assert(c[j] != c[k]);
        }
    }
    assert forall|j: int| 0 <= j < k + 1 implies w.orders[#[trigger] c[j]].key() <= key(
        m.side,
        o.tick,
    ) by {
        if j < k {
            assert(v.orders[c[j]].key() < v.orders[c[k]].key());
        }
    }
    assert(same_on(v, w, m.side.spec_opposite()));
    lemma_best_kept(v, w, m.side.spec_opposite(), m.opposing);
    lemma_lock_available(v, i);
    lemma_atoms_split(v.header, o.side, o.tick, lots as int, o.lots - lots);
    lemma_atoms_bound(v.header, o.side, o.tick, lots as int);
    lemma_atoms_bound(v.header, o.side, o.tick, o.lots - lots);
}

/// Posting a quote at the cursor.
pub proof fn lemma_merge_posted(v: BookView, m: Merge, o: Order, k: int, last_used: u32)
    requires
        v.ok(),
        merging(v, m, k, last_used),
        o.maker == m.seat,
        o.side == m.side,
        o.tick > last_used,
        in_window(v.header, o.tick),
        1 <= o.lots <= v.header.max_lots_per_order,
        v.free.len() > 0,
        v.seats[m.seat as int].spec_free(locks_base(o.side)) >= atoms(
            v.header,
            o.side,
            o.tick,
            o.lots as int,
        ),
    ensures
        ({
            let w = v.with_lock(m.seat as int, o.side, o.tick, o.lots).posted(o, k);
            &&& merging(w, m, k + 1, o.tick)
            &&& w.chains[m.seat as int] == v.chains[m.seat as int].insert(k, v.free[0])
        }),
{
    let s = m.seat as int;
    let c = v.chains[s];
    let i = v.free[0];
    let w = v.with_lock(s, o.side, o.tick, o.lots).posted(o, k);
    let d = c.insert(k, i);
    assert(v.free.contains(i));
    assert(v.chain_ok(s));
    assert(w.chains[s] == d);
    assert forall|j: int| 0 <= j < c.len() implies #[trigger] c[j] != i by {
        assert(v.orders.contains_key(c[j]));
    }
    assert forall|j: int| 0 <= j < k + 1 implies w.orders[#[trigger] d[j]].key() <= key(
        m.side,
        o.tick,
    ) by {
        if j < k {
            assert(d[j] == c[j]);
            assert(c[j] != i);
        }
    }
    assert forall|j: int| k + 1 <= j < d.len() implies w.orders[#[trigger] d[j]].key() >= key(
        m.side,
        0,
    ) by {
        assert(d[j] == c[j - 1]);
        assert(c[j - 1] != i);
    }
    assert(same_on(v, w, m.side.spec_opposite()));
    lemma_best_kept(v, w, m.side.spec_opposite(), m.opposing);
    lemma_locked(v, s, o.side, o.tick, o.lots);
}

/// Where a quote is posted during a merge, it keeps the chain sorted: before
/// the cursor everything sorts below it, behind the cursor above it.
pub proof fn lemma_merge_sorted(v: BookView, m: Merge, k: int, last_used: u32, q: Quote)
    requires
        v.ok(),
        merging(v, m, k, last_used),
        v.merge_here(m, k) ==> v.orders[v.chains[m.seat as int][k]].tick > q.tick,
    ensures
        forall|t: u32|
            slid(v.header, m.side, q.tick, !q.spec_reject_on_cross(), m.opposing) == Ok::<
                u32,
                ProgramError,
            >(t) && t > last_used && (v.merge_here(m, k) ==> t
                != v.orders[v.chains[m.seat as int][k]].tick) ==> #[trigger] sorted_at(
                v,
                m.seat as int,
                key(m.side, t),
                k,
            ),
{
    let s = m.seat as int;
    let c = v.chains[s];
    assert(v.chain_ok(s));
    assert forall|t: u32|
        slid(v.header, m.side, q.tick, !q.spec_reject_on_cross(), m.opposing) == Ok::<
            u32,
            ProgramError,
        >(t) && t > last_used && (v.merge_here(m, k) ==> t != v.orders[c[k]].tick) implies #[trigger] sorted_at(
        v,
        s,
        key(m.side, t),
        k,
    ) by {
        if k > 0 {
            assert(v.orders[c[k - 1]].key() <= key(m.side, last_used));
        }
        if k < c.len() {
            assert(v.orders.contains_key(c[k]));
            assert(v.order_ok(c[k]));
            assert(v.orders[c[k]].key() >= key(m.side, 0));
            if v.merge_here(m, k) {
                lemma_resting_clear(v, c[k], m.opposing);
            }
        }
    }
}

/// A resting order does not cross the opposing best.
pub proof fn lemma_resting_clear(v: BookView, i: u16, opposing: Option<u32>)
    requires
        v.structured(),
        v.orders.contains_key(i),
        v.has_best(v.orders[i].side.spec_opposite(), opposing),
    ensures
        opposing matches Some(b) ==> match v.orders[i].side {
            Side::Bid => v.orders[i].tick < b,
            Side::Ask => v.orders[i].tick > b,
        },
{
    if let Some(b) = opposing {
        let j = choose|j: u16|
            #[trigger] v.orders.contains_key(j) && v.orders[j].side
                == v.orders[i].side.spec_opposite() && v.orders[j].tick == b;
        reveal(BookView::uncrossed);
        assert(v.orders.contains_key(j));
        assert(v.orders[i].tick != v.orders[j].tick || v.orders[i].tick == v.orders[j].tick);
    }
}

impl BookRefMut {
    /// Post one payload quote during a merge: crossing check against the
    /// merge's opposing best, funds lock, book post, chain splice at the
    /// cursor.
    ///
    /// A tick at or below `last_used`, or equal to the next resting quote,
    /// would stack two of the maker's orders on one price: the whole
    /// instruction is refused. Only a slid tick can get there.
    #[verifier::rlimit(40)]
    fn mass_quote_insert(
        &mut self,
        seat: u16,
        side: Side,
        q: Quote,
        expiry_slot: u32,
        prev: u16,
        next_in_chain: u16,
        opposing_best: Option<u32>,
        last_used: u32,
        region_next_tick: Option<u32>,
        Ghost(m): Ghost<Merge>,
        Ghost(k): Ghost<int>,
    ) -> (r: Result<(u16, u32), ProgramError>)
        requires
            old(self).wf(),
            merging(old(self)@, m, k, last_used),
            m.seat == seat,
            m.side == side,
            m.expiry_slot == expiry_slot,
            m.opposing == opposing_best,
            1 <= q.lots <= old(self).header.max_lots_per_order,
            prev == at(old(self)@.chains[seat as int], k - 1),
            next_in_chain == at(old(self)@.chains[seat as int], k),
            forall|t: u32|
                slid(old(self)@.header, side, q.tick, !q.spec_reject_on_cross(), opposing_best)
                    == Ok::<u32, ProgramError>(t) && t > last_used && Some(t) != region_next_tick
                    ==> #[trigger] sorted_at(old(self)@, seat as int, key(side, t), k),
        ensures
            final(self).wf(),
            final(self)@ == old(self)@.quote_posted(m, q, k, last_used, region_next_tick).0,
            match r {
                Err(e) => old(self)@.quote_posted(m, q, k, last_used, region_next_tick).1 == Err::<
                    u32,
                    ProgramError,
                >(e),
                Ok((idx, t)) => {
                    &&& old(self)@.quote_posted(m, q, k, last_used, region_next_tick).1 == Ok::<
                        u32,
                        ProgramError,
                    >(t)
                    &&& merging(final(self)@, m, k + 1, t)
                    &&& idx == at(final(self)@.chains[seat as int], k)
                    &&& next_in_chain == at(final(self)@.chains[seat as int], k + 1)
                },
            },
    {
        let ghost v = self@;
        let ghost s = seat as int;
        proof {
            lemma_best_in_window(v, side.spec_opposite(), opposing_best);
        }
        let tick: u32 = match self.check_or_slide_vs(
            side,
            q.tick,
            !q.reject_on_cross(),
            opposing_best,
        ) {
            Ok(t) => t,
            Err(e) => {
                return Err(e);
            },
        };
        let stacked: bool = match region_next_tick {
            Some(t) => t == tick,
            None => false,
        };
        if unlikely(tick <= last_used || stacked) {
            return fail(ClobError::WouldCross);
        }
        let (base, amount) = self.locked_atoms(side, tick, q.lots);
        if let Err(e) = self.lock_for_post(seat, base, amount) {
            return Err(e);
        }
        let order: Order = Order { side, tick, maker: seat, lots: q.lots, expiry_slot, seq: 0 };
        proof {
            lemma_slid_clear(v, side, q.tick, !q.spec_reject_on_cross(), opposing_best);
            assert(sorted_at(v, s, key(side, tick), k));
            lemma_locked(v, s, side, tick, q.lots);
            assert(self@ =~= v.with_lock(s, side, tick, q.lots));
            assert(self.chain(s));
            lemma_in_pool_len(self.pool@, self@.chains[s]);
            assert(postable(v, order, k));
            assert(postable(self@, order, k));
            lemma_lock_and_post(v, order, k);
            lemma_merge_posted(v, m, order, k, last_used);
        }
        match self.book_insert(order, prev, next_in_chain, Ghost(k)) {
            Ok(idx) => Ok((idx, tick)),
            Err(e) => Err(e),
        }
    }

    /// Cancel the order at the cursor.
    #[verifier::rlimit(30)]
    fn merge_cancel(&mut self, st: MergeCursor, Ghost(m): Ghost<Merge>) -> (r: Result<
        MergeCursor,
        ProgramError,
    >)
        requires
            old(self).wf(),
            at_cursor(old(self)@, m, st),
            old(self)@.merge_here(m, st.k@),
            st.qi == m.quotes.len() || takes(old(self)@, m, st, m.quotes[st.qi as int])
                && old(self)@.orders[st.cur].tick < m.quotes[st.qi as int].tick,
        ensures
            final(self).wf(),
            r matches Ok(n) && at_cursor(final(self)@, m, n) && rest_of(old(self)@, m, st)
                == rest_of(final(self)@, m, n) && n.qi == st.qi && n.k@ == st.k@
                && final(self)@.chains[m.seat as int].len() + 1
                == old(self)@.chains[m.seat as int].len(),
    {
        let ghost v = self@;
        let ghost c = v.chains[m.seat as int];
        let ghost k = st.k@;
        proof {
            lemma_merge_killed(v, m, k, st.last_used);
            assert(self.chain(m.seat as int));
            assert(c[k] == st.cur);
            assert(at(c.remove(k), k) == at(c, k + 1));
            assert(at(c.remove(k), k - 1) == at(c, k - 1));
        }
        // The link is read before the kill frees the node.
        let next: u16 = self.pool[st.cur as usize].maker_next();
        self.kill_order(st.cur)?;
        Ok(MergeCursor { cur: next, ..st })
    }

    /// Keep the order at the cursor at no more than its size.
    #[verifier::rlimit(30)]
    fn merge_keep(&mut self, st: MergeCursor, q: Quote, Ghost(m): Ghost<Merge>) -> (r: Result<
        MergeCursor,
        ProgramError,
    >)
        requires
            old(self).wf(),
            at_cursor(old(self)@, m, st),
            old(self)@.merge_here(m, st.k@),
            takes(old(self)@, m, st, q),
            old(self)@.orders[st.cur].tick == q.tick,
            q.lots <= old(self)@.orders[st.cur].lots,
        ensures
            final(self).wf(),
            r matches Ok(n) && at_cursor(final(self)@, m, n) && rest_of(old(self)@, m, st)
                == rest_of(final(self)@, m, n) && n.qi == st.qi + 1,
    {
        let ghost v = self@;
        let ghost c = v.chains[m.seat as int];
        let ghost k = st.k@;
        proof {
            lemma_merge_kept(v, m, k, st.last_used, q.lots);
            lemma_rest_kept(v, m, st, q);
            assert(self.chain(m.seat as int));
            assert(c[k] == st.cur);
        }
        let next: u16 = self.pool[st.cur as usize].maker_next();
        self.amend_down(st.cur, q.lots, st.expiry_slot)?;
        Ok(
            MergeCursor {
                prev: st.cur,
                cur: next,
                qi: st.qi + 1,
                last_tick: q.tick,
                last_used: q.tick,
                k: Ghost(k + 1),
                ..st
            },
        )
    }

    /// Cancel the order at the cursor and post it anew, larger, at the tail of
    /// its level.
    #[verifier::rlimit(40)]
    fn merge_grow(&mut self, st: MergeCursor, q: Quote, Ghost(m): Ghost<Merge>) -> (r: Result<
        MergeCursor,
        ProgramError,
    >)
        requires
            old(self).wf(),
            at_cursor(old(self)@, m, st),
            old(self)@.merge_here(m, st.k@),
            takes(old(self)@, m, st, q),
            old(self)@.orders[st.cur].tick == q.tick,
            q.lots > old(self)@.orders[st.cur].lots,
        ensures
            final(self).wf(),
            match r {
                Ok(n) => at_cursor(final(self)@, m, n) && rest_of(old(self)@, m, st) == rest_of(
                    final(self)@,
                    m,
                    n,
                ) && n.qi == st.qi + 1,
                Err(e) => rest_of(old(self)@, m, st) == (
                    final(self)@,
                    Err::<int, ProgramError>(e),
                ),
            },
    {
        let ghost v = self@;
        let ghost c = v.chains[m.seat as int];
        let ghost k = st.k@;
        proof {
            lemma_merge_killed(v, m, k, st.last_used);
            lemma_reposted_sorted(v, m, k, st.last_used);
            assert(self.chain(m.seat as int));
            assert(c[k] == st.cur);
            assert(at(c.remove(k), k) == at(c, k + 1));
            assert(at(c.remove(k), k - 1) == at(c, k - 1));
        }
        let next: u16 = self.pool[st.cur as usize].maker_next();
        self.kill_order(st.cur)?;
        self.merge_insert(MergeCursor { cur: next, ..st }, q, None, Ghost(m))
    }

    /// Post a quote at the cursor and step past it.
    fn merge_insert(
        &mut self,
        st: MergeCursor,
        q: Quote,
        region_next: Option<u32>,
        Ghost(m): Ghost<Merge>,
    ) -> (r: Result<MergeCursor, ProgramError>)
        requires
            old(self).wf(),
            at_cursor(old(self)@, m, st),
            st.qi < m.quotes.len(),
            1 <= q.lots <= old(self)@.header.max_lots_per_order,
            forall|t: u32|
                slid(old(self)@.header, m.side, q.tick, !q.spec_reject_on_cross(), m.opposing)
                    == Ok::<u32, ProgramError>(t) && t > st.last_used && Some(t) != region_next
                    ==> #[trigger] sorted_at(old(self)@, m.seat as int, key(m.side, t), st.k@),
        ensures
            final(self).wf(),
            ({
                let (w, x) = old(self)@.quote_posted(m, q, st.k@, st.last_used, region_next);
                &&& final(self)@ == w
                &&& match r {
                    Err(e) => x == Err::<u32, ProgramError>(e),
                    Ok(n) => {
                        &&& x == Ok::<u32, ProgramError>(n.last_used)
                        &&& at_cursor(w, m, n)
                        &&& n.qi == st.qi + 1
                        &&& n.k@ == st.k@ + 1
                        &&& n.last_tick == q.tick
                    },
                }
            }),
    {
        let ghost k = st.k@;
        match self.mass_quote_insert(
            st.seat,
            st.side,
            q,
            st.expiry_slot,
            st.prev,
            st.cur,
            st.opposing_best,
            st.last_used,
            region_next,
            Ghost(m),
            Ghost(k),
        ) {
            Ok((idx, t)) => Ok(
                MergeCursor {
                    prev: idx,
                    qi: st.qi + 1,
                    last_tick: q.tick,
                    last_used: t,
                    k: Ghost(k + 1),
                    ..st
                },
            ),
            Err(e) => Err(e),
        }
    }

    /// Post a quote that no resting order matches.
    #[verifier::rlimit(40)]
    fn merge_post(&mut self, st: MergeCursor, q: Quote, here: bool, Ghost(m): Ghost<Merge>) -> (r:
        Result<MergeCursor, ProgramError>)
        requires
            old(self).wf(),
            at_cursor(old(self)@, m, st),
            here == old(self)@.merge_here(m, st.k@),
            takes(old(self)@, m, st, q),
            here ==> old(self)@.orders[st.cur].tick > q.tick,
        ensures
            final(self).wf(),
            match r {
                Ok(n) => at_cursor(final(self)@, m, n) && rest_of(old(self)@, m, st) == rest_of(
                    final(self)@,
                    m,
                    n,
                ) && n.qi == st.qi + 1,
                Err(e) => rest_of(old(self)@, m, st) == (
                    final(self)@,
                    Err::<int, ProgramError>(e),
                ),
            },
    {
        let ghost v = self@;
        let ghost c = v.chains[m.seat as int];
        let ghost k = st.k@;
        proof {
            lemma_merge_sorted(v, m, k, st.last_used, q);
            assert(self.chain(m.seat as int));
            assert(v.chain_ok(m.seat as int));
            if here {
                assert(c[k] == st.cur);
                assert(v.orders.contains_key(c[k]));
                assert(v.orders[st.cur] == order_of(self.pool@[st.cur as int]));
            }
        }
        let region_next: Option<u32> = if here {
            Some(self.pool[st.cur as usize].tick())
        } else {
            None
        };
        self.merge_insert(st, q, region_next, Ghost(m))
    }

    /// Replace the seat's quote set for one side with the payload's quotes.
    ///
    /// One linear merge of two sorted sequences: the payload, strictly
    /// ascending by tick, and the seat's chain region for this side. Per tick:
    ///
    /// - same lots: only the expiry is renewed; the order keeps its place;
    /// - fewer lots: shrink in place, the order keeps its place;
    /// - more lots: cancel and post anew at the level tail;
    /// - only in the payload: post it at the cursor;
    /// - only in the chain: cancel it.
    ///
    /// A quote whose slide lands on a tick that this merge already used, or on
    /// the maker's next resting quote, fails the instruction: a maker has at
    /// most one order per side and tick. All quotes share one expiry.
    ///
    /// The chain cursor enters at this side's region and is returned at the
    /// first node past it, so that the ask merge starts where the bid merge
    /// stopped.
    #[verifier::rlimit(60)]
    pub fn mass_quote_side(
        &mut self,
        seat: u16,
        side: Side,
        data: &[u8],
        count: usize,
        expiry_slot: u32,
        cursor: (u16, u16),
    ) -> (r: Result<(u16, u16), ProgramError>)
        requires
            old(self).wf(),
            seat < 128,
            count * 9 <= data@.len(),
            old(self)@.seats[seat as int].within_supply(),
            !no_owner(old(self)@.seats[seat as int].owner@),
            ({
                let c = old(self)@.chains[seat as int];
                let k = old(self)@.rank(seat as int, key(side, 0));
                cursor == (at(c, k - 1), at(c, k))
            }),
        ensures
            final(self).wf(),
            ({
                let (w, x) = old(self)@.merged(
                    seat,
                    side,
                    quotes_in(data@, count as int),
                    expiry_slot,
                );
                let c = w.chains[seat as int];
                &&& final(self)@ == w
                &&& match r {
                    Err(e) => x == Err::<int, ProgramError>(e),
                    Ok(p) => {
                        &&& x is Ok
                        &&& p == (at(c, x->Ok_0 - 1), at(c, x->Ok_0))
                        &&& side == Side::Bid ==> x->Ok_0 == w.rank(
                            seat as int,
                            key(Side::Ask, 0),
                        )
                        &&& w.seats[seat as int].within_supply()
                        &&& !no_owner(w.seats[seat as int].owner@)
                    },
                }
            }),
    {
        let ghost v = self@;
        let ghost s = seat as int;
        // The merge of this side cannot move the opposing best: one scan.
        let opposing_best: Option<u32> = match side {
            Side::Bid => self.best_ask(),
            Side::Ask => self.best_bid(),
        };
        let ghost m = Merge {
            seat,
            side,
            expiry_slot,
            opposing: opposing_best,
            quotes: quotes_in(data@, count as int),
        };
        let mut st: MergeCursor = MergeCursor {
            seat,
            side,
            expiry_slot,
            opposing_best,
            prev: cursor.0,
            cur: cursor.1,
            qi: 0,
            last_tick: 0,
            last_used: 0,
            k: Ghost(v.rank(s, key(side, 0))),
        };
        proof {
            assert(v.chain_ok(s));
            lemma_rank(v, s, key(side, 0), 0);
        }
        loop
            invariant
                self.wf(),
                v == old(self)@,
                count * 9 <= data@.len(),
                m.quotes == quotes_in(data@, count as int),
                m.seat == seat,
                m.side == side,
                v.merged(seat, side, m.quotes, expiry_slot) == rest_of(self@, m, st),
                at_cursor(self@, m, st),
            decreases count - st.qi, self@.chains[seat as int].len() - st.k@,
        {
            let ghost w = self@;
            let ghost c = w.chains[seat as int];
            let ghost k = st.k@;
            proof {
                assert(self.chain(seat as int));
                assert(w.chain_ok(seat as int));
                if k < c.len() {
                    assert(c[k] == st.cur);
                    assert(w.orders.contains_key(c[k]));
                    assert(w.orders[st.cur] == order_of(self.pool@[st.cur as int]));
                }
            }
            // The chain is sorted bids before asks, so the first node of the
            // other side ends this region.
            let here: bool = st.cur != NIL && self.pool[st.cur as usize].side() == side;
            assert(here == w.merge_here(m, k));
            if st.qi >= count {
                if !here {
                    proof {
                        if side == Side::Bid {
                            lemma_region_end(w, m, k, st.last_used);
                        }
                    }
                    return Ok((st.prev, st.cur));
                }
                st = self.merge_cancel(st, Ghost(m))?;
                continue ;
            }
            assert((st.qi + 1) * 9 <= data@.len()) by (nonlinear_arith)
                requires
                    st.qi + 1 <= count,
                    count * 9 <= data@.len(),
            ;
            let q: Quote = Quote::parse(data, st.qi);
            assert(m.quotes[st.qi as int] == q);
            if st.qi > 0 && q.tick <= st.last_tick {
                return fail(ClobError::PayloadNotSorted);
            }
            if q.lots == 0 || q.lots > self.header.max_lots_per_order() {
                return fail(ClobError::InvalidLots);
            }
            assert(takes(w, m, st, q));
            let tick: u32 = if here {
                self.pool[st.cur as usize].tick()
            } else {
                u32::MAX
            };
            let lots: u32 = if here {
                self.pool[st.cur as usize].lots()
            } else {
                0
            };
            let step: Result<MergeCursor, ProgramError> = if here && tick < q.tick {
                self.merge_cancel(st, Ghost(m))
            } else if here && tick == q.tick && q.lots <= lots {
                self.merge_keep(st, q, Ghost(m))
            } else if here && tick == q.tick {
                self.merge_grow(st, q, Ghost(m))
            } else {
                self.merge_post(st, q, here, Ghost(m))
            };
            match step {
                Ok(n) => {
                    st = n;
                },
                Err(e) => {
                    return Err(e);
                },
            }
        }
    }
}

/// Where a merge stands: the neighbours of chain position `k`, the next quote
/// of the payload, the last quote's tick and the highest tick placed or kept.
#[derive(Clone, Copy)]
struct MergeCursor {
    seat: u16,
    side: Side,
    expiry_slot: u32,
    opposing_best: Option<u32>,
    prev: u16,
    cur: u16,
    qi: usize,
    last_tick: u32,
    last_used: u32,
    k: Ghost<int>,
}

/// The cursor matches the book.
spec fn at_cursor(v: BookView, m: Merge, st: MergeCursor) -> bool {
    &&& st.seat == m.seat
    &&& st.side == m.side
    &&& st.expiry_slot == m.expiry_slot
    &&& st.opposing_best == m.opposing
    &&& merging(v, m, st.k@, st.last_used)
    &&& st.prev == at(v.chains[m.seat as int], st.k@ - 1)
    &&& st.cur == at(v.chains[m.seat as int], st.k@)
    &&& st.qi <= m.quotes.len() <= usize::MAX
}

/// `q` is the payload's next quote and is legal.
spec fn takes(v: BookView, m: Merge, st: MergeCursor, q: Quote) -> bool {
    &&& st.qi < m.quotes.len()
    &&& m.quotes[st.qi as int] == q
    &&& st.qi > 0 ==> q.tick > st.last_tick
    &&& 1 <= q.lots <= v.header.max_lots_per_order
}

/// The outcome of the merge from here on.
spec fn rest_of(v: BookView, m: Merge, st: MergeCursor) -> (BookView, Result<int, ProgramError>) {
    v.merged_from(m, st.k@, st.qi as int, st.last_tick, st.last_used)
}

proof fn lemma_rest_kept(v: BookView, m: Merge, st: MergeCursor, q: Quote)
    requires
        v.ok(),
        at_cursor(v, m, st),
        v.merge_here(m, st.k@),
        takes(v, m, st, q),
        v.orders[st.cur].tick == q.tick,
        q.lots <= v.orders[st.cur].lots,
    ensures
        rest_of(v, m, st) == v.shrunk(st.cur, q.lots).refreshed(
            st.cur,
            m.expiry_slot,
        ).merged_from(m, st.k@ + 1, st.qi + 1, q.tick, q.tick),
{
    let i = v.chains[m.seat as int][st.k@];
    assert(v.chain_ok(m.seat as int));
    assert(v.orders.contains_key(i));
    lemma_shrunk(v, i, q.lots);
    lemma_refreshed(v.shrunk(i, q.lots), i, m.expiry_slot);
}

/// A quote posted anew on the tick of the order just ended sorts at its place.
pub proof fn lemma_reposted_sorted(v: BookView, m: Merge, k: int, last_used: u32)
    requires
        v.ok(),
        merging(v, m, k, last_used),
        v.merge_here(m, k),
    ensures
        ({
            let i = v.chains[m.seat as int][k];
            let w = v.killed(i);
            let t = v.orders[i].tick;
            &&& forall|slide: bool|
                slid(w.header, m.side, t, slide, m.opposing) == Ok::<u32, ProgramError>(t)
            &&& t > last_used ==> sorted_at(w, m.seat as int, key(m.side, t), k)
        }),
{
    let s = m.seat as int;
    let c = v.chains[s];
    let i = c[k];
    assert(v.chain_ok(s));
    assert(v.orders.contains_key(c[k]));
    assert(v.order_ok(i));
    lemma_index_of(c, i, k);
    lemma_resting_clear(v, i, m.opposing);
    let w = v.killed(i);
    let d = c.remove(k);
    assert(w.chains[s] == d);
    if k > 0 {
        assert(d[k - 1] == c[k - 1]);
        assert(c[k - 1] != c[k]);
        assert(v.orders[c[k - 1]].key() < v.orders[c[k]].key());
    }
    if k < d.len() {
        assert(d[k] == c[k + 1]);
        assert(c[k + 1] != c[k]);
        assert(v.orders[c[k]].key() < v.orders[c[k + 1]].key());
    }
}

/// Past the bids of a chain stand its asks.
proof fn lemma_region_end(v: BookView, m: Merge, k: int, last_used: u32)
    requires
        v.ok(),
        merging(v, m, k, last_used),
        !v.merge_here(m, k),
        m.side == Side::Bid,
    ensures
        k == v.rank(m.seat as int, key(Side::Ask, 0)),
{
    let s = m.seat as int;
    let c = v.chains[s];
    assert(v.chain_ok(s));
    let x = key(Side::Ask, 0);
    lemma_rank(v, s, x, 0);
    let r = v.rank(s, x);
    if k < r {
        assert(v.orders[c[k]].key() < x);
    }
    if r < k {
        assert(v.orders[c[r]].key() <= key(m.side, last_used));
    }
}

} // verus!
