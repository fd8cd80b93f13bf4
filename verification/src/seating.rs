//! Claiming seats, and laying out the order pool of a new market.

use crate::book::{free_ok, BookRefMut, Lists};
use crate::codec::same_key;
use crate::constants::{FREED_SEQ, MAX_SEATS, NIL};
use crate::errors::{fail, ClobError, ProgramError};
use crate::lists::{at, total};
use crate::market::Market;
use crate::model::{params_ok, BookView};
use crate::node::OrderNode;
use crate::seat::Seat;
use crate::side::unlikely;
use crate::steps::lemma_with_seat;
use vstd::prelude::*;

verus! {

/// The indices from `a` up to `b`.
pub open spec fn indices(a: int, b: int) -> Seq<u16> {
    Seq::new((b - a) as nat, |k: int| (a + k) as u16)
}

impl BookRefMut {
    /// Claim the first vacant seat for `owner`. Returns the seat index.
    pub fn claim_seat(&mut self, owner: &[u8; 32]) -> (r: Result<u16, ProgramError>)
        requires
            old(self).wf(),
        ensures
            final(self).wf(),
            (final(self)@, r) == old(self)@.claimed(*owner),
    {
        let ghost v = self@;
        let mut i: usize = 0;
        while i < self.seats.len()
            invariant
                self.wf(),
                self@ == v,
                v == old(self)@,
                i <= 128,
                self.seats@.len() == 128,
                v.first_vacant(0) == v.first_vacant(i as int),
            decreases 128 - i,
        {
            assert(v.seats[i as int].owner == self.seats@[i as int].owner);
            if self.seats[i].is_free() {
                let ghost b = *self;
                self.seats[i].set_owner(*owner);
                self.seats[i].set_orders_head(NIL);
                proof {
                    let s = i as int;
                    assert(b.chain(s));
                    self.lemma_accounts_changed(b);
                    let seat = Seat { owner: *owner, ..v.seats[s] };
                    assert(v.chains[s].len() == 0);
                    lemma_with_seat(v, s, seat);
                    assert(self@ =~= v.with_seat(s, seat));
                    assert forall|t: int, base: bool|
                        0 <= t < 128 implies #[trigger] self@.surplus(t, base) >= 0 by {
                        assert(v.surplus(t, base) >= 0);
                        assert(self@.needed(t, base) == v.needed(t, base));
                    }
                }
                return Ok(i as u16);
            }
            i = i + 1;
        }
        fail(ClobError::SeatTableFull)
    }

    /// Verify that `seat` exists and is owned by `owner`.
    pub fn check_seat(&self, seat: u16, owner: &[u8; 32]) -> (r: Result<(), ProgramError>)
        requires
            self.seats@.len() == 128,
        ensures
            r == self@.seat_check(seat, owner@),
    {
        if unlikely(seat as usize >= MAX_SEATS) {
            return fail(ClobError::InvalidSeatIndex);
        }
        if unlikely(!same_key(self.seats[seat as usize].owner(), owner)) {
            return fail(ClobError::InvalidSeatOwner);
        }
        Ok(())
    }

    /// Thread the nodes from `from` up to `to` onto the front of the free
    /// list. Callers start at 1: node 0 is reserved and never handed out.
    #[verifier::rlimit(30)]
    pub fn thread_free_list(&mut self, from: u32, to: u32)
        requires
            1 <= from <= to <= old(self).pool@.len(),
            to <= 65536,
            old(self).header.free_count + (to - from) <= u32::MAX,
        ensures
            old(self).frees_ok() && (forall|k: int|
                0 <= k < old(self).lists@.free.len() ==> !(from <= #[trigger] old(
                    self,
                ).lists@.free[k] < to)) ==> final(self).frees_ok(),
            final(self).lists@ == (Lists {
                free: indices(from as int, to as int) + old(self).lists@.free,
                ..old(self).lists@
            }),
            final(self).header == (Market {
                free_head: if from < to {
                    from as u16
                } else {
                    old(self).header.free_head
                },
                free_count: (old(self).header.free_count + (to - from)) as u32,
                ..old(self).header
            }),
            final(self).pool@.len() == old(self).pool@.len(),
            forall|j: int|
                0 <= j < old(self).pool@.len() ==> #[trigger] final(self).pool@[j] == (if from <= j
                    < to {
                    OrderNode {
                        next: if j + 1 < to {
                            (j + 1) as u16
                        } else {
                            old(self).header.free_head
                        },
                        seq: FREED_SEQ,
                        lots: 0,
                        ..old(self).pool@[j]
                    }
                } else {
                    old(self).pool@[j]
                }),
            *final(self) == (BookRefMut {
                header: final(self).header,
                pool: final(self).pool,
                lists: final(self).lists,
                ..*old(self)
            }),
    {
        let ghost free = self.lists@.free;
        let ghost p = self.pool@;
        let first: u16 = self.header.free_head();
        let mut head: u16 = first;
        let mut i: u32 = to;
        while i > from
            invariant
                1 <= from <= i <= to <= 65536,
                to <= p.len(),
                self.pool@.len() == p.len(),
                p == old(self).pool@,
                first == old(self).header.free_head,
                head == (if i < to {
                    i as u16
                } else {
                    first
                }),
                forall|j: int|
                    0 <= j < p.len() ==> #[trigger] self.pool@[j] == (if i <= j < to {
                        OrderNode {
                            next: if j + 1 < to {
                                (j + 1) as u16
                            } else {
                                first
                            },
                            seq: FREED_SEQ,
                            lots: 0,
                            ..p[j]
                        }
                    } else {
                        p[j]
                    }),
                *self == (BookRefMut { pool: self.pool, ..*old(self) }),
            decreases i - from,
        {
            i = i - 1;
            self.pool[i as usize].set_next(head);
            self.pool[i as usize].set_seq(FREED_SEQ);
            self.pool[i as usize].set_lots(0);
            head = i as u16;
        }
        self.header.set_free_head(head);
        let count: u32 = self.header.free_count() + (to - from);
        self.header.set_free_count(count);
        proof {
            let g = indices(from as int, to as int) + free;
            self.lists@ = Lists { free: g, ..self.lists@ };
            if old(self).frees_ok() && (forall|k: int|
                0 <= k < free.len() ==> !(from <= #[trigger] free[k] < to)) {
                lemma_threaded(p, self.pool@, old(self).header, free, from as int, to as int);
            }
        }
    }
}

/// Nodes that were threaded in front of a free list make one with it.
proof fn lemma_threaded(
    p: Seq<OrderNode>,
    p2: Seq<OrderNode>,
    h: Market,
    free: Seq<u16>,
    from: int,
    to: int,
)
    requires
        free_ok(p, h.free_head, h.free_count, free),
        1 <= from <= to <= p.len(),
        to <= 65536,
        h.free_count + (to - from) <= u32::MAX,
        p2.len() == p.len(),
        forall|k: int| 0 <= k < free.len() ==> !(from <= #[trigger] free[k] < to),
        forall|j: int|
            from <= j < to ==> (#[trigger] p2[j]).seq == FREED_SEQ && p2[j].next == (if j + 1
                < to {
                (j + 1) as u16
            } else {
                h.free_head
            }),
        forall|j: int|
            0 <= j < p.len() && !(from <= j < to) ==> #[trigger] p2[j] == p[j],
    ensures
        free_ok(
            p2,
            if from < to {
                from as u16
            } else {
                h.free_head
            },
            (h.free_count + (to - from)) as u32,
            indices(from, to) + free,
        ),
{
    let n = indices(from, to);
    let g = n + free;
    assert forall|k: int| 0 <= k < g.len() implies 0 < #[trigger] g[k] < p2.len()
        && p2[g[k] as int].seq == FREED_SEQ && p2[g[k] as int].next == at(g, k + 1) by {
        if k >= n.len() {
            let x = free[k - n.len()];
            assert(g[k] == x);
            assert(p2[x as int] == p[x as int]);
        } else {
            assert(g[k] == from + k);
        }
    }
    assert forall|a: int, b: int|
        0 <= a < g.len() && 0 <= b < g.len() && a != b implies g[a] != g[b] by {
        if a >= n.len() {
            assert(g[a] == free[a - n.len()]);
        }
        if b >= n.len() {
            assert(g[b] == free[b - n.len()]);
        }
    }
}

/// A market without orders whose whole pool was threaded onto the free list
/// is consistent.
pub proof fn lemma_new_market(b: BookRefMut, w: BookRefMut)
    requires
        b.links_ok(),
        b.pool@.len() >= 1,
        params_ok(b.header),
        b.lists@.free.len() == 0,
        forall|s: int| 0 <= s < 8192 ==> (#[trigger] b.lists@.fifos[s]).len() == 0,
        forall|s: int| 0 <= s < 128 ==> (#[trigger] b.lists@.chains[s]).len() == 0,
        w.frees_ok(),
        w.lists@ == (Lists { free: indices(1, b.pool@.len() as int), ..b.lists@ }),
        w == (BookRefMut { header: w.header, pool: w.pool, lists: w.lists, ..b }),
        w.header == (Market {
            free_head: w.header.free_head,
            free_count: w.header.free_count,
            ..b.header
        }),
        w.pool@.len() == b.pool@.len(),
        forall|j: int| 1 <= j < w.pool@.len() ==> (#[trigger] w.pool@[j]).seq == FREED_SEQ,
    ensures
        w.wf(),
        w@.orders == Map::<u16, crate::model::Order>::empty(),
        forall|s: int, base: bool|
            0 <= s < 128 ==> #[trigger] w@.surplus(s, base) == w@.seats[s].spec_locked(base),
{
    let v = w@;
    let n = b.pool@.len() as int;
    assert forall|t: int| 0 <= t < 8192 implies #[trigger] w.fifo(t) by {
        assert(b.fifo(t));
        assert(w.lists@.fifos[t].len() == 0);
        assert(total(w.lists@.fifos[t], crate::book::lots_by(w.pool@)) == 0);
        assert(total(w.lists@.fifos[t], crate::book::lots_by(b.pool@)) == 0);
    }
    assert forall|t: int| 0 <= t < 128 implies #[trigger] w.chain(t) by {
        assert(b.chain(t));
        assert(w.lists@.chains[t].len() == 0);
    }
    assert(v.orders =~= Map::<u16, crate::model::Order>::empty());
    assert forall|t: int| 0 <= t < 8192 implies #[trigger] v.queue_ok(t) by {
        assert(b.lists@.fifos[t].len() == 0);
    }
    assert forall|t: int| 0 <= t < 128 implies #[trigger] v.chain_ok(t) by {
        assert(b.lists@.chains[t].len() == 0);
    }
    assert(v.free_ok()) by {
        let f = indices(1, n);
        assert forall|i: u16| #[trigger] f.contains(i) <==> (1 <= i < n) by {
            if 1 <= i < n {
                assert(f[i - 1] == i);
            }
        }
    }
    assert(v.uncrossed()) by {
        reveal(BookView::uncrossed);
    }
    assert(v.vacant_ok()) by {
        assert forall|t: int| 0 <= t < 128 && crate::seat::no_owner(
            (#[trigger] v.seats[t]).owner@,
        ) implies v.chains[t].len() == 0 by {
            assert(b.lists@.chains[t].len() == 0);
        }
    }
    assert forall|s: int, base: bool|
        0 <= s < 128 implies #[trigger] v.surplus(s, base) == v.seats[s].spec_locked(base) by {
        assert(b.lists@.chains[s].len() == 0);
        assert(v.chains[s].len() == 0);
    }
}

} // verus!
