//! What a book means: live orders, queues, chains, balances. Every operation
//! of the library is described as a step from one such value to the next.

use crate::constants::{FREED_SEQ, MAX_FEE_BPS, MAX_ORDERS_PER_SEAT, MAX_POOL_CAPACITY};
use crate::errors::{clob, ClobError, ProgramError};
use crate::lists::{lemma_index_of, total, without};
use crate::market::{wrapping, wrapping_succ, Market};
use crate::quote::Quote;
use crate::seat::{no_owner, Seat};
use crate::side::{SelfTradePolicy, Side, TakeParams, TakeResult};
use vstd::prelude::*;

verus! {

/// A resting order.
#[derive(Clone, Copy)]
pub struct Order {
    pub side: Side,
    pub tick: u32,
    pub maker: u16,
    pub lots: u32,
    pub expiry_slot: u32,
    pub seq: u64,
}

impl Order {
    /// Expired at `slot`; an expiry of 0 never comes.
    pub open spec fn expired(self, slot: u64) -> bool {
        self.expiry_slot != 0 && self.expiry_slot <= slot
    }

    /// Position in the order of a seat chain: bids first, then ascending tick.
    pub open spec fn key(self) -> int {
        key(self.side, self.tick)
    }
}

/// Sort key of a seat chain: bids before asks, then ascending tick.
pub open spec fn key(side: Side, tick: u32) -> int {
    match side {
        Side::Bid => tick as int,
        Side::Ask => 0x1_0000_0000 + tick,
    }
}

/// Ring slot of a tick.
pub open spec fn slot(tick: u32) -> int {
    tick as int % 8192
}

/// Atoms that `lots` at `tick` lock: quote for a bid, base for an ask.
pub open spec fn atoms(h: Market, side: Side, tick: u32, lots: int) -> int {
    match side {
        Side::Bid => tick * h.tick_size * lots,
        Side::Ask => lots * h.base_lot_size,
    }
}

/// Whether orders of this side lock base.
pub open spec fn locks_base(side: Side) -> bool {
    side == Side::Ask
}

/// Parameters under which all price arithmetic stays in 64 bits.
pub open spec fn params_ok(h: Market) -> bool {
    &&& h.anchor_tick % 64 == 0
    &&& h.anchor_tick >= 64
    &&& h.anchor_tick + 8191 <= h.tick_limit
    &&& h.tick_limit <= u32::MAX - 16384
    &&& (h.anchor_tick + 8191) * h.tick_size * h.max_lots_per_order <= u64::MAX
    &&& h.max_lots_per_order * h.base_lot_size <= u64::MAX
    &&& h.order_pool_capacity <= MAX_POOL_CAPACITY
}

/// `tick` lies in the current window.
pub open spec fn in_window(h: Market, tick: u32) -> bool {
    h.anchor_tick <= tick <= h.anchor_tick + 8191
}

/// Largest number of lots at `price` that `budget` pays for, fee included.
/// The budget counts up to the largest amount whose fee arithmetic fits.
pub open spec fn affordable(price: int, fee_bps: int, budget: int) -> int {
    let most = u64::MAX as int / (10_000 + fee_bps);
    let capped = if budget < most {
        budget
    } else {
        most
    };
    capped * 10_000 / (10_000 + fee_bps) / price
}

/// Fee on a traded amount of quote.
pub open spec fn fee_on(quote: int, fee_bps: int) -> int {
    quote * fee_bps / 10_000
}

/// All fee arithmetic inside the window stays in 64 bits.
pub open spec fn fees_ok(h: Market) -> bool {
    (h.anchor_tick + 8191) * h.tick_size * h.max_lots_per_order * (10_000 + h.fee_bps)
        <= u64::MAX
}

/// What market creation guarantees of the parameters: no arithmetic overflows
/// anywhere below the tick limit, at the highest fee.
pub open spec fn market_ok(h: Market) -> bool {
    &&& h.tick_size >= 1
    &&& h.base_lot_size >= 1
    &&& h.max_lots_per_order >= 1
    &&& h.fee_bps <= MAX_FEE_BPS
    &&& h.tick_limit * h.tick_size * h.max_lots_per_order * 10_500 <= u64::MAX
}

/// Below the tick limit all arithmetic fits, wherever the window stands.
pub proof fn lemma_market_ok(h: Market)
    requires
        params_ok(h),
        market_ok(h),
    ensures
        fees_ok(h),
        h.tick_limit * h.tick_size * h.max_lots_per_order <= u64::MAX,
{
    let l = h.tick_limit as int;
    let x = (h.anchor_tick + 8191) as int;
    let ts = h.tick_size as int;
    let ml = h.max_lots_per_order as int;
    let f = (10_000 + h.fee_bps) as int;
    assert(x * ts <= l * ts) by (nonlinear_arith)
        requires
            0 <= x <= l,
            0 <= ts,
    ;
    let a = x * ts;
    let b = l * ts;
    assert(0 <= a * ml <= b * ml) by (nonlinear_arith)
        requires
            0 <= a <= b,
            0 <= ml,
            a == x * ts,
            0 <= x,
            0 <= ts,
    ;
    let c = a * ml;
    let d = b * ml;
    assert(c * f <= d * 10_500) by (nonlinear_arith)
        requires
            0 <= c <= d,
            0 <= f <= 10_500,
    ;
    assert(d <= d * 10_500) by (nonlinear_arith)
        requires
            0 <= d,
    ;
}

/// Whether a taker with this limit trades at `tick`.
pub open spec fn within_limit(p: TakeParams, tick: u32) -> bool {
    match p.side {
        Side::Bid => tick <= p.limit_tick,
        Side::Ask => tick >= p.limit_tick,
    }
}

pub proof fn lemma_finite_below(s: Set<u16>, n: int)
    requires
        forall|x: u16| s.contains(x) ==> x < n,
        n >= 0,
    ensures
        s.finite(),
    decreases n,
{
    if n == 0 {
        assert(s =~= Set::<u16>::empty());
    } else if n <= 0x10000 {
        let last = (n - 1) as u16;
        let t = s.remove(last);
        lemma_finite_below(t, n - 1);
        if s.contains(last) {
            assert(s =~= t.insert(last));
        } else {
            assert(s =~= t);
        }
    } else {
        lemma_finite_below(s, 0x10000);
    }
}

/// What one side of a mass quote is merged with.
pub struct Merge {
    pub seat: u16,
    pub side: Side,
    pub expiry_slot: u32,
    /// Best opposing price; the merge of one side cannot move it.
    pub opposing: Option<u32>,
    pub quotes: Seq<Quote>,
}

/// What a seat holds of one asset, free and locked.
pub open spec fn held(seat: Seat, base: bool) -> int {
    seat.spec_free(base) + seat.spec_locked(base)
}

/// What all seats hold of one asset.
pub open spec fn total_held(seats: Seq<Seat>, base: bool) -> int
    decreases seats.len(),
{
    if seats.len() == 0 {
        0
    } else {
        total_held(seats.drop_last(), base) + held(seats.last(), base)
    }
}

/// Where a quote at `tick` may rest, given the best opposing price: a tick
/// that crosses slides to one tick off that price, or is refused.
pub open spec fn slid(
    h: Market,
    side: Side,
    tick: u32,
    slide: bool,
    opposing: Option<u32>,
) -> Result<u32, ProgramError> {
    if !in_window(h, tick) || tick > h.tick_limit || tick == 0 {
        Err(clob(ClobError::TickOutOfWindow))
    } else {
        match (side, opposing) {
            (Side::Bid, Some(b)) => if tick < b {
                Ok(tick)
            } else if !slide {
                Err(clob(ClobError::WouldCross))
            } else if b == h.anchor_tick {
                Err(clob(ClobError::TickOutOfWindow))
            } else {
                Ok((b - 1) as u32)
            },
            (Side::Ask, Some(b)) => if tick > b {
                Ok(tick)
            } else if !slide {
                Err(clob(ClobError::WouldCross))
            } else if b == h.anchor_tick + 8191 {
                Err(clob(ClobError::TickOutOfWindow))
            } else {
                Ok((b + 1) as u32)
            },
            (_, None) => Ok(tick),
        }
    }
}

/// Two ticks of one window with the same ring slot are the same tick.
pub proof fn lemma_same_slot(a: u32, b: u32, lo: u32)
    requires
        lo <= a <= lo + 8191,
        lo <= b <= lo + 8191,
        slot(a) == slot(b),
    ensures
        a == b,
{
}

/// A book as its users see it. The header has its free-list fields blanked
/// and the seats have their chain fields blanked: the lists stand here
/// themselves.
#[verifier::ext_equal]
pub struct BookView {
    pub header: Market,
    /// Live orders by pool index.
    pub orders: Map<u16, Order>,
    /// Queue of each ring slot, oldest order first.
    pub queues: Seq<Seq<u16>>,
    /// Order chain of each seat.
    pub chains: Seq<Seq<u16>>,
    /// Free pool indices, the next one to be used first.
    pub free: Seq<u16>,
    pub seats: Seq<Seat>,
}

impl BookView {
    /// Order `i` has legal fields and rests on its queue and its chain.
    pub open spec fn order_ok(self, i: u16) -> bool {
        let o = self.orders[i];
        &&& 1 <= i < self.header.order_pool_capacity
        &&& in_window(self.header, o.tick)
        &&& 1 <= o.lots <= self.header.max_lots_per_order
        &&& o.maker < 128
        &&& o.seq != FREED_SEQ
        &&& self.queues[slot(o.tick)].contains(i)
        &&& self.chains[o.maker as int].contains(i)
    }

    /// Queue `s` lists live orders of its slot, each once.
    pub open spec fn queue_ok(self, s: int) -> bool {
        let q = self.queues[s];
        &&& q.no_duplicates()
        &&& forall|k: int|
            0 <= k < q.len() ==> self.orders.contains_key(#[trigger] q[k]) && slot(
                self.orders[q[k]].tick,
            ) == s
    }

    /// Chain `s` lists the seat's live orders, in strictly ascending key order:
    /// at most one order per side and tick.
    pub open spec fn chain_ok(self, s: int) -> bool {
        let c = self.chains[s];
        &&& c.no_duplicates()
        &&& forall|k: int|
            0 <= k < c.len() ==> self.orders.contains_key(#[trigger] c[k])
                && self.orders[c[k]].maker == s
        &&& forall|k: int, m: int|
            0 <= k < m < c.len() ==> self.orders[#[trigger] c[k]].key()
                < self.orders[#[trigger] c[m]].key()
    }

    /// The free list holds exactly the nodes without an order.
    pub open spec fn free_ok(self) -> bool {
        &&& self.free.no_duplicates()
        &&& forall|i: u16|
            #[trigger] self.free.contains(i) <==> (1 <= i < self.header.order_pool_capacity
                && !self.orders.contains_key(i))
    }

    /// Every bid rests below every ask.
    #[verifier::opaque]
    pub open spec fn uncrossed(self) -> bool {
        forall|i: u16, j: u16|
            #![trigger self.orders[i], self.orders[j]]
            self.orders.contains_key(i) && self.orders.contains_key(j) && self.orders[i].side
                == Side::Bid && self.orders[j].side == Side::Ask ==> self.orders[i].tick
                < self.orders[j].tick
    }

    /// What order `i` keeps locked of one asset.
    pub open spec fn lock_of(self, i: u16, base: bool) -> int {
        let o = self.orders[i];
        if locks_base(o.side) == base {
            atoms(self.header, o.side, o.tick, o.lots as int)
        } else {
            0
        }
    }

    pub open spec fn locks(self, base: bool) -> spec_fn(u16) -> int {
        |i: u16| self.lock_of(i, base)
    }

    /// What the orders of seat `s` keep locked of one asset.
    pub open spec fn needed(self, s: int, base: bool) -> int {
        total(self.chains[s], self.locks(base))
    }

    /// What seat `s` has locked beyond what its orders need.
    pub open spec fn surplus(self, s: int, base: bool) -> int {
        self.seats[s].spec_locked(base) - self.needed(s, base)
    }

    pub open spec fn funded(self) -> bool {
        forall|s: int, base: bool| 0 <= s < 128 ==> #[trigger] self.surplus(s, base) >= 0
    }

    /// The invariant of every book.
    pub open spec fn ok(self) -> bool {
        &&& self.structured()
        &&& self.funded()
    }

    /// The part of the invariant that does not speak of balances.
    pub open spec fn structured(self) -> bool {
        &&& params_ok(self.header)
        &&& self.queues.len() == 8192
        &&& self.chains.len() == 128
        &&& self.seats.len() == 128
        &&& forall|i: u16| self.orders.contains_key(i) ==> #[trigger] self.order_ok(i)
        &&& forall|s: int| 0 <= s < 8192 ==> #[trigger] self.queue_ok(s)
        &&& forall|s: int| 0 <= s < 128 ==> #[trigger] self.chain_ok(s)
        &&& self.free_ok()
        &&& self.uncrossed()
        &&& self.vacant_ok()
    }

    /// Order `i` leaves its queue and its chain, and its node is free.
    pub open spec fn removed(self, i: u16) -> BookView {
        let o = self.orders[i];
        BookView {
            orders: self.orders.remove(i),
            queues: self.queues.update(slot(o.tick), without(self.queues[slot(o.tick)], i)),
            chains: self.chains.update(o.maker as int, without(self.chains[o.maker as int], i)),
            free: seq![i] + self.free,
            ..self
        }
    }

    /// Seat `s` is replaced.
    pub open spec fn with_seat(self, s: int, seat: Seat) -> BookView {
        BookView { seats: self.seats.update(s, seat), ..self }
    }

    /// Order `i` ends and its lock is refunded.
    pub open spec fn killed(self, i: u16) -> BookView {
        let o = self.orders[i];
        self.removed(i).with_seat(
            o.maker as int,
            self.seats[o.maker as int].spec_unlock(
                locks_base(o.side),
                atoms(self.header, o.side, o.tick, o.lots as int),
            ),
        )
    }

    /// Order `i` shrinks to `lots`, keeping its place; the difference is
    /// refunded.
    pub open spec fn shrunk(self, i: u16, lots: u32) -> BookView {
        let o = self.orders[i];
        BookView { orders: self.orders.insert(i, Order { lots, ..o }), ..self }.with_seat(
            o.maker as int,
            self.seats[o.maker as int].spec_unlock(
                locks_base(o.side),
                atoms(self.header, o.side, o.tick, o.lots - lots),
            ),
        )
    }

    /// Order `i` gets a new expiry.
    pub open spec fn refreshed(self, i: u16, expiry_slot: u32) -> BookView {
        BookView {
            orders: self.orders.insert(i, Order { expiry_slot, ..self.orders[i] }),
            ..self
        }
    }

    /// A new order takes the next free node: last in its queue, at position
    /// `k` of its chain.
    pub open spec fn posted(self, o: Order, k: int) -> BookView {
        let i = self.free[0];
        BookView {
            header: Market { order_seq: (self.header.spec_next_id() + 1) as u64, ..self.header },
            orders: self.orders.insert(i, Order { seq: self.header.spec_next_id(), ..o }),
            queues: self.queues.update(slot(o.tick), self.queues[slot(o.tick)].push(i)),
            chains: self.chains.update(
                o.maker as int,
                self.chains[o.maker as int].insert(k, i),
            ),
            free: self.free.skip(1),
            ..self
        }
    }

    /// Seat `s` locks `lots` at `tick` on `side`.
    pub open spec fn with_lock(self, s: int, side: Side, tick: u32, lots: u32) -> BookView {
        self.with_seat(
            s,
            self.seats[s].spec_lock(
                locks_base(side),
                atoms(self.header, side, tick, lots as int),
            ),
        )
    }

    /// The maker of order `i` trades `fill` lots: it gives up the lock and is
    /// credited the other asset.
    pub open spec fn settled(self, i: u16, fill: int) -> Seat {
        let o = self.orders[i];
        let seat = self.seats[o.maker as int];
        let quote = o.tick * self.header.tick_size * fill;
        let base = fill * self.header.base_lot_size;
        match o.side {
            Side::Ask => Seat {
                base_locked: (seat.base_locked - base) as u64,
                quote_free: wrapping(seat.quote_free + quote),
                ..seat
            },
            Side::Bid => Seat {
                quote_locked: (seat.quote_locked - quote) as u64,
                base_free: wrapping(seat.base_free + base),
                ..seat
            },
        }
    }

    /// `fill` lots of order `i` trade; an order without lots left ends.
    pub open spec fn filled(self, i: u16, fill: u32) -> BookView {
        let o = self.orders[i];
        let v = if fill == o.lots {
            self.removed(i)
        } else {
            BookView {
                orders: self.orders.insert(i, Order { lots: (o.lots - fill) as u32, ..o }),
                ..self
            }
        };
        v.with_seat(o.maker as int, self.settled(i, fill as int))
    }

    /// Position of the first order of seat `s` at or past `key`, from `k` on.
    pub open spec fn rank_from(self, s: int, key: int, k: int) -> int
        decreases self.chains[s].len() - k,
    {
        if k < 0 || k >= self.chains[s].len() || self.orders[self.chains[s][k]].key() >= key {
            k
        } else {
            self.rank_from(s, key, k + 1)
        }
    }

    /// Position at which an order with `key` belongs on the chain of `s`.
    pub open spec fn rank(self, s: int, key: int) -> int {
        self.rank_from(s, key, 0)
    }

    /// The seat's order at `(side, tick)`.
    pub open spec fn quote_at(self, s: int, side: Side, tick: u32) -> Option<u16> {
        let k = self.rank(s, key(side, tick));
        if k < self.chains[s].len() && self.orders[self.chains[s][k]].key() == key(side, tick) {
            Some(self.chains[s][k])
        } else {
            None
        }
    }

    /// Cancel order `i` of seat `s`, named by its id.
    pub open spec fn cancel(self, s: u16, i: u16, id: u64) -> (
        BookView,
        Result<(), ProgramError>,
    ) {
        if self.orders.contains_key(i) && self.orders[i].seq == id && self.orders[i].maker == s {
            (self.killed(i), Ok(()))
        } else {
            (self, Err(clob(ClobError::OrderNotFound)))
        }
    }

    /// Lock funds for `o` and post it. An order that cannot be posted leaves the
    /// book as it was.
    pub open spec fn post(self, o: Order) -> (BookView, Result<u16, ProgramError>) {
        let s = o.maker as int;
        let w = self.with_lock(s, o.side, o.tick, o.lots);
        if self.chains[s].len() >= MAX_ORDERS_PER_SEAT {
            (self, Err(clob(ClobError::TooManyOrders)))
        } else if self.seats[s].spec_free(locks_base(o.side)) < atoms(
            self.header,
            o.side,
            o.tick,
            o.lots as int,
        ) {
            (self, Err(clob(ClobError::InsufficientBalance)))
        } else if self.free.len() == 0 {
            (self, Err(clob(ClobError::PoolFull)))
        } else {
            (w.posted(o, w.rank(s, o.key())), Ok(self.free[0]))
        }
    }

    /// Add or amend one quote: a tick that the maker already quotes is
    /// amended. A smaller size shrinks in place, a larger one is posted anew
    /// at the back, no size at all cancels.
    pub open spec fn upsert(self, o: Order, slide: bool) -> (BookView, Result<u16, ProgramError>) {
        let s = o.maker as int;
        if o.lots == 0 {
            match slid(self.header, o.side, o.tick, false, None) {
                Err(e) => (self, Err(e)),
                Ok(t) => match self.quote_at(s, o.side, t) {
                    None => (self, Err(clob(ClobError::OrderNotFound))),
                    Some(i) => (self.killed(i), Ok(i)),
                },
            }
        } else if o.lots > self.header.max_lots_per_order {
            (self, Err(clob(ClobError::InvalidLots)))
        } else {
            match slid(self.header, o.side, o.tick, slide, self.best(o.side.spec_opposite())) {
                Err(e) => (self, Err(e)),
                Ok(t) => {
                    let n = Order { tick: t, ..o };
                    match self.quote_at(s, o.side, t) {
                        None => self.post(n),
                        Some(i) => if o.lots <= self.orders[i].lots {
                            (self.shrunk(i, o.lots).refreshed(i, o.expiry_slot), Ok(i))
                        } else {
                            self.killed(i).post(n)
                        },
                    }
                },
            }
        }
    }

    /// What all seats hold of one asset, fees included.
    pub open spec fn owed(self, base: bool) -> int {
        total_held(self.seats, base) + if base {
            0
        } else {
            self.header.fees_accrued_quote as int
        }
    }

    /// No asset exceeds what a mint can issue.
    pub open spec fn solvent(self) -> bool {
        self.owed(true) <= u64::MAX && self.owed(false) <= u64::MAX
    }

    /// What all seats but `t` hold of one asset.
    pub open spec fn held_by_others(self, t: int, base: bool) -> int {
        total_held(self.seats, base) - if 0 <= t < 128 {
            held(self.seats[t], base)
        } else {
            0
        }
    }

    /// One more mutating instruction.
    pub open spec fn bumped(self) -> BookView {
        BookView {
            header: Market { seq: wrapping_succ(self.header.seq), ..self.header },
            ..self
        }
    }

    /// The taker's seat pays for a pass and is credited what it bought, fee
    /// included; `None` when it cannot pay.
    pub open spec fn paid(self, s: int, side: Side, res: TakeResult) -> Option<BookView> {
        let seat = self.seats[s];
        let base = res.lots * self.header.base_lot_size;
        match side {
            Side::Bid => if seat.quote_free < res.quote + res.fee {
                None
            } else {
                Some(
                    self.with_seat(
                        s,
                        Seat {
                            quote_free: (seat.quote_free - res.quote - res.fee) as u64,
                            base_free: wrapping(seat.base_free + base),
                            ..seat
                        },
                    ),
                )
            },
            Side::Ask => if seat.base_free < base {
                None
            } else {
                Some(
                    self.with_seat(
                        s,
                        Seat {
                            base_free: (seat.base_free - base) as u64,
                            quote_free: wrapping(seat.quote_free + res.quote - res.fee),
                            ..seat
                        },
                    ),
                )
            },
        }
    }

    /// First seat from `k` on that nobody owns.
    pub open spec fn first_vacant(self, k: int) -> Option<int>
        decreases self.seats.len() - k,
    {
        if k < 0 || k >= self.seats.len() {
            None
        } else if no_owner(self.seats[k].owner@) {
            Some(k)
        } else {
            self.first_vacant(k + 1)
        }
    }

    /// A seat that nobody owns has no orders.
    pub open spec fn vacant_ok(self) -> bool {
        forall|s: int|
            0 <= s < 128 && no_owner((#[trigger] self.seats[s]).owner@) ==> self.chains[s].len()
                == 0
    }

    /// `owner` gets the first vacant seat.
    pub open spec fn claimed(self, owner: [u8; 32]) -> (BookView, Result<u16, ProgramError>) {
        match self.first_vacant(0) {
            Some(s) => (self.with_seat(s, Seat { owner, ..self.seats[s] }), Ok(s as u16)),
            None => (self, Err(clob(ClobError::SeatTableFull))),
        }
    }

    /// Whether `owner` may act for seat `s`.
    pub open spec fn seat_check(self, s: u16, owner: Seq<u8>) -> Result<(), ProgramError> {
        if s >= 128 {
            Err(clob(ClobError::InvalidSeatIndex))
        } else if self.seats[s as int].owner@ != owner {
            Err(clob(ClobError::InvalidSeatOwner))
        } else {
            Ok(())
        }
    }

    /// The oldest order at the best price of `side`.
    pub open spec fn front(self, side: Side) -> u16 {
        self.queues[slot(self.best(side)->0)][0]
    }

    /// How many lots of order `i` the taker takes next.
    pub open spec fn fill_of(self, p: TakeParams, i: u16, res: TakeResult, left: u32) -> int {
        let o = self.orders[i];
        let most: int = if o.lots < left {
            o.lots as int
        } else {
            left as int
        };
        if p.max_quote == u64::MAX {
            most
        } else {
            let n = affordable(
                o.tick * self.header.tick_size,
                self.header.fee_bps as int,
                p.max_quote - res.quote - res.fee,
            );
            if n < most {
                n
            } else {
                most
            }
        }
    }

    /// `res` after `fill` lots at `tick`.
    pub open spec fn with_fill(self, res: TakeResult, tick: u32, fill: int) -> TakeResult {
        let quote = tick * self.header.tick_size * fill;
        TakeResult {
            lots: (res.lots + fill) as u32,
            quote: (res.quote + quote) as u64,
            fee: (res.fee + fee_on(quote, self.header.fee_bps as int)) as u64,
        }
    }

    /// The fee of a finished pass accrues to the market.
    pub open spec fn with_fees(self, fee: u64) -> BookView {
        BookView {
            header: Market {
                fees_accrued_quote: wrapping(self.header.fees_accrued_quote + fee),
                ..self.header
            },
            ..self
        }
    }

    /// A matching pass with `left` lots to go: always against the oldest
    /// order at the best opposing price. An expired order, and under the
    /// default policy an order of the taker, ends without a trade.
    pub open spec fn take_from(self, p: TakeParams, res: TakeResult, left: u32) -> (
        BookView,
        Result<TakeResult, ProgramError>,
    )
        decreases left, self.orders.dom().len(),
            when self.structured()
    {
        let side = p.side.spec_opposite();
        let i = self.front(side);
        let o = self.orders[i];
        let fill = self.fill_of(p, i, res, left);
        proof {
            lemma_finite_below(self.orders.dom(), 0x10000);
            if self.best(side) is Some {
                let t = choose|t: u32| self.is_best(side, t);
                assert(self.is_best(side, t));
                let j = choose|j: u16|
                    #[trigger] self.orders.contains_key(j) && self.orders[j].side == side
                        && self.orders[j].tick == t;
                assert(self.order_ok(j));
                assert(self.queue_ok(slot(t)));
                assert(self.orders.contains_key(self.queues[slot(t)][0]));
            }
        }
        if left == 0 || self.best(side) is None || !within_limit(p, self.best(side)->0) {
            (self.with_fees(res.fee), Ok(res))
        } else if o.tick * self.header.tick_size == 0 {
            (self, Err(clob(ClobError::TickOutOfWindow)))
        } else if o.expired(p.slot) {
            self.killed(i).take_from(p, res, left)
        } else if o.maker == p.seat && p.self_trade == SelfTradePolicy::Abort {
            (self, Err(clob(ClobError::SelfTrade)))
        } else if o.maker == p.seat {
            self.killed(i).take_from(p, res, left)
        } else if fill <= 0 {
            (self.with_fees(res.fee), Ok(res))
        } else {
            self.filled(i, fill as u32).take_from(
                p,
                self.with_fill(res, o.tick, fill),
                (left - fill) as u32,
            )
        }
    }

    /// A matching pass.
    pub open spec fn taken(self, p: TakeParams) -> (BookView, Result<TakeResult, ProgramError>) {
        if p.max_lots == 0 || p.max_lots > self.header.max_lots_per_order {
            (self, Err(clob(ClobError::InvalidLots)))
        } else {
            self.take_from(p, TakeResult { lots: 0, quote: 0, fee: 0 }, p.max_lots)
        }
    }

    /// Post quote `q` of a merge at position `k` of the seat's chain. A tick
    /// at or below `last_used`, or equal to the next resting quote `next`,
    /// would stack two orders of the maker on one price and is refused. Gives
    /// the book and the tick used.
    pub open spec fn quote_posted(
        self,
        m: Merge,
        q: Quote,
        k: int,
        last_used: u32,
        next: Option<u32>,
    ) -> (BookView, Result<u32, ProgramError>) {
        let s = m.seat as int;
        match slid(self.header, m.side, q.tick, !q.spec_reject_on_cross(), m.opposing) {
            Err(e) => (self, Err(e)),
            Ok(t) => if t <= last_used || next == Some(t) {
                (self, Err(clob(ClobError::WouldCross)))
            } else if self.seats[s].spec_free(locks_base(m.side)) < atoms(
                self.header,
                m.side,
                t,
                q.lots as int,
            ) {
                (self, Err(clob(ClobError::InsufficientBalance)))
            } else if self.free.len() == 0 {
                (self, Err(clob(ClobError::PoolFull)))
            } else {
                let o = Order {
                    side: m.side,
                    tick: t,
                    maker: m.seat,
                    lots: q.lots,
                    expiry_slot: m.expiry_slot,
                    seq: 0,
                };
                (self.with_lock(s, m.side, t, q.lots).posted(o, k), Ok(t))
            },
        }
    }

    /// The chain of the seat has an order of the side at position `k`.
    pub open spec fn merge_here(self, m: Merge, k: int) -> bool {
        let c = self.chains[m.seat as int];
        0 <= k < c.len() && self.orders[c[k]].side == m.side
    }

    /// Merge the quotes from `qi` on with the seat's chain from position `k`
    /// on. Orders that no quote names end; an order at a quote's tick shrinks
    /// in place, or is posted anew at the back when it grows; other quotes are
    /// posted. Gives the book and the chain position past the side's orders.
    pub open spec fn merged_from(
        self,
        m: Merge,
        k: int,
        qi: int,
        last_tick: u32,
        last_used: u32,
    ) -> (BookView, Result<int, ProgramError>)
        decreases m.quotes.len() - qi, self.chains[m.seat as int].len() - k,
            when self.structured() && m.seat < 128
    {
        let c = self.chains[m.seat as int];
        let i = c[k];
        let here = self.merge_here(m, k);
        let ct = self.orders[i].tick;
        let q = m.quotes[qi];
        proof {
            assert(self.chain_ok(m.seat as int));
            if here {
                assert(self.orders.contains_key(c[k]));
                lemma_index_of(c, i, k);
            }
        }
        if qi < 0 || qi >= m.quotes.len() {
            if here {
                self.killed(i).merged_from(m, k, qi, last_tick, last_used)
            } else {
                (self, Ok(k))
            }
        } else if qi > 0 && q.tick <= last_tick {
            (self, Err(clob(ClobError::PayloadNotSorted)))
        } else if q.lots == 0 || q.lots > self.header.max_lots_per_order {
            (self, Err(clob(ClobError::InvalidLots)))
        } else if here && ct < q.tick {
            self.killed(i).merged_from(m, k, qi, last_tick, last_used)
        } else if here && ct == q.tick && q.lots <= self.orders[i].lots {
            self.shrunk(i, q.lots).refreshed(i, m.expiry_slot).merged_from(
                m,
                k + 1,
                qi + 1,
                q.tick,
                ct,
            )
        } else {
            let (w, r) = if here && ct == q.tick {
                self.killed(i).quote_posted(m, q, k, last_used, None)
            } else if here {
                self.quote_posted(m, q, k, last_used, Some(ct))
            } else {
                self.quote_posted(m, q, k, last_used, None)
            };
            match r {
                Err(e) => (w, Err(e)),
                Ok(t) => w.merged_from(m, k + 1, qi + 1, q.tick, t),
            }
        }
    }

    /// One side of a mass quote.
    pub open spec fn merged(
        self,
        seat: u16,
        side: Side,
        quotes: Seq<Quote>,
        expiry_slot: u32,
    ) -> (BookView, Result<int, ProgramError>) {
        let m = Merge {
            seat,
            side,
            expiry_slot,
            opposing: self.best(side.spec_opposite()),
            quotes,
        };
        self.merged_from(m, self.rank(seat as int, key(side, 0)), 0, 0, 0)
    }

    /// The orders of `l` end one after the other.
    pub open spec fn killed_all(self, l: Seq<u16>) -> BookView
        decreases l.len(),
    {
        if l.len() == 0 {
            self
        } else {
            self.killed_all(l.drop_last()).killed(l.last())
        }
    }

    /// The `n` levels from tick `t` on are emptied, in tick order and each
    /// from its oldest order on.
    pub open spec fn cleared(self, t: int, n: nat) -> BookView
        decreases n,
    {
        if n == 0 {
            self
        } else {
            let w = self.cleared(t, (n - 1) as nat);
            w.killed_all(w.queues[(t + n - 1) % 8192])
        }
    }

    /// How many of the `n` levels from tick `t` on are occupied.
    pub open spec fn levels_in(self, t: int, n: nat) -> int
        decreases n,
    {
        if n == 0 {
            0
        } else {
            self.levels_in(t, (n - 1) as nat) + if self.queues[(t + n - 1) % 8192].len() > 0 {
                1int
            } else {
                0
            }
        }
    }

    /// The window moves up from `cur` towards `goal`, one word of 64 levels
    /// at a time; a word is entered only while fewer than `budget` levels were
    /// evicted. Gives the book, the levels evicted and the window start.
    pub open spec fn moved_up(self, cur: int, goal: int, evicted: int, budget: int) -> (
        BookView,
        int,
        int,
    )
        decreases
            if goal > cur {
                goal - cur
            } else {
                0
            },
    {
        if cur < goal && evicted < budget {
            self.cleared(cur, 64).moved_up(
                cur + 64,
                goal,
                evicted + self.levels_in(cur, 64),
                budget,
            )
        } else {
            (self, evicted, cur)
        }
    }

    /// The window moves down from `cur` towards `goal`, vacating the words at
    /// its top.
    pub open spec fn moved_down(self, cur: int, goal: int, evicted: int, budget: int) -> (
        BookView,
        int,
        int,
    )
        decreases
            if cur > goal {
                cur - goal
            } else {
                0
            },
    {
        if cur > goal && evicted < budget {
            self.cleared(cur + 8128, 64).moved_down(
                cur - 64,
                goal,
                evicted + self.levels_in(cur + 8128, 64),
                budget,
            )
        } else {
            (self, evicted, cur)
        }
    }

    /// Where the window goes for `target`: a whole word, not below 64, and
    /// such that the window stays within the tick limit.
    pub open spec fn anchor_for(self, target: u32) -> int {
        let word = target as int / 64 * 64;
        let top = (self.header.tick_limit - 8191) / 64 * 64;
        let low = if word > 64 {
            word
        } else {
            64
        };
        if low < top {
            low
        } else {
            top
        }
    }

    /// The window moves towards `target`. Gives the book, the levels evicted
    /// and the new window start.
    pub open spec fn reanchored(self, target: u32, max_levels: u32) -> (BookView, int, int) {
        let goal = self.anchor_for(target);
        let from = self.header.anchor_tick as int;
        let (w, n, at) = if goal > from {
            self.moved_up(from, goal, 0, max_levels as int)
        } else {
            self.moved_down(from, goal, 0, max_levels as int)
        };
        (
            BookView { header: Market { anchor_tick: at as u32, ..w.header }, ..w },
            n,
            at,
        )
    }

    /// The expired orders of `q` from position `k` on, in queue order.
    pub open spec fn stale_in(self, q: Seq<u16>, now: u64, k: int) -> Seq<u16>
        decreases q.len() - k,
    {
        if k < 0 || k >= q.len() {
            seq![]
        } else if self.orders[q[k]].expired(now) {
            seq![q[k]] + self.stale_in(q, now, k + 1)
        } else {
            self.stale_in(q, now, k + 1)
        }
    }

    /// The expired orders of one side from tick `t` to the end of the window,
    /// in tick order and each level from its oldest order on.
    pub open spec fn stale_from(self, side: Side, now: u64, t: int) -> Seq<u16>
        decreases self.header.anchor_tick + 8192 - t,
    {
        if t > self.header.anchor_tick + 8191 {
            seq![]
        } else {
            (if self.quoted(side, t) {
                self.stale_in(self.queues[t % 8192], now, 0)
            } else {
                seq![]
            }) + self.stale_from(side, now, t + 1)
        }
    }

    /// Up to `max_count` expired orders of one side end, from `start_tick` on.
    /// Gives the book and the number of orders.
    pub open spec fn reaped(self, side: Side, start_tick: u32, max_count: u32, now: u64) -> (
        BookView,
        int,
    ) {
        let lo = self.header.anchor_tick as int;
        let t = if start_tick < lo {
            lo
        } else if start_tick > lo + 8191 {
            lo + 8191
        } else {
            start_tick as int
        };
        let l = self.stale_from(side, now, t);
        let n = if l.len() < max_count {
            l.len() as int
        } else {
            max_count as int
        };
        (self.killed_all(l.take(n)), n)
    }

    /// A live order of `side` rests at `tick`.
    pub open spec fn quoted(self, side: Side, tick: int) -> bool {
        exists|i: u16|
            #[trigger] self.orders.contains_key(i) && self.orders[i].side == side
                && self.orders[i].tick == tick
    }

    /// `tick` is the best price of `side`: the highest bid or the lowest ask.
    pub open spec fn is_best(self, side: Side, tick: u32) -> bool {
        &&& self.quoted(side, tick as int)
        &&& forall|i: u16|
            #[trigger] self.orders.contains_key(i) && self.orders[i].side == side ==> match side {
                Side::Bid => self.orders[i].tick <= tick,
                Side::Ask => self.orders[i].tick >= tick,
            }
    }

    /// `r` is the best price of `side`, or no order rests there.
    pub open spec fn has_best(self, side: Side, r: Option<u32>) -> bool {
        match r {
            Some(t) => self.is_best(side, t),
            None => forall|i: u16|
                #[trigger] self.orders.contains_key(i) ==> self.orders[i].side != side,
        }
    }

    /// The best price of `side`, if any order rests there.
    pub open spec fn best(self, side: Side) -> Option<u32> {
        if exists|t: u32| self.is_best(side, t) {
            Some(choose|t: u32| self.is_best(side, t))
        } else {
            None
        }
    }
}

} // verus!
