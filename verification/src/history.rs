//! Laws of every history of a market: whatever is done to its book, in any
//! order, what is locked and what is owed stay exact.

use crate::admin::CollectFees;
use crate::custody::{
    keeps,
    lemma_cancel_keeps,
    lemma_keeps_owed,
    lemma_merge_keeps,
    lemma_supplied,
    lemma_upsert_keeps,
};
use crate::flow::{
    lemma_start,
    lemma_take_flow,
    lemma_take_monotone,
    lemma_total_nonneg,
    lemma_total_update,
};
use crate::laws::{exact, lemma_new_is_exact};
use crate::ledger::{
    lemma_collect,
    lemma_free_stays,
    lemma_merge_starts,
    lemma_settled,
    lemma_take_stays,
    stays,
};
use crate::market::lemma_wrapping;
use crate::model::{key, lemma_market_ok, market_ok, BookView, Merge, Order};
use crate::opening::is_new;
use crate::quote::Quote;
use crate::seat::{no_owner, Seat};
use crate::side::{Side, TakeParams, TakeResult};
use crate::steps::lemma_with_seat;
use crate::windows::{lemma_reanchor, lemma_reap};
use vstd::prelude::*;

verus! {

/// One thing that is done to a market.
pub ghost enum Step {
    /// A seat is claimed.
    Claim { owner: [u8; 32] },
    /// Atoms come into the vaults and are credited to a seat.
    Fund { seat: u16, base: u64, quote: u64 },
    /// Atoms are debited from a seat and leave the vaults.
    Draw { seat: u16, base: u64, quote: u64 },
    /// A quote is added, amended or cancelled at a price.
    Upsert { order: Order, slide: bool },
    /// An order is cancelled by its id.
    Cancel { seat: u16, index: u16, id: u64 },
    /// One side of a seat's quotes is replaced.
    Requote { seat: u16, side: Side, quotes: Seq<Quote>, expiry_slot: u32 },
    /// A matching pass. A seat pays for it out of its free balances; a taker
    /// without a seat pays into the vaults and is paid from them. One that
    /// fails or cannot be paid for is rolled back.
    Take { pass: TakeParams },
    /// The accrued fees are paid out.
    Collect,
    /// The price window moves.
    Reanchor { target: u32, max_levels: u32 },
    /// Expired orders are ended.
    Reap { side: Side, start_tick: u32, max_count: u32, now: u64 },
}

/// A book and what its two vaults hold.
pub ghost struct Venue {
    pub book: BookView,
    pub base: int,
    pub quote: int,
}

impl Venue {
    /// What the vault of one asset holds.
    pub open spec fn vault(self, base: bool) -> int {
        if base {
            self.base
        } else {
            self.quote
        }
    }

    pub open spec fn with_book(self, book: BookView) -> Venue {
        Venue { book, ..self }
    }

    /// A seat's free balances become `base` and `quote`.
    pub open spec fn with_free(self, s: int, base: int, quote: int) -> BookView {
        self.book.with_seat(
            s,
            Seat { base_free: base as u64, quote_free: quote as u64, ..self.book.seats[s] },
        )
    }

    /// What a pass of a taker without a seat leaves.
    pub open spec fn swapped(self, side: Side, book: BookView, r: TakeResult) -> Venue {
        let lots = r.lots * self.book.header.base_lot_size;
        match side {
            Side::Bid => Venue {
                book,
                base: self.base - lots,
                quote: self.quote + r.quote + r.fee,
            },
            Side::Ask => Venue {
                book,
                base: self.base + lots,
                quote: self.quote - (r.quote - r.fee),
            },
        }
    }

    /// What a pass leaves, settled or rolled back.
    pub open spec fn taken(self, p: TakeParams) -> Venue {
        let (w, x) = self.book.taken(p);
        match x {
            Err(_) => self,
            Ok(r) => if p.seat >= 128 {
                self.swapped(p.side, w, r)
            } else {
                match w.paid(p.seat as int, p.side, r) {
                    Some(y) => self.with_book(y),
                    None => self,
                }
            },
        }
    }

    /// What a step leaves. A maker's step that fails leaves the book as the
    /// failure found it: nothing is rolled back.
    pub open spec fn stepped(self, step: Step) -> Venue {
        let v = self.book;
        match step {
            Step::Claim { owner } => self.with_book(v.claimed(owner).0),
            Step::Fund { seat, base, quote } => {
                let x = v.seats[seat as int];
                Venue {
                    book: self.with_free(
                        seat as int,
                        x.base_free + base,
                        x.quote_free + quote,
                    ),
                    base: self.base + base,
                    quote: self.quote + quote,
                }
            },
            Step::Draw { seat, base, quote } => {
                let x = v.seats[seat as int];
                Venue {
                    book: self.with_free(
                        seat as int,
                        x.base_free - base,
                        x.quote_free - quote,
                    ),
                    base: self.base - base,
                    quote: self.quote - quote,
                }
            },
            Step::Upsert { order, slide } => self.with_book(v.upsert(order, slide).0),
            Step::Cancel { seat, index, id } => self.with_book(v.cancel(seat, index, id).0),
            Step::Requote { seat, side, quotes, expiry_slot } => self.with_book(
                v.merged(seat, side, quotes, expiry_slot).0,
            ),
            Step::Take { pass } => self.taken(pass),
            Step::Collect => {
                let (header, amount) = (CollectFees).outcome(v.header);
                Venue {
                    book: BookView { header, ..v },
                    quote: self.quote - amount,
                    ..self
                }
            },
            Step::Reanchor { target, max_levels } => self.with_book(
                v.reanchored(target, max_levels).0,
            ),
            Step::Reap { side, start_tick, max_count, now } => self.with_book(
                v.reaped(side, start_tick, max_count, now).0,
            ),
        }
    }

    /// Seat `s` has an owner.
    pub open spec fn owned(self, s: u16) -> bool {
        s < 128 && !no_owner(self.book.seats[s as int].owner@)
    }

    /// Whether a step can be taken: a maker acts for a seat that has an owner,
    /// a seat draws no more than is free, and no vault comes to hold more than
    /// a mint can issue.
    pub open spec fn allows(self, step: Step) -> bool {
        match step {
            Step::Claim { owner } => !no_owner(owner@),
            Step::Fund { seat, base, quote } => {
                &&& self.owned(seat)
                &&& self.base + base <= u64::MAX
                &&& self.quote + quote <= u64::MAX
            },
            Step::Draw { seat, base, quote } => {
                &&& self.owned(seat)
                &&& base <= self.book.seats[seat as int].base_free
                &&& quote <= self.book.seats[seat as int].quote_free
            },
            Step::Upsert { order, .. } => self.owned(order.maker),
            Step::Requote { seat, .. } => self.owned(seat),
            Step::Take { pass } => {
                &&& self.taken(pass).base <= u64::MAX
                &&& self.taken(pass).quote <= u64::MAX
            },
            _ => true,
        }
    }

    /// The steps are taken one after the other.
    pub open spec fn after(self, steps: Seq<Step>) -> Venue
        decreases steps.len(),
    {
        if steps.len() == 0 {
            self
        } else {
            self.after(steps.drop_last()).stepped(steps.last())
        }
    }

    /// Each step can be taken where it stands.
    pub open spec fn allows_all(self, steps: Seq<Step>) -> bool
        decreases steps.len(),
    {
        steps.len() > 0 ==> self.allows_all(steps.drop_last()) && self.after(
            steps.drop_last(),
        ).allows(steps.last())
    }

    /// The book is consistent; every seat has locked exactly what its orders
    /// need; and each vault holds exactly what the seats and the fee account
    /// own together.
    pub open spec fn sound(self) -> bool {
        &&& self.book.ok()
        &&& market_ok(self.book.header)
        &&& exact(self.book)
        &&& self.book.owed(true) == self.base <= u64::MAX
        &&& self.book.owed(false) == self.quote <= u64::MAX
    }
}

/// A new market, with empty vaults.
pub open spec fn opened(v: BookView) -> Venue {
    Venue { book: v, base: 0, quote: 0 }
}

/// A step only moves what is inside the market.
pub open spec fn inward(step: Step) -> bool {
    match step {
        Step::Fund { .. } => false,
        Step::Draw { .. } => false,
        Step::Collect => false,
        Step::Take { pass } => pass.seat < 128,
        _ => true,
    }
}

/// Locks that are exact stay exact through whatever moves no value or trades.
pub proof fn lemma_exact_kept(v: BookView, w: BookView)
    requires
        exact(v),
        keeps(v, w) || stays(v, w),
    ensures
        exact(w),
{
    assert forall|s: int, base: bool| 0 <= s < 128 implies #[trigger] w.surplus(s, base) == 0 by {
        assert(v.surplus(s, base) == 0);
    }
}

/// Exact locks stay exact through a quote that is added, amended, cancelled or
/// refused.
pub proof fn lemma_upsert_exact(v: BookView, o: Order, slide: bool)
    requires
        v.ok(),
        v.solvent(),
        exact(v),
        o.maker < 128,
        !no_owner(v.seats[o.maker as int].owner@),
    ensures
        exact(v.upsert(o, slide).0),
{
    lemma_supplied(v);
    lemma_upsert_keeps(v, o, slide);
    lemma_exact_kept(v, v.upsert(o, slide).0);
}

/// Exact locks stay exact through a cancel, refused or not.
pub proof fn lemma_cancel_exact(v: BookView, s: u16, i: u16, id: u64)
    requires
        v.ok(),
        v.solvent(),
        exact(v),
    ensures
        exact(v.cancel(s, i, id).0),
{
    if v.cancel(s, i, id).1 is Ok {
        lemma_supplied(v);
        lemma_cancel_keeps(v, s, i, id);
        lemma_exact_kept(v, v.cancel(s, i, id).0);
    }
}

/// Exact locks stay exact through a mass quote of one side, also one that is
/// refused half way.
pub proof fn lemma_merge_exact(
    v: BookView,
    seat: u16,
    side: Side,
    quotes: Seq<Quote>,
    expiry_slot: u32,
)
    requires
        v.ok(),
        v.solvent(),
        exact(v),
        seat < 128,
        !no_owner(v.seats[seat as int].owner@),
    ensures
        exact(v.merged(seat, side, quotes, expiry_slot).0),
{
    lemma_merged_keeps(v, seat, side, quotes, expiry_slot);
    lemma_exact_kept(v, v.merged(seat, side, quotes, expiry_slot).0);
}

proof fn lemma_merged_keeps(
    v: BookView,
    seat: u16,
    side: Side,
    quotes: Seq<Quote>,
    expiry_slot: u32,
)
    requires
        v.ok(),
        v.solvent(),
        seat < 128,
        !no_owner(v.seats[seat as int].owner@),
    ensures
        keeps(v, v.merged(seat, side, quotes, expiry_slot).0),
{
    lemma_supplied(v);
    assert(v.seats[seat as int].within_supply());
    lemma_merge_starts(v, seat, side, quotes, expiry_slot);
    let m = Merge { seat, side, expiry_slot, opposing: v.best(side.spec_opposite()), quotes };
    lemma_merge_keeps(v, m, v.rank(seat as int, key(side, 0)), 0, 0, 0);
}

/// Exact locks stay exact through a pass, also one that stops half way.
pub proof fn lemma_take_exact(v: BookView, p: TakeParams)
    requires
        v.ok(),
        market_ok(v.header),
        exact(v),
    ensures
        exact(v.taken(p).0),
{
    lemma_market_ok(v.header);
    if p.max_lots <= v.header.max_lots_per_order {
        lemma_start(v.header, p);
        lemma_take_stays(v, p, TakeResult { lots: 0, quote: 0, fee: 0 }, p.max_lots);
        lemma_exact_kept(v, v.taken(p).0);
    }
}

/// Exact locks stay exact through a moving window and through a reap.
pub proof fn lemma_hygiene_exact(
    v: BookView,
    target: u32,
    max_levels: u32,
    side: Side,
    start_tick: u32,
    max_count: u32,
    now: u64,
)
    requires
        v.ok(),
        market_ok(v.header),
        v.solvent(),
        exact(v),
    ensures
        exact(v.reanchored(target, max_levels).0),
        exact(v.reaped(side, start_tick, max_count, now).0),
{
    lemma_reanchor(v, target, max_levels);
    lemma_exact_kept(v, v.reanchored(target, max_levels).0);
    lemma_reap(v, side, start_tick, max_count, now);
    lemma_exact_kept(v, v.reaped(side, start_tick, max_count, now).0);
}

/// A claim changes the owner of a vacant seat.
pub proof fn lemma_claimed(v: BookView, owner: [u8; 32])
    requires
        v.ok(),
        exact(v),
        !no_owner(owner@),
    ensures
        v.claimed(owner).0.ok(),
        exact(v.claimed(owner).0),
        v.claimed(owner).0.header == v.header,
        v.claimed(owner).0.owed(true) == v.owed(true),
        v.claimed(owner).0.owed(false) == v.owed(false),
{
    crate::laws::lemma_first_vacant(v, 0);
    if v.first_vacant(0) is Some {
        let s = v.first_vacant(0)->0;
        let x = Seat { owner, ..v.seats[s] };
        let w = v.claimed(owner).0;
        lemma_with_seat(v, s, x);
        lemma_total_update(v.seats, s, x, true);
        lemma_total_update(v.seats, s, x, false);
        assert forall|t: int, base: bool| 0 <= t < 128 implies #[trigger] w.surplus(t, base)
            == 0 by {
            assert(w.needed(t, base) == v.needed(t, base));
            assert(v.surplus(t, base) == 0);
        }
    }
}

/// A pass of a taker without a seat.
proof fn lemma_swapped(x: Venue, p: TakeParams)
    requires
        x.sound(),
        p.seat >= 128,
        x.book.taken(p).1 is Ok,
        x.taken(p).base <= u64::MAX,
        x.taken(p).quote <= u64::MAX,
    ensures
        x.taken(p).sound(),
{
    let v = x.book;
    let h = v.header;
    let res = TakeResult { lots: 0, quote: 0, fee: 0 };
    let (w, o) = v.taken(p);
    let r = o->Ok_0;
    let ls = h.base_lot_size as int;
    lemma_market_ok(h);
    lemma_start(h, p);
    lemma_take_stays(v, p, res, p.max_lots);
    lemma_exact_kept(v, w);
    lemma_take_monotone(v, p, res, p.max_lots);
    lemma_total_nonneg(v.seats, true);
    lemma_total_nonneg(v.seats, false);
    assert((r.lots - 0) * ls == r.lots * ls);
    assert(0 <= r.lots * ls) by (nonlinear_arith)
        requires
            r.lots >= 0,
            ls >= 0,
    ;
    lemma_take_flow(v, p, res, p.max_lots);
    assert(r.fee <= r.quote) by (nonlinear_arith)
        requires
            r.fee * 10_000 <= r.quote * h.fee_bps,
            h.fee_bps <= 10_000,
            r.fee >= 0,
            r.quote >= 0,
    ;
    lemma_total_nonneg(w.seats, true);
    lemma_total_nonneg(w.seats, false);
    lemma_wrapping(h.fees_accrued_quote + r.fee);
}

/// A pass leaves a sound market.
proof fn lemma_taken(x: Venue, p: TakeParams)
    requires
        x.sound(),
        x.allows(Step::Take { pass: p }),
    ensures
        x.taken(p).sound(),
{
    let v = x.book;
    let (w, o) = v.taken(p);
    if o is Ok {
        if p.seat >= 128 {
            lemma_swapped(x, p);
        } else if w.paid(p.seat as int, p.side, o->Ok_0) is Some {
            lemma_market_ok(v.header);
            lemma_settled(v, p);
            lemma_exact_kept(v, x.taken(p).book);
        }
    }
}

/// A change of a seat's free balances, matched by the vaults.
proof fn lemma_moved(x: Venue, s: u16, base: int, quote: int)
    requires
        x.sound(),
        x.owned(s),
        0 <= x.book.seats[s as int].base_free + base,
        0 <= x.book.seats[s as int].quote_free + quote,
        x.base + base <= u64::MAX,
        x.quote + quote <= u64::MAX,
    ensures
        ({
            let seat = x.book.seats[s as int];
            let w = x.with_free(s as int, seat.base_free + base, seat.quote_free + quote);
            (Venue { book: w, base: x.base + base, quote: x.quote + quote }).sound()
        }),
{
    let v = x.book;
    let seat = v.seats[s as int];
    crate::flow::lemma_total_covers(v.seats, s as int, s as int, true);
    crate::flow::lemma_total_covers(v.seats, s as int, s as int, false);
    let n = Seat {
        base_free: (seat.base_free + base) as u64,
        quote_free: (seat.quote_free + quote) as u64,
        ..seat
    };
    lemma_free_stays(v, s as int, n);
    lemma_exact_kept(v, v.with_seat(s as int, n));
}

/// What keeps value keeps a market sound.
pub proof fn lemma_kept(x: Venue, w: BookView)
    requires
        x.sound(),
        keeps(x.book, w),
    ensures
        x.with_book(w).sound(),
{
    lemma_keeps_owed(x.book, w);
    lemma_exact_kept(x.book, w);
}

/// A step leaves a sound market sound, whether or not it succeeds.
pub proof fn lemma_step(x: Venue, step: Step)
    requires
        x.sound(),
        x.allows(step),
    ensures
        x.stepped(step).sound(),
        inward(step) ==> x.stepped(step).base == x.base && x.stepped(step).quote == x.quote,
{
    let v = x.book;
    lemma_supplied(v);
    match step {
        Step::Claim { owner } => {
            lemma_claimed(v, owner);
        },
        Step::Fund { seat, base, quote } => {
            lemma_moved(x, seat, base as int, quote as int);
        },
        Step::Draw { seat, base, quote } => {
            lemma_moved(x, seat, -base, -quote);
        },
        Step::Upsert { order, slide } => {
            lemma_upsert_keeps(v, order, slide);
            lemma_kept(x, v.upsert(order, slide).0);
        },
        Step::Cancel { seat, index, id } => {
            if v.cancel(seat, index, id).1 is Ok {
                lemma_cancel_keeps(v, seat, index, id);
                lemma_kept(x, v.cancel(seat, index, id).0);
            }
        },
        Step::Requote { seat, side, quotes, expiry_slot } => {
            lemma_merged_keeps(v, seat, side, quotes, expiry_slot);
            lemma_kept(x, v.merged(seat, side, quotes, expiry_slot).0);
        },
        Step::Take { pass } => {
            lemma_taken(x, pass);
        },
        Step::Collect => {
            lemma_collect(v);
            lemma_exact_kept(v, x.stepped(step).book);
        },
        Step::Reanchor { target, max_levels } => {
            lemma_reanchor(v, target, max_levels);
            lemma_kept(x, v.reanchored(target, max_levels).0);
        },
        Step::Reap { side, start_tick, max_count, now } => {
            lemma_reap(v, side, start_tick, max_count, now);
            lemma_kept(x, v.reaped(side, start_tick, max_count, now).0);
        },
    }
}

/// From any sound market, whatever is done to it, in any order: the book stays
/// consistent, every seat has locked exactly what its orders need, and each
/// vault holds exactly what the seats and the fee account own.
pub proof fn lemma_after(x: Venue, steps: Seq<Step>)
    requires
        x.sound(),
        x.allows_all(steps),
    ensures
        x.after(steps).sound(),
        (forall|k: int| 0 <= k < steps.len() ==> inward(#[trigger] steps[k])) ==> x.after(
            steps,
        ).base == x.base && x.after(steps).quote == x.quote,
    decreases steps.len(),
{
    if steps.len() > 0 {
        let before = steps.drop_last();
        lemma_after(x, before);
        lemma_step(x.after(before), steps.last());
        if forall|k: int| 0 <= k < steps.len() ==> inward(#[trigger] steps[k]) {
            assert forall|k: int| 0 <= k < before.len() implies inward(#[trigger] before[k]) by {
                assert(before[k] == steps[k]);
            }
            assert(inward(steps[steps.len() - 1]));
        }
    }
}

/// The same holds of every history of a new market.
pub proof fn lemma_history(v: BookView, steps: Seq<Step>)
    requires
        v.ok(),
        is_new(v),
        opened(v).allows_all(steps),
    ensures
        opened(v).after(steps).sound(),
{
    lemma_new_is_exact(v);
    lemma_after(opened(v), steps);
}

/// Every lock is exact throughout: what a seat has locked of an asset is, at
/// any time, the sum over its orders of what each needs.
pub proof fn lemma_locks_exact(v: BookView, steps: Seq<Step>, s: int, base: bool)
    requires
        v.ok(),
        is_new(v),
        opened(v).allows_all(steps),
        0 <= s < 128,
    ensures
        ({
            let w = opened(v).after(steps).book;
            w.seats[s].spec_locked(base) == w.needed(s, base)
        }),
{
    lemma_history(v, steps);
    assert(opened(v).after(steps).book.surplus(s, base) == 0);
}

/// What a step leaves of a book if nothing is ever rolled back: a pass leaves
/// what it did before it stopped, and its taker has paid nothing.
pub open spec fn left_by(v: BookView, step: Step) -> BookView {
    match step {
        Step::Take { pass } => v.taken(pass).0,
        _ => opened(v).stepped(step).book,
    }
}

/// The steps are taken one after the other, and nothing is rolled back.
pub open spec fn run(v: BookView, steps: Seq<Step>) -> BookView
    decreases steps.len(),
{
    if steps.len() == 0 {
        v
    } else {
        left_by(run(v, steps.drop_last()), steps.last())
    }
}

/// Each step finds a book within supply, a maker with a seat, and free
/// balances that can change as it asks.
pub open spec fn runnable(v: BookView, steps: Seq<Step>) -> bool
    decreases steps.len(),
{
    steps.len() > 0 ==> {
        let w = run(v, steps.drop_last());
        &&& runnable(v, steps.drop_last())
        &&& w.solvent()
        &&& (Venue { book: w, base: w.owed(true), quote: w.owed(false) }).allows(steps.last())
            || steps.last() is Take
    }
}

/// Exact locks need no rollback: through every sequence of steps, with each
/// failure left as it stands, every seat has locked exactly what its orders
/// need.
pub proof fn lemma_run_exact(v: BookView, steps: Seq<Step>)
    requires
        v.ok(),
        market_ok(v.header),
        exact(v),
        runnable(v, steps),
    ensures
        run(v, steps).ok(),
        market_ok(run(v, steps).header),
        exact(run(v, steps)),
    decreases steps.len(),
{
    if steps.len() > 0 {
        let before = steps.drop_last();
        let step = steps.last();
        lemma_run_exact(v, before);
        let w = run(v, before);
        if step is Take {
            let p = step->pass;
            lemma_market_ok(w.header);
            if p.max_lots <= w.header.max_lots_per_order {
                lemma_start(w.header, p);
                lemma_take_stays(w, p, TakeResult { lots: 0, quote: 0, fee: 0 }, p.max_lots);
                lemma_exact_kept(w, w.taken(p).0);
            }
        } else {
            let x = Venue { book: w, base: w.owed(true), quote: w.owed(false) };
            lemma_step(x, step);
            assert(left_by(w, step) == x.stepped(step).book);
        }
    }
}

/// What was funded of one asset, less what was drawn.
pub open spec fn net_funding(steps: Seq<Step>, base: bool) -> int
    decreases steps.len(),
{
    if steps.len() == 0 {
        0
    } else {
        net_funding(steps.drop_last(), base) + match steps.last() {
            Step::Fund { base: b, quote: q, .. } => if base {
                b as int
            } else {
                q as int
            },
            Step::Draw { base: b, quote: q, .. } => if base {
                -(b as int)
            } else {
                -(q as int)
            },
            _ => 0,
        }
    }
}

/// A step by a seat, or one that trades nothing, and no payout of fees.
pub open spec fn seated(step: Step) -> bool {
    match step {
        Step::Collect => false,
        Step::Take { pass } => pass.seat < 128,
        _ => true,
    }
}

/// No atom is made or lost: as long as only seats trade and no fees are
/// collected, the seats and the fee account own what was funded less what was
/// drawn.
pub proof fn lemma_conserved(v: BookView, steps: Seq<Step>, base: bool)
    requires
        v.ok(),
        is_new(v),
        opened(v).allows_all(steps),
        forall|k: int| 0 <= k < steps.len() ==> seated(#[trigger] steps[k]),
    ensures
        opened(v).after(steps).book.owed(base) == net_funding(steps, base),
{
    lemma_history(v, steps);
    lemma_vault(opened(v), steps, base);
}

proof fn lemma_vault(x: Venue, steps: Seq<Step>, base: bool)
    requires
        forall|k: int| 0 <= k < steps.len() ==> seated(#[trigger] steps[k]),
    ensures
        x.after(steps).vault(base) == x.vault(base) + net_funding(steps, base),
    decreases steps.len(),
{
    if steps.len() > 0 {
        let before = steps.drop_last();
        assert forall|k: int| 0 <= k < before.len() implies seated(#[trigger] before[k]) by {
            assert(before[k] == steps[k]);
        }
        assert(seated(steps[steps.len() - 1]));
        lemma_vault(x, before, base);
    }
}

} // verus!
