//! Laws of a market's whole life: whatever instructions it is sent, in any
//! order, its vaults hold what its seats and fees own, and it passes its audit.

use crate::admin::{CollectFees, UpdateFee};
use crate::audit::{lemma_audit_passes, sound};
use crate::book::BookRefMut;
use crate::cranks::{Reanchor, ReapExpired};
use crate::flow::lemma_total_update;
use crate::funding::{ClaimSeat, CloseSeat, Deposit, Withdraw};
use crate::history::{lemma_claimed, lemma_exact_kept, lemma_kept, opened, Venue};
use crate::inspect::usable;
use crate::laws::lemma_new_is_exact;
use crate::ledger::{
    arrived,
    lemma_cancel,
    lemma_collect,
    lemma_deposit,
    lemma_mass_quote,
    lemma_place_limit,
    lemma_place_take,
    lemma_swap,
    lemma_update_fee,
    lemma_withdraw,
};
use crate::maker::{requoted, Cancel, PlaceLimit};
use crate::market::Market;
use crate::model::{held, BookView};
use crate::opening::is_new;
use crate::quote::Quote;
use crate::seat::{no_owner, Seat, ZERO_KEY};
use crate::side::Side;
use crate::steps::lemma_with_seat;
use crate::taker::{PlaceTake, Swap};
use crate::vacancy::{
    lemma_funding_vacant,
    lemma_keeps_vacant,
    lemma_new_vacant,
    lemma_place_limit_vacant,
    lemma_place_take_vacant,
    lemma_seats_vacant,
    lemma_swap_vacant,
    vacant_empty,
};
use crate::windows::lemma_cranks_keep;
use vstd::prelude::*;

verus! {

/// An instruction, with who signed it and what the runtime told it: the slot,
/// and what the vaults held before and after a transfer into them.
#[allow(inconsistent_fields)]
pub ghost enum Call {
    ClaimSeat { owner: [u8; 32] },
    CloseSeat { to: CloseSeat, owner: [u8; 32] },
    Deposit { to: Deposit, owner: Seq<u8>, base: (u64, u64), quote: (u64, u64) },
    Withdraw { to: Withdraw, owner: Seq<u8> },
    MassQuote {
        seat: u16,
        owner: Seq<u8>,
        bids: Seq<Quote>,
        asks: Seq<Quote>,
        expiry_slot: u32,
    },
    PlaceLimit { to: PlaceLimit, owner: Seq<u8>, slot: u64 },
    Cancel { to: Cancel, owner: Seq<u8> },
    PlaceTake { to: PlaceTake, owner: Seq<u8>, slot: u64 },
    Swap { to: Swap, delta: u64, slot: u64 },
    Reanchor { to: Reanchor },
    ReapExpired { to: ReapExpired, slot: u64 },
    UpdateFee { to: UpdateFee },
    CollectFees,
}

/// What a venue is if a transaction goes through.
pub open spec fn committed<T, E>(x: Venue, r: Result<T, E>, y: Venue) -> Venue {
    if r is Ok {
        y
    } else {
        x
    }
}

/// What an instruction leaves: one that fails is rolled back.
pub open spec fn sent(x: Venue, call: Call) -> Venue {
    let v = x.book;
    match call {
        Call::ClaimSeat { owner } => {
            let (w, r) = (ClaimSeat).outcome(v, owner);
            committed(x, r, x.with_book(w))
        },
        Call::CloseSeat { to, owner } => {
            let (w, r) = to.outcome(v, owner@);
            committed(x, r, x.with_book(w))
        },
        Call::Deposit { to, owner, base, quote } => {
            let (w, r) = to.outcome(v, owner, base, quote);
            committed(
                x,
                r,
                Venue {
                    book: w,
                    base: x.base + arrived(to.base_atoms, base),
                    quote: x.quote + arrived(to.quote_atoms, quote),
                },
            )
        },
        Call::Withdraw { to, owner } => {
            let (w, r) = to.outcome(v, owner);
            committed(
                x,
                r,
                Venue {
                    book: w,
                    base: x.base - r->Ok_0.base,
                    quote: x.quote - r->Ok_0.quote,
                },
            )
        },
        Call::MassQuote { seat, owner, bids, asks, expiry_slot } => {
            let (w, r) = requoted(v, seat, owner, bids, asks, expiry_slot);
            committed(x, r, x.with_book(w))
        },
        Call::PlaceLimit { to, owner, slot } => {
            let (w, r) = to.outcome(v, owner, slot);
            committed(x, r, x.with_book(w))
        },
        Call::Cancel { to, owner } => {
            let (w, r) = to.outcome(v, owner);
            committed(x, r, x.with_book(w))
        },
        Call::PlaceTake { to, owner, slot } => {
            let (w, r) = to.outcome(v, owner, slot);
            committed(x, r, x.with_book(w))
        },
        Call::Swap { to, delta, slot } => {
            let (w, r) = to.outcome(v, delta, slot);
            let o = r->Ok_0;
            let y = if to.side == Side::Ask {
                Venue { book: w, base: x.base + delta - o.refund, quote: x.quote - o.out }
            } else {
                Venue { book: w, base: x.base - o.out, quote: x.quote + delta - o.refund }
            };
            committed(x, r, y)
        },
        Call::Reanchor { to } => x.with_book(to.outcome(v).0),
        Call::ReapExpired { to, slot } => x.with_book(to.outcome(v, slot).0),
        Call::UpdateFee { to } => {
            let (header, r) = to.outcome(v.header);
            committed(x, r, x.with_book(BookView { header, ..v }))
        },
        Call::CollectFees => {
            let (header, amount) = (CollectFees).outcome(v.header);
            Venue { book: BookView { header, ..v }, quote: x.quote - amount, ..x }
        },
    }
}

/// An instruction that a runtime can send: the zero address never signs, and
/// what a mint issues fits in 64 bits, so also what a vault comes to hold.
pub open spec fn sendable(x: Venue, call: Call) -> bool {
    match call {
        Call::ClaimSeat { owner } => !no_owner(owner@),
        Call::CloseSeat { owner, .. } => !no_owner(owner@),
        Call::Deposit { to, owner, base, quote } => {
            &&& !no_owner(owner)
            &&& x.base + arrived(to.base_atoms, base) <= u64::MAX
            &&& x.quote + arrived(to.quote_atoms, quote) <= u64::MAX
        },
        Call::Withdraw { owner, .. } => !no_owner(owner),
        Call::MassQuote { owner, .. } => !no_owner(owner),
        Call::PlaceLimit { owner, .. } => !no_owner(owner),
        Call::Cancel { owner, .. } => !no_owner(owner),
        Call::PlaceTake { owner, .. } => !no_owner(owner),
        Call::Swap { to, delta, .. } => x.vault(to.side == Side::Ask) + delta <= u64::MAX,
        _ => true,
    }
}

/// The market after a series of instructions.
pub open spec fn sent_all(x: Venue, calls: Seq<Call>) -> Venue
    decreases calls.len(),
{
    if calls.len() == 0 {
        x
    } else {
        sent(sent_all(x, calls.drop_last()), calls.last())
    }
}

pub open spec fn sendable_all(x: Venue, calls: Seq<Call>) -> bool
    decreases calls.len(),
{
    calls.len() > 0 ==> sendable_all(x, calls.drop_last()) && sendable(
        sent_all(x, calls.drop_last()),
        calls.last(),
    )
}

/// A sound market whose vacant seats hold nothing.
pub open spec fn healthy(x: Venue) -> bool {
    x.sound() && vacant_empty(x.book)
}

/// Counting an instruction changes nothing that matters here.
proof fn lemma_counted(x: Venue)
    requires
        healthy(x),
    ensures
        healthy(x.with_book(x.book.bumped())),
{
    let v = x.book;
    crate::custody::lemma_bump_keeps(v);
    lemma_kept(x, v.bumped());
    lemma_keeps_vacant(v, v.bumped());
}

proof fn lemma_close(x: Venue, to: CloseSeat, owner: [u8; 32])
    requires
        healthy(x),
        !no_owner(owner@),
        to.outcome(x.book, owner@).1 is Ok,
    ensures
        healthy(x.with_book(to.outcome(x.book, owner@).0)),
{
    let v = x.book;
    let s = to.seat_index as int;
    let seat = Seat { owner: ZERO_KEY, ..v.seats[s] };
    let w = v.with_seat(s, seat);
    lemma_seats_vacant(v, owner, to);
    lemma_with_seat(v, s, seat);
    lemma_total_update(v.seats, s, seat, true);
    lemma_total_update(v.seats, s, seat, false);
    assert forall|t: int, base: bool| 0 <= t < 128 implies #[trigger] w.surplus(t, base) == 0 by {
        assert(w.needed(t, base) == v.needed(t, base));
        assert(v.surplus(t, base) == 0);
    }
    assert(vacant_empty(w)) by {
        assert forall|t: int, base: bool|
            0 <= t < 128 && no_owner(w.seats[t].owner@) implies #[trigger] held(w.seats[t], base)
            == 0 by {
            assert(held(w.bumped().seats[t], base) == 0);
        }
    }
    lemma_counted(x.with_book(w));
}

proof fn lemma_claim(x: Venue, owner: [u8; 32])
    requires
        healthy(x),
        !no_owner(owner@),
        (ClaimSeat).outcome(x.book, owner).1 is Ok,
    ensures
        healthy(x.with_book((ClaimSeat).outcome(x.book, owner).0)),
{
    let v = x.book;
    let w = v.claimed(owner).0;
    lemma_claimed(v, owner);
    lemma_seats_vacant(v, owner, CloseSeat { seat_index: 0 });
    assert(vacant_empty(w)) by {
        assert forall|t: int, base: bool|
            0 <= t < 128 && no_owner(w.seats[t].owner@) implies #[trigger] held(w.seats[t], base)
            == 0 by {
            assert(held(w.bumped().seats[t], base) == 0);
        }
    }
    lemma_counted(x.with_book(w));
}

/// The header is no matter to what seats hold.
proof fn lemma_same_vacancy(v: BookView, header: Market)
    requires
        vacant_empty(v),
    ensures
        vacant_empty(BookView { header, ..v }),
{
    let w = BookView { header, ..v };
    assert forall|t: int, base: bool|
        0 <= t < 128 && no_owner(w.seats[t].owner@) implies #[trigger] held(w.seats[t], base)
        == 0 by {
        assert(held(v.seats[t], base) == 0);
    }
}

proof fn lemma_administered(x: Venue, to: UpdateFee)
    requires
        healthy(x),
    ensures
        healthy(sent(x, Call::UpdateFee { to })),
        healthy(sent(x, Call::CollectFees)),
{
    let v = x.book;
    let h = to.outcome(v.header).0;
    let w = BookView { header: h, ..v };
    lemma_update_fee(to, v);
    lemma_same_vacancy(v, h);
    assert forall|t: int, base: bool| 0 <= t < 128 implies #[trigger] w.surplus(t, base) == 0 by {
        assert(v.surplus(t, base) == 0);
        lemma_same_needs(v, w, t, base);
    }
    let (g, amount) = (CollectFees).outcome(v.header);
    let y = BookView { header: g, ..v };
    lemma_collect(v);
    lemma_same_vacancy(v, g);
    lemma_exact_kept(v, y);
}

/// What orders need is a matter of the sizes, not of the fee.
proof fn lemma_same_needs(v: BookView, w: BookView, s: int, base: bool)
    requires
        w.orders == v.orders,
        w.chains == v.chains,
        w.header.tick_size == v.header.tick_size,
        w.header.base_lot_size == v.header.base_lot_size,
    ensures
        w.needed(s, base) == v.needed(s, base),
{
    crate::lists::lemma_total_agree(v.chains[s], w.locks(base), v.locks(base));
}

/// An instruction leaves a healthy market healthy.
pub proof fn lemma_sent(x: Venue, call: Call)
    requires
        healthy(x),
        sendable(x, call),
    ensures
        healthy(sent(x, call)),
{
    let v = x.book;
    let y = sent(x, call);
    match call {
        Call::ClaimSeat { owner } => {
            if (ClaimSeat).outcome(v, owner).1 is Ok {
                lemma_claim(x, owner);
            }
        },
        Call::CloseSeat { to, owner } => {
            if to.outcome(v, owner@).1 is Ok {
                lemma_close(x, to, owner);
            }
        },
        Call::Deposit { to, owner, base, quote } => {
            if to.outcome(v, owner, base, quote).1 is Ok {
                lemma_deposit(to, v, owner, base, quote);
                lemma_exact_kept(v, y.book);
                lemma_funding_vacant(
                    v,
                    owner,
                    to,
                    base,
                    quote,
                    Withdraw { seat_index: 0, base_atoms: 0, quote_atoms: 0 },
                );
            }
        },
        Call::Withdraw { to, owner } => {
            if to.outcome(v, owner).1 is Ok {
                lemma_withdraw(to, v, owner);
                lemma_exact_kept(v, y.book);
                lemma_funding_vacant(
                    v,
                    owner,
                    Deposit { seat_index: 0, base_atoms: 0, quote_atoms: 0 },
                    (0, 0),
                    (0, 0),
                    to,
                );
            }
        },
        Call::MassQuote { seat, owner, bids, asks, expiry_slot } => {
            if requoted(v, seat, owner, bids, asks, expiry_slot).1 is Ok {
                lemma_mass_quote(v, seat, owner, bids, asks, expiry_slot);
                lemma_kept(x, y.book);
                lemma_keeps_vacant(v, y.book);
            }
        },
        Call::PlaceLimit { to, owner, slot } => {
            if to.outcome(v, owner, slot).1 is Ok {
                lemma_place_limit(to, v, owner, slot);
                lemma_place_limit_vacant(to, v, owner, slot);
                assert forall|s: int, base: bool| 0 <= s < 128 implies #[trigger] y.book.surplus(
                    s,
                    base,
                ) == 0 by {
                    assert(v.surplus(s, base) == 0);
                }
            }
        },
        Call::Cancel { to, owner } => {
            if to.outcome(v, owner).1 is Ok {
                lemma_cancel(to, v, owner);
                lemma_kept(x, y.book);
                lemma_keeps_vacant(v, y.book);
            }
        },
        Call::PlaceTake { to, owner, slot } => {
            if to.outcome(v, owner, slot).1 is Ok {
                lemma_place_take(to, v, owner, slot);
                lemma_exact_kept(v, y.book);
                lemma_place_take_vacant(to, v, owner, slot);
            }
        },
        Call::Swap { to, delta, slot } => {
            if to.outcome(v, delta, slot).1 is Ok {
                lemma_swap(to, v, delta, slot);
                lemma_exact_kept(v, y.book);
                lemma_swap_vacant(to, v, delta, slot);
            }
        },
        Call::Reanchor { to } => {
            lemma_cranks_keep(
                v,
                to,
                ReapExpired { side: Side::Bid, start_tick: 0, max_count: 0 },
                0,
            );
            lemma_kept(x, y.book);
            lemma_keeps_vacant(v, y.book);
        },
        Call::ReapExpired { to, slot } => {
            lemma_cranks_keep(v, Reanchor { target_anchor: 0, max_levels: 0 }, to, slot);
            lemma_kept(x, y.book);
            lemma_keeps_vacant(v, y.book);
        },
        Call::UpdateFee { to } => {
            lemma_administered(x, to);
        },
        Call::CollectFees => {
            lemma_administered(x, UpdateFee { fee_bps: 0 });
        },
    }
}

/// From its creation on, whatever instructions a market is sent, in any order,
/// and whichever of them fail: every seat has locked exactly what its orders
/// need, vacant seats hold nothing, and each vault holds exactly what the
/// seats and the fee account own.
pub proof fn lemma_lifetime(v: BookView, calls: Seq<Call>)
    requires
        v.ok(),
        is_new(v),
        sendable_all(opened(v), calls),
    ensures
        healthy(sent_all(opened(v), calls)),
    decreases calls.len(),
{
    if calls.len() == 0 {
        lemma_new_is_exact(v);
        lemma_new_vacant(v);
    } else {
        lemma_lifetime(v, calls.drop_last());
        lemma_sent(sent_all(opened(v), calls.drop_last()), calls.last());
    }
}

/// At any time in its life a market passes its audit against what its vaults
/// hold, and the next instruction can work on it.
pub proof fn lemma_lifetime_audit(v: BookView, calls: Seq<Call>, b: BookRefMut)
    requires
        v.ok(),
        is_new(v),
        sendable_all(opened(v), calls),
        b.wf(),
        b@ == sent_all(opened(v), calls).book,
    ensures
        ({
            let x = sent_all(opened(v), calls);
            &&& 0 <= x.base <= u64::MAX
            &&& 0 <= x.quote <= u64::MAX
            &&& sound(b, x.base as u64, x.quote as u64)
            &&& usable(b)
        }),
{
    let x = sent_all(opened(v), calls);
    lemma_lifetime(v, calls);
    crate::flow::lemma_total_nonneg(x.book.seats, true);
    crate::flow::lemma_total_nonneg(x.book.seats, false);
    lemma_audit_passes(b, x.base as u64, x.quote as u64);
}

} // verus!
