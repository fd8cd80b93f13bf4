//! Laws of a seat's funds and of administration, in balances and fields: what
//! each instruction accepts, what it moves and what it leaves alone.

use crate::admin::{CollectFees, UpdateConfig, UpdateFee};
use crate::custody::lemma_supplied;
use crate::errors::ProgramError;
use crate::funding::{ClaimSeat, CloseSeat, Deposit, Withdraw};
use crate::laws::lemma_first_vacant;
use crate::maker::Cancel;
use crate::market::{Config, Market};
use crate::model::{atoms, BookView, Order};
use crate::seat::{no_owner, Seat, ZERO_KEY};
use crate::side::Side;
use crate::steps::lemma_lock_available;
use vstd::prelude::*;

verus! {

/// Whether `who` owns seat `s`.
pub open spec fn owns(v: BookView, s: u16, who: Seq<u8>) -> bool {
    s < 128 && v.seats[s as int].owner@ == who
}

/// How a request for a seat is refused to one who does not own it: by code 5
/// when there is no such seat, by code 6 when it is another's.
pub open spec fn not_theirs(v: BookView, s: u16, who: Seq<u8>, e: ProgramError) -> bool {
    &&& !owns(v, s, who)
    &&& e == ProgramError::Custom(
        if s >= 128 {
            5
        } else {
            6
        },
    )
}

/// Two headers that differ at most in their instruction count, which went up
/// by one and starts over after its largest value.
pub open spec fn counted(h: Market, k: Market) -> bool {
    &&& k == (Market { seq: k.seq, ..h })
    &&& k.seq as int == if h.seq == u128::MAX {
        0
    } else {
        h.seq + 1
    }
}

/// The orders, their queues and the free nodes are untouched.
pub open spec fn same_orders(v: BookView, w: BookView) -> bool {
    &&& w.orders == v.orders
    &&& w.queues == v.queues
    &&& w.chains == v.chains
    &&& w.free == v.free
}

/// Every seat but one is untouched.
pub open spec fn others_kept(v: BookView, w: BookView, s: int) -> bool {
    &&& w.seats.len() == v.seats.len()
    &&& forall|t: int| 0 <= t < v.seats.len() && t != s ==> #[trigger] w.seats[t] == v.seats[t]
}

/// A seat whose owner and locked balances are untouched.
pub open spec fn same_locks(a: Seat, b: Seat) -> bool {
    &&& b.owner@ == a.owner@
    &&& b.base_locked == a.base_locked
    &&& b.quote_locked == a.quote_locked
}

/// A deposit succeeds exactly for the seat's owner, when each vault that was
/// paid into reads no less than before and what it received fits. It then
/// credits each free balance with what that vault received, and nothing for an
/// asset that was not asked for.
pub proof fn lemma_deposits(
    d: Deposit,
    v: BookView,
    who: Seq<u8>,
    base: (u64, u64),
    quote: (u64, u64),
)
    requires
        v.structured(),
    ensures
        ({
            let (w, r) = d.outcome(v, who, base, quote);
            let s = d.seat_index as int;
            let b = if d.base_atoms == 0 {
                0
            } else {
                base.1 - base.0
            };
            let q = if d.quote_atoms == 0 {
                0
            } else {
                quote.1 - quote.0
            };
            &&& r is Ok <==> {
                &&& owns(v, d.seat_index, who)
                &&& b >= 0 && q >= 0
                &&& v.seats[s].base_free + b <= u64::MAX
                &&& v.seats[s].quote_free + q <= u64::MAX
            }
            &&& r is Ok ==> {
                &&& w.seats[s].base_free == v.seats[s].base_free + b
                &&& w.seats[s].quote_free == v.seats[s].quote_free + q
                &&& same_locks(v.seats[s], w.seats[s])
                &&& others_kept(v, w, s)
                &&& same_orders(v, w)
                &&& counted(v.header, w.header)
            }
            &&& r matches Err(e) ==> {
                ||| not_theirs(v, d.seat_index, who, e) && w == v
                ||| owns(v, d.seat_index, who) && (b < 0 || q < 0) && e == ProgramError::Custom(23)
                ||| owns(v, d.seat_index, who) && e == ProgramError::ArithmeticOverflow
            }
        }),
{
}

/// What a withdrawal of `asked` takes of a free balance: `u64::MAX` is all of
/// it.
pub open spec fn drawn(asked: u64, free: u64, paid: u64, left: u64) -> bool {
    &&& paid + left == free
    &&& asked == u64::MAX ==> left == 0
    &&& asked < u64::MAX ==> paid == asked
}

/// A withdrawal succeeds exactly for the seat's owner, when no asset is short.
/// It pays what it takes off the free balances, and locked balances stay.
pub proof fn lemma_withdraws(d: Withdraw, v: BookView, who: Seq<u8>)
    requires
        v.structured(),
    ensures
        ({
            let (w, r) = d.outcome(v, who);
            let s = d.seat_index as int;
            let a = v.seats[s];
            let enough = (d.base_atoms == u64::MAX || d.base_atoms <= a.base_free) && (d.quote_atoms
                == u64::MAX || d.quote_atoms <= a.quote_free);
            match r {
                Ok(p) => {
                    &&& owns(v, d.seat_index, who)
                    &&& enough
                    &&& drawn(d.base_atoms, a.base_free, p.base, w.seats[s].base_free)
                    &&& drawn(d.quote_atoms, a.quote_free, p.quote, w.seats[s].quote_free)
                    &&& same_locks(a, w.seats[s])
                    &&& others_kept(v, w, s)
                    &&& same_orders(v, w)
                    &&& counted(v.header, w.header)
                },
                Err(e) => {
                    &&& w == v
                    &&& not_theirs(v, d.seat_index, who, e) || owns(v, d.seat_index, who)
                        && !enough && e == ProgramError::Custom(20)
                },
            }
        }),
{
}

/// A seat closes exactly for its owner, when all four balances are zero and it
/// has no order. It then belongs to nobody.
pub proof fn lemma_closes(d: CloseSeat, v: BookView, who: Seq<u8>)
    requires
        v.ok(),
    ensures
        ({
            let (w, r) = d.outcome(v, who);
            let s = d.seat_index as int;
            let a = v.seats[s];
            &&& r is Ok <==> {
                &&& owns(v, d.seat_index, who)
                &&& a.base_free == 0 && a.quote_free == 0 && a.base_locked == 0 && a.quote_locked
                    == 0
                &&& forall|i: u16| #[trigger]
                    v.orders.contains_key(i) ==> v.orders[i].maker != d.seat_index
            }
            &&& r is Ok ==> {
                &&& no_owner(w.seats[s].owner@)
                &&& w.seats[s].base_free == 0 && w.seats[s].quote_free == 0
                &&& w.seats[s].base_locked == 0 && w.seats[s].quote_locked == 0
                &&& others_kept(v, w, s)
                &&& same_orders(v, w)
                &&& counted(v.header, w.header)
            }
            &&& r matches Err(e) ==> w == v && (not_theirs(v, d.seat_index, who, e) || owns(
                v,
                d.seat_index,
                who,
            ) && e == ProgramError::Custom(8))
        }),
{
    let s = d.seat_index as int;
    if s < 128 {
        let c = v.chains[s];
        assert(v.chain_ok(s));
        if c.len() > 0 {
            assert(v.orders.contains_key(c[0]));
        }
        assert forall|i: u16| #[trigger] v.orders.contains_key(i) && v.orders[i].maker
            == d.seat_index implies c.len() > 0 by {
            assert(v.order_ok(i));
        }
    }
    assert(no_owner(ZERO_KEY@));
}

/// A claim succeeds exactly while some seat is vacant, and gives the lowest
/// such seat to its owner, whose balances stay.
pub proof fn lemma_claims(d: ClaimSeat, v: BookView, who: [u8; 32])
    requires
        v.structured(),
    ensures
        ({
            let (w, r) = d.outcome(v, who);
            match r {
                Ok(s) => {
                    &&& s < 128
                    &&& no_owner(v.seats[s as int].owner@)
                    &&& forall|t: int|
                        0 <= t < s ==> !no_owner((#[trigger] v.seats[t]).owner@)
                    &&& w.seats[s as int] == (Seat { owner: who, ..v.seats[s as int] })
                    &&& others_kept(v, w, s as int)
                    &&& same_orders(v, w)
                    &&& counted(v.header, w.header)
                },
                Err(e) => {
                    &&& w == v
                    &&& e == ProgramError::Custom(7)
                    &&& forall|t: int|
                        0 <= t < 128 ==> !no_owner((#[trigger] v.seats[t]).owner@)
                },
            }
        }),
{
    lemma_first_vacant(v, 0);
}

/// What an order has locked: base atoms for an ask, and for a bid the quote
/// atoms that its price asks for.
pub open spec fn locked_by(h: Market, o: Order) -> int {
    match o.side {
        Side::Ask => h.base_lot_size * o.lots,
        Side::Bid => h.tick_size * o.tick * o.lots,
    }
}

/// A cancel succeeds exactly for the owner of the seat whose order the node
/// holds under that id. It ends that order alone and frees what it had locked.
pub proof fn lemma_cancels(d: Cancel, v: BookView, who: Seq<u8>)
    requires
        v.ok(),
        v.solvent(),
    ensures
        ({
            let (w, r) = d.outcome(v, who);
            let s = d.seat_index as int;
            let i = d.node_index;
            let o = v.orders[i];
            let a = v.seats[s];
            let b = w.seats[s];
            let freed = locked_by(v.header, o);
            &&& r is Ok <==> {
                &&& owns(v, d.seat_index, who)
                &&& v.orders.contains_key(i)
                &&& o.maker == d.seat_index
                &&& o.seq == d.order_seq
            }
            &&& r matches Err(e) ==> w == v && (not_theirs(v, d.seat_index, who, e) || owns(
                v,
                d.seat_index,
                who,
            ) && e == ProgramError::Custom(12))
            &&& r is Ok ==> {
                &&& w.orders == v.orders.remove(i)
                &&& o.side == Side::Ask ==> b.base_free == a.base_free + freed && b.base_locked
                    == a.base_locked - freed && b.quote_free == a.quote_free && b.quote_locked
                    == a.quote_locked
                &&& o.side == Side::Bid ==> b.quote_free == a.quote_free + freed && b.quote_locked
                    == a.quote_locked - freed && b.base_free == a.base_free && b.base_locked
                    == a.base_locked
                &&& b.owner@ == a.owner@
                &&& others_kept(v, w, s)
                &&& counted(v.header, w.header)
            }
        }),
{
    let i = d.node_index;
    if v.orders.contains_key(i) {
        let o = v.orders[i];
        assert(v.order_ok(i));
        let m = o.maker as int;
        lemma_supplied(v);
        assert(v.seats[m].within_supply());
        lemma_lock_available(v, i);
        let a = atoms(v.header, o.side, o.tick, o.lots as int);
        let (ts, t, n) = (v.header.tick_size as int, o.tick as int, o.lots as int);
        assert(t * ts * n == ts * t * n) by (nonlinear_arith);
        let ls = v.header.base_lot_size as int;
        assert(n * ls == ls * n) by (nonlinear_arith);
        assert(a == locked_by(v.header, o));
    }
}

/// A fee is set exactly when it is at most 500 basis points, and nothing else
/// changes.
pub proof fn lemma_sets_fee(d: UpdateFee, h: Market)
    ensures
        ({
            let (k, r) = d.outcome(h);
            &&& r is Ok <==> d.fee_bps <= 500
            &&& r matches Err(e) ==> k == h && e == ProgramError::Custom(18)
            &&& r is Ok ==> k.fee_bps == d.fee_bps && counted(
                h,
                (Market { fee_bps: h.fee_bps, ..k }),
            )
        }),
{
}

/// Collecting hands out all that accrued.
pub proof fn lemma_collects(d: CollectFees, h: Market)
    ensures
        ({
            let (k, n) = d.outcome(h);
            &&& n == h.fees_accrued_quote
            &&& k.fees_accrued_quote == 0
            &&& counted(h, (Market { fees_accrued_quote: h.fees_accrued_quote, ..k }))
        }),
{
}

/// Roles are handed on exactly when both go to somebody; the authority, the
/// bump and the version stay.
pub proof fn lemma_hands_on(d: UpdateConfig, c: Config)
    ensures
        ({
            let (k, r) = d.outcome(c);
            &&& r is Ok <==> !no_owner(d.roles.seat_authority@) && !no_owner(
                d.roles.market_authority@,
            )
            &&& r matches Err(e) ==> k == c && e == ProgramError::Custom(24)
            &&& k.authority == c.authority && k.bump == c.bump && k.version == c.version
            &&& r is Ok ==> k.seat_authority == d.roles.seat_authority && k.market_authority
                == d.roles.market_authority
        }),
{
}

} // verus!
