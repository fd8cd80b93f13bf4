//! What an account of zero bytes decodes to: a book with nothing in it.

use crate::account::{bitmap_bytes, levels_bytes, nodes_bytes, seats_bytes, words_bytes};
use crate::bitmap::{lemma_zero_bit, Bitmap};
use crate::book::{BookRefMut, Lists};
use crate::codec::{bytes128, bytes16, bytes32, bytes64};
use crate::layout::{
    level_bytes,
    market_bytes,
    market_keys_bytes,
    market_state_bytes,
    market_terms_bytes,
    seat_bytes,
};
use crate::level::Level;
use crate::lists::total;
use crate::market::Market;
use crate::model::{held, total_held};
use crate::seat::{no_owner, Seat};
use vstd::prelude::*;

verus! {

/// Nothing but zero bytes.
pub open spec fn zeros(s: Seq<u8>) -> bool {
    forall|i: int| 0 <= i < s.len() ==> s[i] == 0
}

proof fn lemma_zeros_split(a: Seq<u8>, b: Seq<u8>)
    requires
        zeros(a + b),
    ensures
        zeros(a),
        zeros(b),
{
    assert forall|i: int| 0 <= i < a.len() implies a[i] == 0 by {
        assert((a + b)[i] == a[i]);
    }
    assert forall|i: int| 0 <= i < b.len() implies b[i] == 0 by {
        assert((a + b)[a.len() + i] == b[i]);
    }
}

proof fn lemma_zero16(x: u16)
    requires
        zeros(bytes16(x)),
    ensures
        x == 0,
{
    let s = bytes16(x);
    assert(s[0] == 0 && s[1] == 0);
}

proof fn lemma_zero32(x: u32)
    requires
        zeros(bytes32(x)),
    ensures
        x == 0,
{
    lemma_zeros_split(bytes16((x % 0x1_0000) as u16), bytes16((x / 0x1_0000) as u16));
    lemma_zero16((x % 0x1_0000) as u16);
    lemma_zero16((x / 0x1_0000) as u16);
}

proof fn lemma_zero64(x: u64)
    requires
        zeros(bytes64(x)),
    ensures
        x == 0,
{
    lemma_zeros_split(
        bytes32((x % 0x1_0000_0000) as u32),
        bytes32((x / 0x1_0000_0000) as u32),
    );
    lemma_zero32((x % 0x1_0000_0000) as u32);
    lemma_zero32((x / 0x1_0000_0000) as u32);
}

proof fn lemma_zero128(x: u128)
    requires
        zeros(bytes128(x)),
    ensures
        x == 0,
{
    lemma_zeros_split(
        bytes64((x % 0x1_0000_0000_0000_0000) as u64),
        bytes64((x / 0x1_0000_0000_0000_0000) as u64),
    );
    lemma_zero64((x % 0x1_0000_0000_0000_0000) as u64);
    lemma_zero64((x / 0x1_0000_0000_0000_0000) as u64);
}

proof fn lemma_zero_words(w: Seq<u64>)
    requires
        zeros(words_bytes(w)),
    ensures
        forall|k: int| 0 <= k < w.len() ==> w[k] == 0,
    decreases w.len(),
{
    if w.len() > 0 {
        lemma_zeros_split(words_bytes(w.drop_last()), bytes64(w.last()));
        lemma_zero_words(w.drop_last());
        lemma_zero64(w.last());
        assert forall|k: int| 0 <= k < w.len() implies w[k] == 0 by {
            if k < w.len() - 1 {
                assert(w[k] == w.drop_last()[k]);
            }
        }
    }
}

proof fn lemma_zero_bitmap(x: Bitmap)
    requires
        zeros(bitmap_bytes(x)),
    ensures
        x.wf(),
        forall|p: int| !#[trigger] x.has(p),
{
    lemma_zeros_split(words_bytes(x.summary@), words_bytes(x.leaves@));
    lemma_zero_words(x.summary@);
    lemma_zero_words(x.leaves@);
    assert forall|p: int| !#[trigger] x.has(p) by {
        lemma_zero_bit((p % 64) as u64);
    }
    assert forall|w: int| 0 <= w < 128 implies (crate::bitmap::bit(
        x.summary@[w / 64],
        (w % 64) as u64,
    ) <==> #[trigger] x.leaves@[w] != 0) by {
        lemma_zero_bit((w % 64) as u64);
    }
}

proof fn lemma_zero_level(x: Level)
    requires
        zeros(level_bytes(x)),
    ensures
        x.head == 0,
        x.tail == 0,
        x.total_lots == 0,
{
    let a = bytes16(x.head);
    let b = bytes16(x.tail);
    let c = bytes64(x.total_lots);
    lemma_zeros_split(a + b + c, x.padding@);
    lemma_zeros_split(a + b, c);
    lemma_zeros_split(a, b);
    lemma_zero16(x.head);
    lemma_zero16(x.tail);
    lemma_zero64(x.total_lots);
}

proof fn lemma_zero_levels(l: Seq<Level>)
    requires
        zeros(levels_bytes(l)),
    ensures
        forall|k: int|
            0 <= k < l.len() ==> (#[trigger] l[k]).head == 0 && l[k].tail == 0 && l[k].total_lots
                == 0,
    decreases l.len(),
{
    if l.len() > 0 {
        lemma_zeros_split(levels_bytes(l.drop_last()), level_bytes(l.last()));
        lemma_zero_levels(l.drop_last());
        lemma_zero_level(l.last());
        assert forall|k: int| 0 <= k < l.len() implies (#[trigger] l[k]).head == 0 && l[k].tail == 0
            && l[k].total_lots == 0 by {
            if k < l.len() - 1 {
                assert(l[k] == l.drop_last()[k]);
            }
        }
    }
}

/// A seat that nobody has ever taken.
pub open spec fn untouched(x: Seat) -> bool {
    &&& no_owner(x.owner@)
    &&& x.base_free == 0
    &&& x.quote_free == 0
    &&& x.base_locked == 0
    &&& x.quote_locked == 0
    &&& x.orders_head == 0
    &&& x.order_count == 0
}

proof fn lemma_zero_seat(x: Seat)
    requires
        zeros(seat_bytes(x)),
    ensures
        untouched(x),
{
    let o = x.owner@;
    let a = bytes64(x.base_free);
    let b = bytes64(x.quote_free);
    let c = bytes64(x.base_locked);
    let d = bytes64(x.quote_locked);
    let e = bytes16(x.orders_head);
    let f = bytes16(x.order_count);
    lemma_zeros_split(o + a + b + c + d + e + f, x.padding@);
    lemma_zeros_split(o + a + b + c + d + e, f);
    lemma_zeros_split(o + a + b + c + d, e);
    lemma_zeros_split(o + a + b + c, d);
    lemma_zeros_split(o + a + b, c);
    lemma_zeros_split(o + a, b);
    lemma_zeros_split(o, a);
    lemma_zero64(x.base_free);
    lemma_zero64(x.quote_free);
    lemma_zero64(x.base_locked);
    lemma_zero64(x.quote_locked);
    lemma_zero16(x.orders_head);
    lemma_zero16(x.order_count);
}

proof fn lemma_zero_seats(l: Seq<Seat>)
    requires
        zeros(seats_bytes(l)),
    ensures
        forall|k: int| 0 <= k < l.len() ==> untouched(#[trigger] l[k]),
    decreases l.len(),
{
    if l.len() > 0 {
        lemma_zeros_split(seats_bytes(l.drop_last()), seat_bytes(l.last()));
        lemma_zero_seats(l.drop_last());
        lemma_zero_seat(l.last());
        assert forall|k: int| 0 <= k < l.len() implies untouched(#[trigger] l[k]) by {
            if k < l.len() - 1 {
                assert(l[k] == l.drop_last()[k]);
            }
        }
    }
}

/// A zero header counts nothing.
pub proof fn lemma_zero_header(h: Market)
    requires
        zeros(market_bytes(h)),
    ensures
        h.free_count == 0,
        h.seq == 0,
        h.order_seq == 0,
        h.fees_accrued_quote == 0,
{
    lemma_zeros_split(market_keys_bytes(h) + market_terms_bytes(h), market_state_bytes(h));
    let a = bytes16(h.free_head);
    let b = bytes32(h.free_count);
    let c = bytes128(h.seq);
    let d = bytes64(h.order_seq);
    let e = bytes64(h.fees_accrued_quote);
    let f = seq![h.base_token_program];
    let g = seq![h.quote_token_program];
    let i = seq![h.base_decimals];
    let j = seq![h.quote_decimals];
    lemma_zeros_split(a + b + c + d + e + f + g + i + j, h.padding@);
    lemma_zeros_split(a + b + c + d + e + f + g + i, j);
    lemma_zeros_split(a + b + c + d + e + f + g, i);
    lemma_zeros_split(a + b + c + d + e + f, g);
    lemma_zeros_split(a + b + c + d + e, f);
    lemma_zeros_split(a + b + c + d, e);
    lemma_zeros_split(a + b + c, d);
    lemma_zeros_split(a + b, c);
    lemma_zeros_split(a, b);
    lemma_zero32(h.free_count);
    lemma_zero128(h.seq);
    lemma_zero64(h.order_seq);
    lemma_zero64(h.fees_accrued_quote);
}

/// Seats that hold nothing hold nothing together.
pub proof fn lemma_zero_total(seats: Seq<Seat>, base: bool)
    requires
        forall|k: int| 0 <= k < seats.len() ==> held(#[trigger] seats[k], base) == 0,
    ensures
        total_held(seats, base) == 0,
    decreases seats.len(),
{
    if seats.len() > 0 {
        assert forall|k: int| 0 <= k < seats.drop_last().len() implies held(
            #[trigger] seats.drop_last()[k],
            base,
        ) == 0 by {
            assert(seats[k] == seats.drop_last()[k]);
        }
        assert(held(seats[seats.len() - 1], base) == 0);
        lemma_zero_total(seats.drop_last(), base);
    }
}

/// Lists of a book without orders and without free nodes.
pub open spec fn bare_lists() -> Lists {
    Lists {
        free: seq![],
        fifos: Seq::new(8192, |s: int| Seq::<u16>::empty()),
        chains: Seq::new(128, |s: int| Seq::<u16>::empty()),
    }
}

/// Behind any header that counts no free nodes, zero bytes are a book without
/// orders.
pub proof fn lemma_zero_book(b: BookRefMut)
    requires
        b.sized(),
        zeros(
            bitmap_bytes(b.bid_bitmap) + bitmap_bytes(b.ask_bitmap) + levels_bytes(b.levels@)
                + seats_bytes(b.seats@) + nodes_bytes(b.pool@),
        ),
        b.header.free_head == 0,
        b.header.free_count == 0,
        b.lists@ == bare_lists(),
    ensures
        b.links_ok(),
        forall|s: int| 0 <= s < 128 ==> untouched(#[trigger] b.seats@[s]),
        total_held(b@.seats, true) == 0,
        total_held(b@.seats, false) == 0,
{
    let x = bitmap_bytes(b.bid_bitmap);
    let y = bitmap_bytes(b.ask_bitmap);
    let l = levels_bytes(b.levels@);
    let t = seats_bytes(b.seats@);
    lemma_zeros_split(x + y + l + t, nodes_bytes(b.pool@));
    lemma_zeros_split(x + y + l, t);
    lemma_zeros_split(x + y, l);
    lemma_zeros_split(x, y);
    lemma_zero_bitmap(b.bid_bitmap);
    lemma_zero_bitmap(b.ask_bitmap);
    lemma_zero_levels(b.levels@);
    lemma_zero_seats(b.seats@);
    assert forall|s: int| 0 <= s < 8192 implies #[trigger] b.fifo(s) by {
        assert(b.lists@.fifos[s].len() == 0);
        assert(b.levels@[s].head == 0);
        assert(total(b.lists@.fifos[s], crate::book::lots_by(b.pool@)) == 0);
    }
    assert forall|s: int| 0 <= s < 128 implies #[trigger] b.chain(s) by {
        assert(b.lists@.chains[s].len() == 0);
        assert(untouched(b.seats@[s]));
    }
    assert forall|k: int, base: bool| 0 <= k < 128 implies #[trigger] held(b@.seats[k], base)
        == 0 by {
        assert(untouched(b.seats@[k]));
    }
    lemma_zero_total(b@.seats, true);
    lemma_zero_total(b@.seats, false);
}

} // verus!
