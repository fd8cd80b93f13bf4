//! Laws of records: where each field stands in an account, how an input is
//! recognised, and what the first byte of an instruction names.

use crate::account::{
    bitmap_bytes,
    levels_bytes,
    nodes_bytes,
    seats_bytes,
    words_bytes,
};
use crate::accounts::AccountView;
use crate::book::BookRefMut;
use crate::codec::{
    bytes128,
    bytes16,
    bytes32,
    bytes64,
    le128,
    le16,
    le32,
    le64,
    lemma_le128,
    lemma_le16,
    lemma_le32,
    lemma_le64,
};
use crate::dispatch::{accounts_for, encodes, refusal, Command};
use crate::entry::{hot_call, record_end};
use crate::layout::{
    config_bytes,
    level_bytes,
    market_bytes,
    market_keys_bytes,
    market_state_bytes,
    market_terms_bytes,
    node_bytes,
    seat_bytes,
};
use crate::level::Level;
use crate::market::{Config, Market};
use crate::node::OrderNode;
use crate::seat::Seat;
use crate::side::Side;
use crate::snapshot::{live_order, snapshot_error, OrderSide, SnapshotError};
use vstd::prelude::*;

verus! {

/// Where a market keeps its fields: its keys first, then its terms, then its
/// counters.
pub proof fn lemma_market_layout(x: Market)
    ensures
        ({
            let s = market_bytes(x);
            &&& s.len() == 320
            &&& s[0] == x.version
            &&& s.subrange(1, 2) == x.bump@
            &&& s.subrange(2, 34) == x.base_mint@
            &&& s.subrange(34, 66) == x.quote_mint@
            &&& s.subrange(66, 98) == x.base_vault@
            &&& s.subrange(98, 130) == x.quote_vault@
            &&& s.subrange(130, 162) == x.vault_authority@
            &&& s.subrange(162, 194) == x.authority@
            &&& s.subrange(194, 226) == x.config@
            &&& le64(s, 226) == x.tick_size
            &&& le64(s, 234) == x.base_lot_size
            &&& le32(s, 242) == x.anchor_tick
            &&& le32(s, 246) == x.tick_limit
            &&& le16(s, 250) == x.fee_bps
            &&& le32(s, 252) == x.max_lots_per_order
            &&& le32(s, 256) == x.order_pool_capacity
            &&& le16(s, 260) == x.free_head
            &&& le32(s, 262) == x.free_count
            &&& le128(s, 266) == x.seq
            &&& le64(s, 282) == x.order_seq
            &&& le64(s, 290) == x.fees_accrued_quote
            &&& s[298] == x.base_token_program
            &&& s[299] == x.quote_token_program
            &&& s[300] == x.base_decimals
            &&& s[301] == x.quote_decimals
        }),
{
    let s = market_bytes(x);
    assert(bytes64(x.tick_size).len() == 8);
    assert(bytes64(x.base_lot_size).len() == 8);
    assert(bytes32(x.anchor_tick).len() == 4);
    assert(bytes32(x.tick_limit).len() == 4);
    assert(bytes16(x.fee_bps).len() == 2);
    assert(bytes32(x.max_lots_per_order).len() == 4);
    assert(bytes32(x.order_pool_capacity).len() == 4);
    assert(bytes16(x.free_head).len() == 2);
    assert(bytes32(x.free_count).len() == 4);
    assert(bytes128(x.seq).len() == 16);
    assert(bytes64(x.order_seq).len() == 8);
    assert(bytes64(x.fees_accrued_quote).len() == 8);
    let t0 = market_keys_bytes(x);
    assert(t0.len() == 226);
    let t1 = market_terms_bytes(x);
    assert(t1.len() == 34);
    let t2 = market_state_bytes(x);
    assert(t2.len() == 60);
    assert(s.subrange(0, 226) =~= t0);
    assert(s.subrange(226, 260) =~= t1);
    assert(s.subrange(260, 320) =~= t2);
    assert(t0.subrange(0, 1) =~= seq![x.version]);
    assert(s.subrange(0, 1) =~= s.subrange(0, 226).subrange(0, 1));
    assert(s[0] == s.subrange(0, 1)[0]);
    assert(t0.subrange(1, 2) =~= x.bump@);
    assert(s.subrange(1, 2) =~= s.subrange(0, 226).subrange(1, 2));
    assert(t0.subrange(2, 34) =~= x.base_mint@);
    assert(s.subrange(2, 34) =~= s.subrange(0, 226).subrange(2, 34));
    assert(t0.subrange(34, 66) =~= x.quote_mint@);
    assert(s.subrange(34, 66) =~= s.subrange(0, 226).subrange(34, 66));
    assert(t0.subrange(66, 98) =~= x.base_vault@);
    assert(s.subrange(66, 98) =~= s.subrange(0, 226).subrange(66, 98));
    assert(t0.subrange(98, 130) =~= x.quote_vault@);
    assert(s.subrange(98, 130) =~= s.subrange(0, 226).subrange(98, 130));
    assert(t0.subrange(130, 162) =~= x.vault_authority@);
    assert(s.subrange(130, 162) =~= s.subrange(0, 226).subrange(130, 162));
    assert(t0.subrange(162, 194) =~= x.authority@);
    assert(s.subrange(162, 194) =~= s.subrange(0, 226).subrange(162, 194));
    assert(t0.subrange(194, 226) =~= x.config@);
    assert(s.subrange(194, 226) =~= s.subrange(0, 226).subrange(194, 226));
    assert(t1.subrange(0, 8) =~= bytes64(x.tick_size));
    assert(s.subrange(226, 234) =~= s.subrange(226, 260).subrange(0, 8));
    lemma_le64(s, 226, x.tick_size);
    assert(t1.subrange(8, 16) =~= bytes64(x.base_lot_size));
    assert(s.subrange(234, 242) =~= s.subrange(226, 260).subrange(8, 16));
    lemma_le64(s, 234, x.base_lot_size);
    assert(t1.subrange(16, 20) =~= bytes32(x.anchor_tick));
    assert(s.subrange(242, 246) =~= s.subrange(226, 260).subrange(16, 20));
    lemma_le32(s, 242, x.anchor_tick);
    assert(t1.subrange(20, 24) =~= bytes32(x.tick_limit));
    assert(s.subrange(246, 250) =~= s.subrange(226, 260).subrange(20, 24));
    lemma_le32(s, 246, x.tick_limit);
    assert(t1.subrange(24, 26) =~= bytes16(x.fee_bps));
    assert(s.subrange(250, 252) =~= s.subrange(226, 260).subrange(24, 26));
    lemma_le16(s, 250, x.fee_bps);
    assert(t1.subrange(26, 30) =~= bytes32(x.max_lots_per_order));
    assert(s.subrange(252, 256) =~= s.subrange(226, 260).subrange(26, 30));
    lemma_le32(s, 252, x.max_lots_per_order);
    assert(t1.subrange(30, 34) =~= bytes32(x.order_pool_capacity));
    assert(s.subrange(256, 260) =~= s.subrange(226, 260).subrange(30, 34));
    lemma_le32(s, 256, x.order_pool_capacity);
    assert(t2.subrange(0, 2) =~= bytes16(x.free_head));
    assert(s.subrange(260, 262) =~= s.subrange(260, 320).subrange(0, 2));
    lemma_le16(s, 260, x.free_head);
    assert(t2.subrange(2, 6) =~= bytes32(x.free_count));
    assert(s.subrange(262, 266) =~= s.subrange(260, 320).subrange(2, 6));
    lemma_le32(s, 262, x.free_count);
    assert(t2.subrange(6, 22) =~= bytes128(x.seq));
    assert(s.subrange(266, 282) =~= s.subrange(260, 320).subrange(6, 22));
    lemma_le128(s, 266, x.seq);
    assert(t2.subrange(22, 30) =~= bytes64(x.order_seq));
    assert(s.subrange(282, 290) =~= s.subrange(260, 320).subrange(22, 30));
    lemma_le64(s, 282, x.order_seq);
    assert(t2.subrange(30, 38) =~= bytes64(x.fees_accrued_quote));
    assert(s.subrange(290, 298) =~= s.subrange(260, 320).subrange(30, 38));
    lemma_le64(s, 290, x.fees_accrued_quote);
    assert(t2.subrange(38, 39) =~= seq![x.base_token_program]);
    assert(s.subrange(298, 299) =~= s.subrange(260, 320).subrange(38, 39));
    assert(s[298] == s.subrange(298, 299)[0]);
    assert(t2.subrange(39, 40) =~= seq![x.quote_token_program]);
    assert(s.subrange(299, 300) =~= s.subrange(260, 320).subrange(39, 40));
    assert(s[299] == s.subrange(299, 300)[0]);
    assert(t2.subrange(40, 41) =~= seq![x.base_decimals]);
    assert(s.subrange(300, 301) =~= s.subrange(260, 320).subrange(40, 41));
    assert(s[300] == s.subrange(300, 301)[0]);
    assert(t2.subrange(41, 42) =~= seq![x.quote_decimals]);
    assert(s.subrange(301, 302) =~= s.subrange(260, 320).subrange(41, 42));
    assert(s[301] == s.subrange(301, 302)[0]);
}

/// Where a config keeps its fields.
pub proof fn lemma_config_layout(x: Config)
    ensures
        ({
            let s = config_bytes(x);
            &&& s.len() == 128
            &&& s[0] == x.version
            &&& s.subrange(1, 2) == x.bump@
            &&& s.subrange(2, 34) == x.authority@
            &&& s.subrange(34, 66) == x.seat_authority@
            &&& s.subrange(66, 98) == x.market_authority@
        }),
{
    let s = config_bytes(x);
    assert(s.subrange(0, 1) =~= seq![x.version]);
    assert(s[0] == s.subrange(0, 1)[0]);
    assert(s.subrange(1, 2) =~= x.bump@);
    assert(s.subrange(2, 34) =~= x.authority@);
    assert(s.subrange(34, 66) =~= x.seat_authority@);
    assert(s.subrange(66, 98) =~= x.market_authority@);
}

/// Where a level keeps its fields.
pub proof fn lemma_level_layout(x: Level)
    ensures
        ({
            let s = level_bytes(x);
            &&& s.len() == 16
            &&& le16(s, 0) == x.head
            &&& le16(s, 2) == x.tail
            &&& le64(s, 4) == x.total_lots
        }),
{
    let s = level_bytes(x);
    assert(bytes16(x.head).len() == 2);
    assert(bytes16(x.tail).len() == 2);
    assert(bytes64(x.total_lots).len() == 8);
    assert(s.subrange(0, 2) =~= bytes16(x.head));
    lemma_le16(s, 0, x.head);
    assert(s.subrange(2, 4) =~= bytes16(x.tail));
    lemma_le16(s, 2, x.tail);
    assert(s.subrange(4, 12) =~= bytes64(x.total_lots));
    lemma_le64(s, 4, x.total_lots);
}

/// Where a seat keeps its fields.
pub proof fn lemma_seat_layout(x: Seat)
    ensures
        ({
            let s = seat_bytes(x);
            &&& s.len() == 80
            &&& s.subrange(0, 32) == x.owner@
            &&& le64(s, 32) == x.base_free
            &&& le64(s, 40) == x.quote_free
            &&& le64(s, 48) == x.base_locked
            &&& le64(s, 56) == x.quote_locked
            &&& le16(s, 64) == x.orders_head
            &&& le16(s, 66) == x.order_count
        }),
{
    let s = seat_bytes(x);
    assert(bytes64(x.base_free).len() == 8);
    assert(bytes64(x.quote_free).len() == 8);
    assert(bytes64(x.base_locked).len() == 8);
    assert(bytes64(x.quote_locked).len() == 8);
    assert(bytes16(x.orders_head).len() == 2);
    assert(bytes16(x.order_count).len() == 2);
    assert(s.subrange(0, 32) =~= x.owner@);
    assert(s.subrange(32, 40) =~= bytes64(x.base_free));
    lemma_le64(s, 32, x.base_free);
    assert(s.subrange(40, 48) =~= bytes64(x.quote_free));
    lemma_le64(s, 40, x.quote_free);
    assert(s.subrange(48, 56) =~= bytes64(x.base_locked));
    lemma_le64(s, 48, x.base_locked);
    assert(s.subrange(56, 64) =~= bytes64(x.quote_locked));
    lemma_le64(s, 56, x.quote_locked);
    assert(s.subrange(64, 66) =~= bytes16(x.orders_head));
    lemma_le16(s, 64, x.orders_head);
    assert(s.subrange(66, 68) =~= bytes16(x.order_count));
    lemma_le16(s, 66, x.order_count);
}

/// Where an order node keeps its fields.
pub proof fn lemma_node_layout(x: OrderNode)
    ensures
        ({
            let s = node_bytes(x);
            &&& s.len() == 30
            &&& le16(s, 0) == x.prev
            &&& le16(s, 2) == x.next
            &&& le16(s, 4) == x.maker_prev
            &&& le16(s, 6) == x.maker_next
            &&& le32(s, 8) == x.tick
            &&& le16(s, 12) == x.maker_and_side
            &&& le32(s, 14) == x.lots
            &&& le32(s, 18) == x.expiry_slot
            &&& le64(s, 22) == x.seq
        }),
{
    let s = node_bytes(x);
    assert(bytes16(x.prev).len() == 2);
    assert(bytes16(x.next).len() == 2);
    assert(bytes16(x.maker_prev).len() == 2);
    assert(bytes16(x.maker_next).len() == 2);
    assert(bytes32(x.tick).len() == 4);
    assert(bytes16(x.maker_and_side).len() == 2);
    assert(bytes32(x.lots).len() == 4);
    assert(bytes32(x.expiry_slot).len() == 4);
    assert(bytes64(x.seq).len() == 8);
    assert(s.subrange(0, 2) =~= bytes16(x.prev));
    lemma_le16(s, 0, x.prev);
    assert(s.subrange(2, 4) =~= bytes16(x.next));
    lemma_le16(s, 2, x.next);
    assert(s.subrange(4, 6) =~= bytes16(x.maker_prev));
    lemma_le16(s, 4, x.maker_prev);
    assert(s.subrange(6, 8) =~= bytes16(x.maker_next));
    lemma_le16(s, 6, x.maker_next);
    assert(s.subrange(8, 12) =~= bytes32(x.tick));
    lemma_le32(s, 8, x.tick);
    assert(s.subrange(12, 14) =~= bytes16(x.maker_and_side));
    lemma_le16(s, 12, x.maker_and_side);
    assert(s.subrange(14, 18) =~= bytes32(x.lots));
    lemma_le32(s, 14, x.lots);
    assert(s.subrange(18, 22) =~= bytes32(x.expiry_slot));
    lemma_le32(s, 18, x.expiry_slot);
    assert(s.subrange(22, 30) =~= bytes64(x.seq));
    lemma_le64(s, 22, x.seq);
}

proof fn lemma_levels_at(l: Seq<Level>, k: int)
    requires
        0 <= k < l.len(),
    ensures
        levels_bytes(l).len() == 16 * l.len(),
        levels_bytes(l).subrange(16 * k, 16 * k + 16) == level_bytes(l[k]),
    decreases l.len(),
{
    let s = levels_bytes(l);
    let d = l.drop_last();
    lemma_levels_len(d);
    lemma_levels_len(l);
    if k < d.len() {
        lemma_levels_at(d, k);
        assert(s.subrange(16 * k, 16 * k + 16) =~= levels_bytes(d).subrange(16 * k, 16 * k + 16));
    } else {
        lemma_level_layout(l[k]);
        assert(s.subrange(16 * k, 16 * k + 16) =~= level_bytes(l[k]));
    }
}

proof fn lemma_levels_len(l: Seq<Level>)
    ensures
        levels_bytes(l).len() == 16 * l.len(),
    decreases l.len(),
{
    if l.len() > 0 {
        lemma_levels_len(l.drop_last());
        lemma_level_layout(l.last());
    }
}

proof fn lemma_seats_at(l: Seq<Seat>, k: int)
    requires
        0 <= k < l.len(),
    ensures
        seats_bytes(l).len() == 80 * l.len(),
        seats_bytes(l).subrange(80 * k, 80 * k + 80) == seat_bytes(l[k]),
    decreases l.len(),
{
    let s = seats_bytes(l);
    let d = l.drop_last();
    lemma_seats_len(d);
    lemma_seats_len(l);
    if k < d.len() {
        lemma_seats_at(d, k);
        assert(s.subrange(80 * k, 80 * k + 80) =~= seats_bytes(d).subrange(80 * k, 80 * k + 80));
    } else {
        lemma_seat_layout(l[k]);
        assert(s.subrange(80 * k, 80 * k + 80) =~= seat_bytes(l[k]));
    }
}

proof fn lemma_seats_len(l: Seq<Seat>)
    ensures
        seats_bytes(l).len() == 80 * l.len(),
    decreases l.len(),
{
    if l.len() > 0 {
        lemma_seats_len(l.drop_last());
        lemma_seat_layout(l.last());
    }
}

proof fn lemma_nodes_at(l: Seq<OrderNode>, k: int)
    requires
        0 <= k < l.len(),
    ensures
        nodes_bytes(l).len() == 30 * l.len(),
        nodes_bytes(l).subrange(30 * k, 30 * k + 30) == node_bytes(l[k]),
    decreases l.len(),
{
    let s = nodes_bytes(l);
    let d = l.drop_last();
    lemma_nodes_len(d);
    lemma_nodes_len(l);
    if k < d.len() {
        lemma_nodes_at(d, k);
        assert(s.subrange(30 * k, 30 * k + 30) =~= nodes_bytes(d).subrange(30 * k, 30 * k + 30));
    } else {
        lemma_node_layout(l[k]);
        assert(s.subrange(30 * k, 30 * k + 30) =~= node_bytes(l[k]));
    }
}

proof fn lemma_nodes_len(l: Seq<OrderNode>)
    ensures
        nodes_bytes(l).len() == 30 * l.len(),
    decreases l.len(),
{
    if l.len() > 0 {
        lemma_nodes_len(l.drop_last());
        lemma_node_layout(l.last());
    }
}

proof fn lemma_words_at(w: Seq<u64>, k: int)
    ensures
        words_bytes(w).len() == 8 * w.len(),
        0 <= k < w.len() ==> words_bytes(w).subrange(8 * k, 8 * k + 8) == bytes64(w[k]),
    decreases w.len(),
{
    if w.len() > 0 {
        let s = words_bytes(w);
        let d = w.drop_last();
        assert(bytes64(w.last()).len() == 8);
        lemma_words_at(d, k);
        if 0 <= k < d.len() {
            assert(s.subrange(8 * k, 8 * k + 8) =~= words_bytes(d).subrange(8 * k, 8 * k + 8));
        } else if k == d.len() {
            assert(s.subrange(8 * k, 8 * k + 8) =~= bytes64(w[k]));
        }
    }
}

/// Where an account keeps its regions: the header, the bid and the ask bitmap,
/// the levels by ring slot, the seats, and the nodes by index, each record
/// right behind the one before.
#[verifier::rlimit(40)]
pub proof fn lemma_account_layout(b: BookRefMut, k: int)
    requires
        b.sized(),
    ensures
        ({
            let s = b.bytes();
            &&& s.len() == 143712 + 30 * b.header.order_pool_capacity
            &&& s.subrange(0, 320) == market_bytes(b.header)
            &&& 0 <= k < 2 ==> s.subrange(320 + 8 * k, 328 + 8 * k) == bytes64(b.bid_bitmap.summary[k])
            &&& 0 <= k < 128 ==> s.subrange(336 + 8 * k, 344 + 8 * k) == bytes64(b.bid_bitmap.leaves[k])
            &&& 0 <= k < 2 ==> s.subrange(1360 + 8 * k, 1368 + 8 * k) == bytes64(b.ask_bitmap.summary[k])
            &&& 0 <= k < 128 ==> s.subrange(1376 + 8 * k, 1384 + 8 * k) == bytes64(b.ask_bitmap.leaves[k])
            &&& 0 <= k < 8192 ==> s.subrange(2400 + 16 * k, 2416 + 16 * k) == level_bytes(b.levels@[k])
            &&& 0 <= k < 128 ==> s.subrange(133472 + 80 * k, 133552 + 80 * k) == seat_bytes(b.seats@[k])
            &&& 0 <= k < b.header.order_pool_capacity ==> s.subrange(
                143712 + 30 * k,
                143742 + 30 * k,
            ) == node_bytes(b.pool@[k])
        }),
{
    let s = b.bytes();
    let h = market_bytes(b.header);
    let x = bitmap_bytes(b.bid_bitmap);
    let y = bitmap_bytes(b.ask_bitmap);
    let l = levels_bytes(b.levels@);
    let t = seats_bytes(b.seats@);
    let n = nodes_bytes(b.pool@);
    lemma_market_layout(b.header);
    lemma_words_at(b.bid_bitmap.summary@, k);
    lemma_words_at(b.bid_bitmap.leaves@, k);
    lemma_words_at(b.ask_bitmap.summary@, k);
    lemma_words_at(b.ask_bitmap.leaves@, k);
    lemma_levels_len(b.levels@);
    lemma_seats_len(b.seats@);
    lemma_nodes_len(b.pool@);
    assert(s.subrange(0, 320) =~= h);
    assert(s.subrange(320, 1360) =~= x);
    assert(s.subrange(1360, 2400) =~= y);
    assert(s.subrange(2400, 133472) =~= l);
    assert(s.subrange(133472, 143712) =~= t);
    assert(s.subrange(143712, s.len() as int) =~= n);
    if 0 <= k < 2 {
        let w = words_bytes(b.bid_bitmap.summary@);
        assert(x.subrange(8 * k, 8 * k + 8) =~= w.subrange(8 * k, 8 * k + 8));
        assert(s.subrange(320 + 8 * k, 328 + 8 * k) =~= s.subrange(320, 1360).subrange(
            8 * k,
            8 * k + 8,
        ));
        let z = words_bytes(b.ask_bitmap.summary@);
        assert(y.subrange(8 * k, 8 * k + 8) =~= z.subrange(8 * k, 8 * k + 8));
        assert(s.subrange(1360 + 8 * k, 1368 + 8 * k) =~= s.subrange(1360, 2400).subrange(
            8 * k,
            8 * k + 8,
        ));
    }
    if 0 <= k < 128 {
        let w = words_bytes(b.bid_bitmap.leaves@);
        assert(x.subrange(16 + 8 * k, 24 + 8 * k) =~= w.subrange(8 * k, 8 * k + 8));
        assert(s.subrange(336 + 8 * k, 344 + 8 * k) =~= s.subrange(320, 1360).subrange(
            16 + 8 * k,
            24 + 8 * k,
        ));
        let z = words_bytes(b.ask_bitmap.leaves@);
        assert(y.subrange(16 + 8 * k, 24 + 8 * k) =~= z.subrange(8 * k, 8 * k + 8));
        assert(s.subrange(1376 + 8 * k, 1384 + 8 * k) =~= s.subrange(1360, 2400).subrange(
            16 + 8 * k,
            24 + 8 * k,
        ));
        lemma_seats_at(b.seats@, k);
        assert(s.subrange(133472 + 80 * k, 133552 + 80 * k) =~= s.subrange(133472, 143712).subrange(
            80 * k,
            80 * k + 80,
        ));
    }
    if 0 <= k < 8192 {
        lemma_levels_at(b.levels@, k);
        assert(s.subrange(2400 + 16 * k, 2416 + 16 * k) =~= s.subrange(2400, 133472).subrange(
            16 * k,
            16 * k + 16,
        ));
    }
    if 0 <= k < b.header.order_pool_capacity {
        lemma_nodes_at(b.pool@, k);
        assert(s.subrange(143712 + 30 * k, 143742 + 30 * k) =~= s.subrange(
            143712,
            s.len() as int,
        ).subrange(30 * k, 30 * k + 30));
    }
}

/// A node's maker and side share a field: the seat below, and 32768 on top for
/// an ask.
pub proof fn lemma_maker_and_side(n: OrderNode, maker: u16, side: Side)
    requires
        maker < 0x8000,
    ensures
        n.spec_maker() == maker && n.spec_side() == side <==> n.maker_and_side == maker + (
        match side {
            Side::Bid => 0int,
            Side::Ask => 32768,
        }),
{
}

/// A live order of a snapshot is what its node says.
pub proof fn lemma_live_order(l: Seq<OrderNode>, k: int)
    requires
        0 <= k < l.len(),
        k < 0x1_0000,
    ensures
        ({
            let x = live_order(l, k);
            &&& x.index == k
            &&& x.maker == l[k].maker_and_side % 32768
            &&& x.side == OrderSide::Ask <==> l[k].maker_and_side >= 32768
            &&& *x.node == l[k]
        }),
{
}

/// A snapshot is refused for its first fault: fewer bytes than the fixed
/// regions have, another version than 4, or another length than its capacity
/// gives.
pub proof fn lemma_snapshot_refused(data: Seq<u8>)
    requires
        data.len() <= usize::MAX,
    ensures
        ({
            let n = 143712 + 30 * le32(data, 256);
            match snapshot_error(data) {
                None => data.len() == n && data[0] == 4,
                Some(SnapshotError::TooShort { actual, minimum }) => data.len() < 143712 && actual
                    == data.len() && minimum == 143712,
                Some(SnapshotError::UnsupportedVersion { actual, expected }) => data.len() >= 143712
                    && data[0] != 4 && actual == data[0] && expected == 4,
                Some(SnapshotError::LengthMismatch { actual, expected }) => data.len() >= 143712
                    && data[0] == 4 && data.len() != n && actual == data.len() && expected == n,
                Some(SnapshotError::LengthOverflow) => n > usize::MAX,
            }
        }),
{
}

/// The input of a call with two accounts of `a` and `b` bytes of data: where
/// the second record, the length of the instruction data and its first byte
/// stand. A record is 88 bytes, the data, 10240 spare bytes and as many as it
/// takes to a multiple of 8, and 8 bytes more.
pub open spec fn call_input(s: Seq<u8>, a: int, p: int, b: int, q: int) -> bool {
    let second = 8 + 88 + a + 10240 + p + 8;
    let tail = second + 88 + b + 10240 + q + 8;
    &&& 0 <= p < 8 && (8 + 88 + a + 10240 + p) % 8 == 0
    &&& 0 <= q < 8 && (second + 88 + b + 10240 + q) % 8 == 0
    &&& s.len() >= 96
    &&& a == le64(s, 88)
    &&& b == le64(s, second + 80)
}

/// A call is taken for a maker instruction exactly when its input counts two
/// accounts, neither of which repeats another, is as long as it says, and its
/// data begins with 20, 21 or 22; it is then found where it stands.
pub proof fn lemma_hot_call(s: Seq<u8>, a: int, p: int, b: int, q: int)
    requires
        call_input(s, a, p, b, q),
        s.len() <= usize::MAX,
    ensures
        ({
            let second = 8 + 88 + a + 10240 + p + 8;
            let tail = second + 88 + b + 10240 + q + 8;
            let n = le64(s, tail);
            &&& hot_call(s) is Some <==> {
                &&& le64(s, 0) == 2
                &&& s[8] == 255
                &&& second + 88 <= s.len()
                &&& s[second] == 255
                &&& tail + 8 <= s.len()
                &&& n >= 1
                &&& tail + 8 + n <= s.len()
                &&& 20 <= s[tail + 8] <= 22
            }
            &&& hot_call(s) matches Some(c) ==> {
                &&& c.owner_at == 8
                &&& c.market_at == second
                &&& c.discriminator == s[tail + 8]
                &&& c.data_at == tail + 9
                &&& c.data_len == n - 1
            }
        }),
{
    let second = 8 + 88 + a + 10240 + p + 8;
    let tail = second + 88 + b + 10240 + q + 8;
    assert(record_end(8, a) == second);
    assert(record_end(second, b) == tail);
}

/// The first byte names the instruction.
pub proof fn lemma_first_byte(tag: u8, data: Seq<u8>, c: Command)
    requires
        encodes(tag, data, c),
    ensures
        tag == 0 <==> c is CreateMarket,
        tag == 2 <==> c is UpdateFee,
        tag == 3 <==> c is CollectFees,
        tag == 4 <==> c is CreateConfig,
        tag == 5 <==> c is UpdateConfig,
        tag == 10 <==> c is ClaimSeat,
        tag == 11 <==> c is CloseSeat,
        tag == 12 <==> c is Deposit,
        tag == 13 <==> c is Withdraw,
        tag == 20 <==> c is MassQuote,
        tag == 21 <==> c is PlaceLimit,
        tag == 22 <==> c is Cancel,
        tag == 30 <==> c is PlaceTake,
        tag == 31 <==> c is Swap,
        tag == 40 <==> c is Reanchor,
        tag == 41 <==> c is ReapExpired,
{
}

/// An instruction that is not refused is one of these, its accounts were
/// accepted, and its payload has the length of its kind, but for a mass quote
/// and for the two that read none.
pub proof fn lemma_accepted(a: Seq<AccountView>, data: Seq<u8>)
    requires
        refusal(a, data) is None,
    ensures
        data.len() >= 1,
        accounts_for(data[0], a) is Ok,
        ({
            let n = data.len() - 1;
            let t = data[0];
            &&& t == 0 ==> n == 26
            &&& t == 2 || t == 11 ==> n == 2
            &&& t == 4 || t == 5 ==> n == 64
            &&& t == 12 || t == 13 ==> n == 18
            &&& t == 20 ==> n >= 8 && (n - 8) % 9 == 0
            &&& t == 21 ==> n == 16
            &&& t == 22 ==> n == 12
            &&& t == 30 ==> n == 20
            &&& t == 31 ==> n == 21
            &&& t == 40 ==> n == 8
            &&& t == 41 ==> n == 9
        }),
{
}

} // verus!
