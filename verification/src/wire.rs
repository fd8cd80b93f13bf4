//! Laws of the wire: the fields of each payload and each event record, in
//! order, as the bytes that stand for them.

use crate::admin::{roles_in, update_fee_of, Roles, UpdateFee};
use crate::codec::{
    bytes16,
    bytes32,
    bytes64,
    le16,
    le32,
    le64,
    lemma_le16,
    lemma_le32,
    lemma_le64,
};
use crate::cranks::{reanchor_of, reap_of, Reanchor, ReapExpired};
use crate::dispatch::{encodes, Command};
use crate::errors::ProgramError;
use crate::events::{
    claim_seat_record,
    collect_fees_record,
    create_market_record,
    reanchor_record,
    update_fee_record,
};
use crate::funding::{close_seat_of, deposit_of, withdraw_of, CloseSeat, Deposit, Withdraw};
use crate::maker::{cancel_of, place_limit_of, Cancel, MassQuote, PlaceLimit};
use crate::opening::{create_market_of, CreateMarket};
use crate::side::Side;
use crate::taker::{place_take_of, swap_of, PlaceTake, Swap};
use crate::token::transfer_bytes;
use vstd::prelude::*;

verus! {

/// Integers are little-endian: the first byte counts ones, each next one 256
/// times as much.
pub proof fn lemma_little_endian(s: Seq<u8>, i: int)
    ensures
        le16(s, i) == s[i] + 0x100 * s[i + 1],
        le32(s, i) == s[i] + 0x100 * s[i + 1] + 0x1_0000 * s[i + 2] + 0x100_0000 * s[i + 3],
        le64(s, i) == s[i] + 0x100 * s[i + 1] + 0x1_0000 * s[i + 2] + 0x100_0000 * s[i + 3]
            + 0x1_0000_0000 * s[i + 4] + 0x100_0000_0000 * s[i + 5] + 0x1_0000_0000_0000 * s[i + 6]
            + 0x100_0000_0000_0000 * s[i + 7],
{
    reveal(le16);
    reveal(le32);
    reveal(le64);
}

/// What stands behind `a` in `s`.
proof fn lemma_field16(s: Seq<u8>, a: Seq<u8>, x: u16, b: Seq<u8>)
    requires
        s == a + bytes16(x) + b,
    ensures
        le16(s, a.len() as int) == x,
{
    let n = a.len() as int;
    assert(bytes16(x).len() == 2);
    assert(s.subrange(n, n + 2) =~= bytes16(x));
    lemma_le16(s, n, x);
}

proof fn lemma_field32(s: Seq<u8>, a: Seq<u8>, x: u32, b: Seq<u8>)
    requires
        s == a + bytes32(x) + b,
    ensures
        le32(s, a.len() as int) == x,
{
    let n = a.len() as int;
    assert(bytes32(x).len() == 4);
    assert(s.subrange(n, n + 4) =~= bytes32(x));
    lemma_le32(s, n, x);
}

proof fn lemma_field64(s: Seq<u8>, a: Seq<u8>, x: u64, b: Seq<u8>)
    requires
        s == a + bytes64(x) + b,
    ensures
        le64(s, a.len() as int) == x,
{
    let n = a.len() as int;
    assert(bytes64(x).len() == 8);
    assert(s.subrange(n, n + 8) =~= bytes64(x));
    lemma_le64(s, n, x);
}

/// The lengths of integers.
proof fn lemma_widths()
    ensures
        forall|x: u16| (#[trigger] bytes16(x)).len() == 2,
        forall|x: u32| (#[trigger] bytes32(x)).len() == 4,
        forall|x: u64| (#[trigger] bytes64(x)).len() == 8,
{
    assert forall|x: u64| (#[trigger] bytes64(x)).len() == 8 by {
        assert(bytes32((x % 0x1_0000_0000) as u32).len() == 4);
        assert(bytes32((x / 0x1_0000_0000) as u32).len() == 4);
    }
}

/// A cancel: seat, node, order id.
pub proof fn lemma_cancel_wire(seat_index: u16, node_index: u16, order_seq: u64)
    ensures
        ({
            let s = bytes16(seat_index) + bytes16(node_index) + bytes64(order_seq);
            cancel_of(s) == Ok::<Cancel, ProgramError>(
                    Cancel { seat_index, node_index, order_seq },
                )
        }),
{
    let s = bytes16(seat_index) + bytes16(node_index) + bytes64(order_seq);
    lemma_widths();
    let a0 = Seq::<u8>::empty();
    let b0 = bytes16(node_index) + bytes64(order_seq);
    assert(s =~= a0 + bytes16(seat_index) + b0);
    lemma_field16(s, a0, seat_index, b0);
    let a1 = bytes16(seat_index);
    let b1 = bytes64(order_seq);
    assert(s =~= a1 + bytes16(node_index) + b1);
    lemma_field16(s, a1, node_index, b1);
    let a2 = bytes16(seat_index) + bytes16(node_index);
    let b2 = Seq::<u8>::empty();
    assert(s =~= a2 + bytes64(order_seq) + b2);
    lemma_field64(s, a2, order_seq, b2);
    assert(s.len() == 12);
}

/// A payload of any other length is refused.
pub proof fn lemma_cancel_wire_length(s: Seq<u8>)
    requires
        s.len() != 12,
    ensures
        cancel_of(s) == Err::<Cancel, ProgramError>(ProgramError::InvalidInstructionData),
{
}

/// A limit order: seat, side, tick, lots, expiry, flags.
pub proof fn lemma_place_limit_wire(seat_index: u16, side: u8, tick: u32, lots: u32, expiry_slot: u32, flags: u8)
    ensures
        ({
            let s = bytes16(seat_index) + seq![side] + bytes32(tick) + bytes32(lots) + bytes32(expiry_slot) + seq![flags];
            &&& side == 0 ==> place_limit_of(s) == Ok::<PlaceLimit, ProgramError>(
                    PlaceLimit { seat_index, side: Side::Bid, tick, lots, expiry_slot, flags },
                )
            &&& side == 1 ==> place_limit_of(s) == Ok::<PlaceLimit, ProgramError>(
                    PlaceLimit { seat_index, side: Side::Ask, tick, lots, expiry_slot, flags },
                )
            &&& side > 1 ==> place_limit_of(s) == Err::<PlaceLimit, ProgramError>(
                ProgramError::InvalidInstructionData,
            )
        }),
{
    let s = bytes16(seat_index) + seq![side] + bytes32(tick) + bytes32(lots) + bytes32(expiry_slot) + seq![flags];
    lemma_widths();
    let a0 = Seq::<u8>::empty();
    let b0 = seq![side] + bytes32(tick) + bytes32(lots) + bytes32(expiry_slot) + seq![flags];
    assert(s =~= a0 + bytes16(seat_index) + b0);
    lemma_field16(s, a0, seat_index, b0);
    assert(s[2] == side);
    let a2 = bytes16(seat_index) + seq![side];
    let b2 = bytes32(lots) + bytes32(expiry_slot) + seq![flags];
    assert(s =~= a2 + bytes32(tick) + b2);
    lemma_field32(s, a2, tick, b2);
    let a3 = bytes16(seat_index) + seq![side] + bytes32(tick);
    let b3 = bytes32(expiry_slot) + seq![flags];
    assert(s =~= a3 + bytes32(lots) + b3);
    lemma_field32(s, a3, lots, b3);
    let a4 = bytes16(seat_index) + seq![side] + bytes32(tick) + bytes32(lots);
    let b4 = seq![flags];
    assert(s =~= a4 + bytes32(expiry_slot) + b4);
    lemma_field32(s, a4, expiry_slot, b4);
    assert(s[15] == flags);
    assert(s.len() == 16);
}

/// A payload of any other length is refused.
pub proof fn lemma_place_limit_wire_length(s: Seq<u8>)
    requires
        s.len() != 16,
    ensures
        place_limit_of(s) == Err::<PlaceLimit, ProgramError>(ProgramError::InvalidInstructionData),
{
}

/// A taker order: seat, side, limit, lots, minimum, flags.
pub proof fn lemma_place_take_wire(seat_index: u16, side: u8, limit_tick: u32, max_lots: u32, min_out: u64, flags: u8)
    ensures
        ({
            let s = bytes16(seat_index) + seq![side] + bytes32(limit_tick) + bytes32(max_lots) + bytes64(min_out) + seq![flags];
            &&& side == 0 ==> place_take_of(s) == Ok::<PlaceTake, ProgramError>(
                    PlaceTake { seat_index, side: Side::Bid, limit_tick, max_lots, min_out, flags },
                )
            &&& side == 1 ==> place_take_of(s) == Ok::<PlaceTake, ProgramError>(
                    PlaceTake { seat_index, side: Side::Ask, limit_tick, max_lots, min_out, flags },
                )
            &&& side > 1 ==> place_take_of(s) == Err::<PlaceTake, ProgramError>(
                ProgramError::InvalidInstructionData,
            )
        }),
{
    let s = bytes16(seat_index) + seq![side] + bytes32(limit_tick) + bytes32(max_lots) + bytes64(min_out) + seq![flags];
    lemma_widths();
    let a0 = Seq::<u8>::empty();
    let b0 = seq![side] + bytes32(limit_tick) + bytes32(max_lots) + bytes64(min_out) + seq![flags];
    assert(s =~= a0 + bytes16(seat_index) + b0);
    lemma_field16(s, a0, seat_index, b0);
    assert(s[2] == side);
    let a2 = bytes16(seat_index) + seq![side];
    let b2 = bytes32(max_lots) + bytes64(min_out) + seq![flags];
    assert(s =~= a2 + bytes32(limit_tick) + b2);
    lemma_field32(s, a2, limit_tick, b2);
    let a3 = bytes16(seat_index) + seq![side] + bytes32(limit_tick);
    let b3 = bytes64(min_out) + seq![flags];
    assert(s =~= a3 + bytes32(max_lots) + b3);
    lemma_field32(s, a3, max_lots, b3);
    let a4 = bytes16(seat_index) + seq![side] + bytes32(limit_tick) + bytes32(max_lots);
    let b4 = seq![flags];
    assert(s =~= a4 + bytes64(min_out) + b4);
    lemma_field64(s, a4, min_out, b4);
    assert(s[19] == flags);
    assert(s.len() == 20);
}

/// A payload of any other length is refused.
pub proof fn lemma_place_take_wire_length(s: Seq<u8>)
    requires
        s.len() != 20,
    ensures
        place_take_of(s) == Err::<PlaceTake, ProgramError>(ProgramError::InvalidInstructionData),
{
}

/// A swap: side, input, limit, minimum.
pub proof fn lemma_swap_wire(side: u8, amount_in: u64, limit_tick: u32, min_out: u64)
    ensures
        ({
            let s = seq![side] + bytes64(amount_in) + bytes32(limit_tick) + bytes64(min_out);
            &&& side == 0 ==> swap_of(s) == Ok::<Swap, ProgramError>(
                    Swap { side: Side::Bid, amount_in, limit_tick, min_out },
                )
            &&& side == 1 ==> swap_of(s) == Ok::<Swap, ProgramError>(
                    Swap { side: Side::Ask, amount_in, limit_tick, min_out },
                )
            &&& side > 1 ==> swap_of(s) == Err::<Swap, ProgramError>(
                ProgramError::InvalidInstructionData,
            )
        }),
{
    let s = seq![side] + bytes64(amount_in) + bytes32(limit_tick) + bytes64(min_out);
    lemma_widths();
    assert(s[0] == side);
    let a1 = seq![side];
    let b1 = bytes32(limit_tick) + bytes64(min_out);
    assert(s =~= a1 + bytes64(amount_in) + b1);
    lemma_field64(s, a1, amount_in, b1);
    let a2 = seq![side] + bytes64(amount_in);
    let b2 = bytes64(min_out);
    assert(s =~= a2 + bytes32(limit_tick) + b2);
    lemma_field32(s, a2, limit_tick, b2);
    let a3 = seq![side] + bytes64(amount_in) + bytes32(limit_tick);
    let b3 = Seq::<u8>::empty();
    assert(s =~= a3 + bytes64(min_out) + b3);
    lemma_field64(s, a3, min_out, b3);
    assert(s.len() == 21);
}

/// A payload of any other length is refused.
pub proof fn lemma_swap_wire_length(s: Seq<u8>)
    requires
        s.len() != 21,
    ensures
        swap_of(s) == Err::<Swap, ProgramError>(ProgramError::InvalidInstructionData),
{
}

/// A deposit: seat, base, quote.
pub proof fn lemma_deposit_wire(seat_index: u16, base_atoms: u64, quote_atoms: u64)
    ensures
        ({
            let s = bytes16(seat_index) + bytes64(base_atoms) + bytes64(quote_atoms);
            deposit_of(s) == Ok::<Deposit, ProgramError>(
                    Deposit { seat_index, base_atoms, quote_atoms },
                )
        }),
{
    let s = bytes16(seat_index) + bytes64(base_atoms) + bytes64(quote_atoms);
    lemma_widths();
    let a0 = Seq::<u8>::empty();
    let b0 = bytes64(base_atoms) + bytes64(quote_atoms);
    assert(s =~= a0 + bytes16(seat_index) + b0);
    lemma_field16(s, a0, seat_index, b0);
    let a1 = bytes16(seat_index);
    let b1 = bytes64(quote_atoms);
    assert(s =~= a1 + bytes64(base_atoms) + b1);
    lemma_field64(s, a1, base_atoms, b1);
    let a2 = bytes16(seat_index) + bytes64(base_atoms);
    let b2 = Seq::<u8>::empty();
    assert(s =~= a2 + bytes64(quote_atoms) + b2);
    lemma_field64(s, a2, quote_atoms, b2);
    assert(s.len() == 18);
}

/// A payload of any other length is refused.
pub proof fn lemma_deposit_wire_length(s: Seq<u8>)
    requires
        s.len() != 18,
    ensures
        deposit_of(s) == Err::<Deposit, ProgramError>(ProgramError::InvalidInstructionData),
{
}

/// A withdrawal: seat, base, quote.
pub proof fn lemma_withdraw_wire(seat_index: u16, base_atoms: u64, quote_atoms: u64)
    ensures
        ({
            let s = bytes16(seat_index) + bytes64(base_atoms) + bytes64(quote_atoms);
            withdraw_of(s) == Ok::<Withdraw, ProgramError>(
                    Withdraw { seat_index, base_atoms, quote_atoms },
                )
        }),
{
    let s = bytes16(seat_index) + bytes64(base_atoms) + bytes64(quote_atoms);
    lemma_widths();
    let a0 = Seq::<u8>::empty();
    let b0 = bytes64(base_atoms) + bytes64(quote_atoms);
    assert(s =~= a0 + bytes16(seat_index) + b0);
    lemma_field16(s, a0, seat_index, b0);
    let a1 = bytes16(seat_index);
    let b1 = bytes64(quote_atoms);
    assert(s =~= a1 + bytes64(base_atoms) + b1);
    lemma_field64(s, a1, base_atoms, b1);
    let a2 = bytes16(seat_index) + bytes64(base_atoms);
    let b2 = Seq::<u8>::empty();
    assert(s =~= a2 + bytes64(quote_atoms) + b2);
    lemma_field64(s, a2, quote_atoms, b2);
    assert(s.len() == 18);
}

/// A payload of any other length is refused.
pub proof fn lemma_withdraw_wire_length(s: Seq<u8>)
    requires
        s.len() != 18,
    ensures
        withdraw_of(s) == Err::<Withdraw, ProgramError>(ProgramError::InvalidInstructionData),
{
}

/// A seat that is given back.
pub proof fn lemma_close_seat_wire(seat_index: u16)
    ensures
        ({
            let s = bytes16(seat_index);
            close_seat_of(s) == Ok::<CloseSeat, ProgramError>(
                    CloseSeat { seat_index },
                )
        }),
{
    let s = bytes16(seat_index);
    lemma_widths();
    let a0 = Seq::<u8>::empty();
    let b0 = Seq::<u8>::empty();
    assert(s =~= a0 + bytes16(seat_index) + b0);
    lemma_field16(s, a0, seat_index, b0);
    assert(s.len() == 2);
}

/// A payload of any other length is refused.
pub proof fn lemma_close_seat_wire_length(s: Seq<u8>)
    requires
        s.len() != 2,
    ensures
        close_seat_of(s) == Err::<CloseSeat, ProgramError>(ProgramError::InvalidInstructionData),
{
}

/// A fee.
pub proof fn lemma_update_fee_wire(fee_bps: u16)
    ensures
        ({
            let s = bytes16(fee_bps);
            update_fee_of(s) == Ok::<UpdateFee, ProgramError>(
                    UpdateFee { fee_bps },
                )
        }),
{
    let s = bytes16(fee_bps);
    lemma_widths();
    let a0 = Seq::<u8>::empty();
    let b0 = Seq::<u8>::empty();
    assert(s =~= a0 + bytes16(fee_bps) + b0);
    lemma_field16(s, a0, fee_bps, b0);
    assert(s.len() == 2);
}

/// A payload of any other length is refused.
pub proof fn lemma_update_fee_wire_length(s: Seq<u8>)
    requires
        s.len() != 2,
    ensures
        update_fee_of(s) == Err::<UpdateFee, ProgramError>(ProgramError::InvalidInstructionData),
{
}

/// A window move: target, levels.
pub proof fn lemma_reanchor_wire(target_anchor: u32, max_levels: u32)
    ensures
        ({
            let s = bytes32(target_anchor) + bytes32(max_levels);
            reanchor_of(s) == Ok::<Reanchor, ProgramError>(
                    Reanchor { target_anchor, max_levels },
                )
        }),
{
    let s = bytes32(target_anchor) + bytes32(max_levels);
    lemma_widths();
    let a0 = Seq::<u8>::empty();
    let b0 = bytes32(max_levels);
    assert(s =~= a0 + bytes32(target_anchor) + b0);
    lemma_field32(s, a0, target_anchor, b0);
    let a1 = bytes32(target_anchor);
    let b1 = Seq::<u8>::empty();
    assert(s =~= a1 + bytes32(max_levels) + b1);
    lemma_field32(s, a1, max_levels, b1);
    assert(s.len() == 8);
}

/// A payload of any other length is refused.
pub proof fn lemma_reanchor_wire_length(s: Seq<u8>)
    requires
        s.len() != 8,
    ensures
        reanchor_of(s) == Err::<Reanchor, ProgramError>(ProgramError::InvalidInstructionData),
{
}

/// A reap: side, start tick, count.
pub proof fn lemma_reap_wire(side: u8, start_tick: u32, max_count: u32)
    ensures
        ({
            let s = seq![side] + bytes32(start_tick) + bytes32(max_count);
            &&& side == 0 ==> reap_of(s) == Ok::<ReapExpired, ProgramError>(
                    ReapExpired { side: Side::Bid, start_tick, max_count },
                )
            &&& side == 1 ==> reap_of(s) == Ok::<ReapExpired, ProgramError>(
                    ReapExpired { side: Side::Ask, start_tick, max_count },
                )
            &&& side > 1 ==> reap_of(s) == Err::<ReapExpired, ProgramError>(
                ProgramError::InvalidInstructionData,
            )
        }),
{
    let s = seq![side] + bytes32(start_tick) + bytes32(max_count);
    lemma_widths();
    assert(s[0] == side);
    let a1 = seq![side];
    let b1 = bytes32(max_count);
    assert(s =~= a1 + bytes32(start_tick) + b1);
    lemma_field32(s, a1, start_tick, b1);
    let a2 = seq![side] + bytes32(start_tick);
    let b2 = Seq::<u8>::empty();
    assert(s =~= a2 + bytes32(max_count) + b2);
    lemma_field32(s, a2, max_count, b2);
    assert(s.len() == 9);
}

/// A payload of any other length is refused.
pub proof fn lemma_reap_wire_length(s: Seq<u8>)
    requires
        s.len() != 9,
    ensures
        reap_of(s) == Err::<ReapExpired, ProgramError>(ProgramError::InvalidInstructionData),
{
}

/// A market: tick size, lot size, anchor, fee, largest order.
pub proof fn lemma_create_market_wire(tick_size: u64, base_lot_size: u64, anchor_tick: u32, fee_bps: u16, max_lots_per_order: u32)
    ensures
        ({
            let s = bytes64(tick_size) + bytes64(base_lot_size) + bytes32(anchor_tick) + bytes16(fee_bps) + bytes32(max_lots_per_order);
            create_market_of(s) == Ok::<CreateMarket, ProgramError>(
                    CreateMarket { tick_size, base_lot_size, anchor_tick, fee_bps, max_lots_per_order },
                )
        }),
{
    let s = bytes64(tick_size) + bytes64(base_lot_size) + bytes32(anchor_tick) + bytes16(fee_bps) + bytes32(max_lots_per_order);
    lemma_widths();
    let a0 = Seq::<u8>::empty();
    let b0 = bytes64(base_lot_size) + bytes32(anchor_tick) + bytes16(fee_bps) + bytes32(max_lots_per_order);
    assert(s =~= a0 + bytes64(tick_size) + b0);
    lemma_field64(s, a0, tick_size, b0);
    let a1 = bytes64(tick_size);
    let b1 = bytes32(anchor_tick) + bytes16(fee_bps) + bytes32(max_lots_per_order);
    assert(s =~= a1 + bytes64(base_lot_size) + b1);
    lemma_field64(s, a1, base_lot_size, b1);
    let a2 = bytes64(tick_size) + bytes64(base_lot_size);
    let b2 = bytes16(fee_bps) + bytes32(max_lots_per_order);
    assert(s =~= a2 + bytes32(anchor_tick) + b2);
    lemma_field32(s, a2, anchor_tick, b2);
    let a3 = bytes64(tick_size) + bytes64(base_lot_size) + bytes32(anchor_tick);
    let b3 = bytes32(max_lots_per_order);
    assert(s =~= a3 + bytes16(fee_bps) + b3);
    lemma_field16(s, a3, fee_bps, b3);
    let a4 = bytes64(tick_size) + bytes64(base_lot_size) + bytes32(anchor_tick) + bytes16(fee_bps);
    let b4 = Seq::<u8>::empty();
    assert(s =~= a4 + bytes32(max_lots_per_order) + b4);
    lemma_field32(s, a4, max_lots_per_order, b4);
    assert(s.len() == 26);
}

/// A payload of any other length is refused.
pub proof fn lemma_create_market_wire_length(s: Seq<u8>)
    requires
        s.len() != 26,
    ensures
        create_market_of(s) == Err::<CreateMarket, ProgramError>(ProgramError::InvalidInstructionData),
{
}

/// A config's roles: the seat authority, then the market authority.
pub proof fn lemma_roles_wire(seat: Seq<u8>, market: Seq<u8>, r: Roles)
    requires
        seat.len() == 32,
        market.len() == 32,
        roles_in(seat + market, r),
    ensures
        r.seat_authority@ == seat,
        r.market_authority@ == market,
{
    let s = seat + market;
    assert(s.subrange(0, 32) =~= seat);
    assert(s.subrange(32, 64) =~= market);
}

/// The record of a new market.
pub proof fn lemma_create_market_record(market: Seq<u8>, base_mint: Seq<u8>, quote_mint: Seq<u8>, tick_size: u64, base_lot_size: u64, fee_bps: u16)
    requires
        market.len() == 32,
        base_mint.len() == 32,
        quote_mint.len() == 32,
    ensures
        ({
            let s = create_market_record(market, base_mint, quote_mint, tick_size, base_lot_size, fee_bps);
            &&& s[0] == 0
            &&& s.subrange(1, 33) == market
            &&& s.subrange(33, 65) == base_mint
            &&& s.subrange(65, 97) == quote_mint
            &&& le64(s, 97) == tick_size
            &&& le64(s, 105) == base_lot_size
            &&& le16(s, 113) == fee_bps
            &&& s.len() == 115
        }),
{
    let s = create_market_record(market, base_mint, quote_mint, tick_size, base_lot_size, fee_bps);
    lemma_widths();
    assert(s.subrange(1, 33) =~= market);
    assert(s.subrange(33, 65) =~= base_mint);
    assert(s.subrange(65, 97) =~= quote_mint);
    let a3 = seq![0u8] + market + base_mint + quote_mint;
    let b3 = bytes64(base_lot_size) + bytes16(fee_bps);
    assert(s =~= a3 + bytes64(tick_size) + b3);
    assert(a3.len() == 97);
    lemma_field64(s, a3, tick_size, b3);
    let a4 = seq![0u8] + market + base_mint + quote_mint + bytes64(tick_size);
    let b4 = bytes16(fee_bps);
    assert(s =~= a4 + bytes64(base_lot_size) + b4);
    assert(a4.len() == 105);
    lemma_field64(s, a4, base_lot_size, b4);
    let a5 = seq![0u8] + market + base_mint + quote_mint + bytes64(tick_size) + bytes64(base_lot_size);
    let b5 = Seq::<u8>::empty();
    assert(s =~= a5 + bytes16(fee_bps) + b5);
    assert(a5.len() == 113);
    lemma_field16(s, a5, fee_bps, b5);
}

/// The record of a new fee.
pub proof fn lemma_update_fee_record(market: Seq<u8>, fee_bps: u16)
    requires
        market.len() == 32,
    ensures
        ({
            let s = update_fee_record(market, fee_bps);
            &&& s[0] == 2
            &&& s.subrange(1, 33) == market
            &&& le16(s, 33) == fee_bps
            &&& s.len() == 35
        }),
{
    let s = update_fee_record(market, fee_bps);
    lemma_widths();
    assert(s.subrange(1, 33) =~= market);
    let a1 = seq![2u8] + market;
    let b1 = Seq::<u8>::empty();
    assert(s =~= a1 + bytes16(fee_bps) + b1);
    assert(a1.len() == 33);
    lemma_field16(s, a1, fee_bps, b1);
}

/// The record of collected fees.
pub proof fn lemma_collect_fees_record(market: Seq<u8>, authority: Seq<u8>, amount: u64)
    requires
        market.len() == 32,
        authority.len() == 32,
    ensures
        ({
            let s = collect_fees_record(market, authority, amount);
            &&& s[0] == 3
            &&& s.subrange(1, 33) == market
            &&& s.subrange(33, 65) == authority
            &&& le64(s, 65) == amount
            &&& s.len() == 73
        }),
{
    let s = collect_fees_record(market, authority, amount);
    lemma_widths();
    assert(s.subrange(1, 33) =~= market);
    assert(s.subrange(33, 65) =~= authority);
    let a2 = seq![3u8] + market + authority;
    let b2 = Seq::<u8>::empty();
    assert(s =~= a2 + bytes64(amount) + b2);
    assert(a2.len() == 65);
    lemma_field64(s, a2, amount, b2);
}

/// The record of a window move.
pub proof fn lemma_reanchor_record(market: Seq<u8>, anchor_tick: u32, evicted: u32)
    requires
        market.len() == 32,
    ensures
        ({
            let s = reanchor_record(market, anchor_tick, evicted);
            &&& s[0] == 4
            &&& s.subrange(1, 33) == market
            &&& le32(s, 33) == anchor_tick
            &&& le32(s, 37) == evicted
            &&& s.len() == 41
        }),
{
    let s = reanchor_record(market, anchor_tick, evicted);
    lemma_widths();
    assert(s.subrange(1, 33) =~= market);
    let a1 = seq![4u8] + market;
    let b1 = bytes32(evicted);
    assert(s =~= a1 + bytes32(anchor_tick) + b1);
    assert(a1.len() == 33);
    lemma_field32(s, a1, anchor_tick, b1);
    let a2 = seq![4u8] + market + bytes32(anchor_tick);
    let b2 = Seq::<u8>::empty();
    assert(s =~= a2 + bytes32(evicted) + b2);
    assert(a2.len() == 37);
    lemma_field32(s, a2, evicted, b2);
}

/// The record of a seat that was given out.
pub proof fn lemma_claim_seat_record(market: Seq<u8>, owner: Seq<u8>, seat_index: u16)
    requires
        market.len() == 32,
        owner.len() == 32,
    ensures
        ({
            let s = claim_seat_record(market, owner, seat_index);
            &&& s[0] == 5
            &&& s.subrange(1, 33) == market
            &&& s.subrange(33, 65) == owner
            &&& le16(s, 65) == seat_index
            &&& s.len() == 67
        }),
{
    let s = claim_seat_record(market, owner, seat_index);
    lemma_widths();
    assert(s.subrange(1, 33) =~= market);
    assert(s.subrange(33, 65) =~= owner);
    let a2 = seq![5u8] + market + owner;
    let b2 = Seq::<u8>::empty();
    assert(s =~= a2 + bytes16(seat_index) + b2);
    assert(a2.len() == 65);
    lemma_field16(s, a2, seat_index, b2);
}

/// A checked transfer: its index 12, the amount, the decimals.
pub proof fn lemma_transfer_wire(amount: u64, decimals: u8)
    ensures
        ({
            let s = transfer_bytes(amount, decimals);
            &&& s.len() == 10
            &&& s[0] == 12
            &&& le64(s, 1) == amount
            &&& s[9] == decimals
        }),
{
    let s = transfer_bytes(amount, decimals);
    assert(bytes64(amount).len() == 8);
    lemma_field64(s, seq![12u8], amount, seq![decimals]);
}

/// The four bytes at `i`, lowest first.
pub open spec fn four(s: Seq<u8>, i: int) -> int {
    s[i] + 0x100 * s[i + 1] + 0x1_0000 * s[i + 2] + 0x100_0000 * s[i + 3]
}

/// A mass quote: seat, expiry, the number of bids, the bids, the number of
/// asks, the asks; each quote is a tick, a number of lots and its flags.
pub proof fn lemma_mass_quote_wire(data: Seq<u8>, x: MassQuote, k: int)
    requires
        encodes(20, data, Command::MassQuote(x)),
    ensures
        ({
            let n = data[6] as int;
            let m = data[7 + 9 * n] as int;
            &&& data.len() == 8 + 9 * n + 9 * m
            &&& x.seat_index == data[0] + 0x100 * data[1]
            &&& x.expiry_slot == four(data, 2)
            &&& x.bid_quotes().len() == n
            &&& x.ask_quotes().len() == m
            &&& 0 <= k < n ==> {
                let q = x.bid_quotes()[k];
                q.tick == four(data, 7 + 9 * k) && q.lots == four(data, 11 + 9 * k) && q.flags
                    == data[15 + 9 * k]
            }
            &&& 0 <= k < m ==> {
                let q = x.ask_quotes()[k];
                q.tick == four(data, 8 + 9 * n + 9 * k) && q.lots == four(data, 12 + 9 * n + 9 * k)
                    && q.flags == data[16 + 9 * n + 9 * k]
            }
        }),
{
    let n = data[6] as int;
    let m = data[7 + 9 * n] as int;
    lemma_little_endian(data, 0);
    lemma_little_endian(data, 2);
    assert(data[6] * 9 == 9 * n);
    lemma_little_endian(x.bids@, k * 9);
    lemma_little_endian(x.bids@, k * 9 + 4);
    lemma_little_endian(x.asks@, k * 9);
    lemma_little_endian(x.asks@, k * 9 + 4);
}

} // verus!
