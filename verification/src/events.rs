//! Event records that the lifecycle instructions log. Book state is recovered
//! from account updates; these announce what those cannot.

use crate::codec::{bytes16, bytes32, bytes64, put16, put32, put64, put_bytes};
use vstd::prelude::*;

verus! {

/// A market was created: 0, market, base mint, quote mint, tick size, base lot
/// size, fee.
pub open spec fn create_market_record(
    market: Seq<u8>,
    base_mint: Seq<u8>,
    quote_mint: Seq<u8>,
    tick_size: u64,
    base_lot_size: u64,
    fee_bps: u16,
) -> Seq<u8> {
    seq![0u8] + market + base_mint + quote_mint + bytes64(tick_size) + bytes64(base_lot_size)
        + bytes16(fee_bps)
}

pub fn create_market_event(
    market: &[u8; 32],
    base_mint: &[u8; 32],
    quote_mint: &[u8; 32],
    tick_size: u64,
    base_lot_size: u64,
    fee_bps: u16,
) -> (r: Vec<u8>)
    ensures
        r@ == create_market_record(
            market@,
            base_mint@,
            quote_mint@,
            tick_size,
            base_lot_size,
            fee_bps,
        ),
        r@.len() == 115,
{
    let mut v: Vec<u8> = Vec::new();
    v.push(0);
    assert(v@ =~= seq![0u8]);
    put_bytes(&mut v, market);
    put_bytes(&mut v, base_mint);
    put_bytes(&mut v, quote_mint);
    put64(&mut v, tick_size);
    put64(&mut v, base_lot_size);
    put16(&mut v, fee_bps);
    v
}

/// The fee changed: 2, market, fee.
pub open spec fn update_fee_record(market: Seq<u8>, fee_bps: u16) -> Seq<u8> {
    seq![2u8] + market + bytes16(fee_bps)
}

pub fn update_fee_event(market: &[u8; 32], fee_bps: u16) -> (r: Vec<u8>)
    ensures
        r@ == update_fee_record(market@, fee_bps),
        r@.len() == 35,
{
    let mut v: Vec<u8> = Vec::new();
    v.push(2);
    assert(v@ =~= seq![2u8]);
    put_bytes(&mut v, market);
    put16(&mut v, fee_bps);
    v
}

/// Fees were collected: 3, market, authority, amount.
pub open spec fn collect_fees_record(market: Seq<u8>, authority: Seq<u8>, amount: u64) -> Seq<u8> {
    seq![3u8] + market + authority + bytes64(amount)
}

pub fn collect_fees_event(market: &[u8; 32], authority: &[u8; 32], amount: u64) -> (r: Vec<u8>)
    ensures
        r@ == collect_fees_record(market@, authority@, amount),
        r@.len() == 73,
{
    let mut v: Vec<u8> = Vec::new();
    v.push(3);
    assert(v@ =~= seq![3u8]);
    put_bytes(&mut v, market);
    put_bytes(&mut v, authority);
    put64(&mut v, amount);
    v
}

/// The window moved: 4, market, new anchor, levels evicted.
pub open spec fn reanchor_record(market: Seq<u8>, anchor_tick: u32, evicted: u32) -> Seq<u8> {
    seq![4u8] + market + bytes32(anchor_tick) + bytes32(evicted)
}

pub fn reanchor_event(market: &[u8; 32], anchor_tick: u32, evicted: u32) -> (r: Vec<u8>)
    ensures
        r@ == reanchor_record(market@, anchor_tick, evicted),
        r@.len() == 41,
{
    let mut v: Vec<u8> = Vec::new();
    v.push(4);
    assert(v@ =~= seq![4u8]);
    put_bytes(&mut v, market);
    put32(&mut v, anchor_tick);
    put32(&mut v, evicted);
    v
}

/// A seat was given out: 5, market, owner, seat.
pub open spec fn claim_seat_record(market: Seq<u8>, owner: Seq<u8>, seat_index: u16) -> Seq<u8> {
    seq![5u8] + market + owner + bytes16(seat_index)
}

pub fn claim_seat_event(market: &[u8; 32], owner: &[u8; 32], seat_index: u16) -> (r: Vec<u8>)
    ensures
        r@ == claim_seat_record(market@, owner@, seat_index),
        r@.len() == 67,
{
    let mut v: Vec<u8> = Vec::new();
    v.push(5);
    assert(v@ =~= seq![5u8]);
    put_bytes(&mut v, market);
    put_bytes(&mut v, owner);
    put16(&mut v, seat_index);
    v
}

} // verus!
