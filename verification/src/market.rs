//! The market header and the venue configuration.

use crate::constants::{FREED_SEQ, MAX_FEE_BPS};
use crate::errors::{clob, fail, ClobError, ProgramError};
use crate::keys::{spec_token_program_id, token_program_id};
use vstd::prelude::*;

verus! {

/// Header of a market account: its parameters, its keys and the state of the
/// order pool.
#[derive(Clone, Copy)]
pub struct Market {
    /// Layout version
    pub version: u8,
    /// Bump seed of the vault authority
    pub bump: [u8; 1],
    pub base_mint: [u8; 32],
    pub quote_mint: [u8; 32],
    pub base_vault: [u8; 32],
    pub quote_vault: [u8; 32],
    pub vault_authority: [u8; 32],
    /// May change the fee and collect it
    pub authority: [u8; 32],
    /// The config account that decides who may take a seat here
    pub config: [u8; 32],
    /// Quote atoms per base lot per tick
    pub tick_size: u64,
    /// Base atoms per lot
    pub base_lot_size: u64,
    /// Window start, a multiple of 64
    pub anchor_tick: u32,
    /// Highest tick where u64 math stays safe
    pub tick_limit: u32,
    /// Taker fee
    pub fee_bps: u16,
    pub max_lots_per_order: u32,
    pub order_pool_capacity: u32,
    /// First node of the free list
    pub free_head: u16,
    /// Length of the free list
    pub free_count: u32,
    /// Count of mutating instructions
    pub seq: u128,
    /// Next order id
    pub order_seq: u64,
    /// Fees not yet collected
    pub fees_accrued_quote: u64,
    pub base_token_program: u8,
    pub quote_token_program: u8,
    pub base_decimals: u8,
    pub quote_decimals: u8,
    pub padding: [u8; 18],
}

impl Market {
    /// Layout version
    pub fn version(&self) -> (r: u8)
        ensures
            r == self.version,
    {
        self.version
    }

    /// Bump seed of the vault authority
    pub fn bump(&self) -> (r: &[u8; 1])
        ensures
            *r == self.bump,
    {
        &self.bump
    }

    pub fn base_vault(&self) -> (r: &[u8; 32])
        ensures
            *r == self.base_vault,
    {
        &self.base_vault
    }

    pub fn quote_vault(&self) -> (r: &[u8; 32])
        ensures
            *r == self.quote_vault,
    {
        &self.quote_vault
    }

    pub fn vault_authority(&self) -> (r: &[u8; 32])
        ensures
            *r == self.vault_authority,
    {
        &self.vault_authority
    }

    /// May change the fee and collect it
    pub fn authority(&self) -> (r: &[u8; 32])
        ensures
            *r == self.authority,
    {
        &self.authority
    }

    /// The config account that decides who may take a seat here
    pub fn config(&self) -> (r: &[u8; 32])
        ensures
            *r == self.config,
    {
        &self.config
    }

    /// Quote atoms per base lot per tick
    pub fn tick_size(&self) -> (r: u64)
        ensures
            r == self.tick_size,
    {
        self.tick_size
    }

    /// Base atoms per lot
    pub fn base_lot_size(&self) -> (r: u64)
        ensures
            r == self.base_lot_size,
    {
        self.base_lot_size
    }

    /// Window start, a multiple of 64
    pub fn anchor_tick(&self) -> (r: u32)
        ensures
            r == self.anchor_tick,
    {
        self.anchor_tick
    }

    /// Highest tick where u64 math stays safe
    pub fn tick_limit(&self) -> (r: u32)
        ensures
            r == self.tick_limit,
    {
        self.tick_limit
    }

    /// Taker fee
    pub fn fee_bps(&self) -> (r: u16)
        ensures
            r == self.fee_bps,
    {
        self.fee_bps
    }

    pub fn max_lots_per_order(&self) -> (r: u32)
        ensures
            r == self.max_lots_per_order,
    {
        self.max_lots_per_order
    }

    pub fn order_pool_capacity(&self) -> (r: u32)
        ensures
            r == self.order_pool_capacity,
    {
        self.order_pool_capacity
    }

    /// First node of the free list
    pub fn free_head(&self) -> (r: u16)
        ensures
            r == self.free_head,
    {
        self.free_head
    }

    /// Length of the free list
    pub fn free_count(&self) -> (r: u32)
        ensures
            r == self.free_count,
    {
        self.free_count
    }

    /// Fees not yet collected
    pub fn fees_accrued_quote(&self) -> (r: u64)
        ensures
            r == self.fees_accrued_quote,
    {
        self.fees_accrued_quote
    }

    pub fn base_token_program(&self) -> (r: u8)
        ensures
            r == self.base_token_program,
    {
        self.base_token_program
    }

    pub fn quote_token_program(&self) -> (r: u8)
        ensures
            r == self.quote_token_program,
    {
        self.quote_token_program
    }

    pub fn base_decimals(&self) -> (r: u8)
        ensures
            r == self.base_decimals,
    {
        self.base_decimals
    }

    pub fn quote_decimals(&self) -> (r: u8)
        ensures
            r == self.quote_decimals,
    {
        self.quote_decimals
    }

    /// Quote atoms for `lots` at `tick`.
    pub fn notional(&self, tick: u32, lots: u32) -> (r: u64)
        requires
            tick * self.tick_size <= u64::MAX,
            tick * self.tick_size * lots <= u64::MAX,
        ensures
            r == tick * self.tick_size * lots,
    {
        (tick as u64) * self.tick_size() * (lots as u64)
    }

    /// Base atoms for `lots`.
    pub fn base_atoms(&self, lots: u32) -> (r: u64)
        requires
            lots * self.base_lot_size <= u64::MAX,
        ensures
            r == lots * self.base_lot_size,
    {
        (lots as u64) * self.base_lot_size()
    }

    /// The program that owns the base mint.
    pub fn base_token_program_id(&self) -> (r: [u8; 32])
        ensures
            r@ == spec_token_program_id(self.base_token_program),
    {
        token_program_id(self.base_token_program())
    }

    /// The program that owns the quote mint.
    pub fn quote_token_program_id(&self) -> (r: [u8; 32])
        ensures
            r@ == spec_token_program_id(self.quote_token_program),
    {
        token_program_id(self.quote_token_program())
    }

    pub fn set_version(&mut self, v: u8)
        ensures
            *final(self) == (Market { version: v, ..*old(self) }),
    {
        self.version = v;
    }

    pub fn set_bump(&mut self, v: [u8; 1])
        ensures
            *final(self) == (Market { bump: v, ..*old(self) }),
    {
        self.bump = v;
    }

    pub fn set_base_mint(&mut self, v: [u8; 32])
        ensures
            *final(self) == (Market { base_mint: v, ..*old(self) }),
    {
        self.base_mint = v;
    }

    pub fn set_quote_mint(&mut self, v: [u8; 32])
        ensures
            *final(self) == (Market { quote_mint: v, ..*old(self) }),
    {
        self.quote_mint = v;
    }

    pub fn set_base_vault(&mut self, v: [u8; 32])
        ensures
            *final(self) == (Market { base_vault: v, ..*old(self) }),
    {
        self.base_vault = v;
    }

    pub fn set_quote_vault(&mut self, v: [u8; 32])
        ensures
            *final(self) == (Market { quote_vault: v, ..*old(self) }),
    {
        self.quote_vault = v;
    }

    pub fn set_vault_authority(&mut self, v: [u8; 32])
        ensures
            *final(self) == (Market { vault_authority: v, ..*old(self) }),
    {
        self.vault_authority = v;
    }

    pub fn set_authority(&mut self, v: [u8; 32])
        ensures
            *final(self) == (Market { authority: v, ..*old(self) }),
    {
        self.authority = v;
    }

    pub fn set_config(&mut self, v: [u8; 32])
        ensures
            *final(self) == (Market { config: v, ..*old(self) }),
    {
        self.config = v;
    }

    pub fn set_tick_size(&mut self, v: u64)
        ensures
            *final(self) == (Market { tick_size: v, ..*old(self) }),
    {
        self.tick_size = v;
    }

    pub fn set_base_lot_size(&mut self, v: u64)
        ensures
            *final(self) == (Market { base_lot_size: v, ..*old(self) }),
    {
        self.base_lot_size = v;
    }

    pub fn set_anchor_tick(&mut self, v: u32)
        ensures
            *final(self) == (Market { anchor_tick: v, ..*old(self) }),
    {
        self.anchor_tick = v;
    }

    pub fn set_tick_limit(&mut self, v: u32)
        ensures
            *final(self) == (Market { tick_limit: v, ..*old(self) }),
    {
        self.tick_limit = v;
    }

    pub fn set_max_lots_per_order(&mut self, v: u32)
        ensures
            *final(self) == (Market { max_lots_per_order: v, ..*old(self) }),
    {
        self.max_lots_per_order = v;
    }

    pub fn set_order_pool_capacity(&mut self, v: u32)
        ensures
            *final(self) == (Market { order_pool_capacity: v, ..*old(self) }),
    {
        self.order_pool_capacity = v;
    }

    pub fn set_free_head(&mut self, v: u16)
        ensures
            *final(self) == (Market { free_head: v, ..*old(self) }),
    {
        self.free_head = v;
    }

    pub fn set_free_count(&mut self, v: u32)
        ensures
            *final(self) == (Market { free_count: v, ..*old(self) }),
    {
        self.free_count = v;
    }

    pub fn set_base_token_program(&mut self, v: u8)
        ensures
            *final(self) == (Market { base_token_program: v, ..*old(self) }),
    {
        self.base_token_program = v;
    }

    pub fn set_quote_token_program(&mut self, v: u8)
        ensures
            *final(self) == (Market { quote_token_program: v, ..*old(self) }),
    {
        self.quote_token_program = v;
    }

    pub fn set_base_decimals(&mut self, v: u8)
        ensures
            *final(self) == (Market { base_decimals: v, ..*old(self) }),
    {
        self.base_decimals = v;
    }

    pub fn set_quote_decimals(&mut self, v: u8)
        ensures
            *final(self) == (Market { quote_decimals: v, ..*old(self) }),
    {
        self.quote_decimals = v;
    }

    /// Change the taker fee, capped at `MAX_FEE_BPS`.
    pub fn set_fee_bps(&mut self, v: u16) -> (r: Result<(), ProgramError>)
        ensures
            v > MAX_FEE_BPS ==> r == Err::<(), ProgramError>(clob(ClobError::InvalidFee))
                && *final(self) == *old(self),
            v <= MAX_FEE_BPS ==> r == Ok::<(), ProgramError>(()) && *final(self) == (Market {
                fee_bps: v,
                ..*old(self)
            }),
    {
        if v > MAX_FEE_BPS {
            return fail(ClobError::InvalidFee);
        }
        self.fee_bps = v;
        Ok(())
    }

    /// Count one mutating instruction.
    pub fn bump_seq(&mut self)
        ensures
            *final(self) == (Market { seq: wrapping_succ(old(self).seq), ..*old(self) }),
    {
        self.seq = self.seq.wrapping_add(1);
    }

    /// The next order id; the counter advances. `FREED_SEQ` is skipped, so a
    /// live node never carries it.
    pub fn next_order_id(&mut self) -> (r: u64)
        ensures
            r == old(self).spec_next_id(),
            *final(self) == (Market { order_seq: (r + 1) as u64, ..*old(self) }),
    {
        let raw: u64 = self.order_seq;
        let id: u64 = if raw == FREED_SEQ {
            0
        } else {
            raw
        };
        self.order_seq = id.wrapping_add(1);
        id
    }

    /// The id that the next order gets.
    pub open spec fn spec_next_id(self) -> u64 {
        if self.order_seq == FREED_SEQ {
            0
        } else {
            self.order_seq
        }
    }

    /// Set the id that the next order gets.
    pub fn set_next_order_id_for_test(&mut self, id: u64)
        ensures
            *final(self) == (Market { order_seq: id, ..*old(self) }),
    {
        self.order_seq = id;
    }

    /// Accrue a taker fee.
    pub fn add_fees_accrued(&mut self, fee: u64)
        ensures
            *final(self) == (Market {
                fees_accrued_quote: wrapping(old(self).fees_accrued_quote + fee),
                ..*old(self)
            }),
    {
        self.fees_accrued_quote = self.fees_accrued_quote.wrapping_add(fee);
    }

    /// Hand out the accrued fees and zero the accrual.
    pub fn take_fees_accrued(&mut self) -> (r: u64)
        ensures
            r == old(self).fees_accrued_quote,
            *final(self) == (Market { fees_accrued_quote: 0, ..*old(self) }),
    {
        let v: u64 = self.fees_accrued_quote;
        self.fees_accrued_quote = 0;
        v
    }
}

/// `x` modulo 2^64.
pub open spec fn wrapping(x: int) -> u64 {
    (x % 0x1_0000_0000_0000_0000) as u64
}

pub proof fn lemma_wrapping(x: int)
    requires
        0 <= x <= u64::MAX,
    ensures
        wrapping(x) == x,
{
}

/// The successor of `x` modulo 2^128.
pub open spec fn wrapping_succ(x: u128) -> u128 {
    if x == u128::MAX {
        0
    } else {
        (x + 1) as u128
    }
}

/// Venue-level permissions, shared by every market that names them.
#[derive(Clone, Copy)]
pub struct Config {
    pub version: u8,
    pub bump: [u8; 1],
    /// Owns the config.
    pub authority: [u8; 32],
    /// May grant seats.
    pub seat_authority: [u8; 32],
    /// May move the price window.
    pub market_authority: [u8; 32],
    pub padding: [u8; 30],
}

impl Config {
    pub fn version(&self) -> (r: u8)
        ensures
            r == self.version,
    {
        self.version
    }

    pub fn authority(&self) -> (r: &[u8; 32])
        ensures
            *r == self.authority,
    {
        &self.authority
    }

    pub fn seat_authority(&self) -> (r: &[u8; 32])
        ensures
            *r == self.seat_authority,
    {
        &self.seat_authority
    }

    pub fn market_authority(&self) -> (r: &[u8; 32])
        ensures
            *r == self.market_authority,
    {
        &self.market_authority
    }

    pub fn set_version(&mut self, v: u8)
        ensures
            *final(self) == (Config { version: v, ..*old(self) }),
    {
        self.version = v;
    }

    pub fn set_bump(&mut self, v: [u8; 1])
        ensures
            *final(self) == (Config { bump: v, ..*old(self) }),
    {
        self.bump = v;
    }

    pub fn set_authority(&mut self, v: [u8; 32])
        ensures
            *final(self) == (Config { authority: v, ..*old(self) }),
    {
        self.authority = v;
    }

    pub fn set_seat_authority(&mut self, v: [u8; 32])
        ensures
            *final(self) == (Config { seat_authority: v, ..*old(self) }),
    {
        self.seat_authority = v;
    }

    pub fn set_market_authority(&mut self, v: [u8; 32])
        ensures
            *final(self) == (Config { market_authority: v, ..*old(self) }),
    {
        self.market_authority = v;
    }
}

} // verus!
