//! Sizes, offsets and sentinels of the market account.

use vstd::prelude::*;

verus! {

/// Number of price ticks in the book window. A power of two: the level array
/// and the bitmaps are rings over tick space (`slot = tick % WINDOW_TICKS`), so
/// moving the window never moves memory, it only relabels the slots.
pub const WINDOW_TICKS: usize = 8192;

pub const WINDOW_MASK: u32 = 8191;

/// Leaf words per bitmap and summary words over them.
pub const BITMAP_LEAF_WORDS: usize = 128;

pub const BITMAP_SUMMARY_WORDS: usize = 2;

/// Fixed seat table size.
pub const MAX_SEATS: usize = 128;

/// Maximum resting orders per seat.
pub const MAX_ORDERS_PER_SEAT: u16 = 128;

/// Order pool index sentinel. Node 0 is reserved and never allocated, so a
/// zeroed level head, seat chain or free head means "none".
pub const NIL: u16 = 0;

/// Seat-table sentinel for the seatless taker flow. It can never be a seat
/// index, so a seatless taker can never alias seat 0.
pub const NO_SEAT: u16 = 65535;

/// Largest useful pool: every seat at its live-order cap, plus one seat's
/// temporary replacement set, plus the reserved node.
pub const MAX_POOL_CAPACITY: u32 = 16513;

/// Smallest legal pool, one node of which is the reserved node 0.
pub const MIN_POOL_CAPACITY: u32 = 64;

pub const MARKET_LEN: usize = 320;

pub const BITMAP_LEN: usize = 1040;

pub const LEVEL_LEN: usize = 16;

pub const SEAT_LEN: usize = 80;

pub const NODE_LEN: usize = 30;

/// Region offsets: header, bid bitmap, ask bitmap, levels, seats, pool.
pub const BID_BITMAP_OFFSET: usize = 320;

pub const ASK_BITMAP_OFFSET: usize = 1360;

pub const LEVELS_OFFSET: usize = 2400;

pub const SEATS_OFFSET: usize = 133472;

pub const POOL_OFFSET: usize = 143712;

pub const MIN_MARKET_LEN: usize = 145632;

pub const MARKET_VERSION: u8 = 4;

pub const CONFIG_VERSION: u8 = 1;

pub const CONFIG_LEN: usize = 128;

/// Which SPL token program a mint belongs to.
pub const TOKEN_PROGRAM_LEGACY: u8 = 0;

pub const TOKEN_PROGRAM_2022: u8 = 1;

/// Fee cap in basis points.
pub const MAX_FEE_BPS: u16 = 500;

pub const FEE_DENOMINATOR: u64 = 10_000;

/// Stored in the `seq` of a freed node; order ids skip it, so `seq` alone
/// tells a live node from a freed one.
pub const FREED_SEQ: u64 = 0xffff_ffff_ffff_ffff;

/// Seed of the vault authority address, next to the market key.
pub const VAULT_SEED: [u8; 5] = [0x76, 0x61, 0x75, 0x6c, 0x74];

/// Seed of a config address, next to its authority.
pub const CONFIG_SEED: [u8; 6] = [0x63, 0x6f, 0x6e, 0x66, 0x69, 0x67];

} // verus!
