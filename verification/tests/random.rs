//! Random operation sequences: the bitmap against a set of ticks, and a whole
//! book audited after every operation.

use clob::audit::check_invariants;
use clob::book::BookRefMut;
use clob::constants::{
    MARKET_VERSION, MIN_POOL_CAPACITY, NIL, NODE_LEN, NO_SEAT, POOL_OFFSET, WINDOW_MASK,
    WINDOW_TICKS,
};
use clob::errors::{is_invalid_state, ClobError, ProgramError};
use clob::market::Market;
use clob::side::{SelfTradePolicy, Side};
use std::collections::BTreeSet;

struct Random(u64);

impl Random {
    fn next(&mut self) -> u64 {
        self.0 ^= self.0 << 13;
        self.0 ^= self.0 >> 7;
        self.0 ^= self.0 << 17;
        self.0
    }

    fn below(&mut self, n: u64) -> u64 {
        (self.next() >> 11) % n
    }

    fn flag(&mut self) -> bool {
        self.below(2) == 0
    }
}

fn market(anchor: u32, capacity: u32) -> BookRefMut {
    let mut data = vec![0u8; POOL_OFFSET + capacity as usize * NODE_LEN];
    let mut header = Market::from_bytes_unchecked(&data[..320]);
    header.set_version(MARKET_VERSION);
    header.set_order_pool_capacity(capacity);
    header.set_anchor_tick(anchor);
    header.set_tick_size(100);
    header.set_base_lot_size(1_000);
    header.set_max_lots_per_order(1_000_000);
    header.set_tick_limit(u32::MAX - 2 * WINDOW_TICKS as u32);
    header.set_free_head(NIL);
    let mut bytes = Vec::new();
    header.encode(&mut bytes);
    data[..320].copy_from_slice(&bytes);
    BookRefMut::from_bytes_unchecked_mut(&data)
}

#[test]
fn a_bitmap_agrees_with_a_set_of_ticks() {
    let mut rng = Random(0x9E37_79B9_7F4A_7C15);
    for _ in 0..64 {
        let word = rng.below((WINDOW_TICKS / 64) as u64) as u32;
        let base = 8_192 * (1 + rng.below(64) as u32);
        let anchor = base + word * 64;
        let top = anchor + WINDOW_MASK;
        let mut book = market(anchor, MIN_POOL_CAPACITY);
        let mut bids: BTreeSet<u32> = BTreeSet::new();
        let mut asks: BTreeSet<u32> = BTreeSet::new();
        for _ in 0..512 {
            let bid = rng.flag();
            let tick = anchor + rng.below(WINDOW_TICKS as u64) as u32;
            let (map, oracle) = if bid {
                (&mut book.bid_bitmap, &mut bids)
            } else {
                (&mut book.ask_bitmap, &mut asks)
            };
            match rng.below(5) {
                0 => {
                    map.set(tick);
                    oracle.insert(tick);
                }
                1 => {
                    map.clear(tick);
                    oracle.remove(&tick);
                }
                2 => assert_eq!(map.get(tick), oracle.contains(&tick)),
                3 => assert_eq!(
                    map.next_at_or_after(anchor, tick),
                    oracle.range(tick..=top).next().copied()
                ),
                _ => assert_eq!(
                    map.prev_at_or_before(anchor, tick),
                    oracle.range(anchor..=tick).next_back().copied()
                ),
            }
        }
    }
}

const SEATS: u16 = 4;
const CAPACITY: u32 = 256;
const ANCHOR0: u32 = 64_000;
const MAX_LOTS: u32 = 1_000_000;
const BASE_FUNDING: u64 = 1_000_000_000;
const QUOTE_FUNDING: u64 = 1_000_000_000_000;

/// A market with four funded seats, and what its vaults hold.
fn funded(capacity: u32) -> (BookRefMut, u64, u64) {
    let mut book = market(ANCHOR0, capacity);
    book.thread_free_list(1, capacity);
    for i in 0..SEATS {
        let seat = book.claim_seat(&[i as u8 + 1; 32]).expect("seat claim");
        assert_eq!(seat, i, "seats claimed out of order");
        book.seats[seat as usize].set_base_free(BASE_FUNDING);
        book.seats[seat as usize].set_quote_free(QUOTE_FUNDING);
    }
    (book, BASE_FUNDING * SEATS as u64, QUOTE_FUNDING * SEATS as u64)
}

/// Up to eight quotes, ascending, as a payload.
fn quotes(rng: &mut Random, lots_cap: u64) -> (Vec<u8>, usize) {
    let mut ticks: BTreeSet<u32> = BTreeSet::new();
    for _ in 0..rng.below(9) {
        ticks.insert(ANCHOR0 + rng.below(64) as u32);
    }
    let mut out = Vec::new();
    for tick in &ticks {
        out.extend_from_slice(&tick.to_le_bytes());
        out.extend_from_slice(&(1 + rng.below(lots_cap) as u32).to_le_bytes());
        out.push(rng.below(2) as u8);
    }
    (out, ticks.len())
}

/// Run random operations on a book of the given capacity, auditing it after
/// each. Makers' failures are left as they stand. Gives how often the pool was
/// full.
fn run(seed: u64, steps: usize, capacity: u32) -> usize {
    let mut rng = Random(seed);
    let (mut book, mut base_vault, mut quote_vault) = funded(capacity);
    let mut full = 0;
    let mut failed = |e: &ProgramError| {
        assert!(!is_invalid_state(e));
        if *e == ProgramError::from(ClobError::PoolFull) {
            full += 1;
        }
    };
    let mut slot: u64 = 1_000;
    for _ in 0..steps {
        let seat = rng.below(SEATS as u64) as u16;
        let side = if rng.flag() { Side::Bid } else { Side::Ask };
        let anchor = book.header.anchor_tick();
        // Mostly a narrow band, so that orders meet.
        let span = if rng.below(8) == 0 { 2 * WINDOW_TICKS as u64 } else { 64 };
        let tick = anchor.wrapping_add(rng.below(span) as u32);
        let expiry = if rng.flag() { 0 } else { (slot + rng.below(20)) as u32 };
        match rng.below(12) {
            0..=4 => {
                let lots = rng.below(200) as u32;
                let slide = rng.flag();
                if let Err(e) = book.upsert_order(side, tick, lots, seat, expiry, slide) {
                    failed(&e);
                }
            }
            5 => {
                let mut cur = book.seats[seat as usize].orders_head();
                if cur != NIL {
                    let count = book.seats[seat as usize].order_count() as u64;
                    for _ in 0..rng.below(count) {
                        cur = book.pool[cur as usize].maker_next();
                    }
                    let seq = book.pool[cur as usize].seq();
                    assert_eq!(book.cancel_order(seat, cur, seq), Ok(()));
                    assert!(book.cancel_order(seat, cur, seq).is_err());
                }
            }
            6 | 7 => {
                let saved = book.to_bytes();
                let taker = if rng.flag() { NO_SEAT } else { seat };
                let budget = if rng.flag() { u64::MAX } else { rng.below(1 << 40) };
                let policy = if rng.below(4) == 0 {
                    SelfTradePolicy::Abort
                } else {
                    SelfTradePolicy::CancelResting
                };
                let lots = rng.below(MAX_LOTS as u64 / 1_000) as u32;
                let settled =
                    match book.take_for_test(side, tick, lots, budget, taker, slot, policy) {
                        Err(e) => {
                            assert!(!is_invalid_state(&e));
                            false
                        }
                        Ok(res) => {
                            let base = book.header.base_atoms(res.lots);
                            if taker == NO_SEAT {
                                match side {
                                    Side::Bid => {
                                        quote_vault += res.quote + res.fee;
                                        base_vault -= base;
                                    }
                                    Side::Ask => {
                                        base_vault += base;
                                        quote_vault -= res.quote - res.fee;
                                    }
                                }
                                true
                            } else {
                                let s = &mut book.seats[taker as usize];
                                let (pays, has) = match side {
                                    Side::Bid => (res.quote + res.fee, s.quote_free()),
                                    Side::Ask => (base, s.base_free()),
                                };
                                if has >= pays {
                                    match side {
                                        Side::Bid => {
                                            s.set_quote_free(has - pays);
                                            s.set_base_free(s.base_free() + base);
                                        }
                                        Side::Ask => {
                                            s.set_base_free(has - pays);
                                            s.set_quote_free(s.quote_free() + res.quote - res.fee);
                                        }
                                    }
                                }
                                has >= pays
                            }
                        }
                    };
                if !settled {
                    book = BookRefMut::from_bytes_unchecked_mut(&saved);
                }
            }
            8 => {
                let (bids, bid_count) = quotes(&mut rng, 100);
                let (asks, ask_count) = quotes(&mut rng, 100);
                let head = book.seats[seat as usize].orders_head();
                let first =
                    book.mass_quote_side(seat, Side::Bid, &bids, bid_count, expiry, (NIL, head));
                match first {
                    Ok(cursor) => {
                        let r = book
                            .mass_quote_side(seat, Side::Ask, &asks, ask_count, expiry, cursor);
                        if let Err(e) = r {
                            failed(&e);
                        }
                    }
                    Err(e) => failed(&e),
                }
            }
            9 => {
                let target = anchor.wrapping_add(rng.below(400) as u32).wrapping_sub(200);
                assert!(book.reanchor_step(target, rng.below(64) as u32 + 1).is_ok());
            }
            10 => {
                let start = anchor + rng.below(WINDOW_TICKS as u64) as u32;
                assert!(book.reap_expired(side, start, rng.below(64) as u32 + 1, slot).is_ok());
            }
            _ => slot += rng.below(6),
        }
        assert!(check_invariants(&book, base_vault, quote_vault));
    }
    full
}

#[test]
fn every_operation_keeps_the_invariants() {
    run(0x2545_F491_4F6C_DD1D, 400, CAPACITY);
    run(0x1234_5678_9ABC_DEF1, 400, CAPACITY);
    run(0xDEAD_BEEF_CAFE_F00D, 400, CAPACITY);
}

#[test]
fn a_pool_that_fills_up_keeps_the_invariants() {
    for capacity in [2, 5, 12] {
        assert!(run(0x2545_F491_4F6C_DD1D, 300, capacity) > 0);
        assert!(run(0xDEAD_BEEF_CAFE_F00D, 300, capacity) > 0);
    }
}

#[test]
fn the_audit_sees_what_is_wrong() {
    let fresh = || {
        let (mut book, base, quote) = funded(CAPACITY);
        book.upsert_order(Side::Bid, ANCHOR0 + 5, 10, 0, 0, false).unwrap();
        book.upsert_order(Side::Bid, ANCHOR0 + 5, 20, 1, 0, false).unwrap();
        book.upsert_order(Side::Ask, ANCHOR0 + 9, 30, 0, 0, false).unwrap();
        (book, base, quote)
    };
    let (book, base, quote) = fresh();
    assert!(check_invariants(&book, base, quote));
    assert!(!check_invariants(&book, base, quote - 1));
    let slot = ((ANCHOR0 + 5) & WINDOW_MASK) as usize;
    let broken = |change: &dyn Fn(&mut BookRefMut)| {
        let (mut book, base, quote) = fresh();
        change(&mut book);
        !check_invariants(&book, base, quote)
    };
    // A level's total, bit, side, list.
    assert!(broken(&|b| b.levels[slot].add_lots(1)));
    assert!(broken(&|b| b.bid_bitmap.clear(ANCHOR0 + 5)));
    assert!(broken(&|b| b.ask_bitmap.set(ANCHOR0 + 5)));
    assert!(broken(&|b| b.ask_bitmap.set(ANCHOR0 + 3)));
    assert!(broken(&|b| b.levels[slot].set_head(0)));
    assert!(broken(&|b| b.pool[2].set_next(1)));
    assert!(broken(&|b| b.pool[2].set_next(60_000)));
    assert!(broken(&|b| b.pool[1].set_tick(ANCHOR0 + 6)));
    assert!(broken(&|b| b.pool[1].set_maker_and_side(0, Side::Ask)));
    assert!(broken(&|b| b.pool[1].set_lots(0)));
    assert!(broken(&|b| b.pool[1].set_seq(u64::MAX)));
    // The free list.
    assert!(broken(&|b| b.header.set_free_count(7)));
    assert!(broken(&|b| b.header.set_free_head(1)));
    assert!(broken(&|b| b.pool[5].set_next(4)));
    // A seat's chain, count, locks, owner.
    assert!(broken(&|b| b.seats[0].set_orders_head(3)));
    assert!(broken(&|b| b.seats[0].inc_order_count()));
    assert!(broken(&|b| b.pool[3].set_maker_prev(2)));
    assert!(broken(&|b| b.pool[1].set_maker_and_side(1, Side::Bid)));
    assert!(broken(&|b| b.seats[1].set_owner([0; 32])));
    assert!(broken(&|b| {
        let locked = b.seats[0].base_locked();
        let free = b.seats[0].base_free();
        b.seats[0].set_base_locked(locked - 1);
        b.seats[0].set_base_free(free + 1);
    }));
    assert!(broken(&|b| b.header.set_anchor_tick(u32::MAX)));
}
