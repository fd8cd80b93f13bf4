//! The bitmap scans against a naive walk of the window, for every anchor
//! residue.

use clob::book::BookRefMut;
use clob::constants::{MARKET_VERSION, NODE_LEN, POOL_OFFSET, WINDOW_TICKS};
use clob::market::Market;

/// A market with a chosen anchor and no orders.
fn book_at(anchor: u32) -> BookRefMut {
    let mut data = vec![0u8; POOL_OFFSET + 64 * NODE_LEN];
    let mut header = Market::from_bytes_unchecked(&data[..320]);
    header.set_version(MARKET_VERSION);
    header.set_order_pool_capacity(64);
    header.set_anchor_tick(anchor);
    header.set_tick_size(100);
    header.set_base_lot_size(1_000);
    header.set_max_lots_per_order(1_000_000);
    header.set_tick_limit(u32::MAX - 2 * WINDOW_TICKS as u32);
    let mut bytes = Vec::new();
    header.encode(&mut bytes);
    data[..320].copy_from_slice(&bytes);
    BookRefMut::from_bytes_unchecked_mut(&data)
}

fn oracle_highest(book: &BookRefMut, anchor: u32, bid: bool) -> Option<u32> {
    (0..WINDOW_TICKS as u32).rev().find_map(|off| {
        let t = anchor + off;
        let set = if bid { book.bid_bitmap.get(t) } else { book.ask_bitmap.get(t) };
        if set {
            Some(t)
        } else {
            None
        }
    })
}

fn oracle_lowest(book: &BookRefMut, anchor: u32, bid: bool) -> Option<u32> {
    (0..WINDOW_TICKS as u32).find_map(|off| {
        let t = anchor + off;
        let set = if bid { book.bid_bitmap.get(t) } else { book.ask_bitmap.get(t) };
        if set {
            Some(t)
        } else {
            None
        }
    })
}

const OFFSETS: [u32; 16] = [
    0, 1, 63, 64, 65, 127, 128, 1_000, 2_047, 2_048, 4_095, 4_096, 4_097, 6_000, 8_190, 8_191,
];

#[test]
fn best_bid_matches_oracle_for_every_anchor_residue() {
    let mut failures: Vec<(u32, u32)> = Vec::new();
    let mut checked = 0u32;
    for word in 0..(WINDOW_TICKS / 64) as u32 {
        let anchor = 8_192 * 8 + word * 64;
        for off in OFFSETS {
            let mut book = book_at(anchor);
            let tick = anchor + off;
            book.bid_bitmap.set(tick);
            let got = book.best_bid();
            let want = oracle_highest(&book, anchor, true);
            checked += 1;
            if got != want {
                failures.push((anchor, tick));
            }
        }
    }
    assert!(
        failures.is_empty(),
        "best_bid() disagreed with the oracle on {} of {checked} single-bit cases. First 8: {:?}",
        failures.len(),
        &failures[..failures.len().min(8)]
    );
}

#[test]
fn best_ask_matches_oracle_for_every_anchor_residue() {
    let mut failures: Vec<(u32, u32)> = Vec::new();
    for word in 0..(WINDOW_TICKS / 64) as u32 {
        let anchor = 8_192 * 8 + word * 64;
        for off in OFFSETS {
            let mut book = book_at(anchor);
            let tick = anchor + off;
            book.ask_bitmap.set(tick);
            if book.best_ask() != oracle_lowest(&book, anchor, false) {
                failures.push((anchor, tick));
            }
        }
    }
    assert!(
        failures.is_empty(),
        "best_ask() disagreed with the oracle on {} cases. First 8: {:?}",
        failures.len(),
        &failures[..failures.len().min(8)]
    );
}

/// Many bits set at once, every anchor residue, both scan directions.
#[test]
fn scans_match_oracle_with_many_bits_set() {
    // Deterministic xorshift, so that failures can be reproduced.
    let mut seed = 0x2545_F491_4F6C_DD1Du64;
    let mut next = move || {
        seed ^= seed << 13;
        seed ^= seed >> 7;
        seed ^= seed << 17;
        seed
    };
    let mut checked = 0u32;
    let mut failures = Vec::new();
    for word in 0..(WINDOW_TICKS / 64) as u32 {
        let anchor = 8_192 * 8 + word * 64;
        for round in 0..6 {
            let mut book = book_at(anchor);
            // Sprinkle 1..=24 bids and asks on disjoint ticks.
            let count = 1 + (next() % 24) as u32;
            let mut used = std::collections::BTreeSet::new();
            for _ in 0..count {
                let off = (next() % WINDOW_TICKS as u64) as u32;
                if !used.insert(off) {
                    continue;
                }
                let t = anchor + off;
                if next() % 2 == 0 {
                    book.bid_bitmap.set(t);
                } else {
                    book.ask_bitmap.set(t);
                }
            }
            checked += 1;
            if book.best_bid() != oracle_highest(&book, anchor, true) {
                failures.push((anchor, round, "best_bid"));
            }
            if book.best_ask() != oracle_lowest(&book, anchor, false) {
                failures.push((anchor, round, "best_ask"));
            }
        }
    }
    assert!(
        failures.is_empty(),
        "{} of {checked} multi-bit cases disagreed with the oracle. First 8: {:?}",
        failures.len(),
        &failures[..failures.len().min(8)]
    );
}

#[test]
fn best_bid_sees_a_bid_that_is_really_there() {
    let anchor = 59_968u32;
    let tick = 60_032u32;
    let mut book = book_at(anchor);
    book.bid_bitmap.set(tick);
    assert!(book.bid_bitmap.get(tick), "precondition: the bit is set");
    assert_eq!(
        book.best_bid(),
        Some(tick),
        "best_bid() is blind to a resting bid at tick {tick} with anchor {anchor} (residue {})",
        anchor % WINDOW_TICKS as u32
    );
}

#[test]
fn the_scans_find_the_nearest_set_tick() {
    let anchor = 8_192 * 3 + 8_128;
    let mut book = book_at(anchor);
    let map = &mut book.bid_bitmap;
    assert_eq!(map.lowest(anchor), None);
    assert_eq!(map.highest(anchor), None);
    for off in [5u32, 70, 4_000, 8_191] {
        map.set(anchor + off);
    }
    assert_eq!(map.lowest(anchor), Some(anchor + 5));
    assert_eq!(map.highest(anchor), Some(anchor + 8_191));
    assert_eq!(map.next_at_or_after(anchor, anchor + 6), Some(anchor + 70));
    assert_eq!(map.next_at_or_after(anchor, anchor + 70), Some(anchor + 70));
    assert_eq!(map.next_at_or_after(anchor, anchor), Some(anchor + 5));
    assert_eq!(map.next_at_or_after(anchor, anchor + 4_001), Some(anchor + 8_191));
    assert_eq!(map.prev_at_or_before(anchor, anchor + 69), Some(anchor + 5));
    assert_eq!(map.prev_at_or_before(anchor, anchor + 4), None);
    assert_eq!(map.prev_at_or_before(anchor, anchor + 8_190), Some(anchor + 4_000));
    assert!(!map.word_empty(anchor));
    map.clear(anchor + 5);
    assert!(!map.get(anchor + 5));
    assert!(map.word_empty(anchor));
    assert_eq!(map.lowest(anchor), Some(anchor + 70));
}
