//! Mints, transfers, header fields and the book's own operations.

use clob::audit::check_invariants;
use clob::book::BookRefMut;
use clob::client::{MassQuote, MassQuoteInstructionArgs};
use clob::constants::{
    NIL, NODE_LEN, NO_SEAT, POOL_OFFSET, TOKEN_PROGRAM_2022, TOKEN_PROGRAM_LEGACY, WINDOW_TICKS,
};
use clob::entry::{probe, scan, HotCall, Seen};
use clob::errors::{ClobError, ProgramError};
use clob::events::{claim_seat_event, reanchor_event, update_fee_event};
use clob::keys::{derive_address, derive_token_account, token_program_id, ID};
use clob::market::Market;
use clob::quote::Quote;
use clob::side::{SelfTradePolicy, Side};
use clob::token::{
    has_permanent_delegate_bytes, received, token_amount, CheckedTransfer, MINT_TLV_OFFSET,
    PERMANENT_DELEGATE_EXTENSION_TYPE,
};

// A minimal extended mint: the base mint, padding to the length of a token
// account, the account type, then one extension entry.
fn buffer_with_one_extension(ext_type: u16, value_len: usize) -> Vec<u8> {
    let mut buf = vec![0u8; MINT_TLV_OFFSET + 4 + value_len];
    buf[MINT_TLV_OFFSET] = (ext_type & 0xFF) as u8;
    buf[MINT_TLV_OFFSET + 1] = (ext_type >> 8) as u8;
    buf[MINT_TLV_OFFSET + 2] = (value_len & 0xFF) as u8;
    buf[MINT_TLV_OFFSET + 3] = (value_len >> 8) as u8;
    buf
}

#[test]
fn tlv_offset_is_166_not_83() {
    assert_eq!(MINT_TLV_OFFSET, 166);
}

#[test]
fn finds_permanent_delegate_as_the_only_extension() {
    let buf = buffer_with_one_extension(PERMANENT_DELEGATE_EXTENSION_TYPE, 32);
    assert!(has_permanent_delegate_bytes(&buf));
}

#[test]
fn finds_permanent_delegate_after_an_earlier_extension() {
    let mut buf = buffer_with_one_extension(1 /* TransferFeeConfig */, 110);
    let pd_start = buf.len();
    buf.extend(
        buffer_with_one_extension(PERMANENT_DELEGATE_EXTENSION_TYPE, 32)[MINT_TLV_OFFSET..].iter(),
    );
    assert!(has_permanent_delegate_bytes(&buf), "pd_start={pd_start}");
}

#[test]
fn does_not_false_positive_on_an_unrelated_extension() {
    let buf = buffer_with_one_extension(1 /* TransferFeeConfig */, 110);
    assert!(!has_permanent_delegate_bytes(&buf));
}

#[test]
fn does_not_false_positive_on_a_bare_82_byte_mint() {
    let buf = vec![0u8; 82];
    assert!(!has_permanent_delegate_bytes(&buf));
}

#[test]
fn a_82_byte_token_2022_mint_with_no_extensions_is_not_flagged() {
    let buf = vec![0u8; 82];
    assert!(!has_permanent_delegate_bytes(&buf));
}

#[test]
fn oversized_length_field_terminates_the_scan_without_panicking() {
    let buf = buffer_with_one_extension(0xBEEF, 0xFFFF);
    assert!(!has_permanent_delegate_bytes(&buf));
}

#[test]
fn encodes_transfer_checked_layout() {
    let data = CheckedTransfer::encode(123_456_789_u64, 9);
    assert_eq!(data[0], 12, "TransferChecked discriminator");
    assert_eq!(u64::from_le_bytes(data[1..9].try_into().unwrap()), 123_456_789_u64);
    assert_eq!(data[9], 9, "decimals");
    assert_eq!(data.len(), 10);
}

#[test]
fn encodes_zero_and_max_amount() {
    assert_eq!(
        u64::from_le_bytes(CheckedTransfer::encode(0, 0)[1..9].try_into().unwrap()),
        0
    );
    assert_eq!(
        u64::from_le_bytes(CheckedTransfer::encode(u64::MAX, 255)[1..9].try_into().unwrap()),
        u64::MAX
    );
    assert_eq!(CheckedTransfer::encode(u64::MAX, 255)[9], 255);
}

#[test]
fn a_transfer_is_credited_with_the_difference() {
    assert_eq!(received(5, 9), Ok(4));
    assert_eq!(received(9, 9), Ok(0));
    assert_eq!(received(9, 5), Err(ProgramError::from(ClobError::InvalidState)));
    let mut account = vec![0u8; 165];
    account[64..72].copy_from_slice(&77u64.to_le_bytes());
    assert_eq!(token_amount(&account), Ok(77));
    assert_eq!(token_amount(&account[..71]), Err(ProgramError::from(ClobError::InvalidAccountLength)));
}

// Program ids and derived addresses.

#[test]
fn token_2022_id_decodes_to_a_distinct_nonzero_pubkey() {
    assert_ne!(token_program_id(TOKEN_PROGRAM_2022), [0u8; 32]);
    assert_ne!(token_program_id(TOKEN_PROGRAM_2022), pinocchio_token::ID);
}

#[test]
fn the_token_programs_have_their_addresses() {
    assert_eq!(token_program_id(TOKEN_PROGRAM_LEGACY), pinocchio_token::ID);
    let key = solana_pubkey::Pubkey::from_str_const("TokenzQdBNbLqP5VEhdkAS6EPFLC1PHnBqCXEpPxuEb");
    assert_eq!(token_program_id(TOKEN_PROGRAM_2022), key.to_bytes());
    assert_eq!(
        token_program_id(TOKEN_PROGRAM_LEGACY),
        [
            0x06, 0xdd, 0xf6, 0xe1, 0xd7, 0x65, 0xa1, 0x93, 0xd9, 0xcb, 0xe1, 0x46, 0xce, 0xeb,
            0x79, 0xac, 0x1c, 0xb4, 0x85, 0xed, 0x5f, 0x5b, 0x37, 0x91, 0x3a, 0x8c, 0xf5, 0x85,
            0x7e, 0xff, 0x00, 0xa9,
        ]
    );
    assert_eq!(
        token_program_id(TOKEN_PROGRAM_2022),
        [
            0x06, 0xdd, 0xf6, 0xe1, 0xee, 0x75, 0x8f, 0xde, 0x18, 0x42, 0x5d, 0xbc, 0xe4, 0x6c,
            0xcd, 0xda, 0xb6, 0x1a, 0xfc, 0x4d, 0x83, 0xb9, 0x0d, 0x27, 0xfe, 0xbd, 0xf9, 0x28,
            0xd8, 0xa1, 0x8b, 0xfc,
        ]
    );
    assert_eq!(
        pinocchio_associated_token_account::ID,
        [
            0x8c, 0x97, 0x25, 0x8f, 0x4e, 0x24, 0x89, 0xf1, 0xbb, 0x3d, 0x10, 0x29, 0x14, 0x8e,
            0x0d, 0x83, 0x0b, 0x5a, 0x13, 0x99, 0xda, 0xff, 0x10, 0x84, 0x04, 0x8e, 0x7b, 0xd8,
            0xdb, 0xe9, 0xf8, 0x59,
        ]
    );
}

#[test]
fn addresses_are_derived_under_the_right_program() {
    let market = [3u8; 32];
    let program = solana_pubkey::Pubkey::new_from_array(ID);
    let (key, bump) = solana_pubkey::Pubkey::find_program_address(&[b"vault", &market], &program);
    assert_eq!(derive_address(b"vault", &market), Some((key.to_bytes(), bump)));
    let ata = solana_pubkey::Pubkey::new_from_array(pinocchio_associated_token_account::ID);
    let (key, _) = solana_pubkey::Pubkey::find_program_address(
        &[&[1u8; 32], &pinocchio_token::ID, &[2u8; 32]],
        &ata,
    );
    assert_eq!(
        derive_token_account(&[1u8; 32], &pinocchio_token::ID, &[2u8; 32]),
        Some(key.to_bytes())
    );
}

// The market header.

fn blank_header() -> Market {
    Market::from_bytes_unchecked(&[0u8; 320])
}

#[test]
fn header_token_program_and_decimals_round_trip() {
    let mut m = blank_header();
    m.set_base_token_program(TOKEN_PROGRAM_2022);
    m.set_quote_token_program(TOKEN_PROGRAM_LEGACY);
    m.set_base_decimals(9);
    m.set_quote_decimals(6);

    assert_eq!(m.base_token_program(), TOKEN_PROGRAM_2022);
    assert_eq!(m.quote_token_program(), TOKEN_PROGRAM_LEGACY);
    assert_eq!(m.base_decimals(), 9);
    assert_eq!(m.quote_decimals(), 6);
    assert_eq!(m.base_token_program_id(), token_program_id(TOKEN_PROGRAM_2022));
    assert_eq!(m.quote_token_program_id(), pinocchio_token::ID);

    // Through the bytes as well.
    let mut bytes = Vec::new();
    m.encode(&mut bytes);
    assert_eq!(bytes.len(), 320);
    assert_eq!(bytes[298..302], [TOKEN_PROGRAM_2022, TOKEN_PROGRAM_LEGACY, 9, 6]);
    let back = Market::from_bytes_unchecked(&bytes);
    assert_eq!(back.base_token_program(), TOKEN_PROGRAM_2022);
    assert_eq!(back.quote_decimals(), 6);
}

#[test]
fn new_header_fields_do_not_disturb_neighboring_fields() {
    let mut m = blank_header();
    m.set_max_lots_per_order(0xAABB_CCDD);
    m.add_fees_accrued(0x1122_3344_5566_7788);
    m.set_base_token_program(TOKEN_PROGRAM_2022);
    m.set_quote_token_program(TOKEN_PROGRAM_2022);
    m.set_base_decimals(18);
    m.set_quote_decimals(0);
    let mut bytes = Vec::new();
    m.encode(&mut bytes);
    let mut m = Market::from_bytes_unchecked(&bytes);

    assert_eq!(m.max_lots_per_order(), 0xAABB_CCDD);
    assert_eq!(m.take_fees_accrued(), 0x1122_3344_5566_7788);
    assert_eq!(m.base_token_program(), TOKEN_PROGRAM_2022);
    assert_eq!(m.quote_token_program(), TOKEN_PROGRAM_2022);
    assert_eq!(m.base_decimals(), 18);
    assert_eq!(m.quote_decimals(), 0);
}

#[test]
fn order_ids_pass_over_the_free_marker() {
    let mut m = blank_header();
    assert_eq!(m.next_order_id(), 0);
    assert_eq!(m.next_order_id(), 1);
    m.set_next_order_id_for_test(u64::MAX - 1);
    assert_eq!(m.next_order_id(), u64::MAX - 1);
    assert_eq!(m.next_order_id(), 0);
}

#[test]
fn the_fee_is_capped() {
    let mut m = blank_header();
    assert_eq!(m.set_fee_bps(500), Ok(()));
    assert_eq!(m.set_fee_bps(501), Err(ProgramError::from(ClobError::InvalidFee)));
    assert_eq!(m.fee_bps(), 500);
    m.set_tick_size(100);
    m.set_base_lot_size(1_000);
    assert_eq!(m.notional(66_010, 7), 46_207_000);
    assert_eq!(m.base_atoms(7), 7_000);
}

// The book.

fn setup_with(anchor: u32, tick_size: u64, max_lots: u32) -> (BookRefMut, u16) {
    let capacity = 64u32;
    let mut data = vec![0u8; POOL_OFFSET + capacity as usize * NODE_LEN];
    let mut header = Market::from_bytes_unchecked(&data[..320]);
    header.set_order_pool_capacity(capacity);
    header.set_anchor_tick(anchor);
    header.set_tick_size(tick_size);
    header.set_base_lot_size(1_000);
    header.set_max_lots_per_order(max_lots);
    header.set_tick_limit(u32::MAX - 2 * WINDOW_TICKS as u32);
    header.set_free_head(NIL);
    let mut bytes = Vec::new();
    header.encode(&mut bytes);
    data[..320].copy_from_slice(&bytes);
    let mut book = BookRefMut::from_bytes_unchecked_mut(&data);
    book.thread_free_list(1, capacity);
    let seat = book.claim_seat(&[1u8; 32]).expect("seat claim");
    (book, seat)
}

fn setup(anchor: u32) -> (BookRefMut, u16) {
    let (mut book, seat) = setup_with(anchor, 100, 1_000_000);
    book.seats[seat as usize].set_quote_free(1_000_000_000);
    (book, seat)
}

#[test]
fn oversized_lots_rejected_before_locking_anything() {
    const ANCHOR: u32 = 64_000;
    let (mut book, seat) = setup_with(ANCHOR, 1_000_000_000, 1_000);

    let result = book.upsert_order(Side::Bid, ANCHOR, u32::MAX, seat, 0, false);

    assert_eq!(result, Err(ClobError::InvalidLots.into()));
    assert_eq!(book.seats[seat as usize].quote_locked(), 0);
}

/// Budget of 1 with 2 occupied levels in the first word: the whole word is
/// still vacated, and the anchor advances past it.
#[test]
fn word_is_fully_vacated_or_not_touched_at_all() {
    const ANCHOR: u32 = 64;
    let (mut book, seat) = setup(ANCHOR);

    book.upsert_order(Side::Bid, ANCHOR, 10, seat, 0, false).expect("insert tick=ANCHOR");
    book.upsert_order(Side::Bid, ANCHOR + 1, 10, seat, 0, false).expect("insert tick=ANCHOR+1");

    let (evicted, new_anchor) = book.reanchor_step(128, 1).expect("reanchor_step");

    assert_eq!(evicted, 2, "the whole first word is vacated, not just 1");
    assert_eq!(new_anchor, ANCHOR + 64, "anchor advances past the vacated word");
    assert!(!book.bid_bitmap.get(ANCHOR));
    assert!(!book.bid_bitmap.get(ANCHOR + 1));
}

/// Budget of 0 touches nothing; anchor and order stay put.
#[test]
fn zero_budget_touches_nothing() {
    const ANCHOR: u32 = 64;
    let (mut book, seat) = setup(ANCHOR);

    book.upsert_order(Side::Bid, ANCHOR, 10, seat, 0, false).expect("insert tick=ANCHOR");

    let (evicted, new_anchor) = book.reanchor_step(128, 0).expect("reanchor_step");

    assert_eq!(evicted, 0);
    assert_eq!(new_anchor, ANCHOR);
    assert!(book.bid_bitmap.get(ANCHOR));
}

/// No surviving order ends up behind the committed anchor.
#[test]
fn no_surviving_order_ends_up_behind_the_committed_anchor() {
    const ANCHOR: u32 = 64;
    let (mut book, seat) = setup(ANCHOR);

    book.upsert_order(Side::Bid, ANCHOR, 10, seat, 0, false).expect("insert tick=ANCHOR");
    book.upsert_order(Side::Bid, ANCHOR + 64, 10, seat, 0, false).expect("insert tick=ANCHOR+64");

    let (evicted, new_anchor) = book.reanchor_step(256, 1).expect("reanchor_step");

    assert_eq!(evicted, 1);
    assert_eq!(new_anchor, ANCHOR + 64);
    assert!(!book.bid_bitmap.get(ANCHOR), "first word fully vacated");
    assert!(
        book.bid_bitmap.get(ANCHOR + 64),
        "second word untouched -- its order is exactly at the new anchor, not behind it"
    );
}

/// The budget counts levels: two orders at one tick are one level.
#[test]
fn a_level_counts_once_however_many_orders_it_holds() {
    const ANCHOR: u32 = 64;
    let (mut book, seat) = setup(ANCHOR);
    let other = book.claim_seat(&[2u8; 32]).unwrap();
    book.seats[other as usize].set_quote_free(1_000_000_000);
    book.upsert_order(Side::Bid, ANCHOR, 10, seat, 0, false).unwrap();
    book.upsert_order(Side::Bid, ANCHOR, 10, other, 0, false).unwrap();
    book.upsert_order(Side::Bid, ANCHOR + 64, 10, seat, 0, false).unwrap();
    assert_eq!(book.reanchor_step(192, 2), Ok((2, 192)));
    assert_eq!(book.best_bid(), None);
    assert_eq!(book.seats[0].quote_free(), 1_000_000_000);
    assert_eq!(book.seats[1].quote_free(), 1_000_000_000);
}

#[test]
fn a_pass_stays_within_its_quote_budget() {
    const ANCHOR: u32 = 64;
    let (mut book, seat) = setup(ANCHOR);
    book.header.set_fee_bps(100).unwrap();
    book.seats[seat as usize].set_base_free(1_000_000);
    book.upsert_order(Side::Ask, 200, 50, seat, 0, false).unwrap();
    // A lot costs 20_000 and 200 of fee.
    let res = book
        .take_for_test(Side::Bid, 200, 50, 60_700, NO_SEAT, 0, SelfTradePolicy::CancelResting)
        .unwrap();
    assert_eq!((res.lots, res.quote, res.fee), (3, 60_000, 600));
    assert_eq!(book.seats[seat as usize].quote_free(), 1_000_060_000);
    assert_eq!(book.seats[seat as usize].base_locked(), 47_000);
    let res = book
        .take_for_test(Side::Bid, 199, 50, u64::MAX, NO_SEAT, 0, SelfTradePolicy::CancelResting)
        .unwrap();
    assert_eq!(res.lots, 0);
    let res = book
        .take_for_test(Side::Bid, 200, 60, u64::MAX, NO_SEAT, 0, SelfTradePolicy::CancelResting)
        .unwrap();
    assert_eq!((res.lots, res.quote, res.fee), (47, 940_000, 9_400));
    assert_eq!(book.best_ask(), None);
}

#[test]
fn a_book_survives_its_bytes() {
    const ANCHOR: u32 = 64;
    let (mut book, seat) = setup(ANCHOR);
    book.upsert_order(Side::Bid, 100, 10, seat, 9, false).unwrap();
    let bytes = book.to_bytes();
    assert_eq!(bytes.len(), POOL_OFFSET + 64 * NODE_LEN);
    let again = BookRefMut::from_bytes_unchecked_mut(&bytes);
    assert_eq!(again.to_bytes(), bytes);
    assert_eq!(again.best_bid(), Some(100));
    assert_eq!(again.pool[1].expiry_slot(), 9);
    assert_eq!(again.seats[0].quote_locked(), 100_000);
}

/// A book whose pool has room for `capacity - 1` orders, and one funded seat.
fn small_book(capacity: u32) -> BookRefMut {
    let mut data = vec![0u8; POOL_OFFSET + capacity as usize * NODE_LEN];
    let mut header = Market::from_bytes_unchecked(&data[..320]);
    header.set_order_pool_capacity(capacity);
    header.set_anchor_tick(64);
    header.set_tick_size(1);
    header.set_base_lot_size(1);
    header.set_max_lots_per_order(10);
    header.set_tick_limit(100_000);
    header.set_free_head(NIL);
    let mut bytes = Vec::new();
    header.encode(&mut bytes);
    data[..320].copy_from_slice(&bytes);
    let mut book = BookRefMut::from_bytes_unchecked_mut(&data);
    book.thread_free_list(1, capacity);
    assert_eq!(book.claim_seat(&[1u8; 32]), Ok(0));
    book.seats[0].set_quote_free(1_000);
    book
}

#[test]
fn a_post_on_a_full_pool_locks_nothing() {
    let mut book = small_book(2);
    assert_eq!(book.upsert_order(Side::Bid, 64, 1, 0, 0, false), Ok(1));
    let before = book.to_bytes();
    assert_eq!(
        book.upsert_order(Side::Bid, 65, 1, 0, 0, false),
        Err(ClobError::PoolFull.into())
    );
    assert_eq!(book.seats[0].quote_locked(), 64);
    assert_eq!(book.seats[0].quote_free(), 936);
    assert_eq!(book.seats[0].order_count(), 1);
    assert_eq!(book.to_bytes(), before);
    assert!(check_invariants(&book, 0, 1_000));

    // The first quote of a mass quote stays, the second finds no node; what
    // was locked is what is quoted.
    let mut payload = Vec::new();
    for tick in [64u32, 70] {
        payload.extend_from_slice(&tick.to_le_bytes());
        payload.extend_from_slice(&1u32.to_le_bytes());
        payload.push(0);
    }
    let head = book.seats[0].orders_head();
    assert_eq!(
        book.mass_quote_side(0, Side::Bid, &payload, 2, 0, (NIL, head)),
        Err(ClobError::PoolFull.into())
    );
    assert_eq!(book.seats[0].quote_locked(), 64);
    assert_eq!(book.seats[0].quote_free(), 936);
    assert!(check_invariants(&book, 0, 1_000));

    // A seat that cannot pay is told so first.
    book.seats[0].set_quote_free(10);
    assert_eq!(
        book.upsert_order(Side::Bid, 65, 1, 0, 0, false),
        Err(ClobError::InsufficientBalance.into())
    );
}

#[test]
fn a_cancelled_quote_leaves_no_trace() {
    let mut book = small_book(8);
    book.upsert_order(Side::Bid, 90, 2, 0, 0, false).unwrap();
    let before = book.to_bytes();
    let (head, count) = (book.header.free_head(), book.header.free_count());
    for tick in [80, 90 + 1, 100] {
        let node = book.upsert_order(Side::Bid, tick, 3, 0, 7, false).unwrap();
        assert_eq!(node, head);
        let id = book.pool[node as usize].seq();
        // Refused for node 0, a node past the pool, another seat, another id.
        for (seat, index, seq) in [(0, NIL, id), (0, 8, id), (1, node, id), (0, node, id + 1)] {
            let placed = book.to_bytes();
            assert_eq!(
                book.cancel_order(seat, index, seq),
                Err(ClobError::OrderNotFound.into())
            );
            assert_eq!(book.to_bytes(), placed);
        }
        assert_eq!(book.cancel_order(0, node, id), Ok(()));
        // Both bitmaps, all levels and all seats are what they were.
        let after = book.to_bytes();
        assert_eq!(after[320..POOL_OFFSET], before[320..POOL_OFFSET]);
        assert_eq!((book.header.free_head(), book.header.free_count()), (head, count));
        assert_eq!(book.cancel_order(0, node, id), Err(ClobError::OrderNotFound.into()));
        assert_eq!(book.to_bytes(), after);
    }
    assert!(check_invariants(&book, 0, 1_000));
}

#[test]
fn a_market_loads_only_if_it_is_well_formed() {
    let fresh = || {
        let mut book = small_book(8);
        book.claim_seat(&[2u8; 32]).unwrap();
        book.seats[1].set_base_free(50);
        book.upsert_order(Side::Bid, 70, 2, 0, 0, false).unwrap();
        book.upsert_order(Side::Bid, 72, 3, 0, 0, false).unwrap();
        book.upsert_order(Side::Ask, 75, 4, 1, 0, false).unwrap();
        book.upsert_order(Side::Ask, 76, 1, 1, 0, false).unwrap();
        book
    };
    let bytes = fresh().to_bytes();
    let loaded = BookRefMut::load(&bytes).expect("a market");
    assert_eq!(loaded.to_bytes(), bytes);
    assert_eq!((loaded.best_bid(), loaded.best_ask()), (Some(72), Some(75)));
    assert!(BookRefMut::load(&bytes[..bytes.len() - 1]).is_none());
    assert!(BookRefMut::load(&[]).is_none());

    let refused = |change: &dyn Fn(&mut BookRefMut)| {
        let mut book = fresh();
        change(&mut book);
        BookRefMut::load(&book.to_bytes()).is_none()
    };
    assert!(!refused(&|_| {}));
    // More locked than needed is no fault of the book's.
    assert!(!refused(&|b| b.seats[0].set_quote_locked(1_000)));
    // Terms.
    assert!(refused(&|b| b.header.set_anchor_tick(65)));
    assert!(refused(&|b| b.header.set_anchor_tick(0)));
    assert!(refused(&|b| b.header.set_tick_size(0)));
    assert!(refused(&|b| b.header.set_tick_size(1 << 60)));
    assert!(refused(&|b| b.header.set_base_lot_size(0)));
    assert!(refused(&|b| b.header.set_base_lot_size(u64::MAX)));
    assert!(refused(&|b| b.header.set_max_lots_per_order(3)));
    assert!(refused(&|b| b.header.set_tick_limit(8_000)));
    assert!(refused(&|b| b.header.set_tick_limit(u32::MAX)));
    // Levels and bits.
    assert!(refused(&|b| b.bid_bitmap.clear(70)));
    assert!(refused(&|b| b.bid_bitmap.set(71)));
    assert!(refused(&|b| b.bid_bitmap.summary[0] = 0));
    assert!(refused(&|b| b.ask_bitmap.summary[1] = 1));
    assert!(refused(&|b| b.levels[70].add_lots(1)));
    assert!(refused(&|b| b.levels[70].set_tail(3)));
    assert!(refused(&|b| b.levels[70].set_head(0)));
    assert!(refused(&|b| b.pool[1].set_next(2)));
    assert!(refused(&|b| b.pool[1].set_next(1)));
    assert!(refused(&|b| b.pool[1].set_next(9)));
    assert!(refused(&|b| b.pool[1].set_prev(2)));
    assert!(refused(&|b| b.pool[1].set_lots(0)));
    assert!(refused(&|b| b.pool[1].set_tick(71)));
    assert!(refused(&|b| b.pool[1].set_seq(u64::MAX)));
    // A bid at or above an ask.
    assert!(refused(&|b| {
        b.pool[3].set_tick(71);
        b.levels.swap(71, 75);
        b.ask_bitmap.clear(75);
        b.ask_bitmap.set(71);
    }));
    // Seats.
    assert!(refused(&|b| b.seats[0].set_owner([0; 32])));
    assert!(refused(&|b| b.seats[0].inc_order_count()));
    assert!(refused(&|b| b.seats[0].set_orders_head(2)));
    assert!(refused(&|b| b.seats[0].set_quote_locked(70 * 2 + 72 * 3 - 1)));
    assert!(refused(&|b| b.seats[1].set_base_locked(4)));
    assert!(refused(&|b| b.pool[2].set_maker_prev(0)));
    assert!(refused(&|b| b.pool[2].set_maker_and_side(1, Side::Bid)));
    assert!(refused(&|b| b.seats[5].set_base_free(u64::MAX)));
    // The free list.
    assert!(refused(&|b| b.header.set_free_count(2)));
    assert!(refused(&|b| b.header.set_free_head(6)));
    assert!(refused(&|b| b.header.set_free_head(1)));
    assert!(refused(&|b| b.pool[6].set_next(5)));
    assert!(refused(&|b| b.pool[6].set_seq(9)));
}

// Instructions and events as bytes.

#[test]
fn a_mass_quote_is_laid_out_in_order() {
    let ix = MassQuote { owner: [1; 32], market: [2; 32] }.instruction(MassQuoteInstructionArgs {
        seat_index: 0x0102,
        expiry_slot: 0x0304_0506,
        bids: vec![Quote { tick: 7, lots: 8, flags: 1 }],
        asks: vec![],
    });
    assert_eq!(ix.program_id, ID);
    assert_eq!(ix.accounts[0].pubkey, [1; 32]);
    assert!(ix.accounts[0].is_signer && !ix.accounts[0].is_writable);
    assert_eq!(ix.accounts[1].pubkey, [2; 32]);
    assert!(!ix.accounts[1].is_signer && ix.accounts[1].is_writable);
    let expected = vec![20u8, 2, 1, 6, 5, 4, 3, 1, 7, 0, 0, 0, 8, 0, 0, 0, 1, 0];
    assert_eq!(ix.data, expected);
}

#[test]
fn events_are_laid_out_in_order() {
    let mut expected = vec![2u8];
    expected.extend_from_slice(&[9u8; 32]);
    expected.extend_from_slice(&[44, 1]);
    assert_eq!(update_fee_event(&[9; 32], 300), expected);
    let mut expected = vec![5u8];
    expected.extend_from_slice(&[9u8; 32]);
    expected.extend_from_slice(&[8u8; 32]);
    expected.extend_from_slice(&[3, 0]);
    assert_eq!(claim_seat_event(&[9; 32], &[8; 32], 3), expected);
    let event = reanchor_event(&[9; 32], 0x40, 2);
    assert_eq!(event.len(), 41);
    assert_eq!(event[33..], [0x40, 0, 0, 0, 2, 0, 0, 0]);
}

/// The runtime's input for two accounts of the given data lengths.
fn serialized(lens: [usize; 2], ix: &[u8]) -> (Vec<u8>, usize) {
    let mut input = 2u64.to_le_bytes().to_vec();
    let mut at = [0usize; 2];
    for i in 0..2 {
        at[i] = input.len();
        let mut record = vec![0u8; 88];
        record[0] = 0xff;
        record[80..88].copy_from_slice(&(lens[i] as u64).to_le_bytes());
        input.extend(record);
        input.extend(vec![0u8; lens[i] + 10_240]);
        while input.len() % 8 != 0 {
            input.push(0);
        }
        input.extend_from_slice(&[0u8; 8]);
    }
    input.extend_from_slice(&(ix.len() as u64).to_le_bytes());
    input.extend_from_slice(ix);
    (input, at[1])
}

#[test]
fn the_fast_path_recognises_maker_calls() {
    for discriminator in [20u8, 21, 22] {
        let (input, market_at) = serialized([5, 333], &[discriminator, 1, 2, 3]);
        assert_eq!(
            probe(&input),
            Some(HotCall {
                owner_at: 8,
                market_at,
                discriminator,
                data_at: input.len() - 3,
                data_len: 3,
            })
        );
        assert_eq!(probe(&input[..input.len() - 1]), None);
        let mut twice = input.clone();
        twice[market_at] = 0;
        assert_eq!(probe(&twice), None);
        let mut three = input.clone();
        three[0] = 3;
        assert_eq!(probe(&three), None);
    }
    assert_eq!(probe(&serialized([5, 333], &[30, 1, 2, 3]).0), None);
    assert_eq!(probe(&serialized([5, 333], &[]).0), None);
    assert_eq!(probe(&[]), None);
}

#[test]
fn the_fast_path_reads_no_further_than_the_input_goes() {
    let follow = |input: &[u8]| {
        let mut readable = 0;
        let mut asked = Vec::new();
        loop {
            match scan(&input[..readable]) {
                Seen::More(n) => {
                    assert!(n > readable);
                    asked.push(n);
                    readable = n;
                }
                found => return (found, asked),
            }
        }
    };
    for discriminator in [20u8, 21, 22] {
        let (input, market_at) = serialized([5, 333], &[discriminator, 1, 2, 3]);
        let (found, asked) = follow(&input);
        assert_eq!(found, Seen::Call(probe(&input).unwrap()));
        let n = input.len();
        assert_eq!(asked, vec![9, 96, market_at + 1, market_at + 88, n - 4, n]);
        // A repeated account is recognised by its first byte.
        let mut twice = input[..market_at + 8].to_vec();
        twice[market_at] = 0;
        assert_eq!(follow(&twice), (Seen::Other, vec![9, 96, market_at + 1]));
    }
    // No accounts, one account, another instruction, none at all.
    assert_eq!(follow(&[0u8; 48]), (Seen::Other, vec![9]));
    let (input, market_at) = serialized([0, 0], &[30]);
    let n = input.len();
    let all = vec![9, 96, market_at + 1, market_at + 88, n - 1, n];
    assert_eq!(follow(&input), (Seen::Other, all));
    let (input, market_at) = serialized([0, 0], &[]);
    let n = input.len();
    assert_eq!(follow(&input), (Seen::Other, vec![9, 96, market_at + 1, market_at + 88, n]));
}
