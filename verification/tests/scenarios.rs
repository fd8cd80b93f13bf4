//! Whole instructions against a simulated ledger: accounts, a token program and
//! a clock. After each scenario the standing invariants are checked.

use clob::accounts::AccountView;
use clob::audit;
use clob::book::BookRefMut;
use clob::client::{MassQuote, MassQuoteInstructionArgs, MASS_QUOTE_DISCRIMINATOR};
use clob::constants::{
    CONFIG_SEED, FREED_SEQ, MARKET_VERSION, NIL, NODE_LEN, POOL_OFFSET, TOKEN_PROGRAM_2022,
    TOKEN_PROGRAM_LEGACY, VAULT_SEED, WINDOW_MASK, WINDOW_TICKS,
};
use clob::dispatch::{parse_instruction, Command};
use clob::errors::{ClobError, ProgramError};
use clob::events::{
    claim_seat_event, collect_fees_event, create_market_event, reanchor_event, update_fee_event,
};
use clob::keys::{derive_address, derive_token_account, token_program_id, ID};
use clob::market::{Config, Market};
use clob::quote::Quote;
use clob::side::Side;
use clob::snapshot::{MarketSnapshot, OrderSide, SnapshotError};
use clob::taker::TransferPlan;
use clob::token::{received, token_amount, CheckedTransfer};

type Key = [u8; 32];

const AUTHORITY: Key = [0xaa; 32];
const ALICE: Key = [0xa1; 32];
const BOB: Key = [0xb0; 32];
const PAYER: Key = [0xcc; 32];
const BASE_MINT: Key = [0xdd; 32];
const QUOTE_MINT: Key = [0xee; 32];
const MARKET: Key = [0x11; 32];
const SYSTEM: Key = [0; 32];

const TICK_SIZE: u64 = 100;
const BASE_LOT_SIZE: u64 = 1_000;
const ANCHOR: u32 = 64_000;
const FEE_BPS: u16 = 10;
const MAX_LOTS: u32 = 1_000_000;
const CAPACITY: usize = 4_096;

fn market_len() -> usize {
    POOL_OFFSET + CAPACITY * NODE_LEN
}

/// An account of the simulated ledger.
#[derive(Clone)]
struct Account {
    key: Key,
    owner: Key,
    data: Vec<u8>,
}

#[derive(Clone)]
struct Ix {
    /// Key, signer, writable.
    accounts: Vec<(Key, bool, bool)>,
    data: Vec<u8>,
}

/// A ledger with one market, a token program and a clock.
struct Venue {
    accounts: Vec<Account>,
    slot: u64,
    /// Transfer fee that the quote mint charges, in basis points.
    mint_fee_bps: u64,
    quote_mint: Key,
    vault_authority: Key,
    base_vault: Key,
    quote_vault: Key,
    base_program: Key,
    quote_program: Key,
    events: Vec<Vec<u8>>,
}

fn mint(owner: Key, decimals: u8) -> Vec<u8> {
    let _ = owner;
    let mut data = vec![0u8; 82];
    data[44] = decimals;
    data[45] = 1;
    data
}

fn token_account(mint: Key, owner: Key, amount: u64) -> Vec<u8> {
    let mut data = vec![0u8; 165];
    data[..32].copy_from_slice(&mint);
    data[32..64].copy_from_slice(&owner);
    data[64..72].copy_from_slice(&amount.to_le_bytes());
    data[108] = 1;
    data
}

fn wallet(owner: Key, mint: Key) -> Key {
    derive_token_account(&owner, &token_program_id(TOKEN_PROGRAM_LEGACY), &mint).unwrap()
}

fn config_address() -> Key {
    derive_address(&CONFIG_SEED, &AUTHORITY).unwrap().0
}

impl Venue {
    fn bare(quote_mint: Key, quote_flag: u8, quote_mint_data: Vec<u8>) -> Venue {
        let base_program = token_program_id(TOKEN_PROGRAM_LEGACY);
        let quote_program = token_program_id(quote_flag);
        let vault_authority = derive_address(&VAULT_SEED, &MARKET).unwrap().0;
        let base_vault = derive_token_account(&vault_authority, &base_program, &BASE_MINT).unwrap();
        let quote_vault =
            derive_token_account(&vault_authority, &quote_program, &quote_mint).unwrap();
        let mut v = Venue {
            accounts: Vec::new(),
            slot: 1,
            mint_fee_bps: 0,
            quote_mint,
            vault_authority,
            base_vault,
            quote_vault,
            base_program,
            quote_program,
            events: Vec::new(),
        };
        for key in [AUTHORITY, ALICE, BOB, PAYER, SYSTEM, vault_authority, config_address()] {
            v.put(key, SYSTEM, Vec::new());
        }
        v.put(base_program, SYSTEM, Vec::new());
        v.put(token_program_id(TOKEN_PROGRAM_2022), SYSTEM, Vec::new());
        v.put(BASE_MINT, base_program, mint(base_program, 9));
        v.put(quote_mint, quote_program, quote_mint_data);
        v.put(MARKET, ID, vec![0u8; market_len()]);
        v.put(base_vault, base_program, token_account(BASE_MINT, vault_authority, 0));
        v.put(quote_vault, quote_program, token_account(quote_mint, vault_authority, 0));
        for who in [ALICE, BOB] {
            let base = token_account(BASE_MINT, who, 1_000_000_000);
            let quote = token_account(quote_mint, who, 100_000_000_000);
            v.put(wallet(who, BASE_MINT), base_program, base);
            v.put(wallet(who, quote_mint), quote_program, quote);
        }
        v
    }

    fn new() -> Venue {
        let program = token_program_id(TOKEN_PROGRAM_LEGACY);
        let mut v = Venue::bare(QUOTE_MINT, TOKEN_PROGRAM_LEGACY, mint(program, 6));
        v.run(create_config(AUTHORITY, AUTHORITY));
        v.run(v.create_market(ANCHOR));
        v
    }

    fn funded() -> Venue {
        let mut v = Venue::new();
        v.run(claim_seat(AUTHORITY, ALICE));
        v.run(claim_seat(AUTHORITY, BOB));
        v.run(v.deposit(ALICE, 0, 100_000_000, 10_000_000_000));
        v.run(v.deposit(BOB, 1, 100_000_000, 10_000_000_000));
        v
    }

    fn put(&mut self, key: Key, owner: Key, data: Vec<u8>) {
        if let Some(a) = self.accounts.iter_mut().find(|a| a.key == key) {
            a.owner = owner;
            a.data = data;
        } else {
            self.accounts.push(Account { key, owner, data });
        }
    }

    fn data(&self, key: &Key) -> &Vec<u8> {
        &self.accounts.iter().find(|a| a.key == *key).unwrap().data
    }

    fn amount(&self, key: &Key) -> u64 {
        token_amount(self.data(key)).unwrap()
    }

    fn book(&self) -> BookRefMut {
        BookRefMut::from_bytes_unchecked_mut(self.data(&MARKET))
    }

    fn run(&mut self, ix: Ix) {
        let r = self.process(&ix);
        assert_eq!(r, Ok(()), "instruction failed");
    }

    fn run_expect_failure(&mut self, ix: Ix) -> ProgramError {
        let before = self.accounts.len();
        let market = self.data(&MARKET).clone();
        let r = self.process(&ix);
        assert!(r.is_err(), "instruction unexpectedly succeeded");
        assert_eq!(before, self.accounts.len());
        assert_eq!(&market, self.data(&MARKET));
        r.unwrap_err()
    }

    /// Run one instruction; a failure leaves no trace.
    fn process(&mut self, ix: &Ix) -> Result<(), ProgramError> {
        let saved = self.accounts.clone();
        let r = self.execute(ix);
        if r.is_err() {
            self.accounts = saved;
        }
        r
    }

    fn transfer(&mut self, ix: &Ix, p: &TransferPlan) -> Result<(), ProgramError> {
        let failed = Err(ProgramError::Custom(0xdead));
        let key = |i: usize| ix.accounts[i].0;
        let program = key(p.token_program);
        let from = key(p.from);
        let to = key(p.to);
        let authority = key(p.authority);
        let m = key(p.mint);
        let owned = |v: &Venue, k: Key| v.accounts.iter().find(|a| a.key == k).unwrap().owner;
        if owned(self, from) != program || owned(self, to) != program || owned(self, m) != program {
            return failed;
        }
        if self.data(&m)[44] != p.decimals {
            return failed;
        }
        if p.signed {
            assert_eq!(authority, self.vault_authority);
        } else if !ix.accounts[p.authority].1 {
            return failed;
        }
        if self.data(&from)[32..64] != authority || self.data(&from)[..32] != m {
            return failed;
        }
        // The bytes that the token program is sent.
        let bytes = CheckedTransfer::encode(p.amount, p.decimals);
        let amount = u64::from_le_bytes(bytes[1..9].try_into().unwrap());
        let bps = if m == self.quote_mint { self.mint_fee_bps } else { 0 };
        let fee = (amount * bps + 9_999) / 10_000;
        let have = self.amount(&from);
        if have < amount {
            return failed;
        }
        self.set_amount(&from, have - amount);
        let had = self.amount(&to);
        self.set_amount(&to, had + amount - fee);
        Ok(())
    }

    fn set_amount(&mut self, key: &Key, amount: u64) {
        let a = self.accounts.iter_mut().find(|a| a.key == *key).unwrap();
        a.data[64..72].copy_from_slice(&amount.to_le_bytes());
    }

    fn store(&mut self, book: &BookRefMut) {
        self.put(MARKET, ID, book.to_bytes());
    }

    fn store_header(&mut self, header: &Market) {
        let mut bytes = Vec::new();
        header.encode(&mut bytes);
        let a = self.accounts.iter_mut().find(|a| a.key == MARKET).unwrap();
        a.data[..320].copy_from_slice(&bytes);
    }

    fn execute(&mut self, ix: &Ix) -> Result<(), ProgramError> {
        let snapshot = self.accounts.clone();
        let views: Vec<AccountView> = ix
            .accounts
            .iter()
            .map(|(key, is_signer, is_writable)| {
                let a = snapshot.iter().find(|a| a.key == *key).unwrap();
                AccountView {
                    key: a.key,
                    owner: a.owner,
                    is_signer: *is_signer,
                    is_writable: *is_writable,
                    data: &a.data,
                }
            })
            .collect();
        let slot = self.slot;
        match parse_instruction(&views, &ix.data)? {
            Command::CreateMarket(c) => {
                let book = c.process(&views).unwrap()?;
                self.events.push(create_market_event(
                    &views[0].key,
                    &views[1].key,
                    &views[2].key,
                    c.tick_size,
                    c.base_lot_size,
                    c.fee_bps,
                ));
                self.store(&book);
            }
            Command::UpdateFee(c) => {
                let mut header = Market::from_bytes_unchecked(self.data(&MARKET));
                c.process(&mut header)?;
                self.events.push(update_fee_event(&MARKET, c.fee_bps));
                self.store_header(&header);
            }
            Command::CollectFees(c) => {
                let mut header = Market::from_bytes_unchecked(self.data(&MARKET));
                let amount = c.process(&mut header);
                self.store_header(&header);
                if let Some(p) = c.payment(&header, amount) {
                    self.transfer(ix, &p)?;
                }
                self.events.push(collect_fees_event(&MARKET, &views[0].key, amount));
            }
            Command::CreateConfig(c) => {
                let bump = c.locate(&views[1].key, &views[2].key).unwrap()?;
                let mut config = Config::from_bytes_unchecked(&[0u8; 128]);
                c.write(&mut config, &views[2].key, bump);
                let mut bytes = Vec::new();
                config.encode(&mut bytes);
                self.put(views[1].key, ID, bytes);
            }
            Command::UpdateConfig(c) => {
                let mut config = Config::from_bytes_unchecked(views[1].data);
                c.process(&mut config)?;
                let mut bytes = Vec::new();
                config.encode(&mut bytes);
                self.put(views[1].key, ID, bytes);
            }
            Command::ClaimSeat(c) => {
                let mut book = self.book();
                let seat = c.process(&mut book, &views[1].key)?;
                self.events.push(claim_seat_event(&MARKET, &views[1].key, seat));
                self.store(&book);
            }
            Command::CloseSeat(c) => {
                let mut book = self.book();
                c.process(&mut book, &views[0].key)?;
                self.store(&book);
            }
            Command::Deposit(c) => {
                let mut book = self.book();
                book.check_seat(c.seat_index, &views[0].key)?;
                for base in [true, false] {
                    if let Some(p) = c.pull(&book.header, base) {
                        let vault = views[p.to].key;
                        let pre = self.amount(&vault);
                        self.transfer(ix, &p)?;
                        let post = self.amount(&vault);
                        c.credit(&mut book, base, pre, post)?;
                    }
                }
                c.finish(&mut book);
                self.store(&book);
            }
            Command::Withdraw(c) => {
                let mut book = self.book();
                let payout = c.process(&mut book, &views[0].key)?;
                self.store(&book);
                for p in c.payments(&book.header, &payout) {
                    self.transfer(ix, &p)?;
                }
            }
            Command::MassQuote(c) => {
                let mut book = self.book();
                c.process(&mut book, &views[0].key)?;
                self.store(&book);
            }
            Command::PlaceLimit(c) => {
                let mut book = self.book();
                c.process(&mut book, &views[0].key, slot)?;
                self.store(&book);
            }
            Command::Cancel(c) => {
                let mut book = self.book();
                c.process(&mut book, &views[0].key)?;
                self.store(&book);
            }
            Command::PlaceTake(c) => {
                let mut book = self.book();
                c.process(&mut book, &views[0].key, slot)?;
                self.store(&book);
            }
            Command::Swap(c) => {
                let mut book = self.book();
                let pull = c.pull(&book.header);
                let vault = views[pull.to].key;
                let pre = self.amount(&vault);
                self.transfer(ix, &pull)?;
                let delta = received(pre, self.amount(&vault))?;
                let outcome = c.process(&mut book, delta, slot)?;
                self.store(&book);
                for p in c.payments(&book.header, &outcome) {
                    self.transfer(ix, &p)?;
                }
            }
            Command::Reanchor(c) => {
                let mut book = self.book();
                let (evicted, anchor) = c.process(&mut book)?;
                self.events.push(reanchor_event(&MARKET, anchor, evicted));
                self.store(&book);
            }
            Command::ReapExpired(c) => {
                let mut book = self.book();
                c.process(&mut book, slot)?;
                self.store(&book);
            }
        }
        Ok(())
    }

    /// Check the standing invariants against the current market state.
    fn check_invariants(&self) {
        assert!(BookRefMut::load(self.data(&MARKET)).is_some());
        check_invariants(&self.book(), self.amount(&self.base_vault), self.amount(&self.quote_vault));
    }

    fn create_market(&self, anchor_tick: u32) -> Ix {
        let mut data = vec![0u8];
        data.extend_from_slice(&TICK_SIZE.to_le_bytes());
        data.extend_from_slice(&BASE_LOT_SIZE.to_le_bytes());
        data.extend_from_slice(&anchor_tick.to_le_bytes());
        data.extend_from_slice(&FEE_BPS.to_le_bytes());
        data.extend_from_slice(&MAX_LOTS.to_le_bytes());
        Ix {
            accounts: vec![
                (MARKET, true, true),
                (BASE_MINT, false, false),
                (self.quote_mint, false, false),
                (self.base_vault, false, false),
                (self.quote_vault, false, false),
                (AUTHORITY, false, false),
                (config_address(), false, false),
            ],
            data,
        }
    }

    fn deposit(&self, owner: Key, seat: u16, base: u64, quote: u64) -> Ix {
        let mut data = vec![12u8];
        data.extend_from_slice(&seat.to_le_bytes());
        data.extend_from_slice(&base.to_le_bytes());
        data.extend_from_slice(&quote.to_le_bytes());
        Ix {
            accounts: vec![
                (owner, true, false),
                (MARKET, false, true),
                (wallet(owner, BASE_MINT), false, true),
                (wallet(owner, self.quote_mint), false, true),
                (self.base_vault, false, true),
                (self.quote_vault, false, true),
                (BASE_MINT, false, false),
                (self.quote_mint, false, false),
                (self.base_program, false, false),
                (self.quote_program, false, false),
            ],
            data,
        }
    }

    fn vault_accounts(&self, user: Key) -> Vec<(Key, bool, bool)> {
        vec![
            (user, true, false),
            (MARKET, false, true),
            (wallet(user, BASE_MINT), false, true),
            (wallet(user, self.quote_mint), false, true),
            (self.base_vault, false, true),
            (self.quote_vault, false, true),
            (self.vault_authority, false, false),
            (BASE_MINT, false, false),
            (self.quote_mint, false, false),
            (self.base_program, false, false),
            (self.quote_program, false, false),
        ]
    }

    fn withdraw(&self, owner: Key, seat: u16, base: u64, quote: u64) -> Ix {
        let mut data = vec![13u8];
        data.extend_from_slice(&seat.to_le_bytes());
        data.extend_from_slice(&base.to_le_bytes());
        data.extend_from_slice(&quote.to_le_bytes());
        Ix { accounts: self.vault_accounts(owner), data }
    }

    fn swap(&self, user: Key, side: u8, amount_in: u64, limit_tick: u32, min_out: u64) -> Ix {
        let mut data = vec![31u8, side];
        data.extend_from_slice(&amount_in.to_le_bytes());
        data.extend_from_slice(&limit_tick.to_le_bytes());
        data.extend_from_slice(&min_out.to_le_bytes());
        Ix { accounts: self.vault_accounts(user), data }
    }

    fn collect_fees(&self, authority: Key) -> Ix {
        Ix {
            accounts: vec![
                (authority, true, false),
                (MARKET, false, true),
                (self.quote_vault, false, true),
                (wallet(ALICE, self.quote_mint), false, true),
                (self.vault_authority, false, false),
                (self.quote_mint, false, false),
                (self.quote_program, false, false),
            ],
            data: vec![3u8],
        }
    }
}

fn create_config(seat_authority: Key, market_authority: Key) -> Ix {
    let mut data = vec![4u8];
    data.extend_from_slice(&seat_authority);
    data.extend_from_slice(&market_authority);
    Ix {
        accounts: vec![
            (PAYER, true, true),
            (config_address(), false, true),
            (AUTHORITY, true, false),
            (SYSTEM, false, false),
        ],
        data,
    }
}

fn claim_seat(authority: Key, owner: Key) -> Ix {
    Ix {
        accounts: vec![
            (authority, true, false),
            (owner, false, false),
            (config_address(), false, false),
            (MARKET, false, true),
        ],
        data: vec![10u8],
    }
}

fn maker(owner: Key, data: Vec<u8>) -> Ix {
    Ix { accounts: vec![(owner, true, false), (MARKET, false, true)], data }
}

fn mass_quote(owner: Key, seat_index: u16, expiry_slot: u32, bids: Vec<Quote>, asks: Vec<Quote>) -> Ix {
    let built = MassQuote { owner, market: MARKET }.instruction(MassQuoteInstructionArgs {
        seat_index,
        expiry_slot,
        bids,
        asks,
    });
    assert_eq!(built.program_id, ID);
    Ix {
        accounts: built.accounts.iter().map(|m| (m.pubkey, m.is_signer, m.is_writable)).collect(),
        data: built.data,
    }
}

fn place_limit(owner: Key, seat: u16, side: u8, tick: u32, lots: u32, flags: u8) -> Ix {
    let mut data = vec![21u8];
    data.extend_from_slice(&seat.to_le_bytes());
    data.push(side);
    data.extend_from_slice(&tick.to_le_bytes());
    data.extend_from_slice(&lots.to_le_bytes());
    data.extend_from_slice(&0u32.to_le_bytes());
    data.push(flags);
    maker(owner, data)
}

fn cancel(owner: Key, seat: u16, node: u16, seq: u64) -> Ix {
    let mut data = vec![22u8];
    data.extend_from_slice(&seat.to_le_bytes());
    data.extend_from_slice(&node.to_le_bytes());
    data.extend_from_slice(&seq.to_le_bytes());
    maker(owner, data)
}

fn place_take(owner: Key, seat: u16, side: u8, limit: u32, lots: u32, min_out: u64, flags: u8) -> Ix {
    let mut data = vec![30u8];
    data.extend_from_slice(&seat.to_le_bytes());
    data.push(side);
    data.extend_from_slice(&limit.to_le_bytes());
    data.extend_from_slice(&lots.to_le_bytes());
    data.extend_from_slice(&min_out.to_le_bytes());
    data.push(flags);
    maker(owner, data)
}

fn reanchor(authority: Key, target: u32, max_levels: u32) -> Ix {
    let mut data = vec![40u8];
    data.extend_from_slice(&target.to_le_bytes());
    data.extend_from_slice(&max_levels.to_le_bytes());
    Ix {
        accounts: vec![
            (authority, true, false),
            (config_address(), false, false),
            (MARKET, false, true),
        ],
        data,
    }
}

fn reap(side: u8, start_tick: u32, max_count: u32) -> Ix {
    let mut data = vec![41u8, side];
    data.extend_from_slice(&start_tick.to_le_bytes());
    data.extend_from_slice(&max_count.to_le_bytes());
    Ix { accounts: vec![(MARKET, false, true)], data }
}

fn q(tick: u32, lots: u32) -> Quote {
    Quote { tick, lots, flags: 0 }
}

fn err(e: ClobError) -> ProgramError {
    ProgramError::from(e)
}

/// Standing invariants of a market, and that the vaults hold exactly what the
/// seats and the fee account hold together.
fn check_invariants(book: &BookRefMut, base_vault_amount: u64, quote_vault_amount: u64) {
    let anchor = book.header.anchor_tick();
    let capacity = book.header.order_pool_capacity() as usize;
    if let (Some(bb), Some(ba)) = (book.best_bid(), book.best_ask()) {
        assert!(bb < ba, "crossed book: best_bid {bb} >= best_ask {ba}");
    }
    // 0 unseen, 1 live, 2 free, 4 live and chained
    let mut node_state = vec![0u8; capacity];
    for offset in 0..WINDOW_TICKS as u32 {
        let tick = anchor + offset;
        let bid = book.bid_bitmap.get(tick);
        let ask = book.ask_bitmap.get(tick);
        assert!(!(bid && ask), "tick {tick} set on both sides");
        let lvl = &book.levels[(tick & WINDOW_MASK) as usize];
        if bid || ask {
            let mut cur = lvl.head();
            let mut sum = 0u64;
            assert_ne!(cur, NIL, "occupied tick {tick} with empty level");
            while cur != NIL {
                let node = &book.pool[cur as usize];
                let expected_side = if bid { Side::Bid } else { Side::Ask };
                assert!(node.lots() > 0, "zero-lot node {cur} linked in level {tick}");
                assert_ne!(node.seq(), FREED_SEQ, "freed node {cur} linked in level {tick}");
                assert_eq!(node.tick(), tick, "node {cur} tick mismatch");
                assert!(node.side() == expected_side, "node {cur} side disagrees at tick {tick}");
                assert_eq!(node_state[cur as usize], 0, "node {cur} in two levels");
                node_state[cur as usize] = 1;
                sum += node.lots() as u64;
                cur = node.next();
            }
            assert_eq!(sum, lvl.total_lots(), "level {tick} total mismatch");
        } else {
            assert_eq!(lvl.head(), NIL, "unoccupied level {tick} not zeroed");
            assert_eq!(lvl.total_lots(), 0, "unoccupied level {tick} has lots");
        }
    }
    assert_eq!(node_state[0], 0, "reserved node 0 linked in a level");
    let mut free = 0u32;
    let mut cur = book.header.free_head();
    while cur != NIL {
        assert_eq!(node_state[cur as usize], 0, "free node {cur} also live");
        assert_eq!(book.pool[cur as usize].seq(), FREED_SEQ, "free node {cur} unmarked");
        node_state[cur as usize] = 2;
        free += 1;
        assert!(free < capacity as u32, "free list cycle");
        cur = book.pool[cur as usize].next();
    }
    assert_eq!(free, book.header.free_count(), "free_count mismatch");
    let mut base_total = 0u64;
    let mut quote_total = 0u64;
    for (i, seat) in book.seats.iter().enumerate() {
        if seat.is_free() {
            continue;
        }
        base_total += seat.base_free() + seat.base_locked();
        quote_total += seat.quote_free() + seat.quote_locked();
        let mut base_locked = 0u64;
        let mut quote_locked = 0u64;
        let mut count = 0u16;
        let mut prev = NIL;
        let mut cur = seat.orders_head();
        let mut last_key = 0u64;
        while cur != NIL {
            let node = &book.pool[cur as usize];
            assert_eq!(node.maker() as usize, i, "node {cur} maker mismatch");
            assert_eq!(node.maker_prev(), prev, "node {cur} back-link broken");
            assert!(node.lots() > 0, "seat {i} chains node {cur} with no lots");
            assert_eq!(node_state[cur as usize], 1, "chained node {cur} not in a level");
            node_state[cur as usize] = 4;
            count += 1;
            let side = node.side();
            assert!(
                match side {
                    Side::Bid => book.bid_bitmap.get(node.tick()),
                    Side::Ask => book.ask_bitmap.get(node.tick()),
                },
                "node {cur} stored side disagrees with bitmap"
            );
            let high = if side == Side::Ask { 1u64 } else { 0 };
            let key = (high << 32) | node.tick() as u64;
            assert!(key > last_key, "seat {i} chain unsorted or tick duplicated");
            last_key = key;
            match side {
                Side::Bid => {
                    quote_locked +=
                        node.tick() as u64 * book.header.tick_size() * node.lots() as u64
                }
                Side::Ask => base_locked += node.lots() as u64 * book.header.base_lot_size(),
            }
            prev = cur;
            cur = node.maker_next();
        }
        assert_eq!(count, seat.order_count(), "seat {i} order_count mismatch");
        assert_eq!(base_locked, seat.base_locked(), "seat {i} base lock mismatch");
        assert_eq!(quote_locked, seat.quote_locked(), "seat {i} quote lock mismatch");
    }
    for (idx, state) in node_state.iter().enumerate() {
        assert_ne!(*state, 1, "live node {idx} not in any seat chain");
    }
    assert_eq!(base_total, base_vault_amount, "base conservation violated");
    assert_eq!(
        quote_total + book.header.fees_accrued_quote(),
        quote_vault_amount,
        "quote conservation violated"
    );
    assert!(audit::check_invariants(book, base_vault_amount, quote_vault_amount));
    assert!(!audit::check_invariants(book, base_vault_amount + 1, quote_vault_amount));
    assert!(!audit::check_invariants(book, base_vault_amount, quote_vault_amount + 1));
}

// Creating a market.

#[test]
fn create_market() {
    let v = Venue::new();
    let header = Market::from_bytes_unchecked(&v.data(&MARKET)[..320]);
    assert_eq!(header.version(), MARKET_VERSION);
    assert_eq!(header.tick_size(), TICK_SIZE);
    assert_eq!(header.base_lot_size(), BASE_LOT_SIZE);
    assert_eq!(header.anchor_tick(), ANCHOR);
    assert_eq!(header.fee_bps(), FEE_BPS);
    assert_eq!(header.order_pool_capacity(), CAPACITY as u32);
    // Node 0 is reserved, so one fewer node is allocatable.
    assert_eq!(header.free_count(), CAPACITY as u32 - 1);
    assert_eq!(header.seq, 1);
    assert_eq!(*header.config(), config_address());
    v.check_invariants();
    // The recorded addresses, decimals and programs.
    assert_eq!(*header.vault_authority(), v.vault_authority);
    assert_eq!(*header.base_vault(), v.base_vault);
    assert_eq!(*header.quote_vault(), v.quote_vault);
    assert_eq!(header.bump()[0], derive_address(&VAULT_SEED, &MARKET).unwrap().1);
    assert_eq!(header.base_decimals(), 9);
    assert_eq!(header.quote_decimals(), 6);
    assert_eq!(header.base_token_program(), TOKEN_PROGRAM_LEGACY);
    // (2^64 - 1) / (100 * 1_000_000 * 10_500)
    assert_eq!(header.tick_limit(), 17_568_327);
    let event = &v.events[0];
    assert_eq!(event.len(), 115);
    assert_eq!(event[0], 0);
    assert_eq!(event[1..33], MARKET);
    assert_eq!(event[97..105], TICK_SIZE.to_le_bytes());
}

#[test]
fn a_market_is_created_once() {
    let mut v = Venue::new();
    let ix = v.create_market(ANCHOR);
    assert_eq!(v.run_expect_failure(ix), err(ClobError::InvalidState));
}

#[test]
fn market_parameters_are_checked() {
    let program = token_program_id(TOKEN_PROGRAM_LEGACY);
    let mut v = Venue::bare(QUOTE_MINT, TOKEN_PROGRAM_LEGACY, mint(program, 6));
    v.run(create_config(AUTHORITY, AUTHORITY));
    let invalid = err(ClobError::InvalidMarketParams);
    // An anchor inside a word.
    let ix = v.create_market(64_001);
    assert_eq!(v.run_expect_failure(ix), invalid);
    // No size at all.
    for at in [1usize, 9, 23] {
        let mut ix = v.create_market(ANCHOR);
        let width = if at == 23 { 4 } else { 8 };
        for b in &mut ix.data[at..at + width] {
            *b = 0;
        }
        assert_eq!(v.run_expect_failure(ix), invalid);
    }
    // Amounts that overflow.
    let mut ix = v.create_market(ANCHOR);
    ix.data[1..9].copy_from_slice(&u64::MAX.to_le_bytes());
    assert_eq!(v.run_expect_failure(ix), invalid);
    let mut ix = v.create_market(ANCHOR);
    ix.data[9..17].copy_from_slice(&u64::MAX.to_le_bytes());
    assert_eq!(v.run_expect_failure(ix), invalid);
    // A window above the tick limit.
    let ix = v.create_market(17_568_320);
    assert_eq!(v.run_expect_failure(ix), invalid);
    // One mint for both sides.
    let mut ix = v.create_market(ANCHOR);
    ix.accounts[2] = ix.accounts[1];
    assert_eq!(v.run_expect_failure(ix), invalid);
    // A fee above the cap.
    let mut ix = v.create_market(ANCHOR);
    ix.data[21..23].copy_from_slice(&501u16.to_le_bytes());
    assert_eq!(v.run_expect_failure(ix), err(ClobError::InvalidFee));
    // Vaults in each other's place.
    let mut ix = v.create_market(ANCHOR);
    ix.accounts.swap(3, 4);
    assert_eq!(v.run_expect_failure(ix), err(ClobError::InvalidTokenAddress));
    // A mint of an unknown program.
    let mut ix = v.create_market(ANCHOR);
    ix.accounts[1].0 = PAYER;
    assert_eq!(v.run_expect_failure(ix), err(ClobError::UnsupportedTokenProgram));
    let ix = v.create_market(ANCHOR);
    v.run(ix);
}

#[test]
fn mints_are_checked() {
    let legacy = token_program_id(TOKEN_PROGRAM_LEGACY);
    // Not initialized.
    let mut data = mint(legacy, 6);
    data[45] = 0;
    let mut v = Venue::bare(QUOTE_MINT, TOKEN_PROGRAM_LEGACY, data);
    v.run(create_config(AUTHORITY, AUTHORITY));
    let ix = v.create_market(ANCHOR);
    assert_eq!(v.run_expect_failure(ix), err(ClobError::InvalidState));
    // A legacy mint has one length.
    let mut v = Venue::bare(QUOTE_MINT, TOKEN_PROGRAM_LEGACY, vec![1u8; 83]);
    v.run(create_config(AUTHORITY, AUTHORITY));
    let ix = v.create_market(ANCHOR);
    assert_eq!(v.run_expect_failure(ix), err(ClobError::InvalidAccountLength));
    // An extended token account is no mint.
    let mut data = vec![0u8; 170];
    data[45] = 1;
    data[165] = 2;
    let mut v = Venue::bare(QUOTE_MINT, TOKEN_PROGRAM_2022, data);
    v.run(create_config(AUTHORITY, AUTHORITY));
    let ix = v.create_market(ANCHOR);
    assert_eq!(v.run_expect_failure(ix), err(ClobError::InvalidState));
}

/// An extended mint: the base record, padding, the account type of a mint,
/// then the extension entries.
fn extended_mint(entries: &[(u16, usize)]) -> Vec<u8> {
    let mut data = vec![0u8; 166];
    data[44] = 6;
    data[45] = 1;
    data[165] = 1;
    for (kind, len) in entries {
        data.extend_from_slice(&kind.to_le_bytes());
        data.extend_from_slice(&(*len as u16).to_le_bytes());
        data.extend(vec![0u8; *len]);
    }
    data
}

fn assert_create_market_rejects_permanent_delegate(quote_mint_data: Vec<u8>) {
    let mut v = Venue::bare([0x27; 32], TOKEN_PROGRAM_2022, quote_mint_data);
    v.run(create_config(AUTHORITY, AUTHORITY));
    let ix = v.create_market(ANCHOR);
    let e = v.run_expect_failure(ix);
    assert_eq!(e, ProgramError::Custom(ClobError::PermanentDelegateNotAllowed.code()));
    assert_eq!(e, err(ClobError::PermanentDelegateNotAllowed));
}

#[test]
fn create_market_rejects_mint_with_permanent_delegate_only() {
    assert_create_market_rejects_permanent_delegate(extended_mint(&[(12, 32)]));
}

#[test]
fn create_market_rejects_mint_with_permanent_delegate_after_transfer_fee_config() {
    assert_create_market_rejects_permanent_delegate(extended_mint(&[(1, 108), (12, 32)]));
}

// Configs.

#[test]
fn a_role_is_never_given_to_nobody() {
    let program = token_program_id(TOKEN_PROGRAM_LEGACY);
    let mut v = Venue::bare(QUOTE_MINT, TOKEN_PROGRAM_LEGACY, mint(program, 6));
    let zero = err(ClobError::ZeroAuthority);
    assert_eq!(v.run_expect_failure(create_config([0; 32], BOB)), zero);
    assert_eq!(v.run_expect_failure(create_config(BOB, [0; 32])), zero);
    v.run(create_config(ALICE, BOB));
    let config = Config::from_bytes_unchecked(v.data(&config_address()));
    assert_eq!(config.version(), 1);
    assert_eq!(*config.authority(), AUTHORITY);
    assert_eq!(*config.seat_authority(), ALICE);
    assert_eq!(*config.market_authority(), BOB);
    let mut update = create_config(BOB, [0; 32]);
    update.data[0] = 5;
    update.accounts = vec![(AUTHORITY, true, false), (config_address(), false, true)];
    assert_eq!(v.run_expect_failure(update.clone()), zero);
    update.data[33..65].copy_from_slice(&ALICE);
    v.run(update.clone());
    let config = Config::from_bytes_unchecked(v.data(&config_address()));
    assert_eq!(*config.seat_authority(), BOB);
    assert_eq!(*config.market_authority(), ALICE);
    // Only the config's authority may do that.
    update.accounts[0].0 = BOB;
    assert_eq!(v.run_expect_failure(update), err(ClobError::InvalidProgramAuthority));
}

#[test]
fn a_config_stands_at_its_derived_address() {
    let program = token_program_id(TOKEN_PROGRAM_LEGACY);
    let mut v = Venue::bare(QUOTE_MINT, TOKEN_PROGRAM_LEGACY, mint(program, 6));
    let mut ix = create_config(ALICE, BOB);
    ix.accounts[1].0 = BOB;
    assert_eq!(v.run_expect_failure(ix), err(ClobError::InvalidAccountOwner));
}

// Fees.

#[test]
fn fees_are_capped_and_collected() {
    let mut v = Venue::funded();
    let mut set = |bps: u16, who: Key| {
        let mut data = vec![2u8];
        data.extend_from_slice(&bps.to_le_bytes());
        Ix { accounts: vec![(who, true, false), (MARKET, false, true)], data }
    };
    let too_high = set(501, AUTHORITY);
    let by_bob = set(20, BOB);
    let fine = set(20, AUTHORITY);
    assert_eq!(v.run_expect_failure(too_high), err(ClobError::InvalidFee));
    assert_eq!(v.run_expect_failure(by_bob), err(ClobError::InvalidProgramAuthority));
    v.run(fine);
    assert_eq!(v.book().header.fee_bps(), 20);
    v.run(mass_quote(ALICE, 0, 0, vec![], vec![q(66_010, 100)]));
    v.run(place_take(BOB, 1, 0, 66_010, 100, 0, 0));
    let fee = 100 * 66_010 * TICK_SIZE * 20 / 10_000;
    assert_eq!(v.book().header.fees_accrued_quote(), fee);
    v.check_invariants();
    let before = v.amount(&wallet(ALICE, QUOTE_MINT));
    let ix = v.collect_fees(AUTHORITY);
    v.run(ix.clone());
    assert_eq!(v.amount(&wallet(ALICE, QUOTE_MINT)), before + fee);
    v.check_invariants();
    // Nothing is left to collect.
    v.run(ix);
    assert_eq!(v.amount(&wallet(ALICE, QUOTE_MINT)), before + fee);
    assert_eq!(v.events.last().unwrap()[65..73], 0u64.to_le_bytes());
    let ix = v.collect_fees(BOB);
    assert_eq!(v.run_expect_failure(ix), err(ClobError::InvalidProgramAuthority));
}

// Seats.

#[test]
fn seat_deposit_withdraw() {
    let mut v = Venue::funded();
    v.check_invariants();

    let ix = v.withdraw(ALICE, 0, u64::MAX, u64::MAX);
    v.run(ix);
    v.check_invariants();
    assert_eq!(v.amount(&wallet(ALICE, BASE_MINT)), 1_000_000_000);

    // Seat 0 is empty again: closing must succeed.
    v.run(maker(ALICE, vec![11, 0, 0]));
    v.check_invariants();
    assert!(v.book().seats[0].is_free());
}

#[test]
fn a_seat_with_funds_or_orders_is_not_closed() {
    let mut v = Venue::funded();
    let close = maker(ALICE, vec![11, 0, 0]);
    assert_eq!(v.run_expect_failure(close.clone()), err(ClobError::SeatNotEmpty));
    v.run(mass_quote(ALICE, 0, 0, vec![], vec![q(66_010, 100_000)]));
    let ix = v.withdraw(ALICE, 0, u64::MAX, u64::MAX);
    v.run(ix);
    assert_eq!(v.book().seats[0].base_free(), 0);
    assert_eq!(v.run_expect_failure(close), err(ClobError::SeatNotEmpty));
    assert_eq!(
        v.run_expect_failure(maker(BOB, vec![11, 0, 0])),
        err(ClobError::InvalidSeatOwner)
    );
    assert_eq!(
        v.run_expect_failure(maker(BOB, vec![11, 128, 0])),
        err(ClobError::InvalidSeatIndex)
    );
}

#[test]
fn withdrawals_are_covered() {
    let mut v = Venue::funded();
    let ix = v.withdraw(ALICE, 0, 100_000_001, 0);
    assert_eq!(v.run_expect_failure(ix), err(ClobError::InsufficientBalance));
    let ix = v.withdraw(ALICE, 0, 40, 50);
    v.run(ix);
    let book = v.book();
    assert_eq!(book.seats[0].base_free(), 100_000_000 - 40);
    assert_eq!(book.seats[0].quote_free(), 10_000_000_000 - 50);
    v.check_invariants();
}

#[test]
fn the_seat_table_fills_up() {
    let mut v = Venue::new();
    for i in 0..128u8 {
        let mut key = [7u8; 32];
        key[0] = i;
        v.put(key, SYSTEM, Vec::new());
        v.run(claim_seat(AUTHORITY, key));
        assert_eq!(v.events.last().unwrap()[65..67], (i as u16).to_le_bytes());
    }
    assert_eq!(v.run_expect_failure(claim_seat(AUTHORITY, ALICE)), err(ClobError::SeatTableFull));
}

#[test]
fn attack_claim_seat_without_authority_is_rejected() {
    let mut v = Venue::new();
    let e = v.run_expect_failure(claim_seat(BOB, BOB));
    assert_eq!(e, err(ClobError::InvalidProgramAuthority));
    v.check_invariants();
}

#[test]
fn attack_claim_seat_rejects_zero_owner() {
    let mut v = Venue::new();
    v.run_expect_failure(claim_seat(AUTHORITY, [0u8; 32]));
    v.run(claim_seat(AUTHORITY, ALICE));
    assert_eq!(*v.book().seats[0].owner(), ALICE);
}

// Makers.

#[test]
fn full_market_snapshot_decoder_matches_live_book() {
    let mut v = Venue::funded();
    v.run(mass_quote(ALICE, 0, 0, vec![q(65_990, 10)], vec![q(66_010, 20)]));

    let data = v.data(&MARKET);
    let snapshot = MarketSnapshot::decode(data).ok().unwrap();
    assert_eq!(snapshot.levels.len(), WINDOW_TICKS);
    assert_eq!(snapshot.seats.len(), 128);
    assert_eq!(snapshot.orders.len(), CAPACITY);
    assert!(snapshot.bid_bitmap.contains(65_990));
    assert!(snapshot.ask_bitmap.contains(66_010));
    assert!(!snapshot.ask_bitmap.contains(65_990));

    let orders = snapshot.live_orders();
    assert_eq!(orders.len(), 2);
    assert_eq!(orders[0].maker, 0);
    assert_eq!(orders[0].side, OrderSide::Bid);
    assert_eq!(orders[1].side, OrderSide::Ask);
    assert_eq!(orders[0].index, 1);
    assert_eq!(orders[0].node.lots(), 10);

    assert!(matches!(
        MarketSnapshot::decode(&data[..data.len() - 1]),
        Err(SnapshotError::LengthMismatch { .. })
    ));
    assert!(matches!(
        MarketSnapshot::decode(&data[..POOL_OFFSET - 1]),
        Err(SnapshotError::TooShort { actual: 143_711, minimum: 143_712 })
    ));
    let mut other = data.clone();
    other[0] = 3;
    assert!(matches!(
        MarketSnapshot::decode(&other),
        Err(SnapshotError::UnsupportedVersion { actual: 3, expected: 4 })
    ));
}

#[test]
fn place_and_cancel() {
    let mut v = Venue::funded();

    // Three post-only bids; nodes allocate in order 1, 2, 3 with order ids 0,
    // 1, 2.
    for (i, tick) in [66_000u32, 66_001, 66_002].into_iter().enumerate() {
        v.run(place_limit(ALICE, 0, 0, tick, 10 + i as u32, 0b01));
    }
    v.check_invariants();

    // Cancel the middle order (node 2, order id 1).
    v.run(cancel(ALICE, 0, 2, 1));
    v.check_invariants();

    // Cancelling it again must fail.
    let e = v.run_expect_failure(cancel(ALICE, 0, 2, 1));
    assert_eq!(e, err(ClobError::OrderNotFound));

    // Cancel everything; the book must be empty.
    v.run(mass_quote(ALICE, 0, 0, vec![], vec![]));
    v.check_invariants();

    let book = v.book();
    assert!(book.best_bid().is_none());
    assert!(book.best_ask().is_none());
}

#[test]
fn cancel_accepts_64_bit_generation_and_skips_free_marker() {
    let mut v = Venue::funded();
    let mut book = v.book();
    book.header.set_next_order_id_for_test(u64::MAX - 1);
    v.store(&book);

    for tick in [66_000, 66_001] {
        v.run(place_limit(ALICE, 0, 0, tick, 10, 0b01));
    }

    let book = v.book();
    assert_eq!(book.pool[1].seq(), u64::MAX - 1);
    assert_eq!(book.pool[2].seq(), 0, "free marker was used as a live id");

    v.run(cancel(ALICE, 0, 1, u64::MAX - 1));
    v.check_invariants();
}

#[test]
fn a_free_node_is_not_cancelled_by_its_marker() {
    let mut v = Venue::funded();
    let e = v.run_expect_failure(cancel(ALICE, 0, 5, FREED_SEQ));
    assert_eq!(e, err(ClobError::OrderNotFound));
    let e = v.run_expect_failure(cancel(ALICE, 0, 0, 0));
    assert_eq!(e, err(ClobError::OrderNotFound));
    let e = v.run_expect_failure(cancel(ALICE, 0, 65_535, 0));
    assert_eq!(e, err(ClobError::OrderNotFound));
}

#[test]
fn a_reused_node_is_not_cancelled_by_an_old_id() {
    let mut v = Venue::funded();
    v.run(place_limit(ALICE, 0, 0, 66_000, 10, 1));
    v.run(cancel(ALICE, 0, 1, 0));
    v.run(place_limit(ALICE, 0, 0, 66_000, 10, 1));
    assert_eq!(v.book().pool[1].seq(), 1);
    assert_eq!(v.run_expect_failure(cancel(ALICE, 0, 1, 0)), err(ClobError::OrderNotFound));
    v.run(cancel(ALICE, 0, 1, 1));
}

#[test]
fn mass_quote_and_refresh() {
    let mut v = Venue::funded();

    let bids: Vec<Quote> = (0..10).map(|i| q(65_990 - i, 100)).collect();
    let asks: Vec<Quote> = (0..10).map(|i| q(66_010 + i, 100)).collect();
    let mut bids_sorted = bids.clone();
    bids_sorted.sort_by_key(|x| x.tick);
    v.run(mass_quote(ALICE, 0, 0, bids_sorted.clone(), asks.clone()));
    v.check_invariants();

    let book = v.book();
    assert_eq!(book.best_bid(), Some(65_990));
    assert_eq!(book.best_ask(), Some(66_010));

    // Refresh shifted one tick up: the merge cancels the dropped edge, keeps
    // the overlap, inserts the new edge.
    let mut bids2: Vec<Quote> = (0..10).map(|i| q(65_991 - i, 100)).collect();
    let asks2: Vec<Quote> = (0..10).map(|i| q(66_011 + i, 100)).collect();
    bids2.sort_by_key(|x| x.tick);
    v.run(mass_quote(ALICE, 0, 0, bids2, asks2));
    v.check_invariants();

    let book = v.book();
    assert_eq!(book.best_bid(), Some(65_991));
    assert_eq!(book.best_ask(), Some(66_011));

    // An empty payload cancels everything.
    v.run(mass_quote(ALICE, 0, 0, vec![], vec![]));
    v.check_invariants();
    let book = v.book();
    assert!(book.best_bid().is_none());
    assert!(book.best_ask().is_none());
}

#[test]
fn mass_quote_can_flip_a_full_seat_from_asks_to_bids() {
    let mut v = Venue::funded();

    let asks: Vec<Quote> = (0..128).map(|i| q(67_000 + i, 1)).collect();
    v.run(mass_quote(ALICE, 0, 0, vec![], asks));
    v.check_invariants();

    // The final set is legal even though the merge of the bids temporarily
    // holds both the old asks and the replacement bids.
    let bids: Vec<Quote> = (0..128).map(|i| q(65_000 + i, 1)).collect();
    v.run(mass_quote(ALICE, 0, 0, bids, vec![]));
    v.check_invariants();

    let book = v.book();
    assert_eq!(book.seats[0].order_count(), 128);
    assert_eq!(book.best_bid(), Some(65_127));
    assert!(book.best_ask().is_none());
}

#[test]
fn mass_quotes_are_checked() {
    let mut v = Venue::funded();
    let quotes = |n: u32| (0..n).map(|i| q(65_000 + i, 1)).collect::<Vec<Quote>>();
    let too_many = err(ClobError::TooManyOrders);
    assert_eq!(v.run_expect_failure(mass_quote(ALICE, 0, 0, quotes(129), vec![])), too_many);
    assert_eq!(
        v.run_expect_failure(mass_quote(ALICE, 0, 0, quotes(100), vec![q(67_000, 1); 29])),
        too_many
    );
    let unsorted = vec![q(65_001, 1), q(65_000, 1)];
    assert_eq!(
        v.run_expect_failure(mass_quote(ALICE, 0, 0, unsorted, vec![])),
        err(ClobError::PayloadNotSorted)
    );
    let twice = vec![q(65_000, 1), q(65_000, 1)];
    assert_eq!(
        v.run_expect_failure(mass_quote(ALICE, 0, 0, twice, vec![])),
        err(ClobError::PayloadNotSorted)
    );
    for lots in [0, MAX_LOTS + 1] {
        assert_eq!(
            v.run_expect_failure(mass_quote(ALICE, 0, 0, vec![q(65_000, lots)], vec![])),
            err(ClobError::InvalidLots)
        );
    }
    for tick in [0, ANCHOR - 1, ANCHOR + 8_192] {
        assert_eq!(
            v.run_expect_failure(mass_quote(ALICE, 0, 0, vec![q(tick, 1)], vec![])),
            err(ClobError::TickOutOfWindow)
        );
    }
    // Sorted within each side, and beyond what the seat can fund.
    assert_eq!(
        v.run_expect_failure(mass_quote(ALICE, 0, 0, vec![q(65_000, 2_000)], vec![])),
        err(ClobError::InsufficientBalance)
    );
}

#[test]
fn the_order_pool_runs_out() {
    let program = token_program_id(TOKEN_PROGRAM_LEGACY);
    let mut v = Venue::bare(QUOTE_MINT, TOKEN_PROGRAM_LEGACY, mint(program, 6));
    v.put(MARKET, ID, vec![0u8; POOL_OFFSET + 64 * NODE_LEN]);
    v.run(create_config(AUTHORITY, AUTHORITY));
    let ix = v.create_market(ANCHOR);
    v.run(ix);
    v.run(claim_seat(AUTHORITY, ALICE));
    let ix = v.deposit(ALICE, 0, 100_000_000, 10_000_000_000);
    v.run(ix);
    let full: Vec<Quote> = (0..63).map(|i| q(65_000 + i, 1)).collect();
    v.run(mass_quote(ALICE, 0, 0, full, vec![]));
    let e = v.run_expect_failure(place_limit(ALICE, 0, 0, 65_100, 1, 1));
    assert_eq!(e, err(ClobError::PoolFull));
    v.check_invariants();
}

#[test]
fn a_seat_has_at_most_128_orders() {
    let mut v = Venue::funded();
    let full: Vec<Quote> = (0..128).map(|i| q(65_000 + i, 1)).collect();
    v.run(mass_quote(ALICE, 0, 0, full, vec![]));
    let e = v.run_expect_failure(place_limit(ALICE, 0, 0, 65_500, 1, 1));
    assert_eq!(e, err(ClobError::TooManyOrders));
}

#[test]
fn a_post_only_quote_slides_or_is_refused() {
    let mut v = Venue::funded();
    v.run(place_limit(BOB, 1, 1, 66_010, 10, 1));
    // Slides to one tick off the ask.
    v.run(place_limit(ALICE, 0, 0, 66_020, 10, 1));
    assert_eq!(v.book().best_bid(), Some(66_009));
    // Refused when asked to be.
    let e = v.run_expect_failure(place_limit(ALICE, 0, 0, 66_020, 10, 0b11));
    assert_eq!(e, err(ClobError::WouldCross));
    // No room to slide.
    v.run(place_limit(BOB, 1, 1, 66_010, 0, 1));
    v.run(place_limit(ALICE, 0, 0, 66_009, 0, 1));
    v.run(place_limit(BOB, 1, 1, ANCHOR, 10, 1));
    let e = v.run_expect_failure(place_limit(ALICE, 0, 0, 66_000, 10, 1));
    assert_eq!(e, err(ClobError::TickOutOfWindow));
    v.check_invariants();
}

#[test]
fn amending_keeps_or_loses_the_place_in_the_queue() {
    let mut v = Venue::funded();
    v.run(place_limit(ALICE, 0, 1, 66_010, 10, 1));
    v.run(place_limit(BOB, 1, 1, 66_010, 10, 1));
    // Smaller: Alice stays first.
    v.run(place_limit(ALICE, 0, 1, 66_010, 4, 1));
    let slot = (66_010 & WINDOW_MASK) as usize;
    assert_eq!(v.book().levels[slot].head(), 1);
    assert_eq!(v.book().levels[slot].total_lots(), 14);
    // Larger: Alice goes to the back.
    v.run(place_limit(ALICE, 0, 1, 66_010, 20, 1));
    let book = v.book();
    assert_eq!(book.pool[book.levels[slot].head() as usize].maker(), 1);
    assert_eq!(book.levels[slot].total_lots(), 30);
    v.check_invariants();
}

#[test]
fn attack_mass_quote_slide_collapses_two_quotes_onto_one_tick() {
    let mut v = Venue::funded();

    // Bob rests an ask at 66_010, setting the opposing best.
    v.run(mass_quote(BOB, 1, 0, vec![], vec![q(66_010, 100)]));

    // Alice bids 66_008 and 66_009, neither of which crosses, plus 66_010 and
    // 66_011, which do and therefore slide to 66_009.
    let e = v.run_expect_failure(mass_quote(
        ALICE,
        0,
        0,
        vec![q(66_008, 10), q(66_009, 20), q(66_010, 30), q(66_011, 40)],
        vec![],
    ));
    assert_eq!(e, err(ClobError::WouldCross));
    v.check_invariants();

    let book = v.book();
    assert_eq!(book.seats[0].order_count(), 0, "failed merge was not atomic");
    assert_eq!(book.best_ask(), Some(66_010), "opposing quote was changed");
}

#[test]
fn attack_cancel_other_makers_order() {
    let mut v = Venue::funded();
    v.run(mass_quote(ALICE, 0, 0, vec![], vec![q(66_010, 100)]));

    // Bob signs, but names Alice's seat.
    v.run_expect_failure(cancel(BOB, 0, 1, 0));

    // Nor can he cancel her order from his own seat.
    v.run_expect_failure(cancel(BOB, 1, 1, 0));

    // And Bob cannot withdraw from Alice's seat either.
    let ix = v.withdraw(BOB, 0, u64::MAX, u64::MAX);
    v.run_expect_failure(ix);
    v.check_invariants();
}

#[test]
fn attack_mass_quote_decrease_then_cancel_refund() {
    let mut v = Venue::funded();

    v.run(mass_quote(ALICE, 0, 0, vec![], vec![q(66_010, 100)]));
    assert_eq!(v.book().seats[0].base_free(), 100_000_000 - 100 * BASE_LOT_SIZE);

    // Decrease to 40 lots: 60 lots' worth of base must come back.
    v.run(mass_quote(ALICE, 0, 0, vec![], vec![q(66_010, 40)]));
    v.check_invariants();

    // Cancel the rest.
    v.run(mass_quote(ALICE, 0, 0, vec![], vec![]));
    v.check_invariants();

    let book = v.book();
    assert_eq!(
        book.seats[0].base_free(),
        100_000_000,
        "decrease and cancel did not restore the exact original balance"
    );
    assert_eq!(book.seats[0].base_locked(), 0);
}

// Takers.

#[test]
fn attack_partial_fill_then_cancel_refund_exactness() {
    let mut v = Venue::funded();

    // Alice rests 100 lots at 66_010; Bob takes 30 of them.
    v.run(mass_quote(ALICE, 0, 0, vec![], vec![q(66_010, 100)]));
    v.run(place_take(BOB, 1, 0, 66_010, 30, 0, 0));
    v.check_invariants();

    // Alice cancels the remaining 70 via an empty mass quote.
    v.run(mass_quote(ALICE, 0, 0, vec![], vec![]));
    v.check_invariants();

    let book = v.book();
    let alice = &book.seats[0];
    assert_eq!(alice.base_locked(), 0, "locked base not fully released");
    assert_eq!(alice.quote_locked(), 0, "locked quote not fully released");
    // Started with 100_000_000 base; sold 30 lots * 1_000 atoms.
    assert_eq!(
        alice.base_free(),
        100_000_000 - 30 * BASE_LOT_SIZE,
        "base balance wrong after partial fill and cancel"
    );
}

#[test]
fn attack_double_reap_of_expired_order() {
    let mut v = Venue::funded();

    v.run(mass_quote(ALICE, 0, 5, vec![], vec![q(66_010, 100)]));
    v.slot = 10;

    for _ in 0..3 {
        v.run(place_take(BOB, 1, 0, 66_012, 50, 0, 0));
        v.check_invariants();
    }

    let book = v.book();
    assert_eq!(
        book.seats[0].base_free(),
        100_000_000,
        "expired order refunded more than once"
    );
    assert_eq!(book.seats[0].base_locked(), 0);
}

#[test]
fn zero_lot_place_limit_cancels_without_blocking_swap() {
    let mut v = Venue::funded();

    for tick in [66_010, 66_011] {
        v.run(place_limit(ALICE, 0, 1, tick, 10, 0b01));
    }

    // Flags 0 is the path that may cross: zero size is still an exact
    // cancellation, not a zero-lot taker or resting node.
    v.run(place_limit(ALICE, 0, 1, 66_010, 0, 0));
    v.check_invariants();

    let notional = 66_011 * TICK_SIZE;
    let fee = notional * FEE_BPS as u64 / 10_000;
    // One atom of headroom for the conservative inverse fee bound.
    let ix = v.swap(BOB, 0, notional + fee + 1, 66_011, BASE_LOT_SIZE);
    v.run(ix);
    v.check_invariants();

    let book = v.book();
    assert_eq!(book.best_ask(), Some(66_011));
    assert_eq!(book.levels[(66_011 & WINDOW_MASK) as usize].total_lots(), 9);
}

#[test]
fn take_across_levels() {
    let mut v = Venue::funded();

    // Alice posts three ask levels: 100 lots @ 66_010, 66_011, 66_012.
    let asks: Vec<Quote> = (0..3).map(|i| q(66_010 + i, 100)).collect();
    v.run(mass_quote(ALICE, 0, 0, vec![], asks));

    // Bob lifts 250 lots across all three levels.
    v.run(place_take(BOB, 1, 0, 66_012, 250, 250 * BASE_LOT_SIZE, 0));
    v.check_invariants();

    let book = v.book();
    // 100 @ 66_010 + 100 @ 66_011 + 50 @ 66_012.
    let notional = (100 * 66_010u64 + 100 * 66_011 + 50 * 66_012) * TICK_SIZE;
    let fee = notional * FEE_BPS as u64 / 10_000;
    assert_eq!(book.header.fees_accrued_quote(), fee);
    // Bob paid notional + fee, received 250 lots of base.
    let bob = &book.seats[1];
    assert_eq!(bob.base_free(), 100_000_000 + 250 * BASE_LOT_SIZE);
    assert_eq!(bob.quote_free(), 10_000_000_000 - notional - fee);
    // Alice received the full notional, gave up the base.
    let alice = &book.seats[0];
    assert_eq!(alice.quote_free(), 10_000_000_000 + notional);
    // The half-filled level survives with 50 lots.
    assert_eq!(book.best_ask(), Some(66_012));
}

#[test]
fn swap_buy_and_sell() {
    let mut v = Venue::funded();

    // Alice quotes both sides.
    v.run(mass_quote(ALICE, 0, 0, vec![q(65_990, 100)], vec![q(66_010, 100)]));

    let bob_quote = wallet(BOB, QUOTE_MINT);
    let bob_base = wallet(BOB, BASE_MINT);
    let bob_quote_before = v.amount(&bob_quote);
    let bob_base_before = v.amount(&bob_base);

    // Bob buys 50 lots via swap: exact-in on the quote side.
    let notional = 50 * 66_010u64 * TICK_SIZE;
    let fee = notional * FEE_BPS as u64 / 10_000;
    let ix = v.swap(BOB, 0, notional + fee, 66_010, 50 * BASE_LOT_SIZE);
    v.run(ix);
    v.check_invariants();

    assert_eq!(v.amount(&bob_quote), bob_quote_before - notional - fee);
    assert_eq!(v.amount(&bob_base), bob_base_before + 50 * BASE_LOT_SIZE);

    // And sells 30 lots back into Alice's bid.
    let ix = v.swap(BOB, 1, 30 * BASE_LOT_SIZE, 65_990, 0);
    v.run(ix);
    v.check_invariants();
    let sold = 30 * 65_990u64 * TICK_SIZE;
    let sold_fee = sold * FEE_BPS as u64 / 10_000;
    assert_eq!(v.amount(&bob_quote), bob_quote_before - notional - fee + sold - sold_fee);
}

#[test]
fn a_swap_below_one_lot_is_refunded() {
    let mut v = Venue::funded();
    v.run(mass_quote(ALICE, 0, 0, vec![q(65_990, 100)], vec![]));
    let before = v.amount(&wallet(BOB, BASE_MINT));
    let ix = v.swap(BOB, 1, BASE_LOT_SIZE - 1, 65_990, 0);
    v.run(ix);
    assert_eq!(v.amount(&wallet(BOB, BASE_MINT)), before);
    // An odd input sells whole lots and gives back the rest.
    let ix = v.swap(BOB, 1, 3 * BASE_LOT_SIZE + 7, 65_990, 0);
    v.run(ix);
    assert_eq!(v.amount(&wallet(BOB, BASE_MINT)), before - 3 * BASE_LOT_SIZE);
    v.check_invariants();
    let ix = v.swap(BOB, 1, BASE_LOT_SIZE, 65_990, u64::MAX);
    assert_eq!(v.run_expect_failure(ix), err(ClobError::SlippageExceeded));
}

#[test]
fn takers_are_checked() {
    let mut v = Venue::funded();
    v.run(mass_quote(ALICE, 0, 0, vec![], vec![q(66_010, 1_000)]));
    let e = v.run_expect_failure(place_take(BOB, 1, 0, 66_010, 10, 10 * BASE_LOT_SIZE + 1, 0));
    assert_eq!(e, err(ClobError::SlippageExceeded));
    let e = v.run_expect_failure(place_take(BOB, 1, 0, 66_010, 0, 0, 0));
    assert_eq!(e, err(ClobError::InvalidLots));
    let e = v.run_expect_failure(place_take(BOB, 1, 0, 66_010, MAX_LOTS + 1, 0, 0));
    assert_eq!(e, err(ClobError::InvalidLots));
    let e = v.run_expect_failure(place_take(BOB, 1, 2, 66_010, 10, 0, 0));
    assert_eq!(e, ProgramError::InvalidInstructionData);
    // Bob can pay for 1_000 lots once he is left with enough, not after.
    let ix = v.withdraw(BOB, 1, 0, 10_000_000_000 - 66_010_000);
    v.run(ix);
    let e = v.run_expect_failure(place_take(BOB, 1, 0, 66_010, 10, 0, 0));
    assert_eq!(e, err(ClobError::InsufficientBalance));
    v.run(place_take(BOB, 1, 0, 66_010, 9, 0, 0));
    v.check_invariants();
}

#[test]
fn a_limit_order_crosses_and_rests() {
    let mut v = Venue::funded();
    v.run(mass_quote(ALICE, 0, 0, vec![], vec![q(66_010, 10), q(66_020, 10)]));
    // Takes the first level and rests the other 15 lots at its limit.
    v.run(place_limit(BOB, 1, 0, 66_015, 25, 0));
    let book = v.book();
    assert_eq!(book.best_bid(), Some(66_015));
    assert_eq!(book.best_ask(), Some(66_020));
    assert_eq!(book.levels[(66_015 & WINDOW_MASK) as usize].total_lots(), 15);
    assert_eq!(book.seats[1].base_free(), 100_000_000 + 10 * BASE_LOT_SIZE);
    v.check_invariants();
    // Completely filled: nothing rests.
    v.run(place_limit(BOB, 1, 0, 66_030, 10, 0));
    assert_eq!(v.book().best_ask(), None);
    assert_eq!(v.book().best_bid(), Some(66_015));
    v.check_invariants();
}

#[test]
fn a_maker_does_not_trade_with_itself() {
    let mut v = Venue::funded();
    v.run(mass_quote(ALICE, 0, 0, vec![], vec![q(66_010, 10)]));
    v.run(mass_quote(BOB, 1, 0, vec![], vec![q(66_010, 10)]));
    // Under the default policy the own order ends, and the next one trades.
    v.run(place_take(ALICE, 0, 0, 66_010, 10, 0, 0));
    let book = v.book();
    assert_eq!(book.seats[0].order_count(), 0);
    assert_eq!(book.seats[0].base_locked(), 0);
    assert_eq!(book.seats[0].base_free(), 100_000_000 + 10 * BASE_LOT_SIZE);
    assert_eq!(book.best_ask(), None);
    v.check_invariants();
    v.run(mass_quote(ALICE, 0, 0, vec![], vec![q(66_010, 10)]));
    let e = v.run_expect_failure(place_take(ALICE, 0, 0, 66_010, 10, 0, 0b10));
    assert_eq!(e, err(ClobError::SelfTrade));
}

#[test]
fn price_and_time_decide_who_trades_first() {
    let mut v = Venue::funded();
    v.run(place_limit(ALICE, 0, 1, 66_011, 10, 1));
    v.run(place_limit(BOB, 1, 1, 66_010, 10, 1));
    v.run(place_limit(ALICE, 0, 1, 66_010, 10, 1));
    let ix = v.swap(BOB, 0, 16 * 66_010 * TICK_SIZE, 66_011, 0);
    v.run(ix);
    // Bob's ask was first at the best price, then Alice's; the worse price
    // was not touched.
    let book = v.book();
    assert_eq!(book.seats[1].order_count(), 0);
    assert_eq!(book.pool[3].lots(), 5);
    assert_eq!(book.pool[1].lots(), 10);
    v.check_invariants();
}

#[test]
fn expired_quotes_are_reaped_not_filled() {
    let mut v = Venue::funded();

    // Alice quotes with expiry at slot 5.
    v.run(mass_quote(ALICE, 0, 5, vec![], vec![q(66_010, 100)]));

    // Past the expiry, Bob's take finds nothing: the quote is reaped on the
    // way, and with no minimum the take succeeds with no fills.
    v.slot = 10;
    v.run(place_take(BOB, 1, 0, 66_012, 50, 0, 0));
    v.check_invariants();

    let book = v.book();
    assert!(book.best_ask().is_none(), "expired quote not reaped");
    assert_eq!(book.seats[0].base_locked(), 0, "expired quote still locked");
}

// Cranks.

#[test]
fn reap_expired_crank_is_permissionless() {
    let mut v = Venue::funded();

    // Alice quotes both sides with expiry at slot 5; no taker ever crosses.
    v.run(mass_quote(ALICE, 0, 5, vec![q(65_990, 100)], vec![q(66_010, 100)]));
    v.slot = 10;

    // The crank needs no signer: one account, the market.
    for side in [0u8, 1] {
        v.run(reap(side, ANCHOR, 64));
        v.check_invariants();
    }

    let book = v.book();
    assert!(book.best_bid().is_none(), "expired bid not reaped");
    assert!(book.best_ask().is_none(), "expired ask not reaped");
    let alice = &book.seats[0];
    assert_eq!(alice.base_locked(), 0, "reap did not refund base");
    assert_eq!(alice.quote_locked(), 0, "reap did not refund quote");
    assert_eq!(alice.order_count(), 0, "reaped orders still counted");
}

#[test]
fn a_reap_stays_within_its_count() {
    let mut v = Venue::funded();
    let asks: Vec<Quote> = (0..5).map(|i| q(66_010 + i, 1)).collect();
    v.run(mass_quote(ALICE, 0, 5, vec![], asks));
    v.slot = 4;
    v.run(reap(1, ANCHOR, 64));
    assert_eq!(v.book().seats[0].order_count(), 5);
    v.slot = 5;
    v.run(reap(1, ANCHOR, 0));
    assert_eq!(v.book().seats[0].order_count(), 5);
    v.run(reap(1, 66_011, 2));
    assert_eq!(v.book().seats[0].order_count(), 3);
    assert_eq!(v.book().best_ask(), Some(66_010));
    v.run(reap(1, 0, 64));
    assert_eq!(v.book().seats[0].order_count(), 0);
    v.check_invariants();
}

#[test]
fn attack_reanchor_by_stranger_is_rejected() {
    let mut v = Venue::funded();

    let mut bids: Vec<Quote> = (0..10).map(|i| q(65_990 - i, 100)).collect();
    bids.sort_by_key(|x| x.tick);
    v.run(mass_quote(ALICE, 0, 0, bids, vec![]));

    let e = v.run_expect_failure(reanchor(BOB, ANCHOR + 4_096, 64));
    assert_eq!(e, err(ClobError::InvalidProgramAuthority));

    // The book is untouched.
    let book = v.book();
    assert_eq!(book.seats[0].order_count(), 10);
    assert_eq!(book.header.anchor_tick(), ANCHOR);
    v.check_invariants();
}

#[test]
fn moving_the_window_evicts_what_it_leaves_behind() {
    let mut v = Venue::funded();
    v.run(mass_quote(ALICE, 0, 0, vec![q(64_010, 5), q(65_000, 7)], vec![q(72_000, 3)]));
    v.run(reanchor(AUTHORITY, ANCHOR + 130, 64));
    let book = v.book();
    assert_eq!(book.header.anchor_tick(), ANCHOR + 128);
    assert_eq!(book.seats[0].order_count(), 2);
    assert_eq!(book.best_bid(), Some(65_000));
    assert_eq!(book.best_ask(), Some(72_000));
    v.check_invariants();
    let event = v.events.last().unwrap();
    assert_eq!(event[33..37], (ANCHOR + 128).to_le_bytes());
    assert_eq!(event[37..41], 1u32.to_le_bytes());
    // Down again: the top of the window goes.
    v.run(reanchor(AUTHORITY, 0, u32::MAX));
    let book = v.book();
    assert_eq!(book.header.anchor_tick(), 64);
    assert_eq!(book.seats[0].order_count(), 0);
    assert_eq!(book.seats[0].quote_free(), 10_000_000_000);
    v.check_invariants();
    // Never above the tick limit.
    v.run(reanchor(AUTHORITY, u32::MAX, u32::MAX));
    assert_eq!(v.book().header.anchor_tick(), (17_568_327 - 8_191) / 64 * 64);
    v.check_invariants();
}

// Prices of zero.

#[test]
fn attack_zero_tick_price() {
    let program = token_program_id(TOKEN_PROGRAM_LEGACY);
    let mut v = Venue::bare(QUOTE_MINT, TOKEN_PROGRAM_LEGACY, mint(program, 6));
    v.run(create_config(AUTHORITY, AUTHORITY));
    let ix = v.create_market(0);
    assert!(
        v.process(&ix).is_err(),
        "a market with anchor 0 makes tick 0 (price 0) a legal resting price"
    );
}

#[test]
fn zero_price_unreachable_on_normal_market() {
    let mut v = Venue::new();
    v.run(claim_seat(AUTHORITY, ALICE));
    let ix = v.deposit(ALICE, 0, 100_000_000, 10_000_000_000);
    v.run(ix);

    // Tick 0 is below this market's anchor, so it must be rejected outright.
    let r = v.process(&place_limit(ALICE, 0, 0, 0, 10, 0b01));
    assert!(
        r.is_err(),
        "a tick-0 (price 0) order was accepted on a market anchored at {ANCHOR}"
    );
    v.check_invariants();
}

// The shape of instructions.

fn with_extra_account(mut ix: Ix) -> Ix {
    ix.accounts.push((PAYER, false, false));
    ix
}

fn two_sided() -> Ix {
    mass_quote(
        ALICE,
        0,
        0,
        vec![q(65_988, 10), q(65_990, 20)],
        vec![q(66_010, 30), q(66_012, 40)],
    )
}

#[test]
fn extra_account_is_rejected_for_maker_instructions() {
    let mut v = Venue::funded();

    // The instruction succeeds in its exact-arity form...
    v.run(two_sided());
    v.check_invariants();

    // ...and is rejected with a trailing account.
    let e = v.run_expect_failure(with_extra_account(two_sided()));
    assert_eq!(e, ProgramError::NotEnoughAccountKeys);

    v.check_invariants();
}

#[test]
fn extra_account_is_rejected_for_cranks() {
    let mut v = Venue::funded();

    let recenter = reanchor(AUTHORITY, ANCHOR, 8);
    v.run(recenter.clone());
    v.run_expect_failure(with_extra_account(recenter));

    let crank = reap(0, ANCHOR, 8);
    v.run(crank.clone());
    v.run_expect_failure(with_extra_account(crank));

    v.check_invariants();
}

#[test]
fn duplicate_accounts_fall_through_and_are_rejected() {
    let mut v = Venue::funded();

    let mut ix = two_sided();
    ix.accounts[0] = (MARKET, false, true);

    v.run_expect_failure(ix);
    v.check_invariants();
}

#[test]
fn truncated_payload_is_rejected() {
    let mut v = Venue::funded();

    // Discriminator only, no arguments.
    v.run_expect_failure(maker(ALICE, vec![MASS_QUOTE_DISCRIMINATOR]));

    // No instruction data at all.
    v.run_expect_failure(maker(ALICE, vec![]));

    // Unknown discriminator.
    v.run_expect_failure(maker(ALICE, vec![0xEE]));

    v.check_invariants();
}

#[test]
fn mismatched_shape_and_discriminator_is_rejected() {
    let mut v = Venue::funded();

    // A reanchor (3 accounts) sent with 2 accounts.
    let mut d = vec![40u8];
    d.extend_from_slice(&8u32.to_le_bytes());
    v.run_expect_failure(maker(ALICE, d));

    // A mass quote (2 accounts) sent with 1 account.
    let mut d = vec![MASS_QUOTE_DISCRIMINATOR];
    d.extend_from_slice(&0u16.to_le_bytes());
    d.extend_from_slice(&0u32.to_le_bytes());
    d.push(0);
    d.push(0);
    v.run_expect_failure(Ix { accounts: vec![(MARKET, false, true)], data: d });

    v.check_invariants();
}

#[test]
fn accounts_are_checked() {
    let mut v = Venue::funded();
    let mut ix = two_sided();
    ix.accounts[0].1 = false;
    assert_eq!(v.run_expect_failure(ix), err(ClobError::NotSigner));
    let mut ix = two_sided();
    ix.accounts[1].2 = false;
    assert_eq!(v.run_expect_failure(ix), err(ClobError::NotMutable));
    let mut ix = two_sided();
    ix.accounts[1].0 = PAYER;
    assert_eq!(v.run_expect_failure(ix), err(ClobError::InvalidAccountOwner));
    let mut ix = v.deposit(ALICE, 0, 1, 1);
    ix.accounts.swap(4, 5);
    assert_eq!(v.run_expect_failure(ix), err(ClobError::InvalidTokenAddress));
    // The token program that the market recorded, and no other.
    let mut ix = v.withdraw(ALICE, 0, 1, 1);
    ix.accounts[9].0 = token_program_id(TOKEN_PROGRAM_2022);
    v.run_expect_failure(ix);
    // A market of another version.
    let mut data = v.data(&MARKET).clone();
    data[0] = 3;
    v.put(MARKET, ID, data);
    assert_eq!(v.run_expect_failure(two_sided()), err(ClobError::InvalidVersion));
}

// A quote mint that charges for transfers.

fn fee_venue() -> Venue {
    let mut v = Venue::bare([0x22; 32], TOKEN_PROGRAM_2022, extended_mint(&[(1, 108)]));
    v.mint_fee_bps = 100;
    v.run(create_config(AUTHORITY, AUTHORITY));
    let ix = v.create_market(ANCHOR);
    v.run(ix);
    v.run(claim_seat(AUTHORITY, ALICE));
    let ix = v.deposit(ALICE, 0, 500_000_000, 0);
    v.run(ix);
    // Bob starts without base.
    let key = wallet(BOB, BASE_MINT);
    v.set_amount(&key, 0);
    v
}

#[test]
fn swap_against_fee_bearing_input_mint_succeeds_and_matches_the_fee_adjusted_delta() {
    let mut v = fee_venue();
    const RESTING_LOTS: u32 = 10;
    v.run(mass_quote(ALICE, 0, 0, vec![], vec![q(66_010, RESTING_LOTS)]));

    let amount_in: u64 = 100_000_000;
    let bob_quote = wallet(BOB, v.quote_mint);
    let bob_quote_before = v.amount(&bob_quote);
    let ix = v.swap(BOB, 0, amount_in, 66_010, RESTING_LOTS as u64 * BASE_LOT_SIZE);
    v.run(ix);

    // The vault's final balance is fixed by the market's own fee.
    let price_per_lot = 66_010 * TICK_SIZE;
    let consumed = RESTING_LOTS as u64 * price_per_lot;
    let consumed_with_clob_fee = consumed + consumed * FEE_BPS as u64 / 10_000;
    assert_eq!(v.amount(&v.quote_vault), consumed_with_clob_fee);

    // Fully filled: exactly RESTING_LOTS, not more, not less.
    assert_eq!(v.amount(&wallet(BOB, BASE_MINT)), RESTING_LOTS as u64 * BASE_LOT_SIZE);

    // The unconsumed remainder came back, less its own transfer fee.
    let bob_spent = bob_quote_before - v.amount(&bob_quote);
    assert!(bob_spent > consumed_with_clob_fee);
    assert!(
        bob_spent < consumed_with_clob_fee * 12 / 10,
        "bob_spent {bob_spent} vs consumed_with_clob_fee {consumed_with_clob_fee}"
    );
}

#[test]
fn swap_against_fee_bearing_input_mint_refunds_unmatched_leftover() {
    let mut v = fee_venue();
    v.run(mass_quote(ALICE, 0, 0, vec![], vec![q(66_010, 5)]));

    let amount_in: u64 = 50_000_000;
    let vault_before = v.amount(&v.quote_vault);
    let bob_quote = wallet(BOB, v.quote_mint);
    let bob_quote_before = v.amount(&bob_quote);
    let ix = v.swap(BOB, 0, amount_in, 66_010, 0);
    v.run(ix);

    // The 5 resting lots fully filled.
    let consumed = 5 * 66_010 * TICK_SIZE;
    let consumed_with_fee = consumed + consumed * FEE_BPS as u64 / 10_000;
    assert_eq!(
        v.amount(&v.quote_vault) - vault_before,
        consumed_with_fee,
        "vault must hold exactly what the match consumed, not the whole pulled-in delta"
    );
    assert_eq!(v.amount(&wallet(BOB, BASE_MINT)), 5 * BASE_LOT_SIZE);

    let bob_spent = bob_quote_before - v.amount(&bob_quote);
    assert!(bob_spent < amount_in, "leftover must be refunded");
    assert!(bob_spent < consumed_with_fee * 2, "refund looks broken");

    v.check_invariants();
}

#[test]
fn a_deposit_is_credited_with_what_arrived() {
    let mut v = fee_venue();
    let ix = v.deposit(ALICE, 0, 0, 1_000_000);
    v.run(ix);
    assert_eq!(v.book().seats[0].quote_free(), 990_000);
    v.check_invariants();
}

// Counting and access.

#[test]
fn every_success_counts_once() {
    let mut v = Venue::funded();
    // Creation, two claims, two deposits.
    assert_eq!(v.book().header.seq, 5);
    let withdraw = v.withdraw(ALICE, 0, 1, 1);
    let swap = v.swap(BOB, 0, 10_000_000, 66_010, 0);
    let collect = v.collect_fees(AUTHORITY);
    let steps = vec![
        mass_quote(ALICE, 0, 0, vec![q(65_990, 10), q(65_991, 10)], vec![q(66_010, 10)]),
        place_limit(ALICE, 0, 0, 65_990, 5, 1),
        place_limit(BOB, 1, 0, 66_010, 1, 0),
        place_take(BOB, 1, 0, 66_010, 1, 0, 0),
        swap,
        cancel(ALICE, 0, 2, 1),
        withdraw,
        reanchor(AUTHORITY, ANCHOR + 64, 64),
        reap(0, 0, 64),
        collect,
    ];
    for ix in steps {
        let before = v.book().header.seq;
        v.run(ix);
        assert_eq!(v.book().header.seq, before + 1);
    }
}

#[test]
fn only_the_owner_acts_for_a_seat() {
    let mut v = Venue::funded();
    v.run(place_limit(ALICE, 0, 1, 66_010, 10, 1));
    let deposit = v.deposit(BOB, 0, 1, 1);
    let withdraw = v.withdraw(BOB, 0, 1, 1);
    let requests = vec![
        deposit,
        withdraw,
        maker(BOB, vec![11, 0, 0]),
        mass_quote(BOB, 0, 0, vec![], vec![]),
        place_limit(BOB, 0, 1, 66_010, 0, 1),
        place_take(BOB, 0, 0, 66_010, 1, 0, 0),
        cancel(BOB, 0, 1, 0),
    ];
    for ix in requests {
        assert_eq!(v.run_expect_failure(ix), err(ClobError::InvalidSeatOwner));
    }
    // Nor through a seat of one's own.
    assert_eq!(v.run_expect_failure(cancel(BOB, 1, 1, 0)), err(ClobError::OrderNotFound));
}
