//! Byte layout of the accounts: little-endian fields without padding between
//! them, regions at fixed offsets.

use crate::codec::{
    bytes128,
    bytes16,
    bytes32,
    bytes64,
    le128,
    le16,
    le32,
    le64,
    lemma_le128,
    lemma_le16,
    lemma_le32,
    lemma_le64,
    put128,
    put16,
    put32,
    put64,
    put_bytes,
    read128,
    read16,
    read32,
    read64,
};
use crate::level::Level;
use crate::market::{Config, Market};
use crate::node::OrderNode;
use crate::seat::Seat;
use vstd::prelude::*;

verus! {

/// The 1 bytes at `i`.
fn array1(s: &[u8], i: usize) -> (r: [u8; 1])
    requires
        i + 1 <= s@.len(),
    ensures
        r@ == s@.subrange(i as int, i + 1),
{
    assert(s@.len() == s.len());
    let mut r: [u8; 1] = [0; 1];
    let mut k: usize = 0;
    while k < 1
        invariant
            k <= 1,
            i + 1 <= s@.len() <= usize::MAX,
            forall|j: int| 0 <= j < k ==> r@[j] == s@[i + j],
        decreases 1 - k,
    {
        r[k] = s[i + k];
        k = k + 1;
    }
    assert(r@ =~= s@.subrange(i as int, i + 1));
    r
}

/// The 4 bytes at `i`.
fn array4(s: &[u8], i: usize) -> (r: [u8; 4])
    requires
        i + 4 <= s@.len(),
    ensures
        r@ == s@.subrange(i as int, i + 4),
{
    assert(s@.len() == s.len());
    let mut r: [u8; 4] = [0; 4];
    let mut k: usize = 0;
    while k < 4
        invariant
            k <= 4,
            i + 4 <= s@.len() <= usize::MAX,
            forall|j: int| 0 <= j < k ==> r@[j] == s@[i + j],
        decreases 4 - k,
    {
        r[k] = s[i + k];
        k = k + 1;
    }
    assert(r@ =~= s@.subrange(i as int, i + 4));
    r
}

/// The 12 bytes at `i`.
fn array12(s: &[u8], i: usize) -> (r: [u8; 12])
    requires
        i + 12 <= s@.len(),
    ensures
        r@ == s@.subrange(i as int, i + 12),
{
    assert(s@.len() == s.len());
    let mut r: [u8; 12] = [0; 12];
    let mut k: usize = 0;
    while k < 12
        invariant
            k <= 12,
            i + 12 <= s@.len() <= usize::MAX,
            forall|j: int| 0 <= j < k ==> r@[j] == s@[i + j],
        decreases 12 - k,
    {
        r[k] = s[i + k];
        k = k + 1;
    }
    assert(r@ =~= s@.subrange(i as int, i + 12));
    r
}

/// The 18 bytes at `i`.
fn array18(s: &[u8], i: usize) -> (r: [u8; 18])
    requires
        i + 18 <= s@.len(),
    ensures
        r@ == s@.subrange(i as int, i + 18),
{
    assert(s@.len() == s.len());
    let mut r: [u8; 18] = [0; 18];
    let mut k: usize = 0;
    while k < 18
        invariant
            k <= 18,
            i + 18 <= s@.len() <= usize::MAX,
            forall|j: int| 0 <= j < k ==> r@[j] == s@[i + j],
        decreases 18 - k,
    {
        r[k] = s[i + k];
        k = k + 1;
    }
    assert(r@ =~= s@.subrange(i as int, i + 18));
    r
}

/// The 30 bytes at `i`.
fn array30(s: &[u8], i: usize) -> (r: [u8; 30])
    requires
        i + 30 <= s@.len(),
    ensures
        r@ == s@.subrange(i as int, i + 30),
{
    assert(s@.len() == s.len());
    let mut r: [u8; 30] = [0; 30];
    let mut k: usize = 0;
    while k < 30
        invariant
            k <= 30,
            i + 30 <= s@.len() <= usize::MAX,
            forall|j: int| 0 <= j < k ==> r@[j] == s@[i + j],
        decreases 30 - k,
    {
        r[k] = s[i + k];
        k = k + 1;
    }
    assert(r@ =~= s@.subrange(i as int, i + 30));
    r
}

/// The 32 bytes at `i`.
fn array32(s: &[u8], i: usize) -> (r: [u8; 32])
    requires
        i + 32 <= s@.len(),
    ensures
        r@ == s@.subrange(i as int, i + 32),
{
    assert(s@.len() == s.len());
    let mut r: [u8; 32] = [0; 32];
    let mut k: usize = 0;
    while k < 32
        invariant
            k <= 32,
            i + 32 <= s@.len() <= usize::MAX,
            forall|j: int| 0 <= j < k ==> r@[j] == s@[i + j],
        decreases 32 - k,
    {
        r[k] = s[i + k];
        k = k + 1;
    }
    assert(r@ =~= s@.subrange(i as int, i + 32));
    r
}

/// Two neighbouring ranges make one.
proof fn lemma_join(s: Seq<u8>, a: int, b: int, c: int)
    requires
        0 <= a <= b <= c <= s.len(),
    ensures
        s.subrange(a, b) + s.subrange(b, c) == s.subrange(a, c),
{
    assert(s.subrange(a, b) + s.subrange(b, c) =~= s.subrange(a, c));
}

/// Appending piece by piece is appending the whole.
proof fn lemma_append(a: Seq<u8>, b: Seq<u8>, c: Seq<u8>)
    ensures
        (a + b) + c == a + (b + c),
{
    assert((a + b) + c =~= a + (b + c));
}

/// A sum of two parts decides both.
proof fn lemma_parts(a: Seq<u8>, b: Seq<u8>, c: Seq<u8>, d: Seq<u8>)
    requires
        a + b == c + d,
        b.len() == d.len(),
    ensures
        a == c,
        b == d,
{
    let s = a + b;
    let t = c + d;
    assert(s.len() == a.len() + b.len());
    assert(t.len() == c.len() + d.len());
    assert forall|k: int| 0 <= k < a.len() implies a[k] == c[k] by {
        assert(s[k] == a[k]);
        assert(t[k] == c[k]);
    }
    assert forall|k: int| 0 <= k < b.len() implies b[k] == d[k] by {
        assert(s[a.len() + k] == b[k]);
        assert(t[a.len() + k] == d[k]);
    }
    assert(a =~= c);
    assert(b =~= d);
}

proof fn lemma_bytes16(x: u16, y: u16)
    ensures
        bytes16(x).len() == 2,
        bytes16(x) == bytes16(y) ==> x == y,
{
    assert(bytes16(x)[0] == (x % 0x100) as u8 && bytes16(x)[1] == (x / 0x100) as u8);
    assert(bytes16(y)[0] == (y % 0x100) as u8 && bytes16(y)[1] == (y / 0x100) as u8);
}

proof fn lemma_bytes32(x: u32, y: u32)
    ensures
        bytes32(x).len() == 4,
        bytes32(x) == bytes32(y) ==> x == y,
{
    lemma_bytes16((x % 0x1_0000) as u16, (y % 0x1_0000) as u16);
    lemma_bytes16((x / 0x1_0000) as u16, (y / 0x1_0000) as u16);
    if bytes32(x) == bytes32(y) {
        lemma_parts(
            bytes16((x % 0x1_0000) as u16),
            bytes16((x / 0x1_0000) as u16),
            bytes16((y % 0x1_0000) as u16),
            bytes16((y / 0x1_0000) as u16),
        );
    }
}

pub proof fn lemma_bytes64(x: u64, y: u64)
    ensures
        bytes64(x).len() == 8,
        bytes64(x) == bytes64(y) ==> x == y,
{
    lemma_bytes32((x % 0x1_0000_0000) as u32, (y % 0x1_0000_0000) as u32);
    lemma_bytes32((x / 0x1_0000_0000) as u32, (y / 0x1_0000_0000) as u32);
    if bytes64(x) == bytes64(y) {
        lemma_parts(
            bytes32((x % 0x1_0000_0000) as u32),
            bytes32((x / 0x1_0000_0000) as u32),
            bytes32((y % 0x1_0000_0000) as u32),
            bytes32((y / 0x1_0000_0000) as u32),
        );
    }
}

proof fn lemma_bytes128(x: u128, y: u128)
    ensures
        bytes128(x).len() == 16,
        bytes128(x) == bytes128(y) ==> x == y,
{
    lemma_bytes64((x % 0x1_0000_0000_0000_0000) as u64, (y % 0x1_0000_0000_0000_0000) as u64);
    lemma_bytes64((x / 0x1_0000_0000_0000_0000) as u64, (y / 0x1_0000_0000_0000_0000) as u64);
    if bytes128(x) == bytes128(y) {
        lemma_parts(
            bytes64((x % 0x1_0000_0000_0000_0000) as u64),
            bytes64((x / 0x1_0000_0000_0000_0000) as u64),
            bytes64((y % 0x1_0000_0000_0000_0000) as u64),
            bytes64((y / 0x1_0000_0000_0000_0000) as u64),
        );
    }
}

/// Keys of a market header.
pub open spec fn market_keys_bytes(x: Market) -> Seq<u8> {
    seq![x.version] + x.bump@ + x.base_mint@ + x.quote_mint@ + x.base_vault@ + x.quote_vault@
        + x.vault_authority@ + x.authority@ + x.config@
}

proof fn lemma_market_keys_fields(s: Seq<u8>, i: int, x: Market)
    requires
        0 <= i,
        i + 226 <= s.len(),
        x.version == s[i + 0],
        x.bump@ == s.subrange(i + 1, i + 2),
        x.base_mint@ == s.subrange(i + 2, i + 34),
        x.quote_mint@ == s.subrange(i + 34, i + 66),
        x.base_vault@ == s.subrange(i + 66, i + 98),
        x.quote_vault@ == s.subrange(i + 98, i + 130),
        x.vault_authority@ == s.subrange(i + 130, i + 162),
        x.authority@ == s.subrange(i + 162, i + 194),
        x.config@ == s.subrange(i + 194, i + 226),
    ensures
        market_keys_bytes(x) == s.subrange(i, i + 226),
{
    assert(seq![x.version] =~= s.subrange(i + 0, i + 1));
    lemma_join(s, i, i + 1, i + 2);
    lemma_join(s, i, i + 2, i + 34);
    lemma_join(s, i, i + 34, i + 66);
    lemma_join(s, i, i + 66, i + 98);
    lemma_join(s, i, i + 98, i + 130);
    lemma_join(s, i, i + 130, i + 162);
    lemma_join(s, i, i + 162, i + 194);
    lemma_join(s, i, i + 194, i + 226);
}

#[verifier::rlimit(40)]
proof fn lemma_market_keys_injective(x: Market, y: Market)
    ensures
        market_keys_bytes(x).len() == 226,
        market_keys_bytes(x) == market_keys_bytes(y) ==> ({
            &&& x.version == y.version
            &&& x.bump == y.bump
            &&& x.base_mint == y.base_mint
            &&& x.quote_mint == y.quote_mint
            &&& x.base_vault == y.base_vault
            &&& x.quote_vault == y.quote_vault
            &&& x.vault_authority == y.vault_authority
            &&& x.authority == y.authority
            &&& x.config == y.config
        }),
{
    let x0 = seq![x.version];
    let x1 = x0 + x.bump@;
    let x2 = x1 + x.base_mint@;
    let x3 = x2 + x.quote_mint@;
    let x4 = x3 + x.base_vault@;
    let x5 = x4 + x.quote_vault@;
    let x6 = x5 + x.vault_authority@;
    let x7 = x6 + x.authority@;
    let x8 = x7 + x.config@;
    let y0 = seq![y.version];
    let y1 = y0 + y.bump@;
    let y2 = y1 + y.base_mint@;
    let y3 = y2 + y.quote_mint@;
    let y4 = y3 + y.base_vault@;
    let y5 = y4 + y.quote_vault@;
    let y6 = y5 + y.vault_authority@;
    let y7 = y6 + y.authority@;
    let y8 = y7 + y.config@;
    if market_keys_bytes(x) == market_keys_bytes(y) {
        lemma_parts(x7, x.config@, y7, y.config@);
        assert(x.config =~= y.config);
        lemma_parts(x6, x.authority@, y6, y.authority@);
        assert(x.authority =~= y.authority);
        lemma_parts(x5, x.vault_authority@, y5, y.vault_authority@);
        assert(x.vault_authority =~= y.vault_authority);
        lemma_parts(x4, x.quote_vault@, y4, y.quote_vault@);
        assert(x.quote_vault =~= y.quote_vault);
        lemma_parts(x3, x.base_vault@, y3, y.base_vault@);
        assert(x.base_vault =~= y.base_vault);
        lemma_parts(x2, x.quote_mint@, y2, y.quote_mint@);
        assert(x.quote_mint =~= y.quote_mint);
        lemma_parts(x1, x.base_mint@, y1, y.base_mint@);
        assert(x.base_mint =~= y.base_mint);
        lemma_parts(x0, x.bump@, y0, y.bump@);
        assert(x.bump =~= y.bump);
        assert(seq![x.version][0] == seq![y.version][0]);
    }
}

/// Parameters of a market header.
pub open spec fn market_terms_bytes(x: Market) -> Seq<u8> {
    bytes64(x.tick_size) + bytes64(x.base_lot_size) + bytes32(x.anchor_tick)
        + bytes32(x.tick_limit) + bytes16(x.fee_bps) + bytes32(x.max_lots_per_order)
        + bytes32(x.order_pool_capacity)
}

proof fn lemma_market_terms_fields(s: Seq<u8>, i: int, x: Market)
    requires
        0 <= i,
        i + 34 <= s.len(),
        x.tick_size == le64(s, i + 0),
        x.base_lot_size == le64(s, i + 8),
        x.anchor_tick == le32(s, i + 16),
        x.tick_limit == le32(s, i + 20),
        x.fee_bps == le16(s, i + 24),
        x.max_lots_per_order == le32(s, i + 26),
        x.order_pool_capacity == le32(s, i + 30),
    ensures
        market_terms_bytes(x) == s.subrange(i, i + 34),
{
    lemma_le64(s, i + 0, x.tick_size);
    lemma_le64(s, i + 8, x.base_lot_size);
    lemma_join(s, i, i + 8, i + 16);
    lemma_le32(s, i + 16, x.anchor_tick);
    lemma_join(s, i, i + 16, i + 20);
    lemma_le32(s, i + 20, x.tick_limit);
    lemma_join(s, i, i + 20, i + 24);
    lemma_le16(s, i + 24, x.fee_bps);
    lemma_join(s, i, i + 24, i + 26);
    lemma_le32(s, i + 26, x.max_lots_per_order);
    lemma_join(s, i, i + 26, i + 30);
    lemma_le32(s, i + 30, x.order_pool_capacity);
    lemma_join(s, i, i + 30, i + 34);
}

#[verifier::rlimit(40)]
proof fn lemma_market_terms_injective(x: Market, y: Market)
    ensures
        market_terms_bytes(x).len() == 34,
        market_terms_bytes(x) == market_terms_bytes(y) ==> ({
            &&& x.tick_size == y.tick_size
            &&& x.base_lot_size == y.base_lot_size
            &&& x.anchor_tick == y.anchor_tick
            &&& x.tick_limit == y.tick_limit
            &&& x.fee_bps == y.fee_bps
            &&& x.max_lots_per_order == y.max_lots_per_order
            &&& x.order_pool_capacity == y.order_pool_capacity
        }),
{
    lemma_bytes64(x.tick_size, y.tick_size);
    lemma_bytes64(x.base_lot_size, y.base_lot_size);
    lemma_bytes32(x.anchor_tick, y.anchor_tick);
    lemma_bytes32(x.tick_limit, y.tick_limit);
    lemma_bytes16(x.fee_bps, y.fee_bps);
    lemma_bytes32(x.max_lots_per_order, y.max_lots_per_order);
    lemma_bytes32(x.order_pool_capacity, y.order_pool_capacity);
    let x0 = bytes64(x.tick_size);
    let x1 = x0 + bytes64(x.base_lot_size);
    let x2 = x1 + bytes32(x.anchor_tick);
    let x3 = x2 + bytes32(x.tick_limit);
    let x4 = x3 + bytes16(x.fee_bps);
    let x5 = x4 + bytes32(x.max_lots_per_order);
    let x6 = x5 + bytes32(x.order_pool_capacity);
    let y0 = bytes64(y.tick_size);
    let y1 = y0 + bytes64(y.base_lot_size);
    let y2 = y1 + bytes32(y.anchor_tick);
    let y3 = y2 + bytes32(y.tick_limit);
    let y4 = y3 + bytes16(y.fee_bps);
    let y5 = y4 + bytes32(y.max_lots_per_order);
    let y6 = y5 + bytes32(y.order_pool_capacity);
    if market_terms_bytes(x) == market_terms_bytes(y) {
        lemma_parts(x5, bytes32(x.order_pool_capacity), y5, bytes32(y.order_pool_capacity));
        lemma_parts(x4, bytes32(x.max_lots_per_order), y4, bytes32(y.max_lots_per_order));
        lemma_parts(x3, bytes16(x.fee_bps), y3, bytes16(y.fee_bps));
        lemma_parts(x2, bytes32(x.tick_limit), y2, bytes32(y.tick_limit));
        lemma_parts(x1, bytes32(x.anchor_tick), y1, bytes32(y.anchor_tick));
        lemma_parts(x0, bytes64(x.base_lot_size), y0, bytes64(y.base_lot_size));
    }
}

/// Counters of a market header, and its token programs.
pub open spec fn market_state_bytes(x: Market) -> Seq<u8> {
    bytes16(x.free_head) + bytes32(x.free_count) + bytes128(x.seq) + bytes64(x.order_seq)
        + bytes64(x.fees_accrued_quote) + seq![x.base_token_program] + seq![x.quote_token_program]
        + seq![x.base_decimals] + seq![x.quote_decimals] + x.padding@
}

proof fn lemma_market_state_fields(s: Seq<u8>, i: int, x: Market)
    requires
        0 <= i,
        i + 60 <= s.len(),
        x.free_head == le16(s, i + 0),
        x.free_count == le32(s, i + 2),
        x.seq == le128(s, i + 6),
        x.order_seq == le64(s, i + 22),
        x.fees_accrued_quote == le64(s, i + 30),
        x.base_token_program == s[i + 38],
        x.quote_token_program == s[i + 39],
        x.base_decimals == s[i + 40],
        x.quote_decimals == s[i + 41],
        x.padding@ == s.subrange(i + 42, i + 60),
    ensures
        market_state_bytes(x) == s.subrange(i, i + 60),
{
    lemma_le16(s, i + 0, x.free_head);
    lemma_le32(s, i + 2, x.free_count);
    lemma_join(s, i, i + 2, i + 6);
    lemma_le128(s, i + 6, x.seq);
    lemma_join(s, i, i + 6, i + 22);
    lemma_le64(s, i + 22, x.order_seq);
    lemma_join(s, i, i + 22, i + 30);
    lemma_le64(s, i + 30, x.fees_accrued_quote);
    lemma_join(s, i, i + 30, i + 38);
    assert(seq![x.base_token_program] =~= s.subrange(i + 38, i + 39));
    lemma_join(s, i, i + 38, i + 39);
    assert(seq![x.quote_token_program] =~= s.subrange(i + 39, i + 40));
    lemma_join(s, i, i + 39, i + 40);
    assert(seq![x.base_decimals] =~= s.subrange(i + 40, i + 41));
    lemma_join(s, i, i + 40, i + 41);
    assert(seq![x.quote_decimals] =~= s.subrange(i + 41, i + 42));
    lemma_join(s, i, i + 41, i + 42);
    lemma_join(s, i, i + 42, i + 60);
}

#[verifier::rlimit(40)]
proof fn lemma_market_state_injective(x: Market, y: Market)
    ensures
        market_state_bytes(x).len() == 60,
        market_state_bytes(x) == market_state_bytes(y) ==> ({
            &&& x.free_head == y.free_head
            &&& x.free_count == y.free_count
            &&& x.seq == y.seq
            &&& x.order_seq == y.order_seq
            &&& x.fees_accrued_quote == y.fees_accrued_quote
            &&& x.base_token_program == y.base_token_program
            &&& x.quote_token_program == y.quote_token_program
            &&& x.base_decimals == y.base_decimals
            &&& x.quote_decimals == y.quote_decimals
            &&& x.padding == y.padding
        }),
{
    lemma_bytes16(x.free_head, y.free_head);
    lemma_bytes32(x.free_count, y.free_count);
    lemma_bytes128(x.seq, y.seq);
    lemma_bytes64(x.order_seq, y.order_seq);
    lemma_bytes64(x.fees_accrued_quote, y.fees_accrued_quote);
    let x0 = bytes16(x.free_head);
    let x1 = x0 + bytes32(x.free_count);
    let x2 = x1 + bytes128(x.seq);
    let x3 = x2 + bytes64(x.order_seq);
    let x4 = x3 + bytes64(x.fees_accrued_quote);
    let x5 = x4 + seq![x.base_token_program];
    let x6 = x5 + seq![x.quote_token_program];
    let x7 = x6 + seq![x.base_decimals];
    let x8 = x7 + seq![x.quote_decimals];
    let x9 = x8 + x.padding@;
    let y0 = bytes16(y.free_head);
    let y1 = y0 + bytes32(y.free_count);
    let y2 = y1 + bytes128(y.seq);
    let y3 = y2 + bytes64(y.order_seq);
    let y4 = y3 + bytes64(y.fees_accrued_quote);
    let y5 = y4 + seq![y.base_token_program];
    let y6 = y5 + seq![y.quote_token_program];
    let y7 = y6 + seq![y.base_decimals];
    let y8 = y7 + seq![y.quote_decimals];
    let y9 = y8 + y.padding@;
    if market_state_bytes(x) == market_state_bytes(y) {
        lemma_parts(x8, x.padding@, y8, y.padding@);
        assert(x.padding =~= y.padding);
        lemma_parts(x7, seq![x.quote_decimals], y7, seq![y.quote_decimals]);
        assert(seq![x.quote_decimals][0] == seq![y.quote_decimals][0]);
        lemma_parts(x6, seq![x.base_decimals], y6, seq![y.base_decimals]);
        assert(seq![x.base_decimals][0] == seq![y.base_decimals][0]);
        lemma_parts(x5, seq![x.quote_token_program], y5, seq![y.quote_token_program]);
        assert(seq![x.quote_token_program][0] == seq![y.quote_token_program][0]);
        lemma_parts(x4, seq![x.base_token_program], y4, seq![y.base_token_program]);
        assert(seq![x.base_token_program][0] == seq![y.base_token_program][0]);
        lemma_parts(x3, bytes64(x.fees_accrued_quote), y3, bytes64(y.fees_accrued_quote));
        lemma_parts(x2, bytes64(x.order_seq), y2, bytes64(y.order_seq));
        lemma_parts(x1, bytes128(x.seq), y1, bytes128(y.seq));
        lemma_parts(x0, bytes32(x.free_count), y0, bytes32(y.free_count));
    }
}

/// The 320 bytes of a market header.
pub open spec fn market_bytes(x: Market) -> Seq<u8> {
    market_keys_bytes(x) + market_terms_bytes(x) + market_state_bytes(x)
}

/// Where a header keeps its version and its capacity.
pub proof fn lemma_market_starts(x: Market)
    ensures
        market_bytes(x).len() == 320,
        market_bytes(x)[0] == x.version,
        market_bytes(x).subrange(256, 260) == bytes32(x.order_pool_capacity),
{
    lemma_market_keys_injective(x, x);
    lemma_market_terms_injective(x, x);
    lemma_market_state_injective(x, x);
    let k = market_keys_bytes(x);
    let t = market_terms_bytes(x);
    let s = market_bytes(x);
    lemma_bytes32(x.order_pool_capacity, x.order_pool_capacity);
    assert(t.subrange(30, 34) =~= bytes32(x.order_pool_capacity));
    assert(s.subrange(256, 260) =~= t.subrange(30, 34));
    assert(s[0] == k[0]);
}

/// The bytes decide the header.
pub proof fn lemma_market_injective(x: Market, y: Market)
    ensures
        market_bytes(x).len() == 320,
        market_bytes(x) == market_bytes(y) ==> x == y,
{
    lemma_market_keys_injective(x, y);
    lemma_market_terms_injective(x, y);
    lemma_market_state_injective(x, y);
    lemma_market_keys_injective(y, x);
    lemma_market_terms_injective(y, x);
    lemma_market_state_injective(y, x);
    if market_bytes(x) == market_bytes(y) {
        lemma_parts(
            market_keys_bytes(x) + market_terms_bytes(x),
            market_state_bytes(x),
            market_keys_bytes(y) + market_terms_bytes(y),
            market_state_bytes(y),
        );
        lemma_parts(
            market_keys_bytes(x),
            market_terms_bytes(x),
            market_keys_bytes(y),
            market_terms_bytes(y),
        );
    }
}

impl Market {
    /// Read the header at `i`.
    #[verifier::rlimit(60)]
    pub fn decode(s: &[u8], i: usize) -> (r: Market)
        requires
            i + 320 <= s@.len(),
        ensures
            market_bytes(r) == s@.subrange(i as int, i + 320),
            r.version == s@[i as int],
            r.order_pool_capacity == le32(s@, i + 256),
    {
        assert(s@.len() == s.len());
        let r: Market = Market {
            version: s[i + 0],
            bump: array1(s, i + 1),
            base_mint: array32(s, i + 2),
            quote_mint: array32(s, i + 34),
            base_vault: array32(s, i + 66),
            quote_vault: array32(s, i + 98),
            vault_authority: array32(s, i + 130),
            authority: array32(s, i + 162),
            config: array32(s, i + 194),
            tick_size: read64(s, i + 226),
            base_lot_size: read64(s, i + 234),
            anchor_tick: read32(s, i + 242),
            tick_limit: read32(s, i + 246),
            fee_bps: read16(s, i + 250),
            max_lots_per_order: read32(s, i + 252),
            order_pool_capacity: read32(s, i + 256),
            free_head: read16(s, i + 260),
            free_count: read32(s, i + 262),
            seq: read128(s, i + 266),
            order_seq: read64(s, i + 282),
            fees_accrued_quote: read64(s, i + 290),
            base_token_program: s[i + 298],
            quote_token_program: s[i + 299],
            base_decimals: s[i + 300],
            quote_decimals: s[i + 301],
            padding: array18(s, i + 302),
        };
        proof {
            lemma_market_keys_fields(s@, i + 0, r);
            lemma_market_terms_fields(s@, i + 226, r);
            lemma_market_state_fields(s@, i + 260, r);
            lemma_join(s@, i as int, i + 226, i + 260);
            lemma_join(s@, i as int, i + 260, i + 320);
        }
        r
    }

    /// Append the header's bytes.
    pub fn encode(&self, v: &mut Vec<u8>)
        ensures
            final(v)@ == old(v)@ + market_bytes(*self),
    {
        let ghost v0 = v@;
        self.encode_keys(v);
        self.encode_terms(v);
        self.encode_state(v);
        proof {
            lemma_append(v0, market_keys_bytes(*self), market_terms_bytes(*self));
            lemma_append(
                v0,
                market_keys_bytes(*self) + market_terms_bytes(*self),
                market_state_bytes(*self),
            );
        }
    }

    fn encode_keys(&self, v: &mut Vec<u8>)
        ensures
            final(v)@ == old(v)@ + market_keys_bytes(*self),
    {
        let ghost v0 = v@;
        v.push(self.version);
        let ghost b0: Seq<u8> = seq![self.version];
        assert(v@ =~= v0 + b0);
        put_bytes(v, &self.bump);
        let ghost b1: Seq<u8> = b0 + self.bump@;
        proof {
            lemma_append(v0, b0, self.bump@);
        }
        put_bytes(v, &self.base_mint);
        let ghost b2: Seq<u8> = b1 + self.base_mint@;
        proof {
            lemma_append(v0, b1, self.base_mint@);
        }
        put_bytes(v, &self.quote_mint);
        let ghost b3: Seq<u8> = b2 + self.quote_mint@;
        proof {
            lemma_append(v0, b2, self.quote_mint@);
        }
        put_bytes(v, &self.base_vault);
        let ghost b4: Seq<u8> = b3 + self.base_vault@;
        proof {
            lemma_append(v0, b3, self.base_vault@);
        }
        put_bytes(v, &self.quote_vault);
        let ghost b5: Seq<u8> = b4 + self.quote_vault@;
        proof {
            lemma_append(v0, b4, self.quote_vault@);
        }
        put_bytes(v, &self.vault_authority);
        let ghost b6: Seq<u8> = b5 + self.vault_authority@;
        proof {
            lemma_append(v0, b5, self.vault_authority@);
        }
        put_bytes(v, &self.authority);
        let ghost b7: Seq<u8> = b6 + self.authority@;
        proof {
            lemma_append(v0, b6, self.authority@);
        }
        put_bytes(v, &self.config);
        let ghost b8: Seq<u8> = b7 + self.config@;
        proof {
            lemma_append(v0, b7, self.config@);
        }
    }

    fn encode_terms(&self, v: &mut Vec<u8>)
        ensures
            final(v)@ == old(v)@ + market_terms_bytes(*self),
    {
        let ghost v0 = v@;
        put64(v, self.tick_size);
        let ghost b0: Seq<u8> = bytes64(self.tick_size);
        put64(v, self.base_lot_size);
        let ghost b1: Seq<u8> = b0 + bytes64(self.base_lot_size);
        proof {
            lemma_append(v0, b0, bytes64(self.base_lot_size));
        }
        put32(v, self.anchor_tick);
        let ghost b2: Seq<u8> = b1 + bytes32(self.anchor_tick);
        proof {
            lemma_append(v0, b1, bytes32(self.anchor_tick));
        }
        put32(v, self.tick_limit);
        let ghost b3: Seq<u8> = b2 + bytes32(self.tick_limit);
        proof {
            lemma_append(v0, b2, bytes32(self.tick_limit));
        }
        put16(v, self.fee_bps);
        let ghost b4: Seq<u8> = b3 + bytes16(self.fee_bps);
        proof {
            lemma_append(v0, b3, bytes16(self.fee_bps));
        }
        put32(v, self.max_lots_per_order);
        let ghost b5: Seq<u8> = b4 + bytes32(self.max_lots_per_order);
        proof {
            lemma_append(v0, b4, bytes32(self.max_lots_per_order));
        }
        put32(v, self.order_pool_capacity);
        let ghost b6: Seq<u8> = b5 + bytes32(self.order_pool_capacity);
        proof {
            lemma_append(v0, b5, bytes32(self.order_pool_capacity));
        }
    }

    fn encode_state(&self, v: &mut Vec<u8>)
        ensures
            final(v)@ == old(v)@ + market_state_bytes(*self),
    {
        let ghost v0 = v@;
        put16(v, self.free_head);
        let ghost b0: Seq<u8> = bytes16(self.free_head);
        put32(v, self.free_count);
        let ghost b1: Seq<u8> = b0 + bytes32(self.free_count);
        proof {
            lemma_append(v0, b0, bytes32(self.free_count));
        }
        put128(v, self.seq);
        let ghost b2: Seq<u8> = b1 + bytes128(self.seq);
        proof {
            lemma_append(v0, b1, bytes128(self.seq));
        }
        put64(v, self.order_seq);
        let ghost b3: Seq<u8> = b2 + bytes64(self.order_seq);
        proof {
            lemma_append(v0, b2, bytes64(self.order_seq));
        }
        put64(v, self.fees_accrued_quote);
        let ghost b4: Seq<u8> = b3 + bytes64(self.fees_accrued_quote);
        proof {
            lemma_append(v0, b3, bytes64(self.fees_accrued_quote));
        }
        v.push(self.base_token_program);
        let ghost b5: Seq<u8> = b4 + seq![self.base_token_program];
        assert(v@ =~= v0 + b5);
        v.push(self.quote_token_program);
        let ghost b6: Seq<u8> = b5 + seq![self.quote_token_program];
        assert(v@ =~= v0 + b6);
        v.push(self.base_decimals);
        let ghost b7: Seq<u8> = b6 + seq![self.base_decimals];
        assert(v@ =~= v0 + b7);
        v.push(self.quote_decimals);
        let ghost b8: Seq<u8> = b7 + seq![self.quote_decimals];
        assert(v@ =~= v0 + b8);
        put_bytes(v, &self.padding);
        let ghost b9: Seq<u8> = b8 + self.padding@;
        proof {
            lemma_append(v0, b8, self.padding@);
        }
    }
}

/// The 128 bytes of this record.
pub open spec fn config_bytes(x: Config) -> Seq<u8> {
    seq![x.version] + x.bump@ + x.authority@ + x.seat_authority@ + x.market_authority@ + x.padding@
}

/// Field by field, the bytes at `i` are those of `x`.
proof fn lemma_config_fields(s: Seq<u8>, i: int, x: Config)
    requires
        0 <= i,
        i + 128 <= s.len(),
        x.version == s[i + 0],
        x.bump@ == s.subrange(i + 1, i + 2),
        x.authority@ == s.subrange(i + 2, i + 34),
        x.seat_authority@ == s.subrange(i + 34, i + 66),
        x.market_authority@ == s.subrange(i + 66, i + 98),
        x.padding@ == s.subrange(i + 98, i + 128),
    ensures
        config_bytes(x) == s.subrange(i, i + 128),
{
    assert(seq![x.version] =~= s.subrange(i + 0, i + 1));
    lemma_join(s, i, i + 1, i + 2);
    lemma_join(s, i, i + 2, i + 34);
    lemma_join(s, i, i + 34, i + 66);
    lemma_join(s, i, i + 66, i + 98);
    lemma_join(s, i, i + 98, i + 128);
}

/// The bytes decide the record.
pub proof fn lemma_config_injective(x: Config, y: Config)
    ensures
        config_bytes(x).len() == 128,
        config_bytes(x) == config_bytes(y) ==> x == y,
{
    let x0 = seq![x.version];
    let x1 = x0 + x.bump@;
    let x2 = x1 + x.authority@;
    let x3 = x2 + x.seat_authority@;
    let x4 = x3 + x.market_authority@;
    let x5 = x4 + x.padding@;
    let y0 = seq![y.version];
    let y1 = y0 + y.bump@;
    let y2 = y1 + y.authority@;
    let y3 = y2 + y.seat_authority@;
    let y4 = y3 + y.market_authority@;
    let y5 = y4 + y.padding@;
    if config_bytes(x) == config_bytes(y) {
        lemma_parts(x4, x.padding@, y4, y.padding@);
        assert(x.padding =~= y.padding);
        lemma_parts(x3, x.market_authority@, y3, y.market_authority@);
        assert(x.market_authority =~= y.market_authority);
        lemma_parts(x2, x.seat_authority@, y2, y.seat_authority@);
        assert(x.seat_authority =~= y.seat_authority);
        lemma_parts(x1, x.authority@, y1, y.authority@);
        assert(x.authority =~= y.authority);
        lemma_parts(x0, x.bump@, y0, y.bump@);
        assert(x.bump =~= y.bump);
        assert(seq![x.version][0] == seq![y.version][0]);
    }
}

impl Config {
    /// Read the record at `i`.
    pub fn decode(s: &[u8], i: usize) -> (r: Config)
        requires
            i + 128 <= s@.len(),
        ensures
            config_bytes(r) == s@.subrange(i as int, i + 128),
            r.version == s@[i as int],
    {
        assert(s@.len() == s.len());
        let r: Config = Config {
            version: s[i + 0],
            bump: array1(s, i + 1),
            authority: array32(s, i + 2),
            seat_authority: array32(s, i + 34),
            market_authority: array32(s, i + 66),
            padding: array30(s, i + 98),
        };
        proof {
            lemma_config_fields(s@, i as int, r);
        }
        r
    }

    /// Append the record's bytes.
    pub fn encode(&self, v: &mut Vec<u8>)
        ensures
            final(v)@ == old(v)@ + config_bytes(*self),
    {
        let ghost v0 = v@;
        v.push(self.version);
        let ghost b0: Seq<u8> = seq![self.version];
        assert(v@ =~= v0 + b0);
        put_bytes(v, &self.bump);
        let ghost b1: Seq<u8> = b0 + self.bump@;
        proof {
            lemma_append(v0, b0, self.bump@);
        }
        put_bytes(v, &self.authority);
        let ghost b2: Seq<u8> = b1 + self.authority@;
        proof {
            lemma_append(v0, b1, self.authority@);
        }
        put_bytes(v, &self.seat_authority);
        let ghost b3: Seq<u8> = b2 + self.seat_authority@;
        proof {
            lemma_append(v0, b2, self.seat_authority@);
        }
        put_bytes(v, &self.market_authority);
        let ghost b4: Seq<u8> = b3 + self.market_authority@;
        proof {
            lemma_append(v0, b3, self.market_authority@);
        }
        put_bytes(v, &self.padding);
        let ghost b5: Seq<u8> = b4 + self.padding@;
        proof {
            lemma_append(v0, b4, self.padding@);
        }
    }
}

/// The 16 bytes of this record.
pub open spec fn level_bytes(x: Level) -> Seq<u8> {
    bytes16(x.head) + bytes16(x.tail) + bytes64(x.total_lots) + x.padding@
}

/// Field by field, the bytes at `i` are those of `x`.
proof fn lemma_level_fields(s: Seq<u8>, i: int, x: Level)
    requires
        0 <= i,
        i + 16 <= s.len(),
        x.head == le16(s, i + 0),
        x.tail == le16(s, i + 2),
        x.total_lots == le64(s, i + 4),
        x.padding@ == s.subrange(i + 12, i + 16),
    ensures
        level_bytes(x) == s.subrange(i, i + 16),
{
    lemma_le16(s, i + 0, x.head);
    lemma_le16(s, i + 2, x.tail);
    lemma_join(s, i, i + 2, i + 4);
    lemma_le64(s, i + 4, x.total_lots);
    lemma_join(s, i, i + 4, i + 12);
    lemma_join(s, i, i + 12, i + 16);
}

/// The bytes decide the record.
pub proof fn lemma_level_injective(x: Level, y: Level)
    ensures
        level_bytes(x).len() == 16,
        level_bytes(x) == level_bytes(y) ==> x == y,
{
    lemma_bytes16(x.head, y.head);
    lemma_bytes16(x.tail, y.tail);
    lemma_bytes64(x.total_lots, y.total_lots);
    let x0 = bytes16(x.head);
    let x1 = x0 + bytes16(x.tail);
    let x2 = x1 + bytes64(x.total_lots);
    let x3 = x2 + x.padding@;
    let y0 = bytes16(y.head);
    let y1 = y0 + bytes16(y.tail);
    let y2 = y1 + bytes64(y.total_lots);
    let y3 = y2 + y.padding@;
    if level_bytes(x) == level_bytes(y) {
        lemma_parts(x2, x.padding@, y2, y.padding@);
        assert(x.padding =~= y.padding);
        lemma_parts(x1, bytes64(x.total_lots), y1, bytes64(y.total_lots));
        lemma_parts(x0, bytes16(x.tail), y0, bytes16(y.tail));
    }
}

impl Level {
    /// Read the record at `i`.
    pub fn decode(s: &[u8], i: usize) -> (r: Level)
        requires
            i + 16 <= s@.len(),
        ensures
            level_bytes(r) == s@.subrange(i as int, i + 16),
    {
        assert(s@.len() == s.len());
        let r: Level = Level {
            head: read16(s, i + 0),
            tail: read16(s, i + 2),
            total_lots: read64(s, i + 4),
            padding: array4(s, i + 12),
        };
        proof {
            lemma_level_fields(s@, i as int, r);
        }
        r
    }

    /// Append the record's bytes.
    pub fn encode(&self, v: &mut Vec<u8>)
        ensures
            final(v)@ == old(v)@ + level_bytes(*self),
    {
        let ghost v0 = v@;
        put16(v, self.head);
        let ghost b0: Seq<u8> = bytes16(self.head);
        put16(v, self.tail);
        let ghost b1: Seq<u8> = b0 + bytes16(self.tail);
        proof {
            lemma_append(v0, b0, bytes16(self.tail));
        }
        put64(v, self.total_lots);
        let ghost b2: Seq<u8> = b1 + bytes64(self.total_lots);
        proof {
            lemma_append(v0, b1, bytes64(self.total_lots));
        }
        put_bytes(v, &self.padding);
        let ghost b3: Seq<u8> = b2 + self.padding@;
        proof {
            lemma_append(v0, b2, self.padding@);
        }
    }
}

/// The 80 bytes of this record.
pub open spec fn seat_bytes(x: Seat) -> Seq<u8> {
    x.owner@ + bytes64(x.base_free) + bytes64(x.quote_free) + bytes64(x.base_locked)
        + bytes64(x.quote_locked) + bytes16(x.orders_head) + bytes16(x.order_count) + x.padding@
}

/// Field by field, the bytes at `i` are those of `x`.
proof fn lemma_seat_fields(s: Seq<u8>, i: int, x: Seat)
    requires
        0 <= i,
        i + 80 <= s.len(),
        x.owner@ == s.subrange(i + 0, i + 32),
        x.base_free == le64(s, i + 32),
        x.quote_free == le64(s, i + 40),
        x.base_locked == le64(s, i + 48),
        x.quote_locked == le64(s, i + 56),
        x.orders_head == le16(s, i + 64),
        x.order_count == le16(s, i + 66),
        x.padding@ == s.subrange(i + 68, i + 80),
    ensures
        seat_bytes(x) == s.subrange(i, i + 80),
{
    lemma_le64(s, i + 32, x.base_free);
    lemma_join(s, i, i + 32, i + 40);
    lemma_le64(s, i + 40, x.quote_free);
    lemma_join(s, i, i + 40, i + 48);
    lemma_le64(s, i + 48, x.base_locked);
    lemma_join(s, i, i + 48, i + 56);
    lemma_le64(s, i + 56, x.quote_locked);
    lemma_join(s, i, i + 56, i + 64);
    lemma_le16(s, i + 64, x.orders_head);
    lemma_join(s, i, i + 64, i + 66);
    lemma_le16(s, i + 66, x.order_count);
    lemma_join(s, i, i + 66, i + 68);
    lemma_join(s, i, i + 68, i + 80);
}

/// The bytes decide the record.
pub proof fn lemma_seat_injective(x: Seat, y: Seat)
    ensures
        seat_bytes(x).len() == 80,
        seat_bytes(x) == seat_bytes(y) ==> x == y,
{
    lemma_bytes64(x.base_free, y.base_free);
    lemma_bytes64(x.quote_free, y.quote_free);
    lemma_bytes64(x.base_locked, y.base_locked);
    lemma_bytes64(x.quote_locked, y.quote_locked);
    lemma_bytes16(x.orders_head, y.orders_head);
    lemma_bytes16(x.order_count, y.order_count);
    let x0 = x.owner@;
    let x1 = x0 + bytes64(x.base_free);
    let x2 = x1 + bytes64(x.quote_free);
    let x3 = x2 + bytes64(x.base_locked);
    let x4 = x3 + bytes64(x.quote_locked);
    let x5 = x4 + bytes16(x.orders_head);
    let x6 = x5 + bytes16(x.order_count);
    let x7 = x6 + x.padding@;
    let y0 = y.owner@;
    let y1 = y0 + bytes64(y.base_free);
    let y2 = y1 + bytes64(y.quote_free);
    let y3 = y2 + bytes64(y.base_locked);
    let y4 = y3 + bytes64(y.quote_locked);
    let y5 = y4 + bytes16(y.orders_head);
    let y6 = y5 + bytes16(y.order_count);
    let y7 = y6 + y.padding@;
    if seat_bytes(x) == seat_bytes(y) {
        lemma_parts(x6, x.padding@, y6, y.padding@);
        assert(x.padding =~= y.padding);
        lemma_parts(x5, bytes16(x.order_count), y5, bytes16(y.order_count));
        lemma_parts(x4, bytes16(x.orders_head), y4, bytes16(y.orders_head));
        lemma_parts(x3, bytes64(x.quote_locked), y3, bytes64(y.quote_locked));
        lemma_parts(x2, bytes64(x.base_locked), y2, bytes64(y.base_locked));
        lemma_parts(x1, bytes64(x.quote_free), y1, bytes64(y.quote_free));
        lemma_parts(x0, bytes64(x.base_free), y0, bytes64(y.base_free));
        assert(x.owner =~= y.owner);
    }
}

impl Seat {
    /// Read the record at `i`.
    pub fn decode(s: &[u8], i: usize) -> (r: Seat)
        requires
            i + 80 <= s@.len(),
        ensures
            seat_bytes(r) == s@.subrange(i as int, i + 80),
    {
        assert(s@.len() == s.len());
        let r: Seat = Seat {
            owner: array32(s, i + 0),
            base_free: read64(s, i + 32),
            quote_free: read64(s, i + 40),
            base_locked: read64(s, i + 48),
            quote_locked: read64(s, i + 56),
            orders_head: read16(s, i + 64),
            order_count: read16(s, i + 66),
            padding: array12(s, i + 68),
        };
        proof {
            lemma_seat_fields(s@, i as int, r);
        }
        r
    }

    /// Append the record's bytes.
    pub fn encode(&self, v: &mut Vec<u8>)
        ensures
            final(v)@ == old(v)@ + seat_bytes(*self),
    {
        let ghost v0 = v@;
        put_bytes(v, &self.owner);
        let ghost b0: Seq<u8> = self.owner@;
        put64(v, self.base_free);
        let ghost b1: Seq<u8> = b0 + bytes64(self.base_free);
        proof {
            lemma_append(v0, b0, bytes64(self.base_free));
        }
        put64(v, self.quote_free);
        let ghost b2: Seq<u8> = b1 + bytes64(self.quote_free);
        proof {
            lemma_append(v0, b1, bytes64(self.quote_free));
        }
        put64(v, self.base_locked);
        let ghost b3: Seq<u8> = b2 + bytes64(self.base_locked);
        proof {
            lemma_append(v0, b2, bytes64(self.base_locked));
        }
        put64(v, self.quote_locked);
        let ghost b4: Seq<u8> = b3 + bytes64(self.quote_locked);
        proof {
            lemma_append(v0, b3, bytes64(self.quote_locked));
        }
        put16(v, self.orders_head);
        let ghost b5: Seq<u8> = b4 + bytes16(self.orders_head);
        proof {
            lemma_append(v0, b4, bytes16(self.orders_head));
        }
        put16(v, self.order_count);
        let ghost b6: Seq<u8> = b5 + bytes16(self.order_count);
        proof {
            lemma_append(v0, b5, bytes16(self.order_count));
        }
        put_bytes(v, &self.padding);
        let ghost b7: Seq<u8> = b6 + self.padding@;
        proof {
            lemma_append(v0, b6, self.padding@);
        }
    }
}

/// The 30 bytes of this record.
pub open spec fn node_bytes(x: OrderNode) -> Seq<u8> {
    bytes16(x.prev) + bytes16(x.next) + bytes16(x.maker_prev) + bytes16(x.maker_next)
        + bytes32(x.tick) + bytes16(x.maker_and_side) + bytes32(x.lots) + bytes32(x.expiry_slot)
        + bytes64(x.seq)
}

/// Field by field, the bytes at `i` are those of `x`.
proof fn lemma_node_fields(s: Seq<u8>, i: int, x: OrderNode)
    requires
        0 <= i,
        i + 30 <= s.len(),
        x.prev == le16(s, i + 0),
        x.next == le16(s, i + 2),
        x.maker_prev == le16(s, i + 4),
        x.maker_next == le16(s, i + 6),
        x.tick == le32(s, i + 8),
        x.maker_and_side == le16(s, i + 12),
        x.lots == le32(s, i + 14),
        x.expiry_slot == le32(s, i + 18),
        x.seq == le64(s, i + 22),
    ensures
        node_bytes(x) == s.subrange(i, i + 30),
{
    lemma_le16(s, i + 0, x.prev);
    lemma_le16(s, i + 2, x.next);
    lemma_join(s, i, i + 2, i + 4);
    lemma_le16(s, i + 4, x.maker_prev);
    lemma_join(s, i, i + 4, i + 6);
    lemma_le16(s, i + 6, x.maker_next);
    lemma_join(s, i, i + 6, i + 8);
    lemma_le32(s, i + 8, x.tick);
    lemma_join(s, i, i + 8, i + 12);
    lemma_le16(s, i + 12, x.maker_and_side);
    lemma_join(s, i, i + 12, i + 14);
    lemma_le32(s, i + 14, x.lots);
    lemma_join(s, i, i + 14, i + 18);
    lemma_le32(s, i + 18, x.expiry_slot);
    lemma_join(s, i, i + 18, i + 22);
    lemma_le64(s, i + 22, x.seq);
    lemma_join(s, i, i + 22, i + 30);
}

/// The bytes decide the record.
pub proof fn lemma_node_injective(x: OrderNode, y: OrderNode)
    ensures
        node_bytes(x).len() == 30,
        node_bytes(x) == node_bytes(y) ==> x == y,
{
    lemma_bytes16(x.prev, y.prev);
    lemma_bytes16(x.next, y.next);
    lemma_bytes16(x.maker_prev, y.maker_prev);
    lemma_bytes16(x.maker_next, y.maker_next);
    lemma_bytes32(x.tick, y.tick);
    lemma_bytes16(x.maker_and_side, y.maker_and_side);
    lemma_bytes32(x.lots, y.lots);
    lemma_bytes32(x.expiry_slot, y.expiry_slot);
    lemma_bytes64(x.seq, y.seq);
    let x0 = bytes16(x.prev);
    let x1 = x0 + bytes16(x.next);
    let x2 = x1 + bytes16(x.maker_prev);
    let x3 = x2 + bytes16(x.maker_next);
    let x4 = x3 + bytes32(x.tick);
    let x5 = x4 + bytes16(x.maker_and_side);
    let x6 = x5 + bytes32(x.lots);
    let x7 = x6 + bytes32(x.expiry_slot);
    let x8 = x7 + bytes64(x.seq);
    let y0 = bytes16(y.prev);
    let y1 = y0 + bytes16(y.next);
    let y2 = y1 + bytes16(y.maker_prev);
    let y3 = y2 + bytes16(y.maker_next);
    let y4 = y3 + bytes32(y.tick);
    let y5 = y4 + bytes16(y.maker_and_side);
    let y6 = y5 + bytes32(y.lots);
    let y7 = y6 + bytes32(y.expiry_slot);
    let y8 = y7 + bytes64(y.seq);
    if node_bytes(x) == node_bytes(y) {
        lemma_parts(x7, bytes64(x.seq), y7, bytes64(y.seq));
        lemma_parts(x6, bytes32(x.expiry_slot), y6, bytes32(y.expiry_slot));
        lemma_parts(x5, bytes32(x.lots), y5, bytes32(y.lots));
        lemma_parts(x4, bytes16(x.maker_and_side), y4, bytes16(y.maker_and_side));
        lemma_parts(x3, bytes32(x.tick), y3, bytes32(y.tick));
        lemma_parts(x2, bytes16(x.maker_next), y2, bytes16(y.maker_next));
        lemma_parts(x1, bytes16(x.maker_prev), y1, bytes16(y.maker_prev));
        lemma_parts(x0, bytes16(x.next), y0, bytes16(y.next));
    }
}

impl OrderNode {
    /// Read the record at `i`.
    pub fn decode(s: &[u8], i: usize) -> (r: OrderNode)
        requires
            i + 30 <= s@.len(),
        ensures
            node_bytes(r) == s@.subrange(i as int, i + 30),
    {
        assert(s@.len() == s.len());
        let r: OrderNode = OrderNode {
            prev: read16(s, i + 0),
            next: read16(s, i + 2),
            maker_prev: read16(s, i + 4),
            maker_next: read16(s, i + 6),
            tick: read32(s, i + 8),
            maker_and_side: read16(s, i + 12),
            lots: read32(s, i + 14),
            expiry_slot: read32(s, i + 18),
            seq: read64(s, i + 22),
        };
        proof {
            lemma_node_fields(s@, i as int, r);
        }
        r
    }

    /// Append the record's bytes.
    pub fn encode(&self, v: &mut Vec<u8>)
        ensures
            final(v)@ == old(v)@ + node_bytes(*self),
    {
        let ghost v0 = v@;
        put16(v, self.prev);
        let ghost b0: Seq<u8> = bytes16(self.prev);
        put16(v, self.next);
        let ghost b1: Seq<u8> = b0 + bytes16(self.next);
        proof {
            lemma_append(v0, b0, bytes16(self.next));
        }
        put16(v, self.maker_prev);
        let ghost b2: Seq<u8> = b1 + bytes16(self.maker_prev);
        proof {
            lemma_append(v0, b1, bytes16(self.maker_prev));
        }
        put16(v, self.maker_next);
        let ghost b3: Seq<u8> = b2 + bytes16(self.maker_next);
        proof {
            lemma_append(v0, b2, bytes16(self.maker_next));
        }
        put32(v, self.tick);
        let ghost b4: Seq<u8> = b3 + bytes32(self.tick);
        proof {
            lemma_append(v0, b3, bytes32(self.tick));
        }
        put16(v, self.maker_and_side);
        let ghost b5: Seq<u8> = b4 + bytes16(self.maker_and_side);
        proof {
            lemma_append(v0, b4, bytes16(self.maker_and_side));
        }
        put32(v, self.lots);
        let ghost b6: Seq<u8> = b5 + bytes32(self.lots);
        proof {
            lemma_append(v0, b5, bytes32(self.lots));
        }
        put32(v, self.expiry_slot);
        let ghost b7: Seq<u8> = b6 + bytes32(self.expiry_slot);
        proof {
            lemma_append(v0, b6, bytes32(self.expiry_slot));
        }
        put64(v, self.seq);
        let ghost b8: Seq<u8> = b7 + bytes64(self.seq);
        proof {
            lemma_append(v0, b7, bytes64(self.seq));
        }
    }
}

} // verus!
