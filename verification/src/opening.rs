//! Creating a market in an account that its creator has allocated.

use crate::account::{bitmap_bytes, levels_bytes, nodes_bytes, seats_bytes};
use crate::accounts::{create_market_accounts, header_of, lemma_header_of, AccountView};
use crate::book::BookRefMut;
use crate::codec::{le16, le32, le64, read16, read32, read64, same_key};
use crate::constants::{
    FEE_DENOMINATOR,
    FREED_SEQ,
    MARKET_VERSION,
    MAX_FEE_BPS,
    MAX_POOL_CAPACITY,
    NIL,
    NODE_LEN,
    POOL_OFFSET,
    TOKEN_PROGRAM_2022,
    VAULT_SEED,
    WINDOW_MASK,
};
use crate::errors::{clob, fail, ClobError, ProgramError};
use crate::fresh::{bare_lists, lemma_zero_book, lemma_zero_header, untouched, zeros};
use crate::keys::{
    derive_address,
    derive_token_account,
    derived_address,
    spec_token_program_id,
    token_account_of,
    token_program_id,
    ID,
};
use crate::layout::{lemma_market_injective, market_bytes};
use crate::market::{wrapping_succ, Market};
use crate::model::{market_ok, params_ok, BookView, Order};
use crate::node::OrderNode;
use crate::seating::{indices, lemma_new_market};
use crate::token::{
    has_permanent_delegate,
    mint_decimals,
    mint_token_program_flag,
    spec_has_permanent_delegate,
    spec_mint_decimals,
    spec_mint_program,
};
use vstd::prelude::*;

verus! {

/// Initialize a market account. Anyone may do so.
#[derive(Clone, Copy, Debug, PartialEq, Eq, Structural)]
pub struct CreateMarket {
    /// Quote atoms per base lot per tick.
    pub tick_size: u64,
    /// Base atoms per lot.
    pub base_lot_size: u64,
    /// First window start, a multiple of 64.
    pub anchor_tick: u32,
    pub fee_bps: u16,
    pub max_lots_per_order: u32,
}

/// The market that a payload describes.
pub open spec fn create_market_of(data: Seq<u8>) -> Result<CreateMarket, ProgramError> {
    if data.len() != 26 {
        Err(ProgramError::InvalidInstructionData)
    } else {
        Ok(
            CreateMarket {
                tick_size: le64(data, 0),
                base_lot_size: le64(data, 8),
                anchor_tick: le32(data, 16),
                fee_bps: le16(data, 20),
                max_lots_per_order: le32(data, 22),
            },
        )
    }
}

/// What a market takes over from its two mints.
#[derive(Clone, Copy, Debug, PartialEq, Eq, Structural)]
pub struct MintTerms {
    pub base_program: u8,
    pub quote_program: u8,
    pub base_decimals: u8,
    pub quote_decimals: u8,
}

/// The addresses that a market records.
#[derive(Clone, Copy)]
pub struct MarketKeys {
    pub base_mint: [u8; 32],
    pub quote_mint: [u8; 32],
    pub base_vault: [u8; 32],
    pub quote_vault: [u8; 32],
    pub vault_authority: [u8; 32],
    pub bump: u8,
    pub authority: [u8; 32],
    pub config: [u8; 32],
}

/// The terms of the two mints. A permanent delegate could empty a vault, so a
/// mint that has one is refused.
pub open spec fn mint_terms_of(
    base_owner: Seq<u8>,
    base: Seq<u8>,
    quote_owner: Seq<u8>,
    quote: Seq<u8>,
) -> Result<MintTerms, ProgramError> {
    match (spec_mint_program(base_owner), spec_mint_program(quote_owner)) {
        (Err(e), _) => Err(e),
        (Ok(_), Err(e)) => Err(e),
        (Ok(b), Ok(q)) => match (spec_mint_decimals(base, b), spec_mint_decimals(quote, q)) {
            (Err(e), _) => Err(e),
            (Ok(_), Err(e)) => Err(e),
            (Ok(bd), Ok(qd)) => if (b == TOKEN_PROGRAM_2022 && spec_has_permanent_delegate(base))
                || (q == TOKEN_PROGRAM_2022 && spec_has_permanent_delegate(quote)) {
                Err(clob(ClobError::PermanentDelegateNotAllowed))
            } else {
                Ok(
                    MintTerms {
                        base_program: b,
                        quote_program: q,
                        base_decimals: bd,
                        quote_decimals: qd,
                    },
                )
            },
        },
    }
}

/// Read the terms of the two mints.
pub fn mint_terms(base: &AccountView, quote: &AccountView) -> (r: Result<MintTerms, ProgramError>)
    ensures
        r == mint_terms_of(base.owner@, base.data@, quote.owner@, quote.data@),
{
    let base_program: u8 = match mint_token_program_flag(base) {
        Ok(x) => x,
        Err(e) => {
            return Err(e);
        },
    };
    let quote_program: u8 = match mint_token_program_flag(quote) {
        Ok(x) => x,
        Err(e) => {
            return Err(e);
        },
    };
    let base_decimals: u8 = match mint_decimals(base, base_program) {
        Ok(x) => x,
        Err(e) => {
            return Err(e);
        },
    };
    let quote_decimals: u8 = match mint_decimals(quote, quote_program) {
        Ok(x) => x,
        Err(e) => {
            return Err(e);
        },
    };
    if base_program == TOKEN_PROGRAM_2022 && has_permanent_delegate(base) {
        return fail(ClobError::PermanentDelegateNotAllowed);
    }
    if quote_program == TOKEN_PROGRAM_2022 && has_permanent_delegate(quote) {
        return fail(ClobError::PermanentDelegateNotAllowed);
    }
    Ok(MintTerms { base_program, quote_program, base_decimals, quote_decimals })
}

/// A vault must stand at the address that was derived for it; `None` when
/// there is none.
pub open spec fn vault_check(vault: Seq<u8>, derived: Option<Seq<u8>>) -> Option<
    Result<(), ProgramError>,
> {
    match derived {
        None => None,
        Some(k) => if vault == k {
            Some(Ok(()))
        } else {
            Some(Err(clob(ClobError::InvalidTokenAddress)))
        },
    }
}

/// Hold a vault against the address that was derived for it.
pub fn check_vault(vault: &[u8; 32], derived: Option<[u8; 32]>) -> (r: Option<
    Result<(), ProgramError>,
>)
    ensures
        r == vault_check(
            vault@,
            match derived {
                Some(k) => Some(k@),
                None => None,
            },
        ),
{
    match derived {
        None => None,
        Some(k) => if same_key(vault, &k) {
            Some(Ok(()))
        } else {
            Some(fail(ClobError::InvalidTokenAddress))
        },
    }
}

/// The vault authority, when both vaults are its token accounts: base first.
pub open spec fn vaults_check(
    market: Seq<u8>,
    base_mint: Seq<u8>,
    quote_mint: Seq<u8>,
    base_vault: Seq<u8>,
    quote_vault: Seq<u8>,
    m: MintTerms,
) -> Option<Result<(Seq<u8>, u8), ProgramError>> {
    match derived_address(seq![VAULT_SEED@, market], ID@) {
        None => None,
        Some((authority, bump)) => match vault_check(
            base_vault,
            token_account_of(authority, spec_token_program_id(m.base_program), base_mint),
        ) {
            None => None,
            Some(Err(e)) => Some(Err(e)),
            Some(Ok(_)) => match vault_check(
                quote_vault,
                token_account_of(authority, spec_token_program_id(m.quote_program), quote_mint),
            ) {
                None => None,
                Some(Err(e)) => Some(Err(e)),
                Some(Ok(_)) => Some(Ok((authority, bump))),
            },
        },
    }
}

/// Derive the vault authority and check both vaults.
pub fn check_vaults(
    market: &[u8; 32],
    base_mint: &[u8; 32],
    quote_mint: &[u8; 32],
    base_vault: &[u8; 32],
    quote_vault: &[u8; 32],
    m: &MintTerms,
) -> (r: Option<Result<([u8; 32], u8), ProgramError>>)
    ensures
        vaults_check(market@, base_mint@, quote_mint@, base_vault@, quote_vault@, *m) == (match r {
            None => None,
            Some(Err(e)) => Some(Err(e)),
            Some(Ok((k, b))) => Some(Ok((k@, b))),
        }),
{
    let (authority, bump): ([u8; 32], u8) = match derive_address(&VAULT_SEED, market) {
        None => {
            return None;
        },
        Some(x) => x,
    };
    let base: Option<[u8; 32]> = derive_token_account(
        &authority,
        &token_program_id(m.base_program),
        base_mint,
    );
    match check_vault(base_vault, base) {
        None => {
            return None;
        },
        Some(Err(e)) => {
            return Some(Err(e));
        },
        Some(Ok(_)) => {},
    }
    let quote: Option<[u8; 32]> = derive_token_account(
        &authority,
        &token_program_id(m.quote_program),
        quote_mint,
    );
    match check_vault(quote_vault, quote) {
        None => {
            return None;
        },
        Some(Err(e)) => {
            return Some(Err(e));
        },
        Some(Ok(_)) => {},
    }
    Some(Ok((authority, bump)))
}

/// Nodes that a market account has room for.
pub open spec fn capacity_of(data: Seq<u8>) -> u32 {
    ((data.len() - POOL_OFFSET) / (NODE_LEN as int)) as u32
}

/// The regions of account bytes, with the capacity that the length gives.
pub open spec fn regions_of(data: Seq<u8>, b: BookRefMut) -> bool {
    &&& b.sized()
    &&& b.header == (Market { order_pool_capacity: capacity_of(data), ..header_of(data) })
    &&& b.bytes() == market_bytes(b.header) + data.subrange(320, data.len() as int)
}

/// All nodes but the first are free, in order.
pub open spec fn threaded(p: Seq<OrderNode>, q: Seq<OrderNode>) -> bool {
    &&& q.len() == p.len()
    &&& forall|j: int|
        0 <= j < p.len() ==> #[trigger] q[j] == (if j >= 1 {
            OrderNode {
                next: if j + 1 < p.len() {
                    (j + 1) as u16
                } else {
                    NIL
                },
                seq: FREED_SEQ,
                lots: 0,
                ..p[j]
            }
        } else {
            p[j]
        })
}

impl CreateMarket {
    pub const DISCRIMINATOR: u8 = 0;

    pub fn try_from(data: &[u8]) -> (r: Result<CreateMarket, ProgramError>)
        ensures
            r == create_market_of(data@),
    {
        if data.len() != 26 {
            return Err(ProgramError::InvalidInstructionData);
        }
        Ok(
            CreateMarket {
                tick_size: read64(data, 0),
                base_lot_size: read64(data, 8),
                anchor_tick: read32(data, 16),
                fee_bps: read16(data, 20),
                max_lots_per_order: read32(data, 22),
            },
        )
    }

    /// The largest order at a price of one tick, in quote atoms times 10_000,
    /// with the highest fee on top.
    pub open spec fn worst(self) -> int {
        self.tick_size * self.max_lots_per_order * 10_500
    }

    /// The highest tick at which no order overflows.
    pub open spec fn limit(self) -> int {
        let q = u64::MAX as int / self.worst();
        if q < u32::MAX - 16384 {
            q
        } else {
            u32::MAX - 16384
        }
    }

    /// Sizes are not zero, the anchor is a word of ticks above tick 0, and no
    /// amount overflows anywhere in the first window.
    pub open spec fn valid(self) -> bool {
        &&& self.tick_size >= 1
        &&& self.base_lot_size >= 1
        &&& self.max_lots_per_order >= 1
        &&& self.anchor_tick % 64 == 0
        &&& self.anchor_tick >= 1
        &&& self.tick_size * self.anchor_tick <= u64::MAX
        &&& self.worst() <= u64::MAX
        &&& self.base_lot_size * self.max_lots_per_order <= u64::MAX
        &&& self.anchor_tick + 8191 <= self.limit()
    }

    /// Check the parameters and compute the tick limit. A market needs two
    /// different mints: both vaults derive from the mint.
    pub fn validate(&self, same_mint: bool) -> (r: Result<u32, ProgramError>)
        ensures
            match r {
                Ok(limit) => self.valid() && !same_mint && limit == self.limit(),
                Err(e) => (!self.valid() || same_mint) && e == clob(ClobError::InvalidMarketParams),
            },
    {
        if self.tick_size == 0 || self.base_lot_size == 0 || self.max_lots_per_order == 0 {
            return fail(ClobError::InvalidMarketParams);
        }
        // The anchor moves in whole bitmap words, and tick 0 is not a
        // tradeable price.
        if self.anchor_tick % 64 != 0 || self.anchor_tick == 0 {
            return fail(ClobError::InvalidMarketParams);
        }
        if same_mint {
            return fail(ClobError::InvalidMarketParams);
        }
        if self.tick_size.checked_mul(self.anchor_tick as u64).is_none() {
            return fail(ClobError::InvalidMarketParams);
        }
        let notional: u64 = match self.tick_size.checked_mul(self.max_lots_per_order as u64) {
            Some(x) => x,
            None => {
                assert(self.worst() > u64::MAX) by (nonlinear_arith)
                    requires
                        self.tick_size * self.max_lots_per_order > u64::MAX,
                        self.worst() == self.tick_size * self.max_lots_per_order * 10_500,
                ;
                return fail(ClobError::InvalidMarketParams);
            },
        };
        let denom: u64 = match notional.checked_mul(FEE_DENOMINATOR + MAX_FEE_BPS as u64) {
            Some(x) => x,
            None => {
                return fail(ClobError::InvalidMarketParams);
            },
        };
        if self.base_lot_size.checked_mul(self.max_lots_per_order as u64).is_none() {
            return fail(ClobError::InvalidMarketParams);
        }
        assert(denom >= 1) by (nonlinear_arith)
            requires
                denom == self.tick_size * self.max_lots_per_order * 10_500,
                self.tick_size >= 1,
                self.max_lots_per_order >= 1,
        ;
        let most: u64 = u64::MAX / denom;
        // At most two windows below the largest tick: 2^32 - 1 - 2 * 8192.
        let tick_limit: u32 = if most < 4294950911 {
            most as u32
        } else {
            4294950911
        };
        if self.anchor_tick > u32::MAX - WINDOW_MASK || self.anchor_tick + WINDOW_MASK > tick_limit {
            return fail(ClobError::InvalidMarketParams);
        }
        Ok(tick_limit)
    }

    /// The header of the new market, written over `h`.
    pub open spec fn header(self, h: Market, capacity: u32, m: MintTerms, k: MarketKeys) -> Market {
        Market {
            version: MARKET_VERSION,
            bump: [k.bump],
            base_mint: k.base_mint,
            quote_mint: k.quote_mint,
            base_vault: k.base_vault,
            quote_vault: k.quote_vault,
            vault_authority: k.vault_authority,
            authority: k.authority,
            config: k.config,
            tick_size: self.tick_size,
            base_lot_size: self.base_lot_size,
            anchor_tick: self.anchor_tick,
            tick_limit: self.limit() as u32,
            fee_bps: self.fee_bps,
            max_lots_per_order: self.max_lots_per_order,
            order_pool_capacity: capacity,
            free_head: 1,
            free_count: (h.free_count + (capacity - 1)) as u32,
            seq: wrapping_succ(h.seq),
            base_token_program: m.base_program,
            quote_token_program: m.quote_program,
            base_decimals: m.base_decimals,
            quote_decimals: m.quote_decimals,
            ..h
        }
    }

    /// `b` is the market that this instruction makes of account bytes: the
    /// header is filled, the pool is threaded onto the free list, everything
    /// else is as it was.
    pub open spec fn opens(self, data: Seq<u8>, m: MintTerms, k: MarketKeys, b: BookRefMut) -> bool {
        &&& b.header == self.header(header_of(data), capacity_of(data), m, k)
        &&& exists|a: BookRefMut|
            {
                &&& #[trigger] regions_of(data, a)
                &&& b.bid_bitmap == a.bid_bitmap
                &&& b.ask_bitmap == a.ask_bitmap
                &&& b.levels@ == a.levels@
                &&& b.seats@ == a.seats@
                &&& threaded(a.pool@, b.pool@)
            }
    }

    /// The header of the new market before its pool is laid out.
    pub open spec fn filled(self, h: Market, m: MintTerms, k: MarketKeys) -> Market {
        Market {
            free_head: NIL,
            free_count: h.free_count,
            seq: h.seq,
            ..self.header(h, h.order_pool_capacity, m, k)
        }
    }

    /// Fill the header.
    fn fill(&self, h: &mut Market, tick_limit: u32, m: &MintTerms, k: &MarketKeys) -> (r: Result<
        (),
        ProgramError,
    >)
        requires
            tick_limit == self.limit(),
        ensures
            r == (if self.fee_bps > MAX_FEE_BPS {
                Err::<(), ProgramError>(clob(ClobError::InvalidFee))
            } else {
                Ok(())
            }),
            r is Ok ==> *final(h) == self.filled(*old(h), *m, *k),
    {
        h.set_version(MARKET_VERSION);
        h.set_bump([k.bump]);
        h.set_base_mint(k.base_mint);
        h.set_quote_mint(k.quote_mint);
        h.set_base_vault(k.base_vault);
        h.set_quote_vault(k.quote_vault);
        h.set_vault_authority(k.vault_authority);
        h.set_authority(k.authority);
        h.set_config(k.config);
        h.set_tick_size(self.tick_size);
        h.set_base_lot_size(self.base_lot_size);
        h.set_anchor_tick(self.anchor_tick);
        h.set_tick_limit(tick_limit);
        h.set_fee_bps(self.fee_bps)?;
        h.set_max_lots_per_order(self.max_lots_per_order);
        h.set_base_token_program(m.base_program);
        h.set_quote_token_program(m.quote_program);
        h.set_base_decimals(m.base_decimals);
        h.set_quote_decimals(m.quote_decimals);
        h.set_free_head(NIL);
        Ok(())
    }

    /// Write the header and lay out the pool. Accounts come from the runtime
    /// zeroed, and then the result is a market without orders whose seats are
    /// all vacant.
    #[verifier::rlimit(40)]
    pub fn open(&self, data: &[u8], tick_limit: u32, m: &MintTerms, k: &MarketKeys) -> (r: Result<
        BookRefMut,
        ProgramError,
    >)
        requires
            self.valid(),
            tick_limit == self.limit(),
            data@.len() == POOL_OFFSET + NODE_LEN * capacity_of(data@),
            2 <= capacity_of(data@) <= MAX_POOL_CAPACITY,
            header_of(data@).free_count + capacity_of(data@) <= u32::MAX,
        ensures
            match r {
                Err(e) => self.fee_bps > MAX_FEE_BPS && e == clob(ClobError::InvalidFee),
                Ok(b) => {
                    &&& self.fee_bps <= MAX_FEE_BPS
                    &&& self.opens(data@, *m, *k, b)
                    &&& zeros(data@) ==> b.wf() && is_new(b@)
                },
            },
    {
        assert(data@.len() == data.len());
        let capacity: u32 = ((data.len() - POOL_OFFSET) / NODE_LEN) as u32;
        let header: Market = Market::decode(data, 0);
        proof {
            lemma_header_of(data@, header);
        }
        let mut book: BookRefMut = BookRefMut::carve(data, header, capacity);
        let ghost a = book;
        assert(regions_of(data@, a));
        match self.fill(&mut book.header, tick_limit, m, k) {
            Ok(_) => {},
            Err(e) => {
                return Err(e);
            },
        }
        proof {
            book.lists@ = bare_lists();
        }
        let ghost b = book;
        // Node 0 is reserved, so a zeroed link always means "none".
        book.thread_free_list(1, capacity);
        let ghost w = book;
        book.header.bump_seq();
        assert(threaded(a.pool@, book.pool@));
        proof {
            if zeros(data@) {
                self.lemma_terms(b.header);
                lemma_opened(data@, header, a, b, w, book);
            }
        }
        Ok(book)
    }

    /// Valid parameters make a market in which no amount overflows.
    pub proof fn lemma_terms(self, h: Market)
        requires
            self.valid(),
            self.fee_bps <= MAX_FEE_BPS,
            h.tick_size == self.tick_size,
            h.base_lot_size == self.base_lot_size,
            h.anchor_tick == self.anchor_tick,
            h.tick_limit == self.limit(),
            h.fee_bps == self.fee_bps,
            h.max_lots_per_order == self.max_lots_per_order,
            h.order_pool_capacity <= MAX_POOL_CAPACITY,
        ensures
            params_ok(h),
            market_ok(h),
    {
        let w = self.worst();
        let l = h.tick_limit as int;
        let ts = h.tick_size as int;
        let ml = h.max_lots_per_order as int;
        assert(w >= 1) by (nonlinear_arith)
            requires
                w == ts * ml * 10_500,
                ts >= 1,
                ml >= 1,
        ;
        let q = u64::MAX as int / w;
        assert(q * w <= u64::MAX) by (nonlinear_arith)
            requires
                q == u64::MAX as int / w,
                w >= 1,
        ;
        assert(l * w <= q * w) by (nonlinear_arith)
            requires
                0 <= l <= q,
                w >= 1,
        ;
        assert(l * ts * ml * 10_500 == l * w) by (nonlinear_arith)
            requires
                w == ts * ml * 10_500,
        ;
        let x = (h.anchor_tick + 8191) as int;
        assert(x * ts * ml <= l * ts * ml * 10_500) by (nonlinear_arith)
            requires
                0 <= x <= l,
                ts >= 1,
                ml >= 1,
        ;
        assert(h.max_lots_per_order * h.base_lot_size == h.base_lot_size * h.max_lots_per_order)
            by (nonlinear_arith);
    }

    /// The whole decision, but for the fee.
    pub open spec fn checks(self, a: Seq<AccountView>) -> Option<
        Result<(MintTerms, Seq<u8>, u8), ProgramError>,
    > {
        if !self.valid() || a[1].key@ == a[2].key@ {
            Some(Err(clob(ClobError::InvalidMarketParams)))
        } else {
            match mint_terms_of(a[1].owner@, a[1].data@, a[2].owner@, a[2].data@) {
                Err(e) => Some(Err(e)),
                Ok(m) => match vaults_check(
                    a[0].key@,
                    a[1].key@,
                    a[2].key@,
                    a[3].key@,
                    a[4].key@,
                    m,
                ) {
                    None => None,
                    Some(Err(e)) => Some(Err(e)),
                    Some(Ok((authority, bump))) => Some(Ok((m, authority, bump))),
                },
            }
        }
    }

    /// Run the instruction on its accounts: market, base mint, quote mint,
    /// base vault, quote vault, authority, config. `None` when an address
    /// cannot be derived at all.
    pub fn process(&self, a: &[AccountView]) -> (r: Option<Result<BookRefMut, ProgramError>>)
        requires
            create_market_accounts(a@) == Ok::<(), ProgramError>(()),
            header_of(a@[0].data@).free_count + capacity_of(a@[0].data@) <= u32::MAX,
        ensures
            match self.checks(a@) {
                None => r is None,
                Some(Err(e)) => r is Some && r->0 is Err && r->0->Err_0 == e,
                Some(Ok((m, authority, bump))) => r is Some && match r->0 {
                    Err(e) => self.fee_bps > MAX_FEE_BPS && e == clob(ClobError::InvalidFee),
                    Ok(b) => {
                        &&& self.fee_bps <= MAX_FEE_BPS
                        &&& exists|k: MarketKeys|
                            {
                                &&& #[trigger] keys_from(a@, k)
                                &&& k.vault_authority@ == authority
                                &&& k.bump == bump
                                &&& self.opens(a@[0].data@, m, k, b)
                            }
                        &&& zeros(a@[0].data@) ==> b.wf() && is_new(b@)
                    },
                },
            },
    {
        assert(a@.len() == 7);
        let same_mint: bool = same_key(&a[1].key, &a[2].key);
        let tick_limit: u32 = match self.validate(same_mint) {
            Ok(x) => x,
            Err(e) => {
                return Some(Err(e));
            },
        };
        let m: MintTerms = match mint_terms(&a[1], &a[2]) {
            Ok(x) => x,
            Err(e) => {
                return Some(Err(e));
            },
        };
        let (vault_authority, bump): ([u8; 32], u8) = match check_vaults(
            &a[0].key,
            &a[1].key,
            &a[2].key,
            &a[3].key,
            &a[4].key,
            &m,
        ) {
            None => {
                return None;
            },
            Some(Err(e)) => {
                return Some(Err(e));
            },
            Some(Ok(x)) => x,
        };
        let k: MarketKeys = MarketKeys {
            base_mint: a[1].key,
            quote_mint: a[2].key,
            base_vault: a[3].key,
            quote_vault: a[4].key,
            vault_authority,
            bump,
            authority: a[5].key,
            config: a[6].key,
        };
        assert(keys_from(a@, k));
        proof {
            let n = a@[0].data@.len() - POOL_OFFSET;
            assert(n % 30 == 0 && n / 30 <= MAX_POOL_CAPACITY);
        }
        Some(self.open(a[0].data, tick_limit, &m, &k))
    }
}

/// The recorded addresses are those of the accounts.
pub open spec fn keys_from(a: Seq<AccountView>, k: MarketKeys) -> bool {
    &&& k.base_mint == a[1].key
    &&& k.quote_mint == a[2].key
    &&& k.base_vault == a[3].key
    &&& k.quote_vault == a[4].key
    &&& k.authority == a[5].key
    &&& k.config == a[6].key
}

/// No orders, vacant seats, nothing held, nothing accrued.
pub open spec fn is_new(v: BookView) -> bool {
    &&& v.orders == Map::<u16, Order>::empty()
    &&& forall|s: int| 0 <= s < 128 ==> untouched(#[trigger] v.seats[s])
    &&& v.owed(true) == 0
    &&& v.owed(false) == 0
    &&& market_ok(v.header)
    &&& v.header.seq == 1
    &&& v.header.order_seq == 0
}

/// A zeroed account opens as a consistent book.
proof fn lemma_opened(
    data: Seq<u8>,
    header: Market,
    a: BookRefMut,
    b: BookRefMut,
    w: BookRefMut,
    r: BookRefMut,
)
    requires
        zeros(data),
        data.len() >= POOL_OFFSET,
        header_of(data) == header,
        market_bytes(header) == data.subrange(0, 320),
        regions_of(data, a),
        capacity_of(data) >= 2,
        b == (BookRefMut { header: b.header, lists: b.lists, ..a }),
        b.header.order_pool_capacity == a.header.order_pool_capacity,
        b.header.free_head == 0,
        b.header.free_count == header.free_count,
        b.header.seq == header.seq,
        b.header.order_seq == header.order_seq,
        b.header.fees_accrued_quote == header.fees_accrued_quote,
        b.lists@ == bare_lists(),
        params_ok(b.header),
        market_ok(b.header),
        b.frees_ok() ==> w.frees_ok(),
        w.lists@ == (crate::book::Lists { free: indices(1, b.pool@.len() as int), ..b.lists@ }),
        w == (BookRefMut { header: w.header, pool: w.pool, lists: w.lists, ..b }),
        w.header == (Market {
            free_head: w.header.free_head,
            free_count: w.header.free_count,
            ..b.header
        }),
        threaded(b.pool@, w.pool@),
        r == (BookRefMut { header: r.header, ..w }),
        r.header == (Market { seq: wrapping_succ(w.header.seq), ..w.header }),
    ensures
        r.wf(),
        is_new(r@),
{
    assert(zeros(market_bytes(header)));
    lemma_zero_header(header);
    let t = data.subrange(320, data.len() as int);
    let x = bitmap_bytes(a.bid_bitmap);
    let y = bitmap_bytes(a.ask_bitmap);
    let l = levels_bytes(a.levels@);
    let s = seats_bytes(a.seats@);
    let n = nodes_bytes(a.pool@);
    let h = market_bytes(a.header);
    assert(h + x + y + l + s + n =~= h + (x + y + l + s + n));
    lemma_market_injective(a.header, a.header);
    assert(x + y + l + s + n =~= t) by {
        let p = h + (x + y + l + s + n);
        let q = h + t;
        assert(p == q);
        assert(p.len() == h.len() + (x + y + l + s + n).len());
        assert(q.len() == h.len() + t.len());
        assert forall|i: int| 0 <= i < t.len() implies (x + y + l + s + n)[i] == t[i] by {
            assert(p[h.len() + i] == (x + y + l + s + n)[i]);
            assert(q[h.len() + i] == t[i]);
        }
    }
    assert(zeros(x + y + l + s + n));
    lemma_zero_book(b);
    assert(b.pool@.len() == b.header.order_pool_capacity);
    lemma_new_market(b, w);
    r.lemma_header_only(w);
    assert forall|i: int| 0 <= i < 128 implies untouched(#[trigger] r@.seats[i]) by {
        assert(untouched(b.seats@[i]));
    }
}

} // verus!
