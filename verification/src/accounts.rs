//! The accounts that an instruction is given, and what it demands of them.

use crate::codec::{le32, same_key};
use crate::constants::{
    CONFIG_LEN,
    CONFIG_VERSION,
    MARKET_VERSION,
    MAX_POOL_CAPACITY,
    MIN_MARKET_LEN,
    NODE_LEN,
    POOL_OFFSET,
};
use crate::errors::{clob, fail, ClobError, ProgramError};
use crate::keys::{spec_token_program_id, ID};
use crate::layout::{config_bytes, lemma_config_injective, lemma_market_injective, market_bytes};
use crate::market::{Config, Market};
use crate::seat::{is_zero_key, no_owner};
use crate::side::unlikely;
use vstd::prelude::*;

verus! {

/// An account as the runtime hands it in.
pub struct AccountView<'a> {
    pub key: [u8; 32],
    pub owner: [u8; 32],
    pub is_signer: bool,
    pub is_writable: bool,
    pub data: &'a [u8],
}

/// The header that account bytes begin with.
pub open spec fn header_of(data: Seq<u8>) -> Market {
    choose|m: Market| market_bytes(m) == data.subrange(0, 320)
}

/// The config that account bytes hold.
pub open spec fn config_of(data: Seq<u8>) -> Config {
    choose|c: Config| config_bytes(c) == data.subrange(0, 128)
}

/// The header that bytes encode is the one they begin with.
pub proof fn lemma_header_of(data: Seq<u8>, m: Market)
    requires
        market_bytes(m) == data.subrange(0, 320),
    ensures
        header_of(data) == m,
{
    lemma_market_injective(header_of(data), m);
}

pub proof fn lemma_config_of(data: Seq<u8>, c: Config)
    requires
        config_bytes(c) == data.subrange(0, 128),
    ensures
        config_of(data) == c,
{
    lemma_config_injective(config_of(data), c);
}

/// A market account: owner, length, version, and a length that matches the
/// recorded pool capacity.
pub open spec fn market_check(owner: Seq<u8>, data: Seq<u8>) -> Result<(), ProgramError> {
    if owner != ID@ {
        Err(clob(ClobError::InvalidAccountOwner))
    } else if data.len() < MIN_MARKET_LEN {
        Err(clob(ClobError::InvalidAccountLength))
    } else if data[0] != MARKET_VERSION {
        Err(clob(ClobError::InvalidVersion))
    } else if data.len() != POOL_OFFSET + le32(data, 256) * NODE_LEN {
        Err(clob(ClobError::InvalidAccountLength))
    } else {
        Ok(())
    }
}

/// A config account: owner, length and version.
pub open spec fn config_check(owner: Seq<u8>, data: Seq<u8>) -> Result<(), ProgramError> {
    if owner != ID@ {
        Err(clob(ClobError::InvalidAccountOwner))
    } else if data.len() != CONFIG_LEN {
        Err(clob(ClobError::InvalidAccountLength))
    } else if data[0] != CONFIG_VERSION {
        Err(clob(ClobError::InvalidVersion))
    } else {
        Ok(())
    }
}

impl Market {
    pub const LEN: usize = 320;

    /// The header that `bytes` begin with.
    pub fn from_bytes_unchecked(bytes: &[u8]) -> (r: Market)
        requires
            bytes@.len() >= 320,
        ensures
            r == header_of(bytes@),
            market_bytes(r) == bytes@.subrange(0, 320),
            r.version == bytes@[0],
            r.order_pool_capacity == le32(bytes@, 256),
    {
        let r: Market = Market::decode(bytes, 0);
        proof {
            lemma_header_of(bytes@, r);
        }
        r
    }

    /// Validate a market account.
    pub fn check(account: &AccountView) -> (r: Result<(), ProgramError>)
        ensures
            r == market_check(account.owner@, account.data@),
    {
        if unlikely(!same_key(&account.owner, &ID)) {
            return fail(ClobError::InvalidAccountOwner);
        }
        if unlikely(account.data.len() < MIN_MARKET_LEN) {
            return fail(ClobError::InvalidAccountLength);
        }
        let header: Market = Market::from_bytes_unchecked(account.data);
        if unlikely(header.version() != MARKET_VERSION) {
            return fail(ClobError::InvalidVersion);
        }
        let expected: u64 = POOL_OFFSET as u64 + header.order_pool_capacity() as u64
            * NODE_LEN as u64;
        if unlikely(account.data.len() as u64 != expected) {
            return fail(ClobError::InvalidAccountLength);
        }
        Ok(())
    }
}

impl Config {
    pub const LEN: usize = 128;

    /// The config that `bytes` hold.
    pub fn from_bytes_unchecked(bytes: &[u8]) -> (r: Config)
        requires
            bytes@.len() >= 128,
        ensures
            r == config_of(bytes@),
            config_bytes(r) == bytes@.subrange(0, 128),
            r.version == bytes@[0],
    {
        let r: Config = Config::decode(bytes, 0);
        proof {
            lemma_config_of(bytes@, r);
        }
        r
    }

    /// Validate a config account.
    pub fn check(account: &AccountView) -> (r: Result<(), ProgramError>)
        ensures
            r == config_check(account.owner@, account.data@),
    {
        if !same_key(&account.owner, &ID) {
            return fail(ClobError::InvalidAccountOwner);
        }
        if account.data.len() != CONFIG_LEN {
            return fail(ClobError::InvalidAccountLength);
        }
        let cfg: Config = Config::from_bytes_unchecked(account.data);
        if cfg.version() != CONFIG_VERSION {
            return fail(ClobError::InvalidVersion);
        }
        Ok(())
    }
}

/// Accounts of `CreateConfig`: payer, config, authority, system program.
pub open spec fn create_config_accounts(a: Seq<AccountView>) -> Result<(), ProgramError> {
    if a.len() != 4 {
        Err(ProgramError::NotEnoughAccountKeys)
    } else if !a[0].is_signer || !a[2].is_signer {
        Err(clob(ClobError::NotSigner))
    } else if !a[1].is_writable {
        Err(clob(ClobError::NotMutable))
    } else {
        Ok(())
    }
}

/// Accounts of `CreateConfig`: payer, config, authority, system program.
pub fn check_create_config(a: &[AccountView]) -> (r: Result<(), ProgramError>)
    ensures
        r == create_config_accounts(a@),
{
    if a.len() != 4 {
        return Err(ProgramError::NotEnoughAccountKeys);
    }
    if !a[0].is_signer || !a[2].is_signer {
        return fail(ClobError::NotSigner);
    }
    if !a[1].is_writable {
        return fail(ClobError::NotMutable);
    }
    Ok(())
}

/// Accounts of `UpdateConfig`: authority, config.
pub open spec fn update_config_accounts(a: Seq<AccountView>) -> Result<(), ProgramError> {
    let c = config_of(a[1].data@);
    if a.len() != 2 {
        Err(ProgramError::NotEnoughAccountKeys)
    } else if !a[0].is_signer {
        Err(clob(ClobError::NotSigner))
    } else if !a[1].is_writable {
        Err(clob(ClobError::NotMutable))
    } else if config_check(a[1].owner@, a[1].data@) is Err {
        config_check(a[1].owner@, a[1].data@)
    } else if a[0].key@ != c.authority@ {
        Err(clob(ClobError::InvalidProgramAuthority))
    } else {
        Ok(())
    }
}

/// Accounts of `UpdateConfig`: authority, config.
pub fn check_update_config(a: &[AccountView]) -> (r: Result<(), ProgramError>)
    ensures
        r == update_config_accounts(a@),
{
    if a.len() != 2 {
        return Err(ProgramError::NotEnoughAccountKeys);
    }
    if !a[0].is_signer {
        return fail(ClobError::NotSigner);
    }
    if !a[1].is_writable {
        return fail(ClobError::NotMutable);
    }
    Config::check(&a[1])?;
    let c: Config = Config::from_bytes_unchecked(a[1].data);
    if !same_key(&a[0].key, c.authority()) {
        return fail(ClobError::InvalidProgramAuthority);
    }
    Ok(())
}

/// Accounts of `UpdateFee`: authority, market.
pub open spec fn update_fee_accounts(a: Seq<AccountView>) -> Result<(), ProgramError> {
    let h = header_of(a[1].data@);
    if a.len() != 2 {
        Err(ProgramError::NotEnoughAccountKeys)
    } else if !a[0].is_signer {
        Err(clob(ClobError::NotSigner))
    } else if !a[1].is_writable {
        Err(clob(ClobError::NotMutable))
    } else if market_check(a[1].owner@, a[1].data@) is Err {
        market_check(a[1].owner@, a[1].data@)
    } else if a[0].key@ != h.authority@ {
        Err(clob(ClobError::InvalidProgramAuthority))
    } else {
        Ok(())
    }
}

/// Accounts of `UpdateFee`: authority, market.
pub fn check_update_fee(a: &[AccountView]) -> (r: Result<(), ProgramError>)
    ensures
        r == update_fee_accounts(a@),
{
    if a.len() != 2 {
        return Err(ProgramError::NotEnoughAccountKeys);
    }
    if !a[0].is_signer {
        return fail(ClobError::NotSigner);
    }
    if !a[1].is_writable {
        return fail(ClobError::NotMutable);
    }
    Market::check(&a[1])?;
    let h: Market = Market::from_bytes_unchecked(a[1].data);
    if !same_key(&a[0].key, h.authority()) {
        return fail(ClobError::InvalidProgramAuthority);
    }
    Ok(())
}

/// Accounts of `CollectFees`: authority, market, quote vault, the authority's
/// quote account, vault authority, quote mint, quote token program.
pub open spec fn collect_fees_accounts(a: Seq<AccountView>) -> Result<(), ProgramError> {
    let h = header_of(a[1].data@);
    if a.len() != 7 {
        Err(ProgramError::NotEnoughAccountKeys)
    } else if !a[0].is_signer {
        Err(clob(ClobError::NotSigner))
    } else if !a[1].is_writable {
        Err(clob(ClobError::NotMutable))
    } else if market_check(a[1].owner@, a[1].data@) is Err {
        market_check(a[1].owner@, a[1].data@)
    } else if a[0].key@ != h.authority@ {
        Err(clob(ClobError::InvalidProgramAuthority))
    } else if a[2].key@ != h.quote_vault@ {
        Err(clob(ClobError::InvalidTokenAddress))
    } else if a[4].key@ != h.vault_authority@ {
        Err(clob(ClobError::InvalidTokenAddress))
    } else if a[6].key@ != spec_token_program_id(h.quote_token_program) {
        Err(clob(ClobError::UnsupportedTokenProgram))
    } else {
        Ok(())
    }
}

/// Accounts of `CollectFees`: authority, market, quote vault, the authority's
/// quote account, vault authority, quote mint, quote token program.
pub fn check_collect_fees(a: &[AccountView]) -> (r: Result<(), ProgramError>)
    ensures
        r == collect_fees_accounts(a@),
{
    if a.len() != 7 {
        return Err(ProgramError::NotEnoughAccountKeys);
    }
    if !a[0].is_signer {
        return fail(ClobError::NotSigner);
    }
    if !a[1].is_writable {
        return fail(ClobError::NotMutable);
    }
    Market::check(&a[1])?;
    let h: Market = Market::from_bytes_unchecked(a[1].data);
    if !same_key(&a[0].key, h.authority()) {
        return fail(ClobError::InvalidProgramAuthority);
    }
    if !same_key(&a[2].key, h.quote_vault()) {
        return fail(ClobError::InvalidTokenAddress);
    }
    if !same_key(&a[4].key, h.vault_authority()) {
        return fail(ClobError::InvalidTokenAddress);
    }
    if !same_key(&a[6].key, &h.quote_token_program_id()) {
        return fail(ClobError::UnsupportedTokenProgram);
    }
    Ok(())
}

/// Accounts of `ClaimSeat`: seat authority, owner, config, market.
pub open spec fn claim_seat_accounts(a: Seq<AccountView>) -> Result<(), ProgramError> {
    let h = header_of(a[3].data@);
    let c = config_of(a[2].data@);
    if a.len() != 4 {
        Err(ProgramError::NotEnoughAccountKeys)
    } else if !a[0].is_signer {
        Err(clob(ClobError::NotSigner))
    } else if !a[3].is_writable {
        Err(clob(ClobError::NotMutable))
    } else if market_check(a[3].owner@, a[3].data@) is Err {
        market_check(a[3].owner@, a[3].data@)
    } else if config_check(a[2].owner@, a[2].data@) is Err {
        config_check(a[2].owner@, a[2].data@)
    } else if a[2].key@ != h.config@ {
        Err(clob(ClobError::InvalidProgramAuthority))
    } else if a[0].key@ != c.seat_authority@ {
        Err(clob(ClobError::InvalidProgramAuthority))
    } else if no_owner(a[1].key@) {
        Err(clob(ClobError::ZeroAuthority))
    } else {
        Ok(())
    }
}

/// Accounts of `ClaimSeat`: seat authority, owner, config, market.
pub fn check_claim_seat(a: &[AccountView]) -> (r: Result<(), ProgramError>)
    ensures
        r == claim_seat_accounts(a@),
{
    if a.len() != 4 {
        return Err(ProgramError::NotEnoughAccountKeys);
    }
    if !a[0].is_signer {
        return fail(ClobError::NotSigner);
    }
    if !a[3].is_writable {
        return fail(ClobError::NotMutable);
    }
    Market::check(&a[3])?;
    let h: Market = Market::from_bytes_unchecked(a[3].data);
    Config::check(&a[2])?;
    let c: Config = Config::from_bytes_unchecked(a[2].data);
    if !same_key(&a[2].key, h.config()) {
        return fail(ClobError::InvalidProgramAuthority);
    }
    if !same_key(&a[0].key, c.seat_authority()) {
        return fail(ClobError::InvalidProgramAuthority);
    }
    if is_zero_key(&a[1].key) {
        return fail(ClobError::ZeroAuthority);
    }
    Ok(())
}

/// Accounts of the maker and taker instructions on a seat, and of `CloseSeat`:
/// owner, market.
pub open spec fn seat_accounts(a: Seq<AccountView>) -> Result<(), ProgramError> {
    if a.len() != 2 {
        Err(ProgramError::NotEnoughAccountKeys)
    } else if !a[0].is_signer {
        Err(clob(ClobError::NotSigner))
    } else if !a[1].is_writable {
        Err(clob(ClobError::NotMutable))
    } else if market_check(a[1].owner@, a[1].data@) is Err {
        market_check(a[1].owner@, a[1].data@)
    } else {
        Ok(())
    }
}

/// Accounts of the maker and taker instructions on a seat, and of `CloseSeat`:
/// owner, market.
pub fn check_seat(a: &[AccountView]) -> (r: Result<(), ProgramError>)
    ensures
        r == seat_accounts(a@),
{
    if a.len() != 2 {
        return Err(ProgramError::NotEnoughAccountKeys);
    }
    if !a[0].is_signer {
        return fail(ClobError::NotSigner);
    }
    if !a[1].is_writable {
        return fail(ClobError::NotMutable);
    }
    Market::check(&a[1])?;
    Ok(())
}

/// Accounts of `Deposit`: owner, market, the owner's two token accounts, the
/// two vaults, the two mints, the two token programs.
pub open spec fn deposit_accounts(a: Seq<AccountView>) -> Result<(), ProgramError> {
    let h = header_of(a[1].data@);
    if a.len() != 10 {
        Err(ProgramError::NotEnoughAccountKeys)
    } else if !a[0].is_signer {
        Err(clob(ClobError::NotSigner))
    } else if !a[1].is_writable {
        Err(clob(ClobError::NotMutable))
    } else if market_check(a[1].owner@, a[1].data@) is Err {
        market_check(a[1].owner@, a[1].data@)
    } else if a[4].key@ != h.base_vault@ {
        Err(clob(ClobError::InvalidTokenAddress))
    } else if a[5].key@ != h.quote_vault@ {
        Err(clob(ClobError::InvalidTokenAddress))
    } else if a[8].key@ != spec_token_program_id(h.base_token_program) {
        Err(clob(ClobError::UnsupportedTokenProgram))
    } else if a[9].key@ != spec_token_program_id(h.quote_token_program) {
        Err(clob(ClobError::UnsupportedTokenProgram))
    } else {
        Ok(())
    }
}

/// Accounts of `Deposit`: owner, market, the owner's two token accounts, the
/// two vaults, the two mints, the two token programs.
pub fn check_deposit(a: &[AccountView]) -> (r: Result<(), ProgramError>)
    ensures
        r == deposit_accounts(a@),
{
    if a.len() != 10 {
        return Err(ProgramError::NotEnoughAccountKeys);
    }
    if !a[0].is_signer {
        return fail(ClobError::NotSigner);
    }
    if !a[1].is_writable {
        return fail(ClobError::NotMutable);
    }
    Market::check(&a[1])?;
    let h: Market = Market::from_bytes_unchecked(a[1].data);
    if !same_key(&a[4].key, h.base_vault()) {
        return fail(ClobError::InvalidTokenAddress);
    }
    if !same_key(&a[5].key, h.quote_vault()) {
        return fail(ClobError::InvalidTokenAddress);
    }
    if !same_key(&a[8].key, &h.base_token_program_id()) {
        return fail(ClobError::UnsupportedTokenProgram);
    }
    if !same_key(&a[9].key, &h.quote_token_program_id()) {
        return fail(ClobError::UnsupportedTokenProgram);
    }
    Ok(())
}

/// Accounts of `Withdraw`: owner, market, the owner's two token accounts, the
/// two vaults, vault authority, the two mints, the two token programs.
pub open spec fn withdraw_accounts(a: Seq<AccountView>) -> Result<(), ProgramError> {
    let h = header_of(a[1].data@);
    if a.len() != 11 {
        Err(ProgramError::NotEnoughAccountKeys)
    } else if !a[0].is_signer {
        Err(clob(ClobError::NotSigner))
    } else if !a[1].is_writable {
        Err(clob(ClobError::NotMutable))
    } else if market_check(a[1].owner@, a[1].data@) is Err {
        market_check(a[1].owner@, a[1].data@)
    } else if a[4].key@ != h.base_vault@ {
        Err(clob(ClobError::InvalidTokenAddress))
    } else if a[5].key@ != h.quote_vault@ {
        Err(clob(ClobError::InvalidTokenAddress))
    } else if a[6].key@ != h.vault_authority@ {
        Err(clob(ClobError::InvalidTokenAddress))
    } else if a[9].key@ != spec_token_program_id(h.base_token_program) {
        Err(clob(ClobError::UnsupportedTokenProgram))
    } else if a[10].key@ != spec_token_program_id(h.quote_token_program) {
        Err(clob(ClobError::UnsupportedTokenProgram))
    } else {
        Ok(())
    }
}

/// Accounts of `Withdraw`: owner, market, the owner's two token accounts, the
/// two vaults, vault authority, the two mints, the two token programs.
pub fn check_withdraw(a: &[AccountView]) -> (r: Result<(), ProgramError>)
    ensures
        r == withdraw_accounts(a@),
{
    if a.len() != 11 {
        return Err(ProgramError::NotEnoughAccountKeys);
    }
    if !a[0].is_signer {
        return fail(ClobError::NotSigner);
    }
    if !a[1].is_writable {
        return fail(ClobError::NotMutable);
    }
    Market::check(&a[1])?;
    let h: Market = Market::from_bytes_unchecked(a[1].data);
    if !same_key(&a[4].key, h.base_vault()) {
        return fail(ClobError::InvalidTokenAddress);
    }
    if !same_key(&a[5].key, h.quote_vault()) {
        return fail(ClobError::InvalidTokenAddress);
    }
    if !same_key(&a[6].key, h.vault_authority()) {
        return fail(ClobError::InvalidTokenAddress);
    }
    if !same_key(&a[9].key, &h.base_token_program_id()) {
        return fail(ClobError::UnsupportedTokenProgram);
    }
    if !same_key(&a[10].key, &h.quote_token_program_id()) {
        return fail(ClobError::UnsupportedTokenProgram);
    }
    Ok(())
}

/// Accounts of `Swap`: those of `Withdraw`, with the user in front. The user's
/// signature is left to the input transfer.
pub open spec fn swap_accounts(a: Seq<AccountView>) -> Result<(), ProgramError> {
    let h = header_of(a[1].data@);
    if a.len() != 11 {
        Err(ProgramError::NotEnoughAccountKeys)
    } else if !a[1].is_writable {
        Err(clob(ClobError::NotMutable))
    } else if market_check(a[1].owner@, a[1].data@) is Err {
        market_check(a[1].owner@, a[1].data@)
    } else if a[4].key@ != h.base_vault@ {
        Err(clob(ClobError::InvalidTokenAddress))
    } else if a[5].key@ != h.quote_vault@ {
        Err(clob(ClobError::InvalidTokenAddress))
    } else if a[6].key@ != h.vault_authority@ {
        Err(clob(ClobError::InvalidTokenAddress))
    } else if a[9].key@ != spec_token_program_id(h.base_token_program) {
        Err(clob(ClobError::UnsupportedTokenProgram))
    } else if a[10].key@ != spec_token_program_id(h.quote_token_program) {
        Err(clob(ClobError::UnsupportedTokenProgram))
    } else {
        Ok(())
    }
}

/// Accounts of `Swap`: those of `Withdraw`, with the user in front. The user's
/// signature is left to the input transfer.
pub fn check_swap(a: &[AccountView]) -> (r: Result<(), ProgramError>)
    ensures
        r == swap_accounts(a@),
{
    if a.len() != 11 {
        return Err(ProgramError::NotEnoughAccountKeys);
    }
    if !a[1].is_writable {
        return fail(ClobError::NotMutable);
    }
    Market::check(&a[1])?;
    let h: Market = Market::from_bytes_unchecked(a[1].data);
    if !same_key(&a[4].key, h.base_vault()) {
        return fail(ClobError::InvalidTokenAddress);
    }
    if !same_key(&a[5].key, h.quote_vault()) {
        return fail(ClobError::InvalidTokenAddress);
    }
    if !same_key(&a[6].key, h.vault_authority()) {
        return fail(ClobError::InvalidTokenAddress);
    }
    if !same_key(&a[9].key, &h.base_token_program_id()) {
        return fail(ClobError::UnsupportedTokenProgram);
    }
    if !same_key(&a[10].key, &h.quote_token_program_id()) {
        return fail(ClobError::UnsupportedTokenProgram);
    }
    Ok(())
}

/// Accounts of `Reanchor`: market authority, config, market.
pub open spec fn reanchor_accounts(a: Seq<AccountView>) -> Result<(), ProgramError> {
    let h = header_of(a[2].data@);
    let c = config_of(a[1].data@);
    if a.len() != 3 {
        Err(ProgramError::NotEnoughAccountKeys)
    } else if !a[0].is_signer {
        Err(clob(ClobError::NotSigner))
    } else if !a[2].is_writable {
        Err(clob(ClobError::NotMutable))
    } else if market_check(a[2].owner@, a[2].data@) is Err {
        market_check(a[2].owner@, a[2].data@)
    } else if config_check(a[1].owner@, a[1].data@) is Err {
        config_check(a[1].owner@, a[1].data@)
    } else if a[1].key@ != h.config@ {
        Err(clob(ClobError::InvalidProgramAuthority))
    } else if a[0].key@ != c.market_authority@ {
        Err(clob(ClobError::InvalidProgramAuthority))
    } else {
        Ok(())
    }
}

/// Accounts of `Reanchor`: market authority, config, market.
pub fn check_reanchor(a: &[AccountView]) -> (r: Result<(), ProgramError>)
    ensures
        r == reanchor_accounts(a@),
{
    if a.len() != 3 {
        return Err(ProgramError::NotEnoughAccountKeys);
    }
    if !a[0].is_signer {
        return fail(ClobError::NotSigner);
    }
    if !a[2].is_writable {
        return fail(ClobError::NotMutable);
    }
    Market::check(&a[2])?;
    let h: Market = Market::from_bytes_unchecked(a[2].data);
    Config::check(&a[1])?;
    let c: Config = Config::from_bytes_unchecked(a[1].data);
    if !same_key(&a[1].key, h.config()) {
        return fail(ClobError::InvalidProgramAuthority);
    }
    if !same_key(&a[0].key, c.market_authority()) {
        return fail(ClobError::InvalidProgramAuthority);
    }
    Ok(())
}

/// Accounts of `ReapExpired`: market.
pub open spec fn reap_accounts(a: Seq<AccountView>) -> Result<(), ProgramError> {
    if a.len() != 1 {
        Err(ProgramError::NotEnoughAccountKeys)
    } else if !a[0].is_writable {
        Err(clob(ClobError::NotMutable))
    } else if market_check(a[0].owner@, a[0].data@) is Err {
        market_check(a[0].owner@, a[0].data@)
    } else {
        Ok(())
    }
}

/// Accounts of `ReapExpired`: market.
pub fn check_reap(a: &[AccountView]) -> (r: Result<(), ProgramError>)
    ensures
        r == reap_accounts(a@),
{
    if a.len() != 1 {
        return Err(ProgramError::NotEnoughAccountKeys);
    }
    if !a[0].is_writable {
        return fail(ClobError::NotMutable);
    }
    Market::check(&a[0])?;
    Ok(())
}

/// Accounts of `CreateMarket`: market, base mint, quote mint, base vault, quote
/// vault, authority, config. The market account is fresh: its pool divides
/// evenly into nodes and its version is 0. Its signature proves that the
/// initializer is the party that created it.
pub open spec fn create_market_accounts(a: Seq<AccountView>) -> Result<(), ProgramError> {
    let d = a[0].data@;
    if a.len() != 7 {
        Err(ProgramError::NotEnoughAccountKeys)
    } else if !a[0].is_writable {
        Err(clob(ClobError::NotMutable))
    } else if !a[0].is_signer {
        Err(clob(ClobError::NotSigner))
    } else if a[0].owner@ != ID@ {
        Err(clob(ClobError::InvalidAccountOwner))
    } else if d.len() < MIN_MARKET_LEN || (d.len() - POOL_OFFSET) % (NODE_LEN as int) != 0 || (
    d.len() - POOL_OFFSET) / (NODE_LEN as int) > MAX_POOL_CAPACITY {
        Err(clob(ClobError::InvalidAccountLength))
    } else if d[0] != 0 {
        Err(clob(ClobError::InvalidState))
    } else {
        config_check(a[6].owner@, a[6].data@)
    }
}

/// Accounts of `CreateMarket`.
pub fn check_create_market(a: &[AccountView]) -> (r: Result<(), ProgramError>)
    ensures
        r == create_market_accounts(a@),
{
    if a.len() != 7 {
        return Err(ProgramError::NotEnoughAccountKeys);
    }
    if !a[0].is_writable {
        return fail(ClobError::NotMutable);
    }
    if !a[0].is_signer {
        return fail(ClobError::NotSigner);
    }
    if !same_key(&a[0].owner, &ID) {
        return fail(ClobError::InvalidAccountOwner);
    }
    let len: usize = a[0].data.len();
    if len < MIN_MARKET_LEN || (len - POOL_OFFSET) % NODE_LEN != 0 || (len - POOL_OFFSET)
        / NODE_LEN > MAX_POOL_CAPACITY as usize {
        return fail(ClobError::InvalidAccountLength);
    }
    let header: Market = Market::from_bytes_unchecked(a[0].data);
    if header.version() != 0 {
        return fail(ClobError::InvalidState);
    }
    Config::check(&a[6])
}

} // verus!
