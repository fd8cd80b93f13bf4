//! Token accounts, mints and transfers, as far as their bytes go.

use crate::accounts::AccountView;
use crate::codec::{bytes64, le16, le64, put64, read16, read64, same_key};
use crate::constants::{TOKEN_PROGRAM_2022, TOKEN_PROGRAM_LEGACY};
use crate::errors::{clob, fail, ClobError, ProgramError};
use crate::keys::{legacy_token_id, spec_legacy_token_id, spec_token_2022_id, token_2022_id};
use vstd::prelude::*;

verus! {

/// Where the extension entries of an extended mint begin: the base record is
/// padded to the length of a token account, then comes the account type.
pub const MINT_TLV_OFFSET: usize = 166;

/// Extension type of a permanent delegate.
pub const PERMANENT_DELEGATE_EXTENSION_TYPE: u16 = 12;

/// Whether the extension entries from `i` on name a permanent delegate. An
/// entry is a type, a length and that many bytes.
pub open spec fn delegate_from(data: Seq<u8>, i: int) -> bool
    decreases
        if i < data.len() {
            data.len() - i
        } else {
            0
        },
{
    if i < 0 || i + 4 > data.len() {
        false
    } else if le16(data, i) == PERMANENT_DELEGATE_EXTENSION_TYPE {
        true
    } else {
        delegate_from(data, i + 4 + le16(data, i + 2))
    }
}

/// Whether a mint carries a permanent delegate. A mint without extensions is
/// 82 bytes long.
pub open spec fn spec_has_permanent_delegate(data: Seq<u8>) -> bool {
    data.len() > 82 && delegate_from(data, MINT_TLV_OFFSET as int)
}

/// Scan a mint's extension entries for a permanent delegate. Malformed entries
/// can only end the scan early.
pub fn has_permanent_delegate_bytes(data: &[u8]) -> (r: bool)
    ensures
        r == spec_has_permanent_delegate(data@),
{
    let len: usize = data.len();
    if len <= 82 {
        return false;
    }
    let mut i: usize = MINT_TLV_OFFSET;
    while i <= len && len - i >= 4
        invariant
            len == data@.len(),
            len > 82,
            0 <= i,
            delegate_from(data@, MINT_TLV_OFFSET as int) == delegate_from(data@, i as int),
        decreases len - i,
    {
        let ext_type: u16 = read16(data, i);
        if ext_type == PERMANENT_DELEGATE_EXTENSION_TYPE {
            return true;
        }
        let ext_len: usize = read16(data, i + 2) as usize;
        if len - i - 4 < ext_len {
            assert(!delegate_from(data@, i + 4 + ext_len));
            return false;
        }
        i = i + 4 + ext_len;
    }
    false
}

/// The token program that owns a mint.
pub open spec fn spec_mint_program(owner: Seq<u8>) -> Result<u8, ProgramError> {
    if owner == spec_legacy_token_id() {
        Ok(TOKEN_PROGRAM_LEGACY)
    } else if owner == spec_token_2022_id() {
        Ok(TOKEN_PROGRAM_2022)
    } else {
        Err(clob(ClobError::UnsupportedTokenProgram))
    }
}

/// Which token program owns a mint; any other owner is refused.
pub fn mint_token_program_flag(mint: &AccountView) -> (r: Result<u8, ProgramError>)
    ensures
        r == spec_mint_program(mint.owner@),
{
    if same_key(&mint.owner, &legacy_token_id()) {
        Ok(TOKEN_PROGRAM_LEGACY)
    } else if same_key(&mint.owner, &token_2022_id()) {
        Ok(TOKEN_PROGRAM_2022)
    } else {
        fail(ClobError::UnsupportedTokenProgram)
    }
}

/// The decimals of an initialized mint. A legacy mint is 82 bytes long; a
/// Token-2022 mint may be longer and then carries the account type of a mint
/// in front of its extensions.
pub open spec fn spec_mint_decimals(data: Seq<u8>, token_program: u8) -> Result<u8, ProgramError> {
    if token_program == TOKEN_PROGRAM_2022 && data.len() < 82 || token_program
        != TOKEN_PROGRAM_2022 && data.len() != 82 {
        Err(clob(ClobError::InvalidAccountLength))
    } else if data[45] == 0 {
        Err(clob(ClobError::InvalidState))
    } else if token_program == TOKEN_PROGRAM_2022 && data.len() > 82 && (data.len() <= 165
        || data[165] != 1) {
        Err(clob(ClobError::InvalidState))
    } else {
        Ok(data[44])
    }
}

/// Read the decimals of a mint.
pub fn mint_decimals(mint: &AccountView, token_program: u8) -> (r: Result<u8, ProgramError>)
    ensures
        r == spec_mint_decimals(mint.data@, token_program),
{
    let data: &[u8] = mint.data;
    let len: usize = data.len();
    let len_ok: bool = if token_program == TOKEN_PROGRAM_2022 {
        len >= 82
    } else {
        len == 82
    };
    if !len_ok {
        return fail(ClobError::InvalidAccountLength);
    }
    if data[45] == 0 {
        return fail(ClobError::InvalidState);
    }
    if token_program == TOKEN_PROGRAM_2022 && len > 82 {
        if len <= MINT_TLV_OFFSET - 1 || data[MINT_TLV_OFFSET - 1] != 1 {
            return fail(ClobError::InvalidState);
        }
    }
    Ok(data[44])
}

/// Whether a mint carries a permanent delegate.
pub fn has_permanent_delegate(mint: &AccountView) -> (r: bool)
    ensures
        r == spec_has_permanent_delegate(mint.data@),
{
    has_permanent_delegate_bytes(mint.data)
}

/// The amount that a token account holds.
pub open spec fn spec_token_amount(data: Seq<u8>) -> Result<u64, ProgramError> {
    if data.len() < 72 {
        Err(clob(ClobError::InvalidAccountLength))
    } else {
        Ok(le64(data, 64))
    }
}

/// Read the amount of a token account. Fees that a mint withholds stand
/// elsewhere in the account and are not part of it.
pub fn token_amount(data: &[u8]) -> (r: Result<u64, ProgramError>)
    ensures
        r == spec_token_amount(data@),
{
    if data.len() < 72 {
        return fail(ClobError::InvalidAccountLength);
    }
    Ok(read64(data, 64))
}

/// What a vault received between two readings.
pub open spec fn spec_received(pre: u64, post: u64) -> Result<u64, ProgramError> {
    if post < pre {
        Err(clob(ClobError::InvalidState))
    } else {
        Ok((post - pre) as u64)
    }
}

/// What a vault received between two readings.
pub fn received(pre: u64, post: u64) -> (r: Result<u64, ProgramError>)
    ensures
        r == spec_received(pre, post),
{
    if post < pre {
        return fail(ClobError::InvalidState);
    }
    Ok(post - pre)
}

/// A checked token transfer: the mint and its decimals go along, so that both
/// token programs accept it.
#[derive(Clone, Copy, Debug, PartialEq, Eq, Structural)]
pub struct CheckedTransfer {
    pub amount: u64,
    pub decimals: u8,
}

/// Instruction data of a checked transfer.
pub open spec fn transfer_bytes(amount: u64, decimals: u8) -> Seq<u8> {
    seq![12u8] + bytes64(amount) + seq![decimals]
}

impl CheckedTransfer {
    /// Instruction data: the index 12, the amount, the decimals.
    pub fn encode(amount: u64, decimals: u8) -> (r: Vec<u8>)
        ensures
            r@ == transfer_bytes(amount, decimals),
            r@.len() == 10,
    {
        let mut v: Vec<u8> = Vec::new();
        v.push(12);
        put64(&mut v, amount);
        v.push(decimals);
        assert(v@ =~= transfer_bytes(amount, decimals));
        v
    }
}

} // verus!
