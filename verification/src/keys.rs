//! Program ids and derived addresses.

use crate::constants::TOKEN_PROGRAM_2022;
use vstd::prelude::*;

verus! {

/// Address of this program.
pub const ID: [u8; 32] = [
    0xa3, 0x56, 0xc1, 0xfb, 0xbd, 0xc3, 0xb9, 0x74, 0x17, 0xb8, 0x8c, 0x6d, 0xc1, 0xa1, 0xb7, 0xe5,
    0x44, 0xa8, 0x91, 0xed, 0x95, 0x17, 0x6e, 0x9e, 0x9e, 0x21, 0x37, 0xaa, 0x31, 0x1a, 0x40, 0x74,
];

/// Address of the legacy token program.
pub open spec fn spec_legacy_token_id() -> Seq<u8> {
    seq![
        0x06u8, 0xdd, 0xf6, 0xe1, 0xd7, 0x65, 0xa1, 0x93, 0xd9, 0xcb, 0xe1,
        0x46, 0xce, 0xeb, 0x79, 0xac, 0x1c, 0xb4, 0x85, 0xed, 0x5f, 0x5b,
        0x37, 0x91, 0x3a, 0x8c, 0xf5, 0x85, 0x7e, 0xff, 0x00, 0xa9,
    ]
}

/// Address of the Token-2022 program.
pub open spec fn spec_token_2022_id() -> Seq<u8> {
    seq![
        0x06u8, 0xdd, 0xf6, 0xe1, 0xee, 0x75, 0x8f, 0xde, 0x18, 0x42, 0x5d,
        0xbc, 0xe4, 0x6c, 0xcd, 0xda, 0xb6, 0x1a, 0xfc, 0x4d, 0x83, 0xb9,
        0x0d, 0x27, 0xfe, 0xbd, 0xf9, 0x28, 0xd8, 0xa1, 0x8b, 0xfc,
    ]
}

/// Address of the program that owns associated token accounts.
pub open spec fn spec_associated_token_id() -> Seq<u8> {
    seq![
        0x8cu8, 0x97, 0x25, 0x8f, 0x4e, 0x24, 0x89, 0xf1, 0xbb, 0x3d, 0x10,
        0x29, 0x14, 0x8e, 0x0d, 0x83, 0x0b, 0x5a, 0x13, 0x99, 0xda, 0xff,
        0x10, 0x84, 0x04, 0x8e, 0x7b, 0xd8, 0xdb, 0xe9, 0xf8, 0x59,
    ]
}

/// The address and bump that `Pubkey::try_find_program_address` of
/// `solana_pubkey` finds for these seeds under this program: the hash of the
/// seeds, the highest bump that keeps the address off the curve, and the
/// program id. `None` when no bump does, when a seed is longer than 32 bytes
/// and when there are more than 15 seeds.
pub uninterp spec fn derived_address(seeds: Seq<Seq<u8>>, program: Seq<u8>) -> Option<(Seq<u8>, u8)>;

/// `pinocchio_token::id`: returns the address of the legacy token program,
/// a constant of that crate.
#[verifier::external_body]
pub(crate) fn legacy_token_id() -> (r: [u8; 32])
    ensures
        r@ == spec_legacy_token_id(),
{
    pinocchio_token::id()
}

/// `pinocchio_pubkey::from_str`: decodes a base58 address; here that of the
/// Token-2022 program.
#[verifier::external_body]
pub(crate) fn token_2022_id() -> (r: [u8; 32])
    ensures
        r@ == spec_token_2022_id(),
{
    pinocchio_pubkey::from_str("TokenzQdBNbLqP5VEhdkAS6EPFLC1PHnBqCXEpPxuEb")
}

/// `pinocchio_associated_token_account::id`: returns the address of the
/// associated token account program, a constant of that crate.
#[verifier::external_body]
pub(crate) fn associated_token_id() -> (r: [u8; 32])
    ensures
        r@ == spec_associated_token_id(),
{
    pinocchio_associated_token_account::id()
}

/// `solana_pubkey::Pubkey::try_find_program_address`: searches the bumps
/// downwards for an address off the curve. The result is a function of the
/// seeds and the program alone; which address it is, is left to its name.
#[verifier::external_body]
pub(crate) fn find_address(seeds: &[&[u8]], program: &[u8; 32]) -> (r: Option<([u8; 32], u8)>)
    ensures
        match r {
            Some((key, bump)) => derived_address(seeds_of(seeds@), program@) == Some((key@, bump)),
            None => derived_address(seeds_of(seeds@), program@) is None,
        },
{
    let id = solana_pubkey::Pubkey::new_from_array(*program);
    match solana_pubkey::Pubkey::try_find_program_address(seeds, &id) {
        Some((key, bump)) => Some((key.to_bytes(), bump)),
        None => None,
    }
}

/// The bytes of each seed.
pub open spec fn seeds_of(seeds: Seq<&[u8]>) -> Seq<Seq<u8>> {
    Seq::new(seeds.len(), |i: int| seeds[i]@)
}

/// The token program that a stored flag stands for.
pub open spec fn spec_token_program_id(flag: u8) -> Seq<u8> {
    if flag == TOKEN_PROGRAM_2022 {
        spec_token_2022_id()
    } else {
        spec_legacy_token_id()
    }
}

/// The token program that a stored flag stands for.
pub fn token_program_id(flag: u8) -> (r: [u8; 32])
    ensures
        r@ == spec_token_program_id(flag),
{
    if flag == TOKEN_PROGRAM_2022 {
        token_2022_id()
    } else {
        legacy_token_id()
    }
}

/// The address that two seeds derive under this program.
pub fn derive_address(tag: &[u8], key: &[u8; 32]) -> (r: Option<([u8; 32], u8)>)
    ensures
        match r {
            Some((address, bump)) => derived_address(seq![tag@, key@], ID@) == Some(
                (address@, bump),
            ),
            None => derived_address(seq![tag@, key@], ID@) is None,
        },
{
    let seeds: [&[u8]; 2] = [tag, key];
    assert(seeds_of(seeds@) =~= seq![tag@, key@]);
    find_address(&seeds, &ID)
}

/// The associated token account of `wallet` for `mint`.
pub fn derive_token_account(wallet: &[u8; 32], token_program: &[u8; 32], mint: &[u8; 32]) -> (r:
    Option<[u8; 32]>)
    ensures
        r is Some == token_account_of(wallet@, token_program@, mint@) is Some,
        r matches Some(k) ==> token_account_of(wallet@, token_program@, mint@) == Some(k@),
{
    let seeds: [&[u8]; 3] = [wallet, token_program, mint];
    assert(seeds_of(seeds@) =~= seq![wallet@, token_program@, mint@]);
    match find_address(&seeds, &associated_token_id()) {
        Some((key, _)) => Some(key),
        None => None,
    }
}

/// The associated token account of `wallet` for `mint`.
pub open spec fn token_account_of(wallet: Seq<u8>, token_program: Seq<u8>, mint: Seq<u8>) -> Option<
    Seq<u8>,
> {
    match derived_address(seq![wallet, token_program, mint], spec_associated_token_id()) {
        Some((key, _)) => Some(key),
        None => None,
    }
}

} // verus!
