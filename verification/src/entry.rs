//! The fast path of the entrypoint. The maker instructions come with exactly
//! two accounts; their call is recognised in the runtime's serialized input
//! without walking it account by account.
//!
//! The input is a 64-bit account count; then, for each account that does not
//! repeat an earlier one, an 88-byte preamble with the data length at its
//! byte 80, the data, room to grow, padding to 8 bytes and a 64-bit rent
//! epoch; then a 64-bit length and the instruction data.

use crate::codec::{le16, le32, le64, read64};
use crate::maker::{Cancel, MassQuote, PlaceLimit};
use crate::side::likely;
use vstd::prelude::*;

verus! {

/// Marks an account that was serialized in full; a repeated account carries
/// the index of the earlier one.
pub const NON_DUP_MARKER: u8 = 0xff;

const ACCOUNT_PREAMBLE: u128 = 88;

const DATA_LEN_OFFSET: u128 = 80;

const RENT_EPOCH: u128 = 8;

/// Where the parts of a recognised call stand in the input.
#[derive(Clone, Copy, Debug, PartialEq, Eq, Structural)]
pub struct HotCall {
    pub owner_at: usize,
    pub market_at: usize,
    pub discriminator: u8,
    /// The instruction data behind the discriminator.
    pub data_at: usize,
    pub data_len: usize,
}

/// The next multiple of 8.
pub open spec fn spec_align8(v: int) -> int {
    (v + 7) / 8 * 8
}

/// `pinocchio::account_info::MAX_PERMITTED_DATA_INCREASE`: a constant of that
/// crate, the spare bytes that the runtime keeps behind each account's data.
#[verifier::external_body]
fn resize_padding() -> (r: usize)
    ensures
        r == 10240,
{
    pinocchio::account_info::MAX_PERMITTED_DATA_INCREASE
}

/// Where the record ends that begins at `at` and holds `len` bytes of data.
pub open spec fn record_end(at: int, len: int) -> int {
    spec_align8(at + 88 + len + 10240) + 8
}

/// Where the record ends that begins at `at` and holds `len` bytes of data.
fn after_record(at: u128, len: u64) -> (r: u128)
    requires
        at <= 0xffff_ffff_ffff_ffff_ffff,
    ensures
        r == record_end(at as int, len as int),
        r > at,
{
    align8(at + ACCOUNT_PREAMBLE + len as u128 + resize_padding() as u128) + RENT_EPOCH
}

fn align8(v: u128) -> (r: u128)
    requires
        v <= 0xffff_ffff_ffff_ffff_ffff_ffff,
    ensures
        r == spec_align8(v as int),
        v <= r < v + 8,
{
    (v + 7) / 8 * 8
}

/// A maker instruction of two accounts, none of them repeated.
pub open spec fn hot_call(s: Seq<u8>) -> Option<HotCall> {
    let market_at = record_end(8, le64(s, 88) as int);
    let len_at = record_end(market_at, le64(s, market_at + 80) as int);
    let len = le64(s, len_at) as int;
    if s.len() < 96 || le64(s, 0) != 2 || s[8] != NON_DUP_MARKER {
        None
    } else if market_at + 88 > s.len() || s[market_at] != NON_DUP_MARKER {
        None
    } else if len_at + 8 > s.len() || len < 1 || len_at + 8 + len > s.len() {
        None
    } else if s[len_at + 8] != 20 && s[len_at + 8] != 21 && s[len_at + 8] != 22 {
        None
    } else {
        Some(
            HotCall {
                owner_at: 8,
                market_at: market_at as usize,
                discriminator: s[len_at + 8],
                data_at: (len_at + 9) as usize,
                data_len: (len - 1) as usize,
            },
        )
    }
}

/// What a readable part of the input tells of a call.
#[derive(Clone, Copy, Debug, PartialEq, Eq, Structural)]
pub enum Seen {
    /// The input goes on at least to this length, and decides further on.
    More(usize),
    /// A maker instruction, readable in full.
    Call(HotCall),
    /// Anything else.
    Other,
}

/// Ask for `n` bytes, if an input can be that long.
pub open spec fn asking(n: int) -> Seen {
    if n > usize::MAX {
        Seen::Other
    } else {
        Seen::More(n as usize)
    }
}

/// What the readable part `s` of an input tells: each length is asked for only
/// once the bytes before it have told that the input goes on so far.
pub open spec fn seen(s: Seq<u8>) -> Seen {
    let market_at = record_end(8, le64(s, 88) as int);
    let len_at = record_end(market_at, le64(s, market_at + 80) as int);
    let len = le64(s, len_at) as int;
    if s.len() < 9 {
        Seen::More(9)
    } else if le64(s, 0) != 2 || s[8] != NON_DUP_MARKER {
        Seen::Other
    } else if s.len() < 96 {
        Seen::More(96)
    } else if s.len() <= market_at {
        asking(market_at + 1)
    } else if s[market_at] != NON_DUP_MARKER {
        Seen::Other
    } else if s.len() < market_at + 88 {
        asking(market_at + 88)
    } else if s.len() < len_at + 8 {
        asking(len_at + 8)
    } else if len < 1 {
        Seen::Other
    } else if s.len() < len_at + 8 + len {
        asking(len_at + 8 + len)
    } else if s[len_at + 8] != 20 && s[len_at + 8] != 21 && s[len_at + 8] != 22 {
        Seen::Other
    } else {
        Seen::Call(
            HotCall {
                owner_at: 8,
                market_at: market_at as usize,
                discriminator: s[len_at + 8],
                data_at: (len_at + 9) as usize,
                data_len: (len - 1) as usize,
            },
        )
    }
}

fn ask(n: u128) -> (r: Seen)
    ensures
        r == asking(n as int),
{
    if n > usize::MAX as u128 {
        Seen::Other
    } else {
        Seen::More(n as usize)
    }
}

/// Look for a maker instruction in the part of the runtime's input that is
/// known to be readable. The runtime hands over no length, so a caller reads
/// on as the answers ask, until it has a call or something else.
pub fn scan(input: &[u8]) -> (r: Seen)
    ensures
        r == seen(input@),
        r matches Seen::More(n) ==> n > input@.len(),
{
    assert(input@.len() == input.len());
    let n: u128 = input.len() as u128;
    if n < 9 {
        return Seen::More(9);
    }
    if !likely(read64(input, 0) == 2) || !likely(input[8] == NON_DUP_MARKER) {
        return Seen::Other;
    }
    if n < 96 {
        return Seen::More(96);
    }
    let market_at: u128 = after_record(8, read64(input, 88));
    if n <= market_at {
        return ask(market_at + 1);
    }
    if !likely(input[market_at as usize] == NON_DUP_MARKER) {
        return Seen::Other;
    }
    if n < market_at + ACCOUNT_PREAMBLE {
        return ask(market_at + ACCOUNT_PREAMBLE);
    }
    let data_len: u64 = read64(input, (market_at + DATA_LEN_OFFSET) as usize);
    let len_at: u128 = after_record(market_at, data_len);
    if n < len_at + 8 {
        return ask(len_at + 8);
    }
    let len: u64 = read64(input, len_at as usize);
    if !likely(len >= 1) {
        return Seen::Other;
    }
    if n < len_at + 8 + len as u128 {
        return ask(len_at + 8 + len as u128);
    }
    let discriminator: u8 = input[(len_at + 8) as usize];
    // The bulk refresh is the most frequent, then the single cancel, then the
    // single quote.
    if discriminator == MassQuote::DISCRIMINATOR || discriminator == Cancel::DISCRIMINATOR
        || discriminator == PlaceLimit::DISCRIMINATOR {
        Seen::Call(
            HotCall {
                owner_at: 8,
                market_at: market_at as usize,
                discriminator,
                data_at: (len_at + 9) as usize,
                data_len: (len - 1) as usize,
            },
        )
    } else {
        Seen::Other
    }
}

/// Look for a maker instruction in a whole input. Anything else, and any input
/// that breaks off, is left to the general path.
pub fn probe(input: &[u8]) -> (r: Option<HotCall>)
    ensures
        r == hot_call(input@),
{
    match scan(input) {
        Seen::Call(c) => Some(c),
        _ => None,
    }
}

/// What `scan` answers on the way to the end of an input is what the input
/// holds: a call that is found is the input's, and where something else is
/// found, or more is asked for than the input has, there is none.
pub proof fn lemma_scan(s: Seq<u8>, n: int)
    requires
        0 <= n <= s.len() <= usize::MAX,
    ensures
        match seen(s.take(n)) {
            Seen::Call(c) => hot_call(s) == Some(c),
            Seen::Other => hot_call(s) is None,
            Seen::More(m) => m > n && (m > s.len() ==> hot_call(s) is None),
        },
{
    let t = s.take(n);
    lemma_same64(s, n, 0);
    lemma_same64(s, n, 88);
    let market_at = record_end(8, le64(s, 88) as int);
    lemma_same64(s, n, market_at + 80);
    let len_at = record_end(market_at, le64(s, market_at + 80) as int);
    lemma_same64(s, n, len_at);
}

proof fn lemma_same64(s: Seq<u8>, n: int, i: int)
    requires
        0 <= n <= s.len(),
    ensures
        0 <= i && i + 8 <= n ==> le64(s.take(n), i) == le64(s, i),
{
    if 0 <= i && i + 8 <= n {
        reveal(le64);
        reveal(le32);
        reveal(le16);
    }
}

} // verus!
