//! Client side: building the instruction that refreshes a quote set.

use crate::codec::{bytes16, bytes32, le16, le32, lemma_le16, lemma_le32, put16, put32};
use crate::keys::ID;
use crate::maker::mass_quote_ok;
use crate::quote::{quotes_in, Quote};
use vstd::prelude::*;

verus! {

/// An account of an instruction.
#[derive(Clone, Copy)]
pub struct AccountMeta {
    pub pubkey: [u8; 32],
    pub is_signer: bool,
    pub is_writable: bool,
}

/// An instruction as it goes into a transaction.
pub struct Instruction {
    pub program_id: [u8; 32],
    pub accounts: Vec<AccountMeta>,
    pub data: Vec<u8>,
}

/// The quote set that replaces the seat's current one.
pub struct MassQuoteInstructionArgs {
    pub seat_index: u16,
    pub expiry_slot: u32,
    pub bids: Vec<Quote>,
    pub asks: Vec<Quote>,
}

/// The accounts of a mass quote.
#[derive(Clone, Copy)]
pub struct MassQuote {
    pub owner: [u8; 32],
    pub market: [u8; 32],
}

pub const MASS_QUOTE_DISCRIMINATOR: u8 = 20;

/// The bytes of a quote.
pub open spec fn quote_bytes(q: Quote) -> Seq<u8> {
    bytes32(q.tick) + bytes32(q.lots) + seq![q.flags]
}

/// The bytes of a list of quotes.
pub open spec fn quotes_bytes(q: Seq<Quote>) -> Seq<u8>
    decreases q.len(),
{
    if q.len() == 0 {
        seq![]
    } else {
        quotes_bytes(q.drop_last()) + quote_bytes(q.last())
    }
}

/// Instruction data of a mass quote: each list of quotes stands behind its
/// length.
pub open spec fn mass_quote_bytes(
    seat_index: u16,
    expiry_slot: u32,
    bids: Seq<Quote>,
    asks: Seq<Quote>,
) -> Seq<u8> {
    seq![MASS_QUOTE_DISCRIMINATOR] + bytes16(seat_index) + bytes32(expiry_slot) + seq![
        bids.len() as u8,
    ] + quotes_bytes(bids) + seq![asks.len() as u8] + quotes_bytes(asks)
}

fn encode_quote(data: &mut Vec<u8>, quote: Quote)
    ensures
        final(data)@ == old(data)@ + quote_bytes(quote),
{
    put32(data, quote.tick);
    put32(data, quote.lots);
    data.push(quote.flags);
    assert(data@ =~= old(data)@ + quote_bytes(quote));
}

fn encode_quotes(data: &mut Vec<u8>, quotes: &Vec<Quote>)
    ensures
        final(data)@ == old(data)@ + quotes_bytes(quotes@),
{
    let mut i: usize = 0;
    while i < quotes.len()
        invariant
            i <= quotes@.len(),
            data@ == old(data)@ + quotes_bytes(quotes@.take(i as int)),
        decreases quotes@.len() - i,
    {
        let ghost before = data@;
        encode_quote(data, quotes[i]);
        i = i + 1;
        proof {
            let t = quotes@.take(i as int);
            assert(t.drop_last() =~= quotes@.take(i - 1));
            assert(t.last() == quotes@[i - 1]);
            assert(data@ =~= old(data)@ + quotes_bytes(t));
        }
    }
    assert(quotes@.take(i as int) =~= quotes@);
}

impl MassQuote {
    /// Build the instruction. A list holds at most 255 quotes.
    pub fn instruction(&self, args: MassQuoteInstructionArgs) -> (r: Instruction)
        requires
            args.bids@.len() <= 255,
            args.asks@.len() <= 255,
        ensures
            r.program_id == ID,
            r.accounts@ == seq![
                (AccountMeta { pubkey: self.owner, is_signer: true, is_writable: false }),
                (AccountMeta { pubkey: self.market, is_signer: false, is_writable: true }),
            ],
            r.data@ == mass_quote_bytes(
                args.seat_index,
                args.expiry_slot,
                args.bids@,
                args.asks@,
            ),
    {
        let mut data: Vec<u8> = Vec::new();
        data.push(MASS_QUOTE_DISCRIMINATOR);
        assert(data@ =~= seq![MASS_QUOTE_DISCRIMINATOR]);
        put16(&mut data, args.seat_index);
        put32(&mut data, args.expiry_slot);
        let ghost x = data@;
        data.push(args.bids.len() as u8);
        assert(data@ =~= x + seq![args.bids@.len() as u8]);
        encode_quotes(&mut data, &args.bids);
        let ghost y = data@;
        data.push(args.asks.len() as u8);
        assert(data@ =~= y + seq![args.asks@.len() as u8]);
        encode_quotes(&mut data, &args.asks);
        let mut accounts: Vec<AccountMeta> = Vec::new();
        accounts.push(AccountMeta { pubkey: self.owner, is_signer: true, is_writable: false });
        accounts.push(AccountMeta { pubkey: self.market, is_signer: false, is_writable: true });
        Instruction { program_id: ID, accounts, data }
    }
}

/// The bytes of quotes decode to the quotes.
pub proof fn lemma_quotes_decode(q: Seq<Quote>)
    ensures
        quotes_bytes(q).len() == 9 * q.len(),
        quotes_in(quotes_bytes(q), q.len() as int) == q,
    decreases q.len(),
{
    if q.len() == 0 {
        assert(quotes_in(quotes_bytes(q), 0) =~= q);
    } else {
        let p = q.drop_last();
        lemma_quotes_decode(p);
        let s = quotes_bytes(q);
        let t = quotes_bytes(p);
        let n = p.len() as int;
        let b = quote_bytes(q.last());
        assert(s == t + b);
        lemma_quote_at(s, n, q.last(), t, b);
        assert forall|i: int| 0 <= i < q.len() implies quotes_in(s, q.len() as int)[i] == q[i] by {
            if i < n {
                assert(quotes_in(t, n)[i] == p[i]);
                assert(p[i] == q[i]);
                lemma_same_at(t, s, i * 9);
                lemma_same_at(t, s, i * 9 + 4);
                assert(s[i * 9 + 8] == t[i * 9 + 8]);
            }
        }
        assert(quotes_in(s, q.len() as int) =~= q);
    }
}

/// A prefix decides the integers in it.
proof fn lemma_same_at(t: Seq<u8>, s: Seq<u8>, i: int)
    requires
        0 <= i,
        i + 4 <= t.len() <= s.len(),
        s.subrange(0, t.len() as int) == t,
    ensures
        le32(s, i) == le32(t, i),
{
    let x = le32(t, i);
    lemma_le32(t, i, x);
    lemma_le32(s, i, x);
    let p = s.subrange(0, t.len() as int);
    assert(p.subrange(i, i + 4) =~= s.subrange(i, i + 4));
}

/// The quote behind `n` others decodes.
proof fn lemma_quote_at(s: Seq<u8>, n: int, q: Quote, t: Seq<u8>, b: Seq<u8>)
    requires
        s == t + b,
        t.len() == 9 * n,
        n >= 0,
        b == quote_bytes(q),
    ensures
        s.len() == 9 * (n + 1),
        s.subrange(0, t.len() as int) == t,
        crate::quote::quote_in(s, n) == q,
{
    assert(bytes32(q.tick).len() == 4);
    assert(bytes32(q.lots).len() == 4);
    assert(s.subrange(0, t.len() as int) =~= t);
    assert(s.subrange(n * 9, n * 9 + 4) =~= bytes32(q.tick));
    assert(s.subrange(n * 9 + 4, n * 9 + 8) =~= bytes32(q.lots));
    lemma_le32(s, n * 9, q.tick);
    lemma_le32(s, n * 9 + 4, q.lots);
    assert(s[n * 9 + 8] == b[8]);
    assert(b[8] == q.flags);
}

/// What the client builds is what the program reads: the payload of a mass
/// quote decodes to the same seat, expiry and quotes.
pub proof fn lemma_mass_quote_decodes(
    seat_index: u16,
    expiry_slot: u32,
    bids: Seq<Quote>,
    asks: Seq<Quote>,
)
    requires
        bids.len() <= 255,
        asks.len() <= 255,
    ensures
        ({
            let all = mass_quote_bytes(seat_index, expiry_slot, bids, asks);
            let d = all.subrange(1, all.len() as int);
            &&& all[0] == MASS_QUOTE_DISCRIMINATOR
            &&& mass_quote_ok(d)
            &&& le16(d, 0) == seat_index
            &&& le32(d, 2) == expiry_slot
            &&& quotes_in(d.subrange(7, 7 + d[6] * 9), d[6] as int) == bids
            &&& quotes_in(
                d.subrange(8 + d[6] * 9, d.len() as int),
                d[7 + d[6] * 9] as int,
            ) == asks
        }),
{
    lemma_quotes_decode(bids);
    lemma_quotes_decode(asks);
    let all = mass_quote_bytes(seat_index, expiry_slot, bids, asks);
    let d = all.subrange(1, all.len() as int);
    let x = quotes_bytes(bids);
    let y = quotes_bytes(asks);
    assert(bytes16(seat_index).len() == 2);
    assert(bytes32(expiry_slot).len() == 4);
    assert(all.len() == 9 + x.len() + y.len());
    assert(d.subrange(0, 2) =~= bytes16(seat_index));
    assert(d.subrange(2, 6) =~= bytes32(expiry_slot));
    lemma_le16(d, 0, seat_index);
    lemma_le32(d, 2, expiry_slot);
    assert(d[6] == bids.len() as u8);
    assert(d[7 + x.len() as int] == asks.len() as u8);
    assert(d.subrange(7, 7 + x.len() as int) =~= x);
    assert(d.subrange(8 + x.len() as int, d.len() as int) =~= y);
}

} // verus!
