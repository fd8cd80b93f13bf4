//! Laws of opening a market: which terms it accepts, what it records of them,
//! and which mints and vaults it takes.

use crate::accounts::AccountView;
use crate::admin::CreateConfig;
use crate::codec::le16;
use crate::constants::{CONFIG_SEED, VAULT_SEED};
use crate::errors::ProgramError;
use crate::keys::{
    derived_address,
    spec_associated_token_id,
    spec_legacy_token_id,
    spec_token_2022_id,
    ID,
};
use crate::market::Market;
use crate::opening::{mint_terms_of, CreateMarket, MarketKeys, MintTerms};
use crate::seat::no_owner;
use crate::token::{
    delegate_from,
    spec_has_permanent_delegate,
    spec_received,
    spec_token_amount,
};
use crate::wire::lemma_little_endian;
use vstd::prelude::*;

verus! {

/// Terms under which no amount overflows: sizes are not zero, the window
/// starts at a whole word above tick 0 and ends two windows below the largest
/// tick at most, and neither the largest order in base atoms nor, at the end
/// of the first window, in quote atoms with a fee of 500 basis points on top,
/// counted in parts of 10000, exceeds 64 bits.
pub open spec fn fair_terms(d: CreateMarket) -> bool {
    &&& d.tick_size > 0
    &&& d.base_lot_size > 0
    &&& d.max_lots_per_order > 0
    &&& d.anchor_tick % 64 == 0
    &&& d.anchor_tick > 0
    &&& d.anchor_tick + 8191 <= u32::MAX - 2 * 8192
    &&& d.base_lot_size * d.max_lots_per_order <= u64::MAX
    &&& (d.anchor_tick + 8191) * (d.tick_size * d.max_lots_per_order * (10_000 + 500)) <= u64::MAX
}

/// The terms that are accepted are exactly these.
pub proof fn lemma_fair_terms(d: CreateMarket)
    ensures
        d.valid() <==> fair_terms(d),
{
    let w = d.worst();
    let top = (d.anchor_tick + 8191) as int;
    let a = d.anchor_tick as int;
    let ts = d.tick_size as int;
    let ml = d.max_lots_per_order as int;
    if ts >= 1 && ml >= 1 && a >= 1 {
        assert(w >= 1 && w >= ts) by (nonlinear_arith)
            requires
                w == ts * ml * 10_500,
                ts >= 1,
                ml >= 1,
        ;
        let q = u64::MAX as int / w;
        assert(top <= q <==> top * w <= u64::MAX) by (nonlinear_arith)
            requires
                w >= 1,
                top >= 0,
                q == u64::MAX as int / w,
        ;
        assert(top * w >= w) by (nonlinear_arith)
            requires
                top >= 1,
                w >= 1,
        ;
        assert(ts * a <= top * w) by (nonlinear_arith)
            requires
                1 <= a <= top,
                1 <= ts <= w,
        ;
    }
}

/// The tick limit is the highest tick, up to two windows below the largest,
/// at which the largest order fits.
pub proof fn lemma_tick_limit(d: CreateMarket)
    requires
        d.valid(),
    ensures
        ({
            let one = d.tick_size * d.max_lots_per_order * (10_000 + 500);
            let l = d.limit();
            &&& d.anchor_tick + 8191 <= l <= u32::MAX - 2 * 8192
            &&& l * one <= u64::MAX
            &&& l == u32::MAX - 2 * 8192 || (l + 1) * one > u64::MAX
        }),
{
    let one = d.tick_size * d.max_lots_per_order * (10_000 + 500);
    let l = d.limit();
    let (ts, ml) = (d.tick_size as int, d.max_lots_per_order as int);
    assert(one >= 1) by (nonlinear_arith)
        requires
            one == ts * ml * 10_500,
            ts >= 1,
            ml >= 1,
    ;
    let q = u64::MAX as int / one;
    assert(q * one <= u64::MAX && (q + 1) * one > u64::MAX) by (nonlinear_arith)
        requires
            one >= 1,
            q == u64::MAX as int / one,
    ;
    assert(l * one <= q * one) by (nonlinear_arith)
        requires
            l <= q,
            one >= 1,
    ;
}

/// A new market records the terms of its payload, the addresses of its
/// accounts, the bump of its vault authority, and what it took over from its
/// mints; it counts its free nodes and its own creation.
pub proof fn lemma_records(d: CreateMarket, h: Market, n: u32, m: MintTerms, k: MarketKeys)
    requires
        d.valid(),
        n >= 1,
        h.free_count == 0,
        h.seq == 0,
    ensures
        ({
            let x = d.header(h, n, m, k);
            &&& x.version == 4
            &&& x.tick_size == d.tick_size
            &&& x.base_lot_size == d.base_lot_size
            &&& x.anchor_tick == d.anchor_tick
            &&& x.fee_bps == d.fee_bps
            &&& x.max_lots_per_order == d.max_lots_per_order
            &&& x.tick_limit == d.limit()
            &&& x.base_mint == k.base_mint
            &&& x.quote_mint == k.quote_mint
            &&& x.base_vault == k.base_vault
            &&& x.quote_vault == k.quote_vault
            &&& x.vault_authority == k.vault_authority
            &&& x.bump@ == seq![k.bump]
            &&& x.authority == k.authority
            &&& x.config == k.config
            &&& x.base_token_program == m.base_program
            &&& x.quote_token_program == m.quote_program
            &&& x.base_decimals == m.base_decimals
            &&& x.quote_decimals == m.quote_decimals
            &&& x.order_pool_capacity == n
            &&& x.free_count == n - 1
            &&& x.free_head == 1
            &&& x.seq == 1
            &&& x.fees_accrued_quote == h.fees_accrued_quote
            &&& x.order_seq == h.order_seq
        }),
{
    lemma_tick_limit(d);
    assert(d.header(h, n, m, k).bump@ =~= seq![k.bump]);
}

/// An extension entry of a mint.
pub ghost struct Extension {
    pub kind: u16,
    pub body: Seq<u8>,
}

/// Its bytes: the kind, the length and the body.
pub open spec fn extension_bytes(x: Extension) -> Seq<u8> {
    seq![
        (x.kind % 256) as u8,
        (x.kind / 256) as u8,
        (x.body.len() % 256) as u8,
        (x.body.len() / 256) as u8,
    ] + x.body
}

pub open spec fn extensions_bytes(l: Seq<Extension>) -> Seq<u8>
    decreases l.len(),
{
    if l.len() == 0 {
        seq![]
    } else {
        extension_bytes(l[0]) + extensions_bytes(l.drop_first())
    }
}

proof fn lemma_delegate_from(data: Seq<u8>, i: int, l: Seq<Extension>, tail: Seq<u8>)
    requires
        0 <= i <= data.len(),
        data.subrange(i, data.len() as int) == extensions_bytes(l) + tail,
        tail.len() < 4,
        forall|k: int| 0 <= k < l.len() ==> (#[trigger] l[k]).body.len() < 0x1_0000,
    ensures
        delegate_from(data, i) <==> exists|k: int| 0 <= k < l.len() && (#[trigger] l[k]).kind == 12,
    decreases l.len(),
{
    let s = data.subrange(i, data.len() as int);
    if l.len() > 0 {
        let x = l[0];
        let n = x.body.len() as int;
        let rest = l.drop_first();
        let e = extension_bytes(x);
        assert(e.len() == 4 + n);
        assert(s =~= e + (extensions_bytes(rest) + tail));
        assert(s.len() >= 4 + n);
        assert(data[i] == s[0] && data[i + 1] == s[1] && data[i + 2] == s[2] && data[i + 3]
            == s[3]);
        assert(s[0] == e[0] && s[1] == e[1] && s[2] == e[2] && s[3] == e[3]);
        lemma_little_endian(data, i);
        lemma_little_endian(data, i + 2);
        assert(le16(data, i) == x.kind);
        assert(le16(data, i + 2) == n);
        let j = i + 4 + n;
        assert(data.subrange(j, data.len() as int) =~= s.subrange(4 + n, s.len() as int));
        assert(s.subrange(4 + n, s.len() as int) =~= extensions_bytes(rest) + tail);
        assert forall|k: int| 0 <= k < rest.len() implies (#[trigger] rest[k]).body.len()
            < 0x1_0000 by {
            assert(rest[k] == l[k + 1]);
        }
        lemma_delegate_from(data, j, rest, tail);
        if exists|k: int| 0 <= k < rest.len() && (#[trigger] rest[k]).kind == 12 {
            let k = choose|k: int| 0 <= k < rest.len() && (#[trigger] rest[k]).kind == 12;
            assert(l[k + 1].kind == 12);
        }
        if exists|k: int| 0 <= k < l.len() && (#[trigger] l[k]).kind == 12 {
            let k = choose|k: int| 0 <= k < l.len() && (#[trigger] l[k]).kind == 12;
            if k > 0 {
                assert(rest[k - 1].kind == 12);
            }
        }
    }
}

/// A mint has a permanent delegate exactly when one of the extensions behind
/// its first 166 bytes is of kind 12, wherever it stands among them.
pub proof fn lemma_delegate(head: Seq<u8>, l: Seq<Extension>, tail: Seq<u8>)
    requires
        head.len() == 166,
        tail.len() < 4,
        forall|k: int| 0 <= k < l.len() ==> (#[trigger] l[k]).body.len() < 0x1_0000,
    ensures
        spec_has_permanent_delegate(head + extensions_bytes(l) + tail) <==> exists|k: int|
            0 <= k < l.len() && (#[trigger] l[k]).kind == 12,
{
    let data = head + extensions_bytes(l) + tail;
    assert(data.subrange(166, data.len() as int) =~= extensions_bytes(l) + tail);
    lemma_delegate_from(data, 166, l, tail);
}

/// A mint that a market takes: an initialized one, of either token program; an
/// extended one names itself a mint and has no permanent delegate.
pub open spec fn fair_mint(owner: Seq<u8>, data: Seq<u8>) -> bool {
    &&& data.len() >= 82
    &&& data[45] != 0
    &&& owner == spec_legacy_token_id() && data.len() == 82 || owner == spec_token_2022_id()
        && owner != spec_legacy_token_id() && (data.len() == 82 || data.len() >= 166 && data[165]
        == 1 && !spec_has_permanent_delegate(data))
}

/// Two mints are taken exactly when each may be, and the market records their
/// programs, 1 for Token-2022, and their decimals.
pub proof fn lemma_mint_terms(bo: Seq<u8>, b: Seq<u8>, qo: Seq<u8>, q: Seq<u8>)
    ensures
        ({
            let r = mint_terms_of(bo, b, qo, q);
            &&& r is Ok <==> fair_mint(bo, b) && fair_mint(qo, q)
            &&& r matches Ok(m) ==> {
                &&& m.base_decimals == b[44]
                &&& m.quote_decimals == q[44]
                &&& m.base_program == if bo == spec_legacy_token_id() {
                    0u8
                } else {
                    1u8
                }
                &&& m.quote_program == if qo == spec_legacy_token_id() {
                    0u8
                } else {
                    1u8
                }
            }
        }),
{
}

/// The address is the one that the token account program derives from a
/// wallet, a token program and a mint.
pub open spec fn stands_at(key: Seq<u8>, seeds: Seq<Seq<u8>>) -> bool {
    match derived_address(seeds, spec_associated_token_id()) {
        Some((k, _)) => key == k,
        None => false,
    }
}

/// A market opens, up to its fee, exactly on fair terms, over two different
/// fair mints, when the vault authority is the address that "vault" and the
/// market's key derive, and each vault is its token account for that mint,
/// under the program that owns the mint.
pub proof fn lemma_opens(d: CreateMarket, a: Seq<AccountView>)
    requires
        d.checks(a) is Some,
    ensures
        ({
            let r = d.checks(a)->0;
            let at = derived_address(seq![seq![118u8, 97, 117, 108, 116], a[0].key@], ID@);
            &&& r is Ok ==> at is Some
            &&& at is Some ==> (r is Ok <==> {
                &&& fair_terms(d)
                &&& a[1].key@ != a[2].key@
                &&& fair_mint(a[1].owner@, a[1].data@)
                &&& fair_mint(a[2].owner@, a[2].data@)
                &&& stands_at(a[3].key@, seq![(at->0).0, a[1].owner@, a[1].key@])
                &&& stands_at(a[4].key@, seq![(at->0).0, a[2].owner@, a[2].key@])
            })
            &&& r matches Ok((m, authority, bump)) ==> {
                &&& (authority, bump) == at->0
                &&& m.base_decimals == a[1].data@[44]
                &&& m.quote_decimals == a[2].data@[44]
            }
        }),
{
    lemma_fair_terms(d);
    lemma_mint_terms(a[1].owner@, a[1].data@, a[2].owner@, a[2].data@);
    assert(VAULT_SEED@ =~= seq![118u8, 97, 117, 108, 116]);
}

/// A config is placed exactly where the address derived for it is its own, and
/// both roles go to somebody; its creation is signed with the bump of that
/// address.
pub proof fn lemma_config_placed(d: CreateConfig, config: Seq<u8>, key: Seq<u8>, bump: u8)
    ensures
        ({
            let r = d.placed(config, Some((key, bump)));
            let given = !no_owner(d.roles.seat_authority@) && !no_owner(d.roles.market_authority@);
            &&& r is Some
            &&& given && config == key ==> r == Some(Ok::<u8, ProgramError>(bump))
            &&& given && config != key ==> r == Some(Err::<u8, ProgramError>(ProgramError::Custom(2)))
            &&& !given ==> r == Some(Err::<u8, ProgramError>(ProgramError::Custom(24)))
        }),
{
}

/// A token account holds what its bytes 64 to 71 say, lowest byte first.
pub proof fn lemma_amount_held(data: Seq<u8>)
    ensures
        spec_token_amount(data) is Ok <==> data.len() >= 72,
        data.len() >= 72 ==> spec_token_amount(data)->Ok_0 == data[64] + 0x100 * data[65]
            + 0x1_0000 * data[66] + 0x100_0000 * data[67] + 0x1_0000_0000 * data[68]
            + 0x100_0000_0000 * data[69] + 0x1_0000_0000_0000 * data[70] + 0x100_0000_0000_0000
            * data[71],
{
    lemma_little_endian(data, 64);
}

/// What was received is what has to be added to the reading before to get the
/// reading after.
pub proof fn lemma_received(pre: u64, post: u64)
    ensures
        match spec_received(pre, post) {
            Ok(n) => pre + n == post,
            Err(e) => post < pre && e == ProgramError::Custom(23),
        },
{
}

/// A mint of a known token program.
pub open spec fn known_program(owner: Seq<u8>) -> bool {
    owner == spec_legacy_token_id() || owner == spec_token_2022_id()
}

/// Two mints are refused by code 25 exactly when a program is not known, by
/// code 26 only for a permanent delegate, by code 3 only for a length, and by
/// code 23 only for one that is not initialized or, if extended, no mint.
pub proof fn lemma_mint_codes(bo: Seq<u8>, b: Seq<u8>, qo: Seq<u8>, q: Seq<u8>)
    requires
        mint_terms_of(bo, b, qo, q) is Err,
    ensures
        ({
            let e = mint_terms_of(bo, b, qo, q)->Err_0;
            &&& e == ProgramError::Custom(25) <==> !known_program(bo) || !known_program(qo)
            &&& e == ProgramError::Custom(26) ==> bo == spec_token_2022_id()
                && spec_has_permanent_delegate(b) || qo == spec_token_2022_id()
                && spec_has_permanent_delegate(q)
            &&& e == ProgramError::Custom(3) ==> b.len() != 82 || q.len() != 82
            &&& e == ProgramError::Custom(23) ==> b[45] == 0 || q[45] == 0 || 82 < b.len() < 166
                || 82 < q.len() < 166 || b.len() >= 166 && b[165] != 1 || q.len() >= 166 && q[165]
                != 1
            &&& e == ProgramError::Custom(25) || e == ProgramError::Custom(26) || e
                == ProgramError::Custom(3) || e == ProgramError::Custom(23)
        }),
{
}

/// Terms that are not fair, and one mint for both assets, are refused first,
/// by code 19; then the mints; then, by code 21, a vault that is elsewhere.
pub proof fn lemma_opening_codes(d: CreateMarket, a: Seq<AccountView>)
    requires
        d.checks(a) is Some,
        d.checks(a)->0 is Err,
    ensures
        ({
            let e = d.checks(a)->0->Err_0;
            let m = mint_terms_of(a[1].owner@, a[1].data@, a[2].owner@, a[2].data@);
            &&& e == ProgramError::Custom(19) <==> !fair_terms(d) || a[1].key@ == a[2].key@
            &&& fair_terms(d) && a[1].key@ != a[2].key@ && m is Err ==> e == m->Err_0
            &&& fair_terms(d) && a[1].key@ != a[2].key@ && m is Ok ==> e == ProgramError::Custom(21)
        }),
{
    lemma_fair_terms(d);
    let m = mint_terms_of(a[1].owner@, a[1].data@, a[2].owner@, a[2].data@);
    if m is Err {
        lemma_mint_codes(a[1].owner@, a[1].data@, a[2].owner@, a[2].data@);
    }
}

/// A config's address comes from "config" and its authority's key.
pub proof fn lemma_config_address(authority: Seq<u8>)
    ensures
        derived_address(seq![CONFIG_SEED@, authority], ID@) == derived_address(
            seq![seq![99u8, 111, 110, 102, 105, 103], authority],
            ID@,
        ),
{
    assert(CONFIG_SEED@ =~= seq![99u8, 111, 110, 102, 105, 103]);
}

} // verus!
