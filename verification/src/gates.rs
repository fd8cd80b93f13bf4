//! Laws of access by accounts: who must sign, which accounts must be given,
//! and between which of them tokens move.

use crate::accounts::{config_of, header_of, AccountView};
use crate::admin::fee_transfer;
use crate::codec::le32;
use crate::dispatch::accounts_for;
use crate::errors::ProgramError;
use crate::funding::{deposit_transfer, payout_transfers, Deposit, Payout};
use crate::keys::{spec_legacy_token_id, spec_token_2022_id, ID};
use crate::market::Market;
use crate::seat::no_owner;
use crate::side::Side;
use crate::taker::{swap_payments, vault_transfer, Swap, SwapOutcome, TransferPlan};
use vstd::prelude::*;

verus! {

/// An account of this program that holds a market: its version byte is set,
/// and it is as long as its fixed regions and the nodes that it counts.
pub open spec fn is_market(x: AccountView) -> bool {
    &&& x.owner@ == ID@
    &&& x.data@.len() >= 145632
    &&& x.data@[0] == 4
    &&& x.data@.len() == 143712 + 30 * le32(x.data@, 256)
}

/// An account of this program that holds a config.
pub open spec fn is_config(x: AccountView) -> bool {
    x.owner@ == ID@ && x.data@.len() == 128 && x.data@[0] == 1
}

/// The address of a token program: flag 1 stands for Token-2022.
pub open spec fn is_token_program(x: AccountView, flag: u8) -> bool {
    x.key@ == if flag == 1 {
        spec_token_2022_id()
    } else {
        spec_legacy_token_id()
    }
}

/// Who acts for a seat signs for it, and the market is written: the maker and
/// taker instructions of a seat, and closing it, take nothing else.
pub proof fn lemma_seat_gate(tag: u8, a: Seq<AccountView>)
    requires
        tag == 11 || tag == 20 || tag == 21 || tag == 22 || tag == 30,
    ensures
        accounts_for(tag, a) is Ok <==> a.len() == 2 && a[0].is_signer && a[1].is_writable
            && is_market(a[1]),
{
}

/// Anyone may reap.
pub proof fn lemma_reap_gate(a: Seq<AccountView>)
    ensures
        accounts_for(41, a) is Ok <==> a.len() == 1 && a[0].is_writable && is_market(a[0]),
{
}

/// A seat is given out by the seat authority of the market's own config, to
/// an owner that is somebody.
pub proof fn lemma_claim_gate(a: Seq<AccountView>)
    ensures
        accounts_for(10, a) is Ok <==> {
            &&& a.len() == 4
            &&& a[0].is_signer
            &&& a[3].is_writable
            &&& is_market(a[3])
            &&& is_config(a[2])
            &&& a[2].key@ == header_of(a[3].data@).config@
            &&& a[0].key@ == config_of(a[2].data@).seat_authority@
            &&& !no_owner(a[1].key@)
        },
{
}

/// The window is moved by the market authority of the market's own config.
pub proof fn lemma_reanchor_gate(a: Seq<AccountView>)
    ensures
        accounts_for(40, a) is Ok <==> {
            &&& a.len() == 3
            &&& a[0].is_signer
            &&& a[2].is_writable
            &&& is_market(a[2])
            &&& is_config(a[1])
            &&& a[1].key@ == header_of(a[2].data@).config@
            &&& a[0].key@ == config_of(a[1].data@).market_authority@
        },
{
}

/// The fee is set by the market's authority.
pub proof fn lemma_fee_gate(a: Seq<AccountView>)
    ensures
        accounts_for(2, a) is Ok <==> {
            &&& a.len() == 2
            &&& a[0].is_signer
            &&& a[1].is_writable
            &&& is_market(a[1])
            &&& a[0].key@ == header_of(a[1].data@).authority@
        },
{
}

/// A config is made by a payer and its authority together, and its roles are
/// handed on by that authority alone.
pub proof fn lemma_config_gate(a: Seq<AccountView>)
    ensures
        accounts_for(4, a) is Ok <==> a.len() == 4 && a[0].is_signer && a[2].is_signer
            && a[1].is_writable,
        accounts_for(5, a) is Ok <==> {
            &&& a.len() == 2
            &&& a[0].is_signer
            &&& a[1].is_writable
            &&& is_config(a[1])
            &&& a[0].key@ == config_of(a[1].data@).authority@
        },
{
}

/// A market is made of a blank account of this program that signs for itself,
/// with room for a whole number of nodes, under a config.
pub proof fn lemma_create_gate(a: Seq<AccountView>)
    ensures
        accounts_for(0, a) is Ok <==> {
            let n = a[0].data@.len() - 143712;
            &&& a.len() == 7
            &&& a[0].is_writable
            &&& a[0].is_signer
            &&& a[0].owner@ == ID@
            &&& a[0].data@.len() >= 145632
            &&& n % 30 == 0
            &&& n / 30 <= 16513
            &&& a[0].data@[0] == 0
            &&& is_config(a[6])
        },
{
}

/// No other first byte is an instruction.
pub proof fn lemma_unknown(tag: u8, a: Seq<AccountView>)
    requires
        accounts_for(tag, a) is Ok,
    ensures
        tag == 0 || 2 <= tag <= 5 || 10 <= tag <= 13 || 20 <= tag <= 22 || tag == 30 || tag == 31
            || tag == 40 || tag == 41,
{
}

/// Tokens move from `from` to `to`, `amount` atoms of the asset of the market
/// at hand, through the program of that asset.
pub open spec fn moves(a: Seq<AccountView>, h: Market, base: bool, p: TransferPlan, amount: u64) -> bool {
    &&& p.amount == amount
    &&& p.decimals == if base {
        h.base_decimals
    } else {
        h.quote_decimals
    }
    &&& p.token_program < a.len()
    &&& is_token_program(
        a[p.token_program as int],
        if base {
            h.base_token_program
        } else {
            h.quote_token_program
        },
    )
    &&& p.from < a.len()
    &&& p.to < a.len()
    &&& p.mint < a.len()
    &&& p.authority < a.len()
}

/// The vault of one asset.
pub open spec fn vault_key(h: Market, base: bool) -> Seq<u8> {
    if base {
        h.base_vault@
    } else {
        h.quote_vault@
    }
}

/// A deposit moves what was asked from the owner's account of the asset into
/// the market's vault of it, on the owner's signature.
pub proof fn lemma_deposit_moves(a: Seq<AccountView>, base: bool, amount: u64)
    requires
        accounts_for(12, a) is Ok,
    ensures
        ({
            let h = header_of(a[1].data@);
            let p = deposit_transfer(h, base, amount);
            let q = deposit_transfer(h, !base, amount);
            &&& a.len() == 10
            &&& a[0].is_signer
            &&& a[1].is_writable
            &&& is_market(a[1])
            &&& moves(a, h, base, p, amount)
            &&& a[p.to as int].key@ == vault_key(h, base)
            &&& p.authority == 0
            &&& !p.signed
            &&& p.from == if base {
                2usize
            } else {
                3usize
            }
            &&& p.mint == if base {
                6usize
            } else {
                7usize
            }
            &&& p.from != q.from && p.to != q.to && p.mint != q.mint
        }),
{
}

/// A deposit is signed by the owner, and lists the market's own vaults and the
/// token programs of its assets.
pub proof fn lemma_deposit_gate(a: Seq<AccountView>)
    ensures
        accounts_for(12, a) is Ok <==> {
            let h = header_of(a[1].data@);
            &&& a.len() == 10
            &&& a[0].is_signer
            &&& a[1].is_writable
            &&& is_market(a[1])
            &&& a[4].key@ == h.base_vault@
            &&& a[5].key@ == h.quote_vault@
            &&& is_token_program(a[8], h.base_token_program)
            &&& is_token_program(a[9], h.quote_token_program)
        },
{
}

/// A deposit asks, of each asset, for what its payload says.
pub proof fn lemma_deposit_asks(d: Deposit)
    ensures
        d.asked(true) == d.base_atoms,
        d.asked(false) == d.quote_atoms,
{
}

/// Accounts with both vaults, the vault authority and both token programs.
pub open spec fn has_vaults(a: Seq<AccountView>) -> bool {
    let h = header_of(a[1].data@);
    &&& a.len() == 11
    &&& a[1].is_writable
    &&& is_market(a[1])
    &&& a[4].key@ == h.base_vault@
    &&& a[5].key@ == h.quote_vault@
    &&& a[6].key@ == h.vault_authority@
    &&& is_token_program(a[9], h.base_token_program)
    &&& is_token_program(a[10], h.quote_token_program)
}

/// A withdrawal is signed by the owner; a swap needs no signature but that of
/// its input transfer.
pub proof fn lemma_vault_gates(a: Seq<AccountView>)
    ensures
        accounts_for(13, a) is Ok <==> a[0].is_signer && has_vaults(a),
        accounts_for(31, a) is Ok <==> has_vaults(a),
{
}

/// A transfer out of a vault is signed by the vault authority and goes to the
/// user's account of the asset; one into a vault comes from there, on the
/// user's signature.
pub proof fn lemma_vault_moves(a: Seq<AccountView>, base: bool, amount: u64)
    requires
        has_vaults(a),
    ensures
        ({
            let h = header_of(a[1].data@);
            let out = vault_transfer(h, base, true, amount);
            let into = vault_transfer(h, base, false, amount);
            let other = vault_transfer(h, !base, true, amount);
            &&& moves(a, h, base, out, amount)
            &&& moves(a, h, base, into, amount)
            &&& a[out.from as int].key@ == vault_key(h, base)
            &&& a[out.authority as int].key@ == h.vault_authority@
            &&& out.signed
            &&& !into.signed
            &&& into.authority == 0
            &&& out.to == into.from == if base {
                2usize
            } else {
                3usize
            }
            &&& out.from == into.to
            &&& out.mint == into.mint == if base {
                7usize
            } else {
                8usize
            }
            &&& out.to != other.to && out.from != other.from && out.mint != other.mint
        }),
{
}

/// What a list of transfers moves of one mint.
pub open spec fn total_moved(l: Seq<TransferPlan>, mint: usize) -> int
    decreases l.len(),
{
    if l.len() == 0 {
        0
    } else {
        total_moved(l.drop_last(), mint) + if l.last().mint == mint {
            l.last().amount as int
        } else {
            0
        }
    }
}

/// A withdrawal pays out each asset exactly once, and nothing for an asset
/// that it does not take.
pub proof fn lemma_withdraw_pays(h: Market, p: Payout)
    ensures
        ({
            let l = payout_transfers(h, p);
            &&& total_moved(l, 7) == p.base
            &&& total_moved(l, 8) == p.quote
            &&& forall|k: int|
                0 <= k < l.len() ==> (#[trigger] l[k]).amount > 0 && (l[k] == vault_transfer(
                    h,
                    true,
                    true,
                    p.base,
                ) || l[k] == vault_transfer(h, false, true, p.quote))
        }),
{
    reveal_with_fuel(total_moved, 3);
    let l = payout_transfers(h, p);
    let one = vault_transfer(h, true, true, p.base);
    let two = vault_transfer(h, false, true, p.quote);
    assert(one.mint == 7 && two.mint == 8);
    if p.base > 0 && p.quote > 0 {
        assert(l =~= seq![one, two]);
        assert(l.drop_last() =~= seq![one]);
        assert(seq![one].drop_last() =~= seq![]);
    } else if p.base > 0 {
        assert(l =~= seq![one]);
        assert(l.drop_last() =~= seq![]);
    } else if p.quote > 0 {
        assert(l =~= seq![two]);
        assert(l.drop_last() =~= seq![]);
    } else {
        assert(l =~= seq![]);
    }
}

/// A swap gives back what it did not use of its input and pays its output, in
/// the other asset; both leave the vaults.
pub proof fn lemma_swap_pays(d: Swap, h: Market, o: SwapOutcome)
    ensures
        ({
            let l = swap_payments(d, h, o);
            let input = if d.side == Side::Ask {
                7usize
            } else {
                8usize
            };
            let output = if d.side == Side::Ask {
                8usize
            } else {
                7usize
            };
            &&& total_moved(l, input) == o.refund
            &&& total_moved(l, output) == o.out
            &&& forall|k: int| 0 <= k < l.len() ==> (#[trigger] l[k]).signed
        }),
{
    reveal_with_fuel(total_moved, 3);
    let l = swap_payments(d, h, o);
    let back = vault_transfer(h, d.side == Side::Ask, true, o.refund);
    let out = vault_transfer(h, d.side == Side::Bid, true, o.out);
    assert(out.mint != back.mint);
    if o.refund > 0 {
        assert(l =~= seq![back, out]);
        assert(l.drop_last() =~= seq![back]);
        assert(seq![back].drop_last() =~= seq![]);
    } else {
        assert(l =~= seq![out]);
        assert(l.drop_last() =~= seq![]);
    }
}

/// Fees are collected by the market's authority, out of the quote vault, into
/// the account that it names; nothing moves where nothing accrued.
pub proof fn lemma_fees_move(a: Seq<AccountView>, amount: u64)
    ensures
        accounts_for(3, a) is Ok <==> {
            let h = header_of(a[1].data@);
            &&& a.len() == 7
            &&& a[0].is_signer
            &&& a[1].is_writable
            &&& is_market(a[1])
            &&& a[0].key@ == h.authority@
            &&& a[2].key@ == h.quote_vault@
            &&& a[4].key@ == h.vault_authority@
            &&& is_token_program(a[6], h.quote_token_program)
        },
        accounts_for(3, a) is Ok ==> {
            let h = header_of(a[1].data@);
            match fee_transfer(h, amount) {
                None => amount == 0,
                Some(p) => {
                    &&& amount > 0
                    &&& moves(a, h, false, p, amount)
                    &&& a[p.from as int].key@ == h.quote_vault@
                    &&& a[p.authority as int].key@ == h.vault_authority@
                    &&& p.signed
                    &&& p.to == 3
                    &&& p.mint == 5
                },
            }
        },
{
}

/// How many accounts an instruction lists.
pub open spec fn account_count(tag: u8) -> int {
    if tag == 0 || tag == 3 {
        7
    } else if tag == 4 || tag == 10 {
        4
    } else if tag == 12 {
        10
    } else if tag == 13 || tag == 31 {
        11
    } else if tag == 40 {
        3
    } else if tag == 41 {
        1
    } else {
        2
    }
}

/// Which of them it writes.
pub open spec fn written(tag: u8) -> int {
    if tag == 0 || tag == 41 {
        0
    } else if tag == 10 {
        3
    } else if tag == 40 {
        2
    } else {
        1
    }
}

/// An account list of the wrong length is refused for that; else an account
/// that must sign and does not is told so by code 1, one that is written and
/// may not be by code 0, one of another program by code 2.
pub proof fn lemma_gate_codes(tag: u8, a: Seq<AccountView>)
    requires
        tag == 0 || 2 <= tag <= 5 || 10 <= tag <= 13 || 20 <= tag <= 22 || tag == 30 || tag == 31
            || tag == 40 || tag == 41,
        accounts_for(tag, a) is Err,
    ensures
        ({
            let e = accounts_for(tag, a)->Err_0;
            let x = a[written(tag)];
            &&& e == ProgramError::NotEnoughAccountKeys <==> a.len() != account_count(tag)
            &&& e == ProgramError::Custom(1) ==> !a[0].is_signer || tag == 4 && !a[2].is_signer
            &&& e == ProgramError::Custom(0) ==> !x.is_writable
            &&& a.len() == account_count(tag) && !a[0].is_signer && tag != 0 && tag != 31 && tag
                != 41 ==> e == ProgramError::Custom(1)
            &&& a.len() == account_count(tag) && !x.is_writable && a[0].is_signer && (tag != 4
                || a[2].is_signer) ==> e == ProgramError::Custom(0)
            &&& e != ProgramError::InvalidInstructionData
            &&& e != ProgramError::ArithmeticOverflow
        }),
{
}

/// An account that is no market is told why: another program's by code 2, a
/// wrong length by code 3, a wrong version by code 4.
pub proof fn lemma_market_codes(a: Seq<AccountView>)
    requires
        a.len() == 2,
        a[0].is_signer,
        a[1].is_writable,
    ensures
        ({
            let x = a[1];
            accounts_for(22, a) == if x.owner@ != ID@ {
                Err::<(), ProgramError>(ProgramError::Custom(2))
            } else if x.data@.len() < 145632 {
                Err(ProgramError::Custom(3))
            } else if x.data@[0] != 4 {
                Err(ProgramError::Custom(4))
            } else if x.data@.len() != 143712 + 30 * le32(x.data@, 256) {
                Err(ProgramError::Custom(3))
            } else {
                Ok(())
            }
        }),
{
}

/// One who is not the authority is told so by code 22, and a vault that is not
/// the market's own by code 21.
pub proof fn lemma_role_codes(a: Seq<AccountView>)
    ensures
        a.len() == 2 && a[0].is_signer && a[1].is_writable && is_market(a[1]) && a[0].key@
            != header_of(a[1].data@).authority@ ==> accounts_for(2, a) == Err::<(), ProgramError>(
            ProgramError::Custom(22),
        ),
        a.len() == 11 && a[1].is_writable && is_market(a[1]) && a[4].key@ != header_of(
            a[1].data@,
        ).base_vault@ ==> accounts_for(31, a) == Err::<(), ProgramError>(ProgramError::Custom(21)),
        a.len() == 11 && a[1].is_writable && is_market(a[1]) && a[4].key@ == header_of(
            a[1].data@,
        ).base_vault@ && a[5].key@ != header_of(a[1].data@).quote_vault@ ==> accounts_for(31, a)
            == Err::<(), ProgramError>(ProgramError::Custom(21)),
{
}

} // verus!
