//! From accounts and instruction data to a checked command.

use crate::accounts::{
    check_claim_seat,
    check_collect_fees,
    check_create_config,
    check_create_market,
    check_deposit,
    check_reanchor,
    check_reap,
    check_seat,
    check_swap,
    check_update_config,
    check_update_fee,
    check_withdraw,
    claim_seat_accounts,
    collect_fees_accounts,
    create_config_accounts,
    create_market_accounts,
    deposit_accounts,
    reanchor_accounts,
    reap_accounts,
    seat_accounts,
    swap_accounts,
    update_config_accounts,
    update_fee_accounts,
    withdraw_accounts,
    AccountView,
};
use crate::admin::{roles_in, update_fee_of, CollectFees, CreateConfig, UpdateConfig, UpdateFee};
use crate::codec::{le16, le32};
use crate::cranks::{reanchor_of, reap_of, Reanchor, ReapExpired};
use crate::errors::ProgramError;
use crate::funding::{
    close_seat_of,
    deposit_of,
    withdraw_of,
    ClaimSeat,
    CloseSeat,
    Deposit,
    Withdraw,
};
use crate::maker::{cancel_of, mass_quote_ok, place_limit_of, Cancel, MassQuote, PlaceLimit};
use crate::opening::{create_market_of, CreateMarket};
use crate::taker::{place_take_of, swap_of, PlaceTake, Swap};
use vstd::prelude::*;
use vstd::slice::slice_subrange;

verus! {

/// An instruction with its payload.
#[derive(Clone, Copy)]
pub enum Command<'a> {
    CreateMarket(CreateMarket),
    UpdateFee(UpdateFee),
    CollectFees(CollectFees),
    CreateConfig(CreateConfig),
    UpdateConfig(UpdateConfig),
    ClaimSeat(ClaimSeat),
    CloseSeat(CloseSeat),
    Deposit(Deposit),
    Withdraw(Withdraw),
    MassQuote(MassQuote<'a>),
    PlaceLimit(PlaceLimit),
    Cancel(Cancel),
    PlaceTake(PlaceTake),
    Swap(Swap),
    Reanchor(Reanchor),
    ReapExpired(ReapExpired),
}

/// What is demanded of the accounts of an instruction, by its first byte.
pub open spec fn accounts_for(tag: u8, a: Seq<AccountView>) -> Result<(), ProgramError> {
    if tag == 0 {
        create_market_accounts(a)
    } else if tag == 2 {
        update_fee_accounts(a)
    } else if tag == 3 {
        collect_fees_accounts(a)
    } else if tag == 4 {
        create_config_accounts(a)
    } else if tag == 5 {
        update_config_accounts(a)
    } else if tag == 10 {
        claim_seat_accounts(a)
    } else if tag == 11 {
        seat_accounts(a)
    } else if tag == 12 {
        deposit_accounts(a)
    } else if tag == 13 {
        withdraw_accounts(a)
    } else if tag == 20 {
        seat_accounts(a)
    } else if tag == 21 {
        seat_accounts(a)
    } else if tag == 22 {
        seat_accounts(a)
    } else if tag == 30 {
        seat_accounts(a)
    } else if tag == 31 {
        swap_accounts(a)
    } else if tag == 40 {
        reanchor_accounts(a)
    } else if tag == 41 {
        reap_accounts(a)
    } else {
        Err(ProgramError::InvalidInstructionData)
    }
}

/// `c` is what the payload behind the first byte encodes.
pub open spec fn encodes(tag: u8, data: Seq<u8>, c: Command) -> bool {
    match c {
        Command::CreateMarket(x) => tag == 0 && create_market_of(data) == Ok::<CreateMarket, ProgramError>(x),
        Command::UpdateFee(x) => tag == 2 && update_fee_of(data) == Ok::<UpdateFee, ProgramError>(x),
        Command::CollectFees(_) => tag == 3,
        Command::CreateConfig(x) => tag == 4 && roles_in(data, x.roles),
        Command::UpdateConfig(x) => tag == 5 && roles_in(data, x.roles),
        Command::ClaimSeat(_) => tag == 10,
        Command::CloseSeat(x) => tag == 11 && close_seat_of(data) == Ok::<CloseSeat, ProgramError>(x),
        Command::Deposit(x) => tag == 12 && deposit_of(data) == Ok::<Deposit, ProgramError>(x),
        Command::Withdraw(x) => tag == 13 && withdraw_of(data) == Ok::<Withdraw, ProgramError>(x),
        Command::MassQuote(x) => {
            &&& tag == 20
            &&& mass_quote_ok(data)
            &&& x.sized()
            &&& x.seat_index == le16(data, 0)
            &&& x.expiry_slot == le32(data, 2)
            &&& x.bid_count == data[6]
            &&& x.ask_count == data[7 + data[6] * 9]
            &&& x.bids@ == data.subrange(7, 7 + data[6] * 9)
            &&& x.asks@ == data.subrange(8 + data[6] * 9, data.len() as int)
        },
        Command::PlaceLimit(x) => tag == 21 && place_limit_of(data) == Ok::<PlaceLimit, ProgramError>(x),
        Command::Cancel(x) => tag == 22 && cancel_of(data) == Ok::<Cancel, ProgramError>(x),
        Command::PlaceTake(x) => tag == 30 && place_take_of(data) == Ok::<PlaceTake, ProgramError>(x),
        Command::Swap(x) => tag == 31 && swap_of(data) == Ok::<Swap, ProgramError>(x),
        Command::Reanchor(x) => tag == 40 && reanchor_of(data) == Ok::<Reanchor, ProgramError>(x),
        Command::ReapExpired(x) => tag == 41 && reap_of(data) == Ok::<ReapExpired, ProgramError>(x),
    }
}

/// Why a payload is refused.
pub open spec fn payload_error(tag: u8, data: Seq<u8>) -> Option<ProgramError> {
    if tag == 0 {
        error_of(create_market_of(data))
    } else if tag == 2 {
        error_of(update_fee_of(data))
    } else if tag == 4 {
        if data.len() != 64 {
            Some(ProgramError::InvalidInstructionData)
        } else {
            None
        }
    } else if tag == 5 {
        if data.len() != 64 {
            Some(ProgramError::InvalidInstructionData)
        } else {
            None
        }
    } else if tag == 11 {
        error_of(close_seat_of(data))
    } else if tag == 12 {
        error_of(deposit_of(data))
    } else if tag == 13 {
        error_of(withdraw_of(data))
    } else if tag == 20 {
        if mass_quote_ok(data) {
            None
        } else {
            Some(ProgramError::InvalidInstructionData)
        }
    } else if tag == 21 {
        error_of(place_limit_of(data))
    } else if tag == 22 {
        error_of(cancel_of(data))
    } else if tag == 30 {
        error_of(place_take_of(data))
    } else if tag == 31 {
        error_of(swap_of(data))
    } else if tag == 40 {
        error_of(reanchor_of(data))
    } else if tag == 41 {
        error_of(reap_of(data))
    } else {
        None
    }
}

pub open spec fn error_of<T>(r: Result<T, ProgramError>) -> Option<ProgramError> {
    match r {
        Ok(_) => None,
        Err(e) => Some(e),
    }
}

/// Why an instruction is refused: no data, an unknown first byte, its
/// accounts, or its payload, in this order.
pub open spec fn refusal(a: Seq<AccountView>, data: Seq<u8>) -> Option<ProgramError> {
    if data.len() == 0 {
        Some(ProgramError::InvalidInstructionData)
    } else {
        match accounts_for(data[0], a) {
            Err(e) => Some(e),
            Ok(_) => payload_error(data[0], data.subrange(1, data.len() as int)),
        }
    }
}

/// Check the accounts of an instruction, then read its payload.
pub fn parse_instruction<'a>(accounts: &[AccountView], data: &'a [u8]) -> (r: Result<
    Command<'a>,
    ProgramError,
>)
    ensures
        match r {
            Err(e) => refusal(accounts@, data@) == Some(e),
            Ok(c) => refusal(accounts@, data@) is None && encodes(
                data@[0],
                data@.subrange(1, data@.len() as int),
                c,
            ),
        },
{
    if data.len() == 0 {
        return Err(ProgramError::InvalidInstructionData);
    }
    let tag: u8 = data[0];
    let payload: &'a [u8] = slice_subrange(data, 1, data.len());
    match check_accounts(tag, accounts) {
        Ok(_) => {},
        Err(e) => {
            return Err(e);
        },
    }
    parse_payload(tag, payload)
}

/// Check the accounts of an instruction.
fn check_accounts(tag: u8, accounts: &[AccountView]) -> (r: Result<(), ProgramError>)
    ensures
        r == accounts_for(tag, accounts@),
{
    if tag == CreateMarket::DISCRIMINATOR {
        check_create_market(accounts)
    } else if tag == UpdateFee::DISCRIMINATOR {
        check_update_fee(accounts)
    } else if tag == CollectFees::DISCRIMINATOR {
        check_collect_fees(accounts)
    } else if tag == CreateConfig::DISCRIMINATOR {
        check_create_config(accounts)
    } else if tag == UpdateConfig::DISCRIMINATOR {
        check_update_config(accounts)
    } else if tag == ClaimSeat::DISCRIMINATOR {
        check_claim_seat(accounts)
    } else if tag == CloseSeat::DISCRIMINATOR {
        check_seat(accounts)
    } else if tag == Deposit::DISCRIMINATOR {
        check_deposit(accounts)
    } else if tag == Withdraw::DISCRIMINATOR {
        check_withdraw(accounts)
    } else if tag == MassQuote::DISCRIMINATOR {
        check_seat(accounts)
    } else if tag == PlaceLimit::DISCRIMINATOR {
        check_seat(accounts)
    } else if tag == Cancel::DISCRIMINATOR {
        check_seat(accounts)
    } else if tag == PlaceTake::DISCRIMINATOR {
        check_seat(accounts)
    } else if tag == Swap::DISCRIMINATOR {
        check_swap(accounts)
    } else if tag == Reanchor::DISCRIMINATOR {
        check_reanchor(accounts)
    } else if tag == ReapExpired::DISCRIMINATOR {
        check_reap(accounts)
    } else {
        Err(ProgramError::InvalidInstructionData)
    }
}

/// Read the payload of a known instruction.
fn parse_payload<'a>(tag: u8, payload: &'a [u8]) -> (r: Result<Command<'a>, ProgramError>)
    requires
        tag == 0 || tag == 2 || tag == 3 || tag == 4 || tag == 5 || tag == 10 || tag == 11 || tag == 12
            || tag == 13 || tag == 20 || tag == 21 || tag == 22 || tag == 30 || tag == 31 || tag == 40 || tag == 41,
    ensures
        match r {
            Err(e) => payload_error(tag, payload@) == Some(e),
            Ok(c) => payload_error(tag, payload@) is None && encodes(tag, payload@, c),
        },
{
    if tag == CreateMarket::DISCRIMINATOR {
        match CreateMarket::try_from(payload) {
            Ok(x) => Ok(Command::CreateMarket(x)),
            Err(e) => Err(e),
        }
    } else if tag == UpdateFee::DISCRIMINATOR {
        match UpdateFee::try_from(payload) {
            Ok(x) => Ok(Command::UpdateFee(x)),
            Err(e) => Err(e),
        }
    } else if tag == CollectFees::DISCRIMINATOR {
        Ok(Command::CollectFees(CollectFees))
    } else if tag == CreateConfig::DISCRIMINATOR {
        match CreateConfig::try_from(payload) {
            Ok(x) => Ok(Command::CreateConfig(x)),
            Err(e) => Err(e),
        }
    } else if tag == UpdateConfig::DISCRIMINATOR {
        match UpdateConfig::try_from(payload) {
            Ok(x) => Ok(Command::UpdateConfig(x)),
            Err(e) => Err(e),
        }
    } else if tag == ClaimSeat::DISCRIMINATOR {
        Ok(Command::ClaimSeat(ClaimSeat))
    } else if tag == CloseSeat::DISCRIMINATOR {
        match CloseSeat::try_from(payload) {
            Ok(x) => Ok(Command::CloseSeat(x)),
            Err(e) => Err(e),
        }
    } else if tag == Deposit::DISCRIMINATOR {
        match Deposit::try_from(payload) {
            Ok(x) => Ok(Command::Deposit(x)),
            Err(e) => Err(e),
        }
    } else if tag == Withdraw::DISCRIMINATOR {
        match Withdraw::try_from(payload) {
            Ok(x) => Ok(Command::Withdraw(x)),
            Err(e) => Err(e),
        }
    } else if tag == MassQuote::DISCRIMINATOR {
        match MassQuote::try_from(payload) {
            Ok(x) => Ok(Command::MassQuote(x)),
            Err(e) => Err(e),
        }
    } else if tag == PlaceLimit::DISCRIMINATOR {
        match PlaceLimit::try_from(payload) {
            Ok(x) => Ok(Command::PlaceLimit(x)),
            Err(e) => Err(e),
        }
    } else if tag == Cancel::DISCRIMINATOR {
        match Cancel::try_from(payload) {
            Ok(x) => Ok(Command::Cancel(x)),
            Err(e) => Err(e),
        }
    } else if tag == PlaceTake::DISCRIMINATOR {
        match PlaceTake::try_from(payload) {
            Ok(x) => Ok(Command::PlaceTake(x)),
            Err(e) => Err(e),
        }
    } else if tag == Swap::DISCRIMINATOR {
        match Swap::try_from(payload) {
            Ok(x) => Ok(Command::Swap(x)),
            Err(e) => Err(e),
        }
    } else if tag == Reanchor::DISCRIMINATOR {
        match Reanchor::try_from(payload) {
            Ok(x) => Ok(Command::Reanchor(x)),
            Err(e) => Err(e),
        }
    } else {
        match ReapExpired::try_from(payload) {
            Ok(x) => Ok(Command::ReapExpired(x)),
            Err(e) => Err(e),
        }
    }
}

} // verus!
