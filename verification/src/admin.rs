//! Administrative instructions on a running venue: fees and configs.

use crate::codec::{le16, read16, read_key, same_key};
use crate::constants::{CONFIG_SEED, CONFIG_VERSION, MAX_FEE_BPS};
use crate::errors::{clob, fail, ClobError, ProgramError};
use crate::keys::{derive_address, derived_address, ID};
use crate::market::{wrapping_succ, Config, Market};
use crate::seat::{is_zero_key, no_owner};
use crate::taker::TransferPlan;
use vstd::prelude::*;

verus! {

/// Change the taker fee.
#[derive(Clone, Copy, Debug, PartialEq, Eq, Structural)]
pub struct UpdateFee {
    pub fee_bps: u16,
}

/// The change that a payload encodes.
pub open spec fn update_fee_of(data: Seq<u8>) -> Result<UpdateFee, ProgramError> {
    if data.len() != 2 {
        Err(ProgramError::InvalidInstructionData)
    } else {
        Ok(UpdateFee { fee_bps: le16(data, 0) })
    }
}

impl UpdateFee {
    pub const DISCRIMINATOR: u8 = 2;

    pub fn try_from(data: &[u8]) -> (r: Result<UpdateFee, ProgramError>)
        ensures
            r == update_fee_of(data@),
    {
        if data.len() != 2 {
            return Err(ProgramError::InvalidInstructionData);
        }
        Ok(UpdateFee { fee_bps: read16(data, 0) })
    }

    /// What this instruction does.
    pub open spec fn outcome(self, h: Market) -> (Market, Result<(), ProgramError>) {
        if self.fee_bps > MAX_FEE_BPS {
            (h, Err(clob(ClobError::InvalidFee)))
        } else {
            (Market { fee_bps: self.fee_bps, seq: wrapping_succ(h.seq), ..h }, Ok(()))
        }
    }

    /// Run the instruction on the market's header.
    pub fn process(&self, header: &mut Market) -> (r: Result<(), ProgramError>)
        ensures
            (*final(header), r) == self.outcome(*old(header)),
    {
        header.set_fee_bps(self.fee_bps)?;
        header.bump_seq();
        Ok(())
    }
}

/// Pay the accrued fees out.
#[derive(Clone, Copy, Debug, PartialEq, Eq, Structural)]
pub struct CollectFees;

/// The payment of collected fees, in an instruction that lists authority,
/// market, quote vault, the authority's quote account, vault authority, quote
/// mint and quote token program. Nothing is moved when nothing accrued.
pub open spec fn fee_transfer(h: Market, amount: u64) -> Option<TransferPlan> {
    if amount == 0 {
        None
    } else {
        Some(
            TransferPlan {
                token_program: 6,
                from: 2,
                mint: 5,
                to: 3,
                authority: 4,
                amount,
                decimals: h.quote_decimals,
                signed: true,
            },
        )
    }
}

impl CollectFees {
    pub const DISCRIMINATOR: u8 = 3;

    /// What this instruction does: the accrual is zeroed and handed out.
    pub open spec fn outcome(self, h: Market) -> (Market, u64) {
        (
            Market { fees_accrued_quote: 0, seq: wrapping_succ(h.seq), ..h },
            h.fees_accrued_quote,
        )
    }

    /// Run the instruction on the market's header. Returns the amount to pay.
    pub fn process(&self, header: &mut Market) -> (r: u64)
        ensures
            (*final(header), r) == self.outcome(*old(header)),
    {
        let amount: u64 = header.take_fees_accrued();
        header.bump_seq();
        amount
    }

    /// The transfer that pays.
    pub fn payment(&self, h: &Market, amount: u64) -> (r: Option<TransferPlan>)
        ensures
            r == fee_transfer(*h, amount),
    {
        if amount == 0 {
            return None;
        }
        Some(
            TransferPlan {
                token_program: 6,
                from: 2,
                mint: 5,
                to: 3,
                authority: 4,
                amount,
                decimals: h.quote_decimals(),
                signed: true,
            },
        )
    }
}

/// The two roles that a config delegates.
#[derive(Clone, Copy)]
pub struct Roles {
    pub seat_authority: [u8; 32],
    pub market_authority: [u8; 32],
}

/// A payload of two keys.
pub open spec fn roles_in(data: Seq<u8>, r: Roles) -> bool {
    &&& data.len() == 64
    &&& r.seat_authority@ == data.subrange(0, 32)
    &&& r.market_authority@ == data.subrange(32, 64)
}

impl Roles {
    /// No role is stranded on the key of nobody.
    pub open spec fn assignable(self) -> bool {
        !no_owner(self.seat_authority@) && !no_owner(self.market_authority@)
    }

    pub fn try_from(data: &[u8]) -> (r: Result<Roles, ProgramError>)
        ensures
            match r {
                Ok(x) => roles_in(data@, x),
                Err(e) => data@.len() != 64 && e == ProgramError::InvalidInstructionData,
            },
    {
        if data.len() != 64 {
            return Err(ProgramError::InvalidInstructionData);
        }
        Ok(Roles { seat_authority: read_key(data, 0), market_authority: read_key(data, 32) })
    }

    /// Refuse a role that nobody could ever sign for.
    pub fn check(&self) -> (r: Result<(), ProgramError>)
        ensures
            r == (if self.assignable() {
                Ok::<(), ProgramError>(())
            } else {
                Err(clob(ClobError::ZeroAuthority))
            }),
    {
        if is_zero_key(&self.seat_authority) || is_zero_key(&self.market_authority) {
            return fail(ClobError::ZeroAuthority);
        }
        Ok(())
    }
}

/// Create a venue's config at the address that its authority derives.
#[derive(Clone, Copy)]
pub struct CreateConfig {
    pub roles: Roles,
}

impl CreateConfig {
    pub const DISCRIMINATOR: u8 = 4;

    pub fn try_from(data: &[u8]) -> (r: Result<CreateConfig, ProgramError>)
        ensures
            match r {
                Ok(x) => roles_in(data@, x.roles),
                Err(e) => data@.len() != 64 && e == ProgramError::InvalidInstructionData,
            },
    {
        match Roles::try_from(data) {
            Ok(roles) => Ok(CreateConfig { roles }),
            Err(e) => Err(e),
        }
    }

    /// Whether the config account stands at the derived address, and with
    /// which bump.
    pub open spec fn placed(
        self,
        config: Seq<u8>,
        derived: Option<(Seq<u8>, u8)>,
    ) -> Option<Result<u8, ProgramError>> {
        if !self.roles.assignable() {
            Some(Err(clob(ClobError::ZeroAuthority)))
        } else {
            match derived {
                None => None,
                Some((key, bump)) => if config != key {
                    Some(Err(clob(ClobError::InvalidAccountOwner)))
                } else {
                    Some(Ok(bump))
                },
            }
        }
    }

    /// Check the roles and the address of the config account; the bump of that
    /// address signs its creation. `None` when the authority derives no
    /// address at all.
    pub fn locate(&self, config: &[u8; 32], authority: &[u8; 32]) -> (r: Option<
        Result<u8, ProgramError>,
    >)
        ensures
            r == self.placed(config@, derived_address(seq![CONFIG_SEED@, authority@], ID@)),
    {
        match self.roles.check() {
            Ok(_) => {},
            Err(e) => {
                return Some(Err(e));
            },
        }
        let found: Option<([u8; 32], u8)> = derive_address(&CONFIG_SEED, authority);
        self.compare(config, found)
    }

    /// Hold the config account against an address that was derived.
    pub fn compare(&self, config: &[u8; 32], found: Option<([u8; 32], u8)>) -> (r: Option<
        Result<u8, ProgramError>,
    >)
        requires
            self.roles.assignable(),
        ensures
            r == self.placed(
                config@,
                match found {
                    Some((key, bump)) => Some((key@, bump)),
                    None => None,
                },
            ),
    {
        match found {
            None => None,
            Some((key, bump)) => if same_key(config, &key) {
                Some(Ok(bump))
            } else {
                Some(fail(ClobError::InvalidAccountOwner))
            },
        }
    }

    /// Fill the new config account.
    pub fn write(&self, config: &mut Config, authority: &[u8; 32], bump: u8)
        ensures
            *final(config) == (Config {
                version: CONFIG_VERSION,
                bump: [bump],
                authority: *authority,
                seat_authority: self.roles.seat_authority,
                market_authority: self.roles.market_authority,
                padding: old(config).padding,
            }),
    {
        config.set_version(CONFIG_VERSION);
        config.set_bump([bump]);
        config.set_authority(*authority);
        config.set_seat_authority(self.roles.seat_authority);
        config.set_market_authority(self.roles.market_authority);
    }
}

/// Hand the delegated roles to other keys.
#[derive(Clone, Copy)]
pub struct UpdateConfig {
    pub roles: Roles,
}

impl UpdateConfig {
    pub const DISCRIMINATOR: u8 = 5;

    pub fn try_from(data: &[u8]) -> (r: Result<UpdateConfig, ProgramError>)
        ensures
            match r {
                Ok(x) => roles_in(data@, x.roles),
                Err(e) => data@.len() != 64 && e == ProgramError::InvalidInstructionData,
            },
    {
        match Roles::try_from(data) {
            Ok(roles) => Ok(UpdateConfig { roles }),
            Err(e) => Err(e),
        }
    }

    /// What this instruction does.
    pub open spec fn outcome(self, c: Config) -> (Config, Result<(), ProgramError>) {
        if self.roles.assignable() {
            (
                Config {
                    seat_authority: self.roles.seat_authority,
                    market_authority: self.roles.market_authority,
                    ..c
                },
                Ok(()),
            )
        } else {
            (c, Err(clob(ClobError::ZeroAuthority)))
        }
    }

    /// Run the instruction.
    pub fn process(&self, config: &mut Config) -> (r: Result<(), ProgramError>)
        ensures
            (*final(config), r) == self.outcome(*old(config)),
    {
        self.roles.check()?;
        config.set_seat_authority(self.roles.seat_authority);
        config.set_market_authority(self.roles.market_authority);
        Ok(())
    }
}

} // verus!
