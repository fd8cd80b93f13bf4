//! One seat: the balances and the order chain of a participant.

use crate::errors::{clob, fail, ClobError, ProgramError};
use crate::market::wrapping;
use crate::side::unlikely;
use vstd::prelude::*;

verus! {

/// Internal balances (atoms) plus the head of the seat's order chain. Every
/// fill, cancel, refund and eviction is arithmetic on these fields. A free
/// seat slot has an all-zero owner, and `order_count` counts exactly the
/// seat's live orders.
#[derive(Clone, Copy)]
pub struct Seat {
    pub owner: [u8; 32],
    pub base_free: u64,
    pub quote_free: u64,
    pub base_locked: u64,
    pub quote_locked: u64,
    pub orders_head: u16,
    pub order_count: u16,
    pub padding: [u8; 12],
}

/// The key of nobody.
pub const ZERO_KEY: [u8; 32] = [
    0, 0, 0, 0, 0, 0, 0, 0, 0, 0, 0, 0, 0, 0, 0, 0, 0, 0, 0, 0, 0, 0, 0, 0, 0, 0, 0, 0, 0, 0, 0, 0,
];

/// The owner of a free seat slot.
pub open spec fn no_owner(owner: Seq<u8>) -> bool {
    forall|i: int| 0 <= i < owner.len() ==> owner[i] == 0
}

/// Whether every byte of `key` is zero.
pub fn is_zero_key(key: &[u8; 32]) -> (r: bool)
    ensures
        r == no_owner(key@),
{
    let mut i: usize = 0;
    while i < 32
        invariant
            i <= 32,
            forall|j: int| 0 <= j < i ==> key@[j] == 0,
        decreases 32 - i,
    {
        if key[i] != 0 {
            return false;
        }
        i = i + 1;
    }
    true
}

impl Seat {
    /// Free plus locked base, as an integer.
    pub open spec fn base_held(self) -> int {
        self.base_free + self.base_locked
    }

    /// Free plus locked quote, as an integer.
    pub open spec fn quote_held(self) -> int {
        self.quote_free + self.quote_locked
    }

    /// Neither asset exceeds what a mint can issue.
    pub open spec fn within_supply(self) -> bool {
        self.base_held() <= u64::MAX && self.quote_held() <= u64::MAX
    }

    pub fn owner(&self) -> (r: &[u8; 32])
        ensures
            *r == self.owner,
    {
        &self.owner
    }

    /// Whether the slot is unclaimed.
    pub fn is_free(&self) -> (r: bool)
        ensures
            r == no_owner(self.owner@),
    {
        is_zero_key(&self.owner)
    }

    pub fn base_free(&self) -> (r: u64)
        ensures
            r == self.base_free,
    {
        self.base_free
    }

    pub fn quote_free(&self) -> (r: u64)
        ensures
            r == self.quote_free,
    {
        self.quote_free
    }

    pub fn base_locked(&self) -> (r: u64)
        ensures
            r == self.base_locked,
    {
        self.base_locked
    }

    pub fn quote_locked(&self) -> (r: u64)
        ensures
            r == self.quote_locked,
    {
        self.quote_locked
    }

    pub fn orders_head(&self) -> (r: u16)
        ensures
            r == self.orders_head,
    {
        self.orders_head
    }

    pub fn order_count(&self) -> (r: u16)
        ensures
            r == self.order_count,
    {
        self.order_count
    }

    pub fn set_owner(&mut self, v: [u8; 32])
        ensures
            *final(self) == (Seat { owner: v, ..*old(self) }),
    {
        self.owner = v;
    }

    pub fn set_orders_head(&mut self, v: u16)
        ensures
            *final(self) == (Seat { orders_head: v, ..*old(self) }),
    {
        self.orders_head = v;
    }

    pub fn inc_order_count(&mut self)
        ensures
            *final(self) == (Seat {
                order_count: if old(self).order_count == 65535 {
                    0
                } else {
                    (old(self).order_count + 1) as u16
                },
                ..*old(self)
            }),
    {
        self.order_count = self.order_count.wrapping_add(1);
    }

    pub fn dec_order_count(&mut self)
        ensures
            *final(self) == (Seat {
                order_count: if old(self).order_count == 0 {
                    65535
                } else {
                    (old(self).order_count - 1) as u16
                },
                ..*old(self)
            }),
    {
        self.order_count = self.order_count.wrapping_sub(1);
    }

    pub fn set_base_free(&mut self, v: u64)
        ensures
            *final(self) == (Seat { base_free: v, ..*old(self) }),
    {
        self.base_free = v;
    }

    pub fn set_quote_free(&mut self, v: u64)
        ensures
            *final(self) == (Seat { quote_free: v, ..*old(self) }),
    {
        self.quote_free = v;
    }

    pub fn set_base_locked(&mut self, v: u64)
        ensures
            *final(self) == (Seat { base_locked: v, ..*old(self) }),
    {
        self.base_locked = v;
    }

    pub fn set_quote_locked(&mut self, v: u64)
        ensures
            *final(self) == (Seat { quote_locked: v, ..*old(self) }),
    {
        self.quote_locked = v;
    }

    /// The seat after `atoms` moved from free to locked.
    pub open spec fn spec_lock(self, base: bool, atoms: int) -> Seat {
        if base {
            Seat {
                base_free: (self.base_free - atoms) as u64,
                base_locked: wrapping(self.base_locked + atoms),
                ..self
            }
        } else {
            Seat {
                quote_free: (self.quote_free - atoms) as u64,
                quote_locked: wrapping(self.quote_locked + atoms),
                ..self
            }
        }
    }

    /// The seat after `atoms` moved from locked to free.
    pub open spec fn spec_unlock(self, base: bool, atoms: int) -> Seat {
        if base {
            Seat {
                base_locked: (self.base_locked - atoms) as u64,
                base_free: wrapping(self.base_free + atoms),
                ..self
            }
        } else {
            Seat {
                quote_locked: (self.quote_locked - atoms) as u64,
                quote_free: wrapping(self.quote_free + atoms),
                ..self
            }
        }
    }

    /// Free balance of one asset.
    pub open spec fn spec_free(self, base: bool) -> u64 {
        if base {
            self.base_free
        } else {
            self.quote_free
        }
    }

    /// Locked balance of one asset.
    pub open spec fn spec_locked(self, base: bool) -> u64 {
        if base {
            self.base_locked
        } else {
            self.quote_locked
        }
    }

    /// Move `atoms` from free to locked on the given asset.
    pub fn lock(&mut self, base: bool, atoms: u64) -> (r: Result<(), ProgramError>)
        ensures
            old(self).spec_free(base) < atoms ==> r == Err::<(), ProgramError>(
                clob(ClobError::InsufficientBalance),
            ) && *final(self) == *old(self),
            old(self).spec_free(base) >= atoms ==> r == Ok::<(), ProgramError>(()) && *final(self)
                == old(self).spec_lock(base, atoms as int),
    {
        if base {
            let free: u64 = self.base_free();
            if free < atoms {
                return fail(ClobError::InsufficientBalance);
            }
            self.base_free = free - atoms;
            self.base_locked = self.base_locked.wrapping_add(atoms);
        } else {
            let free: u64 = self.quote_free();
            if free < atoms {
                return fail(ClobError::InsufficientBalance);
            }
            self.quote_free = free - atoms;
            self.quote_locked = self.quote_locked.wrapping_add(atoms);
        }
        Ok(())
    }

    /// Move `atoms` from locked back to free on the given asset. A locked
    /// balance smaller than the refund means the book is corrupt, and nothing
    /// moves.
    pub fn unlock(&mut self, base: bool, atoms: u64) -> (r: Result<(), ProgramError>)
        ensures
            old(self).spec_locked(base) < atoms ==> r == Err::<(), ProgramError>(
                clob(ClobError::InvalidState),
            ) && *final(self) == *old(self),
            old(self).spec_locked(base) >= atoms ==> r == Ok::<(), ProgramError>(())
                && *final(self) == old(self).spec_unlock(base, atoms as int),
    {
        if base {
            let locked: u64 = self.base_locked();
            if unlikely(locked < atoms) {
                return fail(ClobError::InvalidState);
            }
            self.base_locked = locked - atoms;
            self.base_free = self.base_free.wrapping_add(atoms);
        } else {
            let locked: u64 = self.quote_locked();
            if unlikely(locked < atoms) {
                return fail(ClobError::InvalidState);
            }
            self.quote_locked = locked - atoms;
            self.quote_free = self.quote_free.wrapping_add(atoms);
        }
        Ok(())
    }
}

} // verus!
