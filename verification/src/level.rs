//! One price level.

use crate::market::wrapping;
use vstd::prelude::*;

verus! {

/// One price level: the FIFO queue's head and tail in the order pool and the
/// total resting lots. A level is fully zeroed the moment it empties.
#[derive(Clone, Copy)]
pub struct Level {
    pub head: u16,
    pub tail: u16,
    pub total_lots: u64,
    pub padding: [u8; 4],
}

impl Level {
    pub fn head(&self) -> (r: u16)
        ensures
            r == self.head,
    {
        self.head
    }

    pub fn tail(&self) -> (r: u16)
        ensures
            r == self.tail,
    {
        self.tail
    }

    pub fn total_lots(&self) -> (r: u64)
        ensures
            r == self.total_lots,
    {
        self.total_lots
    }

    pub fn set_head(&mut self, v: u16)
        ensures
            *final(self) == (Level { head: v, ..*old(self) }),
    {
        self.head = v;
    }

    pub fn set_tail(&mut self, v: u16)
        ensures
            *final(self) == (Level { tail: v, ..*old(self) }),
    {
        self.tail = v;
    }

    pub fn add_lots(&mut self, lots: u32)
        ensures
            *final(self) == (Level {
                total_lots: wrapping(old(self).total_lots + lots),
                ..*old(self)
            }),
    {
        self.total_lots = self.total_lots.wrapping_add(lots as u64);
    }

    pub fn sub_lots(&mut self, lots: u32)
        ensures
            *final(self) == (Level {
                total_lots: wrapping(old(self).total_lots - lots),
                ..*old(self)
            }),
    {
        self.total_lots = self.total_lots.wrapping_sub(lots as u64);
    }

    /// Empty the level.
    pub fn zero(&mut self)
        ensures
            final(self).head == 0,
            final(self).tail == 0,
            final(self).total_lots == 0,
            final(self).padding@ == seq![0u8, 0, 0, 0],
    {
        self.head = 0;
        self.tail = 0;
        self.total_lots = 0;
        self.padding = [0, 0, 0, 0];
        assert(self.padding@ =~= seq![0u8, 0, 0, 0]);
    }
}

} // verus!
