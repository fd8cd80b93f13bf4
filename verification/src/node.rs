//! One node of the order pool.

use crate::side::Side;
use vstd::prelude::*;

verus! {

const MAKER_INDEX_MASK: u16 = 0x7FFF;

const ASK_SIDE_FLAG: u16 = 0x8000;

/// One order. `prev` and `next` are the level FIFO links; `maker_prev` and
/// `maker_next` thread the owning seat's order chain, which is sorted by side
/// and tick. A node is either live (on a level and on a chain) or free (its
/// `seq` is `FREED_SEQ` and `next` threads the free list).
#[derive(Clone, Copy)]
pub struct OrderNode {
    pub prev: u16,
    pub next: u16,
    pub maker_prev: u16,
    pub maker_next: u16,
    pub tick: u32,
    /// Low 15 bits: the seat; high bit: an ask.
    pub maker_and_side: u16,
    pub lots: u32,
    pub expiry_slot: u32,
    pub seq: u64,
}

impl OrderNode {
    /// The seat that owns the order.
    pub open spec fn spec_maker(self) -> u16 {
        (self.maker_and_side % 0x8000) as u16
    }

    pub open spec fn spec_side(self) -> Side {
        if self.maker_and_side < 0x8000 {
            Side::Bid
        } else {
            Side::Ask
        }
    }

    /// Expired at `slot`; an expiry of 0 never comes.
    pub open spec fn spec_expired(self, slot: u64) -> bool {
        self.expiry_slot != 0 && self.expiry_slot <= slot
    }

    pub fn prev(&self) -> (r: u16)
        ensures
            r == self.prev,
    {
        self.prev
    }

    pub fn next(&self) -> (r: u16)
        ensures
            r == self.next,
    {
        self.next
    }

    pub fn maker_prev(&self) -> (r: u16)
        ensures
            r == self.maker_prev,
    {
        self.maker_prev
    }

    pub fn maker_next(&self) -> (r: u16)
        ensures
            r == self.maker_next,
    {
        self.maker_next
    }

    pub fn tick(&self) -> (r: u32)
        ensures
            r == self.tick,
    {
        self.tick
    }

    pub fn lots(&self) -> (r: u32)
        ensures
            r == self.lots,
    {
        self.lots
    }

    pub fn expiry_slot(&self) -> (r: u32)
        ensures
            r == self.expiry_slot,
    {
        self.expiry_slot
    }

    pub fn seq(&self) -> (r: u64)
        ensures
            r == self.seq,
    {
        self.seq
    }

    pub fn maker(&self) -> (r: u16)
        ensures
            r == self.spec_maker(),
    {
        let m: u16 = self.maker_and_side;
        assert(m & 0x7FFF == m % 0x8000) by (bit_vector);
        m & MAKER_INDEX_MASK
    }

    pub fn side(&self) -> (r: Side)
        ensures
            r == self.spec_side(),
    {
        let m: u16 = self.maker_and_side;
        assert((m & 0x8000 == 0) == (m < 0x8000)) by (bit_vector);
        if m & ASK_SIDE_FLAG == 0 {
            Side::Bid
        } else {
            Side::Ask
        }
    }

    pub fn is_expired(&self, slot: u64) -> (r: bool)
        ensures
            r == self.spec_expired(slot),
    {
        let e: u32 = self.expiry_slot();
        e != 0 && (e as u64) <= slot
    }

    pub fn set_prev(&mut self, v: u16)
        ensures
            *final(self) == (OrderNode { prev: v, ..*old(self) }),
    {
        self.prev = v;
    }

    pub fn set_next(&mut self, v: u16)
        ensures
            *final(self) == (OrderNode { next: v, ..*old(self) }),
    {
        self.next = v;
    }

    pub fn set_maker_prev(&mut self, v: u16)
        ensures
            *final(self) == (OrderNode { maker_prev: v, ..*old(self) }),
    {
        self.maker_prev = v;
    }

    pub fn set_maker_next(&mut self, v: u16)
        ensures
            *final(self) == (OrderNode { maker_next: v, ..*old(self) }),
    {
        self.maker_next = v;
    }

    pub fn set_tick(&mut self, v: u32)
        ensures
            *final(self) == (OrderNode { tick: v, ..*old(self) }),
    {
        self.tick = v;
    }

    pub fn set_lots(&mut self, v: u32)
        ensures
            *final(self) == (OrderNode { lots: v, ..*old(self) }),
    {
        self.lots = v;
    }

    pub fn set_expiry_slot(&mut self, v: u32)
        ensures
            *final(self) == (OrderNode { expiry_slot: v, ..*old(self) }),
    {
        self.expiry_slot = v;
    }

    pub fn set_seq(&mut self, v: u64)
        ensures
            *final(self) == (OrderNode { seq: v, ..*old(self) }),
    {
        self.seq = v;
    }

    pub fn set_maker_and_side(&mut self, maker: u16, side: Side)
        ensures
            final(self).spec_maker() == maker % 0x8000,
            final(self).spec_side() == side,
            *final(self) == (OrderNode {
                maker_and_side: final(self).maker_and_side,
                ..*old(self)
            }),
    {
        let side_flag: u16 = match side {
            Side::Bid => 0,
            Side::Ask => ASK_SIDE_FLAG,
        };
        assert((maker & 0x7FFF) | 0 == maker % 0x8000) by (bit_vector);
        assert((maker & 0x7FFF) | 0x8000 == 0x8000 + maker % 0x8000) by (bit_vector);
        self.maker_and_side = (maker & MAKER_INDEX_MASK) | side_flag;
    }
}

} // verus!
