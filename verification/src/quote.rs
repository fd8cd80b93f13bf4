//! Quotes of a mass-quote payload.

use crate::codec::{le32, read32};
use vstd::prelude::*;

verus! {

/// One quote inside a mass-quote payload: `tick u32 | lots u32 | flags u8`.
#[derive(Clone, Copy, Debug, PartialEq, Eq, Structural)]
pub struct Quote {
    pub tick: u32,
    pub lots: u32,
    pub flags: u8,
}

/// Quote `i` of a payload.
pub open spec fn quote_in(data: Seq<u8>, i: int) -> Quote {
    Quote {
        tick: le32(data, i * 9),
        lots: le32(data, i * 9 + 4),
        flags: data[i * 9 + 8],
    }
}

/// The first `count` quotes of a payload.
pub open spec fn quotes_in(data: Seq<u8>, count: int) -> Seq<Quote> {
    Seq::new(count as nat, |i: int| quote_in(data, i))
}

impl Quote {
    pub const LEN: usize = 9;

    /// Bit 0 of the flags.
    pub open spec fn spec_reject_on_cross(self) -> bool {
        self.flags & 1 != 0
    }

    /// What to do when the quote crosses: slide to one tick off the opposing
    /// best (`false`, the default), or reject the whole instruction.
    pub fn reject_on_cross(&self) -> (r: bool)
        ensures
            r == self.spec_reject_on_cross(),
    {
        self.flags & 1 != 0
    }

    /// Quote `i` of a payload that holds it.
    pub fn parse(data: &[u8], i: usize) -> (r: Quote)
        requires
            (i + 1) * 9 <= data@.len(),
        ensures
            r == quote_in(data@, i as int),
    {
        assert(data@.len() == data.len());
        let p: usize = i * 9;
        Quote { tick: read32(data, p), lots: read32(data, p + 4), flags: data[p + 8] }
    }
}

} // verus!
