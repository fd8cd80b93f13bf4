//! Client side: a read-only decoder of the complete market account.

use crate::account::{lemma_book_injective, lemma_bytes_len};
use crate::bitmap::{bit, Bitmap};
use crate::book::BookRefMut;
use crate::constants::{FREED_SEQ, MARKET_VERSION, NODE_LEN, POOL_OFFSET};
use crate::level::Level;
use crate::market::Market;
use crate::node::OrderNode;
use crate::seat::Seat;
use crate::side::Side;
use vstd::prelude::*;

verus! {

#[derive(Clone, Copy, Debug, PartialEq, Eq, Structural)]
pub enum OrderSide {
    Bid,
    Ask,
}

/// An occupancy bitmap.
pub struct BitmapSnapshot {
    pub summary: [u64; 2],
    pub leaves: Vec<u64>,
}

impl BitmapSnapshot {
    /// Whether a tick's ring slot is occupied.
    pub fn contains(&self, tick: u32) -> (r: bool)
        requires
            self.leaves@.len() == 128,
        ensures
            r == bit(self.leaves@[tick as int % 8192 / 64], (tick % 64) as u64),
    {
        let i: u32 = tick % 8192;
        let k: u32 = tick % 64;
        proof {
            crate::bitmap::lemma_bit_test(self.leaves@[i as int / 64], k as u64);
        }
        self.leaves[(i / 64) as usize] & (1u64 << k) != 0
    }

    /// This is the snapshot of `b`.
    pub open spec fn shows(self, b: Bitmap) -> bool {
        self.summary == b.summary && self.leaves@ == b.leaves@
    }
}

/// A market account, decoded.
pub struct MarketSnapshot {
    pub header: Market,
    pub bid_bitmap: BitmapSnapshot,
    pub ask_bitmap: BitmapSnapshot,
    pub levels: Vec<Level>,
    pub seats: Vec<Seat>,
    /// The index in the pool is the index here; index 0 is reserved.
    pub orders: Vec<OrderNode>,
}

/// Why an account is no market.
#[allow(inconsistent_fields)]
#[derive(Clone, Copy, Debug, PartialEq, Eq, Structural)]
pub enum SnapshotError {
    TooShort { actual: usize, minimum: usize },
    UnsupportedVersion { actual: u8, expected: u8 },
    LengthMismatch { actual: usize, expected: usize },
    LengthOverflow,
}

/// The length that a header's capacity calls for.
pub open spec fn market_len(capacity: u32) -> int {
    POOL_OFFSET + capacity * NODE_LEN
}

/// Why account bytes are refused: too short for the fixed regions, another
/// version, or another length than the header says.
pub open spec fn snapshot_error(data: Seq<u8>) -> Option<SnapshotError> {
    let expected = market_len(crate::codec::le32(data, 256));
    if data.len() < POOL_OFFSET {
        Some(SnapshotError::TooShort { actual: data.len() as usize, minimum: POOL_OFFSET })
    } else if data[0] != MARKET_VERSION {
        Some(SnapshotError::UnsupportedVersion { actual: data[0], expected: MARKET_VERSION })
    } else if expected > usize::MAX {
        Some(SnapshotError::LengthOverflow)
    } else if data.len() != expected {
        Some(
            SnapshotError::LengthMismatch {
                actual: data.len() as usize,
                expected: expected as usize,
            },
        )
    } else {
        None
    }
}

/// An order that rests in the book.
#[derive(Clone, Copy)]
pub struct LiveOrder<'a> {
    pub index: u16,
    pub maker: u16,
    pub side: OrderSide,
    pub node: &'a OrderNode,
}

/// The side of an order.
pub open spec fn order_side(n: OrderNode) -> OrderSide {
    match n.spec_side() {
        Side::Bid => OrderSide::Bid,
        Side::Ask => OrderSide::Ask,
    }
}

/// Node `k` as a live order.
pub open spec fn live_order(orders: Seq<OrderNode>, k: int) -> LiveOrder<'static> {
    LiveOrder {
        index: k as u16,
        maker: orders[k].spec_maker(),
        side: order_side(orders[k]),
        node: &orders[k],
    }
}

/// The live orders among the nodes before `n`, by index.
pub open spec fn live_before(orders: Seq<OrderNode>, n: int) -> Seq<LiveOrder<'static>>
    decreases n,
{
    if n <= 1 {
        seq![]
    } else if orders[n - 1].seq == FREED_SEQ {
        live_before(orders, n - 1)
    } else {
        live_before(orders, n - 1).push(live_order(orders, n - 1))
    }
}

fn bitmap_snapshot(b: &Bitmap) -> (r: BitmapSnapshot)
    ensures
        r.shows(*b),
{
    let mut leaves: Vec<u64> = Vec::new();
    let mut i: usize = 0;
    while i < 128
        invariant
            i <= 128,
            leaves@ == b.leaves@.take(i as int),
        decreases 128 - i,
    {
        leaves.push(b.leaves[i]);
        i = i + 1;
        assert(b.leaves@.take(i as int) =~= b.leaves@.take(i - 1).push(b.leaves@[i - 1]));
    }
    assert(b.leaves@.take(i as int) =~= b.leaves@);
    BitmapSnapshot { summary: b.summary, leaves }
}

impl MarketSnapshot {
    /// This is the snapshot of `b`.
    pub open spec fn shows(self, b: BookRefMut) -> bool {
        &&& self.header == b.header
        &&& self.bid_bitmap.shows(b.bid_bitmap)
        &&& self.ask_bitmap.shows(b.ask_bitmap)
        &&& self.levels@ == b.levels@
        &&& self.seats@ == b.seats@
        &&& self.orders@ == b.pool@
    }

    /// Decode account bytes.
    pub fn decode(data: &[u8]) -> (r: Result<MarketSnapshot, SnapshotError>)
        ensures
            match r {
                Err(e) => snapshot_error(data@) == Some(e),
                Ok(s) => snapshot_error(data@) is None && exists|b: BookRefMut|
                    #[trigger] b.bytes() == data@ && b.sized() && s.shows(b),
            },
    {
        let len: usize = data.len();
        if len < POOL_OFFSET {
            return Err(SnapshotError::TooShort { actual: len, minimum: POOL_OFFSET });
        }
        let header: Market = Market::decode(data, 0);
        if header.version() != MARKET_VERSION {
            return Err(
                SnapshotError::UnsupportedVersion {
                    actual: header.version(),
                    expected: MARKET_VERSION,
                },
            );
        }
        let expected: u64 = POOL_OFFSET as u64 + header.order_pool_capacity() as u64
            * NODE_LEN as u64;
        if expected > usize::MAX as u64 {
            return Err(SnapshotError::LengthOverflow);
        }
        if len as u64 != expected {
            return Err(
                SnapshotError::LengthMismatch { actual: len, expected: expected as usize },
            );
        }
        let b: BookRefMut = BookRefMut::from_bytes_unchecked_mut(data);
        let ghost book = b;
        let s: MarketSnapshot = MarketSnapshot {
            header: b.header,
            bid_bitmap: bitmap_snapshot(&b.bid_bitmap),
            ask_bitmap: bitmap_snapshot(&b.ask_bitmap),
            levels: b.levels,
            seats: b.seats,
            orders: b.pool,
        };
        assert(book.bytes() == data@ && book.sized() && s.shows(book));
        Ok(s)
    }

    /// The orders that rest in the book, by pool index.
    pub fn live_orders(&self) -> (r: Vec<LiveOrder<'_>>)
        ensures
            r@ == live_before(self.orders@, self.orders@.len() as int),
    {
        let mut r: Vec<LiveOrder<'_>> = Vec::new();
        let mut i: usize = 1;
        while i < self.orders.len()
            invariant
                1 <= i,
                i <= self.orders@.len() || i == 1,
                r@ == live_before(self.orders@, i as int),
            decreases self.orders@.len() - i,
        {
            let node: &OrderNode = &self.orders[i];
            if node.seq() != FREED_SEQ {
                let side: OrderSide = match node.side() {
                    Side::Bid => OrderSide::Bid,
                    Side::Ask => OrderSide::Ask,
                };
                r.push(LiveOrder { index: i as u16, maker: node.maker(), side, node });
            }
            i = i + 1;
        }
        r
    }
}

/// A snapshot of a stored book shows that book.
pub proof fn lemma_snapshot_of(b: BookRefMut, s: MarketSnapshot, c: BookRefMut)
    requires
        b.sized(),
        c.sized(),
        c.bytes() == b.bytes(),
        s.shows(c),
    ensures
        s.shows(b),
{
    lemma_book_injective(c, b);
}

/// A consistent market of the current version decodes.
pub proof fn lemma_decodes(b: BookRefMut)
    requires
        b.sized(),
        b.header.version == MARKET_VERSION,
        b.bytes().len() <= usize::MAX,
    ensures
        snapshot_error(b.bytes()) is None,
{
    lemma_bytes_len(b);
    crate::account::lemma_header_bytes(b);
}

/// The live orders of a snapshot are the orders of the book: each once, and no
/// others.
pub proof fn lemma_live_orders(b: BookRefMut, n: int)
    requires
        b.wf(),
        0 <= n <= b.pool@.len(),
    ensures
        ({
            let l = live_before(b.pool@, n);
            &&& forall|k: int|
                0 <= k < l.len() ==> {
                    let o = b@.orders[(#[trigger] l[k]).index];
                    &&& b@.orders.contains_key(l[k].index)
                    &&& l[k].index < n
                    &&& o.maker == l[k].maker
                    &&& o.side == l[k].node.spec_side()
                    &&& *l[k].node == b.pool@[l[k].index as int]
                }
            &&& forall|i: u16|
                b@.orders.contains_key(i) && i < n ==> exists|k: int|
                    0 <= k < l.len() && (#[trigger] l[k]).index == i
            &&& forall|j: int, k: int|
                0 <= j < k < l.len() ==> (#[trigger] l[j]).index < (#[trigger] l[k]).index
        }),
    decreases n,
{
    if n > 1 {
        lemma_live_orders(b, n - 1);
        let m = live_before(b.pool@, n - 1);
        let l = live_before(b.pool@, n);
        if b.pool@[n - 1].seq != FREED_SEQ {
            assert(l[m.len() as int].index == n - 1);
            assert forall|i: u16| b@.orders.contains_key(i) && i < n implies exists|k: int|
                0 <= k < l.len() && (#[trigger] l[k]).index == i by {
                if i < n - 1 {
                    let k = choose|k: int| 0 <= k < m.len() && (#[trigger] m[k]).index == i;
                    assert(l[k] == m[k]);
                }
            }
        }
    }
}

} // verus!
