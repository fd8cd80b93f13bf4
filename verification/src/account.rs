//! A market account as bytes: reading a book out of it and writing it back.

use crate::bitmap::Bitmap;
use crate::book::{free_ok, BookRefMut, Lists};
use crate::codec::{bytes64, le32, put64, read64};
use crate::constants::POOL_OFFSET;
use crate::layout::{
    lemma_level_injective,
    lemma_market_injective,
    lemma_node_injective,
    lemma_seat_injective,
    level_bytes,
    market_bytes,
    node_bytes,
    seat_bytes,
};
use crate::level::Level;
use crate::lists::{at, threads};
use crate::market::Market;
use crate::node::OrderNode;
use crate::seat::Seat;
use vstd::prelude::*;

verus! {

/// The bytes of a run of words.
pub open spec fn words_bytes(w: Seq<u64>) -> Seq<u8>
    decreases w.len(),
{
    if w.len() == 0 {
        seq![]
    } else {
        words_bytes(w.drop_last()) + bytes64(w.last())
    }
}

/// The bytes of an occupancy bitmap: the summary, then the leaves.
pub open spec fn bitmap_bytes(x: Bitmap) -> Seq<u8> {
    words_bytes(x.summary@) + words_bytes(x.leaves@)
}

pub open spec fn levels_bytes(l: Seq<Level>) -> Seq<u8>
    decreases l.len(),
{
    if l.len() == 0 {
        seq![]
    } else {
        levels_bytes(l.drop_last()) + level_bytes(l.last())
    }
}

pub open spec fn seats_bytes(l: Seq<Seat>) -> Seq<u8>
    decreases l.len(),
{
    if l.len() == 0 {
        seq![]
    } else {
        seats_bytes(l.drop_last()) + seat_bytes(l.last())
    }
}

pub open spec fn nodes_bytes(l: Seq<OrderNode>) -> Seq<u8>
    decreases l.len(),
{
    if l.len() == 0 {
        seq![]
    } else {
        nodes_bytes(l.drop_last()) + node_bytes(l.last())
    }
}

impl BookRefMut {
    /// The account bytes of this book: header, bid bitmap, ask bitmap, levels,
    /// seats, pool.
    pub open spec fn bytes(&self) -> Seq<u8> {
        market_bytes(self.header) + bitmap_bytes(self.bid_bitmap) + bitmap_bytes(self.ask_bitmap)
            + levels_bytes(self.levels@) + seats_bytes(self.seats@) + nodes_bytes(self.pool@)
    }

    /// The fixed regions have their sizes, and the pool its recorded capacity.
    pub open spec fn sized(&self) -> bool {
        &&& self.levels@.len() == 8192
        &&& self.seats@.len() == 128
        &&& self.pool@.len() == self.header.order_pool_capacity
    }

    /// The two books agree in all stored regions.
    pub open spec fn same_regions(&self, b: BookRefMut) -> bool {
        &&& self.header == b.header
        &&& self.bid_bitmap == b.bid_bitmap
        &&& self.ask_bitmap == b.ask_bitmap
        &&& self.levels@ == b.levels@
        &&& self.seats@ == b.seats@
        &&& self.pool@ == b.pool@
    }

    /// This book with other lists.
    pub open spec fn with_lists(self, l: Lists) -> BookRefMut {
        BookRefMut { lists: Ghost(l), ..self }
    }
}

pub open spec fn no_lists() -> Lists {
    Lists { free: seq![], fifos: seq![], chains: seq![] }
}

pub open spec fn linked_by(b: BookRefMut, l: Lists) -> bool {
    b.with_lists(l).links_ok()
}

/// The lists that a book's regions thread.
pub open spec fn lists_of(b: BookRefMut) -> Lists {
    let c = b.with_lists(no_lists());
    choose|l: Lists| linked_by(c, l)
}

proof fn lemma_tail(s: Seq<u8>, a: int, b: int, c: int)
    requires
        0 <= a <= b <= c <= s.len(),
    ensures
        s.subrange(a, b) + s.subrange(b, c) == s.subrange(a, c),
{
    assert(s.subrange(a, b) + s.subrange(b, c) =~= s.subrange(a, c));
}

fn decode_words2(s: &[u8], i: usize) -> (r: [u64; 2])
    requires
        i + 16 <= s@.len(),
    ensures
        words_bytes(r@) == s@.subrange(i as int, i + 16),
{
    assert(s@.len() == s.len());
    let r: [u64; 2] = [read64(s, i), read64(s, i + 8)];
    proof {
        crate::codec::lemma_le64(s@, i as int, r@[0]);
        crate::codec::lemma_le64(s@, i + 8, r@[1]);
        lemma_tail(s@, i as int, i + 8, i + 16);
        let one = r@.drop_last();
        assert(one.drop_last() =~= Seq::<u64>::empty());
        assert(words_bytes(one.drop_last()) == Seq::<u8>::empty());
        assert(words_bytes(one) =~= bytes64(r@[0]));
        assert(words_bytes(r@) == words_bytes(one) + bytes64(r@[1]));
    }
    r
}

fn decode_words128(s: &[u8], i: usize) -> (r: [u64; 128])
    requires
        i + 1024 <= s@.len(),
    ensures
        words_bytes(r@) == s@.subrange(i as int, i + 1024),
{
    assert(s@.len() == s.len());
    let mut r: [u64; 128] = [0; 128];
    let mut k: usize = 0;
    proof {
        assert(r@.take(0) =~= Seq::<u64>::empty());
        assert(s@.subrange(i as int, i as int) =~= Seq::<u8>::empty());
    }
    while k < 128
        invariant
            k <= 128,
            i + 1024 <= s@.len() <= usize::MAX,
            words_bytes(r@.take(k as int)) == s@.subrange(i as int, i + 8 * k),
        decreases 128 - k,
    {
        let w: u64 = read64(s, i + 8 * k);
        let ghost r0 = r@;
        r[k] = w;
        proof {
            crate::codec::lemma_le64(s@, i + 8 * k, w);
            lemma_tail(s@, i as int, i + 8 * k, i + 8 * k + 8);
            assert(r@.take(k + 1).drop_last() =~= r0.take(k as int));
            assert(r@.take(k + 1).last() == w);
        }
        k = k + 1;
    }
    assert(r@.take(128) =~= r@);
    r
}

fn encode_words(w: &[u64], v: &mut Vec<u8>)
    ensures
        final(v)@ == old(v)@ + words_bytes(w@),
{
    let ghost v0 = v@;
    let mut k: usize = 0;
    proof {
        assert(w@.take(0) =~= Seq::<u64>::empty());
        assert(v0 + Seq::<u8>::empty() =~= v0);
    }
    while k < w.len()
        invariant
            k <= w@.len(),
            v@ == v0 + words_bytes(w@.take(k as int)),
        decreases w@.len() - k,
    {
        put64(v, w[k]);
        proof {
            let t = w@.take(k + 1);
            assert(t.drop_last() =~= w@.take(k as int));
            assert(t.last() == w@[k as int]);
            assert(v@ =~= v0 + words_bytes(t));
        }
        k = k + 1;
    }
    assert(w@.take(k as int) =~= w@);
}

impl Bitmap {
    /// Read the bitmap at `i`.
    pub fn decode(s: &[u8], i: usize) -> (r: Bitmap)
        requires
            i + 1040 <= s@.len(),
        ensures
            bitmap_bytes(r) == s@.subrange(i as int, i + 1040),
    {
        assert(s@.len() == s.len());
        let r: Bitmap = Bitmap { summary: decode_words2(s, i), leaves: decode_words128(s, i + 16) };
        proof {
            lemma_tail(s@, i as int, i + 16, i + 1040);
        }
        r
    }

    /// Append the bitmap's bytes.
    pub fn encode(&self, v: &mut Vec<u8>)
        ensures
            final(v)@ == old(v)@ + bitmap_bytes(*self),
    {
        let ghost v0 = v@;
        encode_words(&self.summary, v);
        encode_words(&self.leaves, v);
        assert(v@ =~= v0 + bitmap_bytes(*self));
    }
}

fn decode_levels(s: &[u8], i: usize, count: usize) -> (r: Vec<Level>)
    requires
        i + 16 * count <= s@.len(),
    ensures
        r@.len() == count,
        levels_bytes(r@) == s@.subrange(i as int, i + 16 * count),
{
    assert(s@.len() == s.len());
    let mut r: Vec<Level> = Vec::new();
    let mut k: usize = 0;
    assert(s@.subrange(i as int, i as int) =~= Seq::<u8>::empty());
    while k < count
        invariant
            k <= count,
            i + 16 * count <= s@.len() <= usize::MAX,
            r@.len() == k,
            levels_bytes(r@) == s@.subrange(i as int, i + 16 * k),
        decreases count - k,
    {
        let x: Level = Level::decode(s, i + 16 * k);
        let ghost r0 = r@;
        r.push(x);
        proof {
            lemma_tail(s@, i as int, i + 16 * k, i + 16 * k + 16);
            assert(r@.drop_last() =~= r0);
        }
        k = k + 1;
    }
    r
}

fn encode_levels(l: &Vec<Level>, v: &mut Vec<u8>)
    ensures
        final(v)@ == old(v)@ + levels_bytes(l@),
{
    let ghost v0 = v@;
    let mut k: usize = 0;
    proof {
        assert(l@.take(0) =~= Seq::<Level>::empty());
        assert(v0 + Seq::<u8>::empty() =~= v0);
    }
    while k < l.len()
        invariant
            k <= l@.len(),
            v@ == v0 + levels_bytes(l@.take(k as int)),
        decreases l@.len() - k,
    {
        l[k].encode(v);
        proof {
            let t = l@.take(k + 1);
            assert(t.drop_last() =~= l@.take(k as int));
            assert(t.last() == l@[k as int]);
            assert(v@ =~= v0 + levels_bytes(t));
        }
        k = k + 1;
    }
    assert(l@.take(k as int) =~= l@);
}

proof fn lemma_levels_injective(x: Seq<Level>, y: Seq<Level>)
    requires
        x.len() == y.len(),
    ensures
        levels_bytes(x).len() == 16 * x.len(),
        levels_bytes(x) == levels_bytes(y) ==> x == y,
    decreases x.len(),
{
    if x.len() > 0 {
        lemma_levels_injective(x.drop_last(), y.drop_last());
        lemma_level_injective(x.last(), y.last());
        lemma_level_injective(y.last(), x.last());
        if levels_bytes(x) == levels_bytes(y) {
            lemma_split(
                levels_bytes(x.drop_last()),
                level_bytes(x.last()),
                levels_bytes(y.drop_last()),
                level_bytes(y.last()),
            );
            assert(x =~= x.drop_last().push(x.last()));
            assert(y =~= y.drop_last().push(y.last()));
        }
    } else {
        assert(x =~= y);
    }
}

fn decode_seats(s: &[u8], i: usize, count: usize) -> (r: Vec<Seat>)
    requires
        i + 80 * count <= s@.len(),
    ensures
        r@.len() == count,
        seats_bytes(r@) == s@.subrange(i as int, i + 80 * count),
{
    assert(s@.len() == s.len());
    let mut r: Vec<Seat> = Vec::new();
    let mut k: usize = 0;
    assert(s@.subrange(i as int, i as int) =~= Seq::<u8>::empty());
    while k < count
        invariant
            k <= count,
            i + 80 * count <= s@.len() <= usize::MAX,
            r@.len() == k,
            seats_bytes(r@) == s@.subrange(i as int, i + 80 * k),
        decreases count - k,
    {
        let x: Seat = Seat::decode(s, i + 80 * k);
        let ghost r0 = r@;
        r.push(x);
        proof {
            lemma_tail(s@, i as int, i + 80 * k, i + 80 * k + 80);
            assert(r@.drop_last() =~= r0);
        }
        k = k + 1;
    }
    r
}

fn encode_seats(l: &Vec<Seat>, v: &mut Vec<u8>)
    ensures
        final(v)@ == old(v)@ + seats_bytes(l@),
{
    let ghost v0 = v@;
    let mut k: usize = 0;
    proof {
        assert(l@.take(0) =~= Seq::<Seat>::empty());
        assert(v0 + Seq::<u8>::empty() =~= v0);
    }
    while k < l.len()
        invariant
            k <= l@.len(),
            v@ == v0 + seats_bytes(l@.take(k as int)),
        decreases l@.len() - k,
    {
        l[k].encode(v);
        proof {
            let t = l@.take(k + 1);
            assert(t.drop_last() =~= l@.take(k as int));
            assert(t.last() == l@[k as int]);
            assert(v@ =~= v0 + seats_bytes(t));
        }
        k = k + 1;
    }
    assert(l@.take(k as int) =~= l@);
}

proof fn lemma_seats_injective(x: Seq<Seat>, y: Seq<Seat>)
    requires
        x.len() == y.len(),
    ensures
        seats_bytes(x).len() == 80 * x.len(),
        seats_bytes(x) == seats_bytes(y) ==> x == y,
    decreases x.len(),
{
    if x.len() > 0 {
        lemma_seats_injective(x.drop_last(), y.drop_last());
        lemma_seat_injective(x.last(), y.last());
        lemma_seat_injective(y.last(), x.last());
        if seats_bytes(x) == seats_bytes(y) {
            lemma_split(
                seats_bytes(x.drop_last()),
                seat_bytes(x.last()),
                seats_bytes(y.drop_last()),
                seat_bytes(y.last()),
            );
            assert(x =~= x.drop_last().push(x.last()));
            assert(y =~= y.drop_last().push(y.last()));
        }
    } else {
        assert(x =~= y);
    }
}

fn decode_nodes(s: &[u8], i: usize, count: usize) -> (r: Vec<OrderNode>)
    requires
        i + 30 * count <= s@.len(),
    ensures
        r@.len() == count,
        nodes_bytes(r@) == s@.subrange(i as int, i + 30 * count),
{
    assert(s@.len() == s.len());
    let mut r: Vec<OrderNode> = Vec::new();
    let mut k: usize = 0;
    assert(s@.subrange(i as int, i as int) =~= Seq::<u8>::empty());
    while k < count
        invariant
            k <= count,
            i + 30 * count <= s@.len() <= usize::MAX,
            r@.len() == k,
            nodes_bytes(r@) == s@.subrange(i as int, i + 30 * k),
        decreases count - k,
    {
        let x: OrderNode = OrderNode::decode(s, i + 30 * k);
        let ghost r0 = r@;
        r.push(x);
        proof {
            lemma_tail(s@, i as int, i + 30 * k, i + 30 * k + 30);
            assert(r@.drop_last() =~= r0);
        }
        k = k + 1;
    }
    r
}

fn encode_nodes(l: &Vec<OrderNode>, v: &mut Vec<u8>)
    ensures
        final(v)@ == old(v)@ + nodes_bytes(l@),
{
    let ghost v0 = v@;
    let mut k: usize = 0;
    proof {
        assert(l@.take(0) =~= Seq::<OrderNode>::empty());
        assert(v0 + Seq::<u8>::empty() =~= v0);
    }
    while k < l.len()
        invariant
            k <= l@.len(),
            v@ == v0 + nodes_bytes(l@.take(k as int)),
        decreases l@.len() - k,
    {
        l[k].encode(v);
        proof {
            let t = l@.take(k + 1);
            assert(t.drop_last() =~= l@.take(k as int));
            assert(t.last() == l@[k as int]);
            assert(v@ =~= v0 + nodes_bytes(t));
        }
        k = k + 1;
    }
    assert(l@.take(k as int) =~= l@);
}

proof fn lemma_nodes_injective(x: Seq<OrderNode>, y: Seq<OrderNode>)
    requires
        x.len() == y.len(),
    ensures
        nodes_bytes(x).len() == 30 * x.len(),
        nodes_bytes(x) == nodes_bytes(y) ==> x == y,
    decreases x.len(),
{
    if x.len() > 0 {
        lemma_nodes_injective(x.drop_last(), y.drop_last());
        lemma_node_injective(x.last(), y.last());
        lemma_node_injective(y.last(), x.last());
        if nodes_bytes(x) == nodes_bytes(y) {
            lemma_split(
                nodes_bytes(x.drop_last()),
                node_bytes(x.last()),
                nodes_bytes(y.drop_last()),
                node_bytes(y.last()),
            );
            assert(x =~= x.drop_last().push(x.last()));
            assert(y =~= y.drop_last().push(y.last()));
        }
    } else {
        assert(x =~= y);
    }
}

proof fn lemma_split(a: Seq<u8>, b: Seq<u8>, c: Seq<u8>, d: Seq<u8>)
    requires
        a + b == c + d,
        b.len() == d.len(),
    ensures
        a == c,
        b == d,
{
    let s = a + b;
    let t = c + d;
    assert(s.len() == a.len() + b.len());
    assert(t.len() == c.len() + d.len());
    assert forall|k: int| 0 <= k < a.len() implies a[k] == c[k] by {
        assert(s[k] == a[k]);
        assert(t[k] == c[k]);
    }
    assert forall|k: int| 0 <= k < b.len() implies b[k] == d[k] by {
        assert(s[a.len() + k] == b[k]);
        assert(t[a.len() + k] == d[k]);
    }
    assert(a =~= c);
    assert(b =~= d);
}

proof fn lemma_words_injective(x: Seq<u64>, y: Seq<u64>)
    requires
        x.len() == y.len(),
    ensures
        words_bytes(x).len() == 8 * x.len(),
        words_bytes(x) == words_bytes(y) ==> x == y,
    decreases x.len(),
{
    if x.len() > 0 {
        lemma_words_injective(x.drop_last(), y.drop_last());
        crate::layout::lemma_bytes64(x.last(), y.last());
        crate::layout::lemma_bytes64(y.last(), x.last());
        if words_bytes(x) == words_bytes(y) {
            lemma_split(
                words_bytes(x.drop_last()),
                bytes64(x.last()),
                words_bytes(y.drop_last()),
                bytes64(y.last()),
            );
            assert(x =~= x.drop_last().push(x.last()));
            assert(y =~= y.drop_last().push(y.last()));
        }
    } else {
        assert(x =~= y);
    }
}

/// The bytes decide the bitmap.
pub proof fn lemma_bitmap_injective(x: Bitmap, y: Bitmap)
    ensures
        bitmap_bytes(x).len() == 1040,
        bitmap_bytes(x) == bitmap_bytes(y) ==> x == y,
{
    lemma_words_injective(x.summary@, y.summary@);
    lemma_words_injective(x.leaves@, y.leaves@);
    lemma_words_injective(y.summary@, x.summary@);
    lemma_words_injective(y.leaves@, x.leaves@);
    if bitmap_bytes(x) == bitmap_bytes(y) {
        lemma_split(
            words_bytes(x.summary@),
            words_bytes(x.leaves@),
            words_bytes(y.summary@),
            words_bytes(y.leaves@),
        );
        assert(x.summary =~= y.summary);
        assert(x.leaves =~= y.leaves);
    }
}

/// The length of an account.
pub proof fn lemma_bytes_len(b: BookRefMut)
    requires
        b.sized(),
    ensures
        b.bytes().len() == 143712 + 30 * b.header.order_pool_capacity,
{
    lemma_market_injective(b.header, b.header);
    lemma_bitmap_injective(b.bid_bitmap, b.bid_bitmap);
    lemma_bitmap_injective(b.ask_bitmap, b.ask_bitmap);
    lemma_levels_injective(b.levels@, b.levels@);
    lemma_seats_injective(b.seats@, b.seats@);
    lemma_nodes_injective(b.pool@, b.pool@);
}

/// What account bytes say of the header.
pub proof fn lemma_header_bytes(b: BookRefMut)
    requires
        b.sized(),
    ensures
        b.bytes()[0] == b.header.version,
        le32(b.bytes(), 256) == b.header.order_pool_capacity,
{
    let h = market_bytes(b.header);
    let s = b.bytes();
    lemma_bytes_len(b);
    lemma_market_injective(b.header, b.header);
    crate::layout::lemma_market_starts(b.header);
    assert(s[0] == h[0]);
    assert(s.subrange(256, 260) =~= h.subrange(256, 260));
    crate::codec::lemma_le32(s, 256, b.header.order_pool_capacity);
}

/// Account bytes decide every region of the book.
pub proof fn lemma_book_injective(a: BookRefMut, b: BookRefMut)
    requires
        a.sized(),
        b.sized(),
        a.bytes() == b.bytes(),
    ensures
        a.same_regions(b),
{
    lemma_bytes_len(a);
    lemma_bytes_len(b);
    lemma_market_injective(a.header, b.header);
    lemma_market_injective(b.header, a.header);
    lemma_bitmap_injective(a.bid_bitmap, b.bid_bitmap);
    lemma_bitmap_injective(b.bid_bitmap, a.bid_bitmap);
    lemma_bitmap_injective(a.ask_bitmap, b.ask_bitmap);
    lemma_bitmap_injective(b.ask_bitmap, a.ask_bitmap);
    lemma_levels_injective(a.levels@, b.levels@);
    lemma_levels_injective(b.levels@, a.levels@);
    lemma_seats_injective(a.seats@, b.seats@);
    lemma_seats_injective(b.seats@, a.seats@);
    lemma_nodes_injective(a.pool@, b.pool@);
    lemma_nodes_injective(b.pool@, b.pool@);
    let a1 = market_bytes(a.header);
    let a2 = a1 + bitmap_bytes(a.bid_bitmap);
    let a3 = a2 + bitmap_bytes(a.ask_bitmap);
    let a4 = a3 + levels_bytes(a.levels@);
    let a5 = a4 + seats_bytes(a.seats@);
    let b1 = market_bytes(b.header);
    let b2 = b1 + bitmap_bytes(b.bid_bitmap);
    let b3 = b2 + bitmap_bytes(b.ask_bitmap);
    let b4 = b3 + levels_bytes(b.levels@);
    let b5 = b4 + seats_bytes(b.seats@);
    lemma_split(a5, nodes_bytes(a.pool@), b5, nodes_bytes(b.pool@));
    lemma_split(a4, seats_bytes(a.seats@), b4, seats_bytes(b.seats@));
    lemma_split(a3, levels_bytes(a.levels@), b3, levels_bytes(b.levels@));
    lemma_split(a2, bitmap_bytes(a.ask_bitmap), b2, bitmap_bytes(b.ask_bitmap));
    lemma_split(a1, bitmap_bytes(a.bid_bitmap), b1, bitmap_bytes(b.bid_bitmap));
}

/// Links from a common head thread one list only.
proof fn lemma_threads_unique(p: Seq<OrderNode>, chain: bool, q: Seq<u16>, r: Seq<u16>, k: int)
    requires
        threads(p, chain, q),
        threads(p, chain, r),
        at(q, 0) == at(r, 0),
        0 <= k,
    ensures
        at(q, k) == at(r, k),
    decreases k,
{
    if k > 0 {
        lemma_threads_unique(p, chain, q, r, k - 1);
        if k - 1 < q.len() {
            assert(q[k - 1] == at(q, k - 1));
            assert(0 < q[k - 1]);
            assert(k - 1 < r.len());
            assert(r[k - 1] == q[k - 1]);
        } else if k - 1 < r.len() {
            assert(0 < r[k - 1]);
        }
    }
}

proof fn lemma_free_unique(p: Seq<OrderNode>, head: u16, count: u32, q: Seq<u16>, r: Seq<u16>, k: int)
    requires
        free_ok(p, head, count, q),
        free_ok(p, head, count, r),
        0 <= k <= count,
    ensures
        at(q, k) == at(r, k),
    decreases k,
{
    if k > 0 {
        lemma_free_unique(p, head, count, q, r, k - 1);
        assert(q[k - 1] == r[k - 1]);
    }
}

proof fn lemma_same_list(p: Seq<OrderNode>, chain: bool, q: Seq<u16>, r: Seq<u16>)
    requires
        threads(p, chain, q),
        threads(p, chain, r),
        at(q, 0) == at(r, 0),
    ensures
        q == r,
{
    assert forall|k: int| 0 <= k implies #[trigger] at(q, k) == at(r, k) by {
        lemma_threads_unique(p, chain, q, r, k);
    }
    if q.len() < r.len() {
        let n = q.len() as int;
        assert(at(q, n) == at(r, n));
        assert(0 < r[n]);
    }
    if r.len() < q.len() {
        let n = r.len() as int;
        assert(at(q, n) == at(r, n));
        assert(0 < q[n]);
    }
    assert forall|k: int| 0 <= k < q.len() implies q[k] == r[k] by {
        assert(at(q, k) == at(r, k));
    }
    assert(q =~= r);
}

/// The regions thread one set of lists only.
pub proof fn lemma_lists_unique(a: BookRefMut, b: BookRefMut)
    requires
        a.links_ok(),
        b.links_ok(),
        a.same_regions(b),
    ensures
        a.lists@ == b.lists@,
{
    let p = a.pool@;
    assert forall|s: int| 0 <= s < 8192 implies a.lists@.fifos[s] == b.lists@.fifos[s] by {
        assert(a.fifo(s));
        assert(b.fifo(s));
        lemma_same_list(p, false, a.lists@.fifos[s], b.lists@.fifos[s]);
    }
    assert forall|s: int| 0 <= s < 128 implies a.lists@.chains[s] == b.lists@.chains[s] by {
        assert(a.chain(s));
        assert(b.chain(s));
        lemma_same_list(p, true, a.lists@.chains[s], b.lists@.chains[s]);
    }
    let q = a.lists@.free;
    let r = b.lists@.free;
    assert forall|k: int| 0 <= k < q.len() implies q[k] == r[k] by {
        lemma_free_unique(p, a.header.free_head, a.header.free_count, q, r, k);
    }
    assert(q =~= r);
    assert(a.lists@.fifos =~= b.lists@.fifos);
    assert(a.lists@.chains =~= b.lists@.chains);
}

/// The links of a book are a matter of its regions and its lists.
pub proof fn lemma_links_transfer(a: BookRefMut, b: BookRefMut)
    requires
        b.links_ok(),
        a.same_regions(b),
        a.lists@ == b.lists@,
    ensures
        a.links_ok(),
{
    assert forall|s: int| 0 <= s < 8192 implies #[trigger] a.fifo(s) by {
        assert(b.fifo(s));
    }
    assert forall|s: int| 0 <= s < 128 implies #[trigger] a.chain(s) by {
        assert(b.chain(s));
    }
}

impl BookRefMut {
    /// Carve a book out of account bytes. The lists are those that the
    /// regions thread.
    pub fn from_bytes_unchecked_mut(data: &[u8]) -> (r: BookRefMut)
        requires
            data@.len() >= 320,
            data@.len() == 143712 + 30 * le32(data@, 256),
        ensures
            r.sized(),
            r.bytes() == data@,
            r.lists@ == lists_of(r),
            r.header.version == data@[0],
            r.header.order_pool_capacity == le32(data@, 256),
    {
        let header: Market = Market::decode(data, 0);
        let capacity: u32 = header.order_pool_capacity();
        let r: BookRefMut = BookRefMut::carve(data, header, capacity);
        proof {
            lemma_tail(data@, 0, 320, data@.len() as int);
            assert(data@.subrange(0, data@.len() as int) =~= data@);
        }
        r
    }

    /// Carve a book behind `header`, with a pool of `capacity` nodes.
    #[verifier::rlimit(30)]
    pub(crate) fn carve(data: &[u8], header: Market, capacity: u32) -> (r: BookRefMut)
        requires
            data@.len() == 143712 + 30 * capacity,
        ensures
            r.sized(),
            r.header == (Market { order_pool_capacity: capacity, ..header }),
            r.bytes() == market_bytes(r.header) + data@.subrange(320, data@.len() as int),
            r.lists@ == lists_of(r),
    {
        assert(data@.len() == data.len());
        let mut header: Market = header;
        header.set_order_pool_capacity(capacity);
        let bid_bitmap: Bitmap = Bitmap::decode(data, 320);
        let ask_bitmap: Bitmap = Bitmap::decode(data, 1360);
        let levels: Vec<Level> = decode_levels(data, 2400, 8192);
        let seats: Vec<Seat> = decode_seats(data, 133472, 128);
        let pool: Vec<OrderNode> = decode_nodes(data, POOL_OFFSET, capacity as usize);
        let ghost b = BookRefMut {
            header,
            bid_bitmap,
            ask_bitmap,
            levels,
            seats,
            pool,
            lists: Ghost(no_lists()),
        };
        let r: BookRefMut = BookRefMut {
            header,
            bid_bitmap,
            ask_bitmap,
            levels,
            seats,
            pool,
            lists: Ghost(lists_of(b)),
        };
        proof {
            lemma_lists_of(b, r);
            lemma_tail(data@, 320, 1360, 2400);
            lemma_tail(data@, 320, 2400, 133472);
            lemma_tail(data@, 320, 133472, 143712);
            lemma_tail(data@, 320, 143712, data@.len() as int);
            lemma_six(
                market_bytes(r.header),
                bitmap_bytes(bid_bitmap),
                bitmap_bytes(ask_bitmap),
                levels_bytes(levels@),
                seats_bytes(seats@),
                nodes_bytes(pool@),
            );
        }
        r
    }

    /// The account bytes of this book.
    pub fn to_bytes(&self) -> (r: Vec<u8>)
        ensures
            r@ == self.bytes(),
    {
        let mut v: Vec<u8> = Vec::new();
        self.header.encode(&mut v);
        assert(v@ =~= market_bytes(self.header));
        self.bid_bitmap.encode(&mut v);
        self.ask_bitmap.encode(&mut v);
        encode_levels(&self.levels, &mut v);
        encode_seats(&self.seats, &mut v);
        encode_nodes(&self.pool, &mut v);
        v
    }
}

/// Joining six pieces, the last five first.
proof fn lemma_six(h: Seq<u8>, x: Seq<u8>, y: Seq<u8>, l: Seq<u8>, t: Seq<u8>, n: Seq<u8>)
    ensures
        h + x + y + l + t + n == h + (x + y + l + t + n),
{
    assert(h + x + y + l + t + n =~= h + (x + y + l + t + n));
}

/// `lists_of` looks at the regions only.
proof fn lemma_lists_of(a: BookRefMut, b: BookRefMut)
    requires
        b == a.with_lists(b.lists@),
    ensures
        lists_of(a) == lists_of(b),
{
    assert(a.with_lists(no_lists()) == b.with_lists(no_lists()));
}

/// Writing a book and reading it back gives the same book.
pub proof fn lemma_reload(b: BookRefMut, r: BookRefMut)
    requires
        b.links_ok(),
        r.sized(),
        r.bytes() == b.bytes(),
        r.lists@ == lists_of(r),
    ensures
        r.same_regions(b),
        r.lists@ == b.lists@,
        r.links_ok(),
        r@ == b@,
        b.wf() ==> r.wf(),
{
    assert(b.sized());
    lemma_book_injective(r, b);
    let x = r.with_lists(b.lists@);
    lemma_links_transfer(x, b);
    let c = r.with_lists(no_lists());
    assert(c.with_lists(b.lists@) == x);
    assert(linked_by(c, b.lists@));
    let y = c.with_lists(lists_of(r));
    assert(y.links_ok());
    lemma_links_transfer(r, y);
    lemma_lists_unique(r, b);
    assert(r@ =~= b@);
}

} // verus!
