//! Little-endian integers in byte strings.

use vstd::prelude::*;

verus! {

/// The 16-bit integer at `i`.
#[verifier::opaque]
pub open spec fn le16(s: Seq<u8>, i: int) -> u16 {
    (s[i] + s[i + 1] * 0x100) as u16
}

#[verifier::opaque]
pub open spec fn le32(s: Seq<u8>, i: int) -> u32 {
    (le16(s, i) + le16(s, i + 2) * 0x1_0000) as u32
}

#[verifier::opaque]
pub open spec fn le64(s: Seq<u8>, i: int) -> u64 {
    (le32(s, i) + le32(s, i + 4) * 0x1_0000_0000) as u64
}

#[verifier::opaque]
pub open spec fn le128(s: Seq<u8>, i: int) -> u128 {
    (le64(s, i) + le64(s, i + 8) * 0x1_0000_0000_0000_0000) as u128
}

/// The bytes of a 16-bit integer.
pub open spec fn bytes16(x: u16) -> Seq<u8> {
    seq![(x % 0x100) as u8, (x / 0x100) as u8]
}

pub open spec fn bytes32(x: u32) -> Seq<u8> {
    bytes16((x % 0x1_0000) as u16) + bytes16((x / 0x1_0000) as u16)
}

pub open spec fn bytes64(x: u64) -> Seq<u8> {
    bytes32((x % 0x1_0000_0000) as u32) + bytes32((x / 0x1_0000_0000) as u32)
}

pub open spec fn bytes128(x: u128) -> Seq<u8> {
    bytes64((x % 0x1_0000_0000_0000_0000) as u64) + bytes64(
        (x / 0x1_0000_0000_0000_0000) as u64,
    )
}

pub fn read16(s: &[u8], i: usize) -> (r: u16)
    requires
        i + 2 <= s@.len(),
    ensures
        r == le16(s@, i as int),
{
    proof {
        reveal(le16);
    }
    s[i] as u16 + s[i + 1] as u16 * 0x100
}

pub fn read32(s: &[u8], i: usize) -> (r: u32)
    requires
        i + 4 <= s@.len(),
    ensures
        r == le32(s@, i as int),
{
    proof {
        reveal(le32);
    }
    assert(s@.len() == s.len());
    read16(s, i) as u32 + read16(s, i + 2) as u32 * 0x1_0000
}

pub fn read64(s: &[u8], i: usize) -> (r: u64)
    requires
        i + 8 <= s@.len(),
    ensures
        r == le64(s@, i as int),
{
    proof {
        reveal(le64);
    }
    assert(s@.len() == s.len());
    read32(s, i) as u64 + read32(s, i + 4) as u64 * 0x1_0000_0000
}

pub fn read128(s: &[u8], i: usize) -> (r: u128)
    requires
        i + 16 <= s@.len(),
    ensures
        r == le128(s@, i as int),
{
    proof {
        reveal(le128);
    }
    assert(s@.len() == s.len());
    read64(s, i) as u128 + read64(s, i + 8) as u128 * 0x1_0000_0000_0000_0000
}

pub fn put16(v: &mut Vec<u8>, x: u16)
    ensures
        final(v)@ == old(v)@ + bytes16(x),
{
    v.push((x % 0x100) as u8);
    v.push((x / 0x100) as u8);
    assert(v@ =~= old(v)@ + bytes16(x));
}

pub fn put32(v: &mut Vec<u8>, x: u32)
    ensures
        final(v)@ == old(v)@ + bytes32(x),
{
    put16(v, (x % 0x1_0000) as u16);
    put16(v, (x / 0x1_0000) as u16);
    assert(v@ =~= old(v)@ + bytes32(x));
}

pub fn put64(v: &mut Vec<u8>, x: u64)
    ensures
        final(v)@ == old(v)@ + bytes64(x),
{
    put32(v, (x % 0x1_0000_0000) as u32);
    put32(v, (x / 0x1_0000_0000) as u32);
    assert(v@ =~= old(v)@ + bytes64(x));
}

pub fn put128(v: &mut Vec<u8>, x: u128)
    ensures
        final(v)@ == old(v)@ + bytes128(x),
{
    put64(v, (x % 0x1_0000_0000_0000_0000) as u64);
    put64(v, (x / 0x1_0000_0000_0000_0000) as u64);
    assert(v@ =~= old(v)@ + bytes128(x));
}

pub fn put_bytes(v: &mut Vec<u8>, s: &[u8])
    ensures
        final(v)@ == old(v)@ + s@,
{
    let mut i: usize = 0;
    while i < s.len()
        invariant
            i <= s@.len(),
            v@ == old(v)@ + s@.take(i as int),
        decreases s@.len() - i,
    {
        v.push(s[i]);
        i = i + 1;
        assert(s@.take(i as int) =~= s@.take(i - 1).push(s@[i - 1]));
    }
    assert(s@.take(i as int) =~= s@);
}

/// The 32 bytes at `i`.
pub fn read_key(s: &[u8], i: usize) -> (r: [u8; 32])
    requires
        i + 32 <= s@.len(),
    ensures
        r@ == s@.subrange(i as int, i + 32),
{
    assert(s@.len() == s.len());
    let mut r: [u8; 32] = [0; 32];
    let mut k: usize = 0;
    while k < 32
        invariant
            k <= 32,
            i + 32 <= s@.len() <= usize::MAX,
            forall|j: int| 0 <= j < k ==> r@[j] == s@[i + j],
        decreases 32 - k,
    {
        r[k] = s[i + k];
        k = k + 1;
    }
    assert(r@ =~= s@.subrange(i as int, i + 32));
    r
}

/// Whether two keys are the same.
pub fn same_key(a: &[u8; 32], b: &[u8; 32]) -> (r: bool)
    ensures
        r == (a@ == b@),
{
    let mut k: usize = 0;
    while k < 32
        invariant
            k <= 32,
            forall|j: int| 0 <= j < k ==> a@[j] == b@[j],
        decreases 32 - k,
    {
        if a[k] != b[k] {
            return false;
        }
        k = k + 1;
    }
    assert(a@ =~= b@);
    true
}

/// What was written is what is read.
pub proof fn lemma_le16(s: Seq<u8>, i: int, x: u16)
    requires
        0 <= i,
        i + 2 <= s.len(),
    ensures
        s.subrange(i, i + 2) == bytes16(x) <==> le16(s, i) == x,
{
    reveal(le16);
    let t = s.subrange(i, i + 2);
    if t == bytes16(x) {
        assert(t[0] == s[i] && t[1] == s[i + 1]);
    }
    if le16(s, i) == x {
        assert(t =~= bytes16(x));
    }
}

pub proof fn lemma_le32(s: Seq<u8>, i: int, x: u32)
    requires
        0 <= i,
        i + 4 <= s.len(),
    ensures
        s.subrange(i, i + 4) == bytes32(x) <==> le32(s, i) == x,
{
    reveal(le32);
    let lo = (x % 0x1_0000) as u16;
    let hi = (x / 0x1_0000) as u16;
    lemma_le16(s, i, lo);
    lemma_le16(s, i + 2, hi);
    let t = s.subrange(i, i + 4);
    assert(s.subrange(i, i + 2) =~= t.subrange(0, 2));
    assert(s.subrange(i + 2, i + 4) =~= t.subrange(2, 4));
    if t == bytes32(x) {
        assert(t.subrange(0, 2) =~= bytes16(lo));
        assert(t.subrange(2, 4) =~= bytes16(hi));
    }
    if le32(s, i) == x {
        assert(le16(s, i) == lo && le16(s, i + 2) == hi);
        assert(t =~= bytes32(x));
    }
}

pub proof fn lemma_le64(s: Seq<u8>, i: int, x: u64)
    requires
        0 <= i,
        i + 8 <= s.len(),
    ensures
        s.subrange(i, i + 8) == bytes64(x) <==> le64(s, i) == x,
{
    reveal(le64);
    let lo = (x % 0x1_0000_0000) as u32;
    let hi = (x / 0x1_0000_0000) as u32;
    lemma_le32(s, i, lo);
    lemma_le32(s, i + 4, hi);
    let t = s.subrange(i, i + 8);
    assert(s.subrange(i, i + 4) =~= t.subrange(0, 4));
    assert(s.subrange(i + 4, i + 8) =~= t.subrange(4, 8));
    if t == bytes64(x) {
        assert(t.subrange(0, 4) =~= bytes32(lo));
        assert(t.subrange(4, 8) =~= bytes32(hi));
    }
    if le64(s, i) == x {
        assert(le32(s, i) == lo && le32(s, i + 4) == hi);
        assert(t =~= bytes64(x));
    }
}

pub proof fn lemma_le128(s: Seq<u8>, i: int, x: u128)
    requires
        0 <= i,
        i + 16 <= s.len(),
    ensures
        s.subrange(i, i + 16) == bytes128(x) <==> le128(s, i) == x,
{
    reveal(le128);
    let lo = (x % 0x1_0000_0000_0000_0000) as u64;
    let hi = (x / 0x1_0000_0000_0000_0000) as u64;
    lemma_le64(s, i, lo);
    lemma_le64(s, i + 8, hi);
    let t = s.subrange(i, i + 16);
    assert(s.subrange(i, i + 8) =~= t.subrange(0, 8));
    assert(s.subrange(i + 8, i + 16) =~= t.subrange(8, 16));
    if t == bytes128(x) {
        assert(t.subrange(0, 8) =~= bytes64(lo));
        assert(t.subrange(8, 16) =~= bytes64(hi));
    }
    if le128(s, i) == x {
        assert(le64(s, i) == lo && le64(s, i + 8) == hi);
        assert(t =~= bytes128(x));
    }
}

} // verus!
