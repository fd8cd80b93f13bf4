//! Two-level occupancy bitmap over the tick window.

use crate::constants::{WINDOW_MASK, WINDOW_TICKS};
use vstd::prelude::*;
use vstd::std_specs::bits::{axiom_u64_leading_zeros, axiom_u64_trailing_zeros, u64_leading_zeros};

verus! {

/// Bit `k` of `x`.
#[verifier::opaque]
pub open spec fn bit(x: u64, k: u64) -> bool {
    (x >> k) & 1u64 == 1u64
}

/// Ring slot of an absolute tick.
pub open spec fn slot_of(tick: u32) -> int {
    tick as int % 8192
}

proof fn lemma_bit_set(x: u64, k: u64, j: u64)
    requires
        k < 64,
        j < 64,
    ensures
        bit(x | (1u64 << k), j) == (j == k || bit(x, j)),
{
    reveal(bit);
    assert((((x | (1u64 << k)) >> j) & 1u64 == 1u64) == (j == k || (x >> j) & 1u64 == 1u64))
        by (bit_vector)
        requires
            k < 64,
            j < 64,
    ;
}

proof fn lemma_bit_clear(x: u64, k: u64, j: u64)
    requires
        k < 64,
        j < 64,
    ensures
        bit(x & !(1u64 << k), j) == (j != k && bit(x, j)),
{
    reveal(bit);
    assert((((x & !(1u64 << k)) >> j) & 1u64 == 1u64) == (j != k && (x >> j) & 1u64 == 1u64))
        by (bit_vector)
        requires
            k < 64,
            j < 64,
    ;
}

pub proof fn lemma_bit_test(x: u64, k: u64)
    requires
        k < 64,
    ensures
        (x & (1u64 << k) != 0) == bit(x, k),
{
    reveal(bit);
    assert((x & (1u64 << k) != 0) == ((x >> k) & 1u64 == 1u64)) by (bit_vector)
        requires
            k < 64,
    ;
}

proof fn lemma_bit_from(x: u64, k: u64, j: u64)
    requires
        k < 64,
        j < 64,
    ensures
        bit(x & (u64::MAX << k), j) == (j >= k && bit(x, j)),
{
    reveal(bit);
    assert((((x & (0xffff_ffff_ffff_ffffu64 << k)) >> j) & 1u64 == 1u64) == (j >= k && (x >> j)
        & 1u64 == 1u64)) by (bit_vector)
        requires
            k < 64,
            j < 64,
    ;
}

proof fn lemma_bit_upto(x: u64, k: u64, j: u64)
    requires
        k < 64,
        j < 64,
    ensures
        bit(x & (u64::MAX >> ((63 - k) as u64)), j) == (j <= k && bit(x, j)),
{
    reveal(bit);
    let s = (63 - k) as u64;
    assert((((x & (0xffff_ffff_ffff_ffffu64 >> s)) >> j) & 1u64 == 1u64) == (j <= k && (x >> j)
        & 1u64 == 1u64)) by (bit_vector)
        requires
            k < 64,
            j < 64,
            s == 63 - k,
    ;
}

pub proof fn lemma_zero_bit(j: u64)
    ensures
        !bit(0, j),
{
    reveal(bit);
    assert((0u64 >> j) & 1u64 == 0u64) by (bit_vector);
}

/// The lowest set bit of a non-zero word.
proof fn lemma_lowest_bit(x: u64)
    requires
        x != 0,
    ensures
        x.trailing_zeros() < 64,
        bit(x, x.trailing_zeros() as u64),
        forall|j: u64| j < x.trailing_zeros() ==> !#[trigger] bit(x, j),
{
    reveal(bit);
    axiom_u64_trailing_zeros(x);
    assert forall|j: u64| j < x.trailing_zeros() implies !#[trigger] bit(x, j) by {
        assert((x >> j) & 1u64 == 0u64);
    }
}

/// The highest set bit of a non-zero word.
proof fn lemma_highest_bit(x: u64)
    requires
        x != 0,
    ensures
        u64_leading_zeros(x) < 64,
        bit(x, (63 - u64_leading_zeros(x)) as u64),
        forall|j: u64| 63 - u64_leading_zeros(x) < j < 64 ==> !#[trigger] bit(x, j),
{
    reveal(bit);
    axiom_u64_leading_zeros(x);
    let t = (63 - u64_leading_zeros(x)) as u64;
    assert((x >> t) & 1u64 == 1u64) by {
        let y = x >> t;
        assert(y & 1u64 != 0 ==> y & 1u64 == 1u64) by (bit_vector);
    }
    assert forall|j: u64| 63 - u64_leading_zeros(x) < j < 64 implies !#[trigger] bit(x, j) by {
        assert((x >> j) & 1u64 == 0u64);
    }
}

/// The ring position of a tick, counted from that of an earlier one less than
/// a lap behind.
proof fn lemma_ring(from: int, u: int)
    requires
        0 <= from <= u < from + 8192,
    ensures
        u % 8192 == if from % 8192 + (u - from) < 8192 {
            from % 8192 + (u - from)
        } else {
            from % 8192 + (u - from) - 8192
        },
{
}

proof fn lemma_position(tick: u32)
    ensures
        (tick & WINDOW_MASK) == tick % 8192,
        (tick & WINDOW_MASK) < 8192,
{
    assert(tick & 8191 == tick % 8192) by (bit_vector);
}

proof fn lemma_split(p: usize)
    requires
        p <= 8192,
    ensures
        p >> 6 == p / 64,
        p & 63 == p % 64,
{
    assert(p >> 6 == p / 64) by (bit_vector);
    assert(p & 63 == p % 64) by (bit_vector);
}

proof fn lemma_word_base(w: usize)
    requires
        w <= 128,
    ensures
        w << 6 == w * 64,
{
    assert(w << 6 == w * 64) by (bit_vector)
        requires
            w <= 128,
    ;
}

/// Two-level occupancy bitmap: 128 leaf words of 64 bits, one bit per ring
/// slot, plus a two-word summary whose bit `w` says "leaf word `w` is not
/// zero". Slot order is not tick order: the window starts at the slot of its
/// anchor and wraps around the end of the array at most once, so a scan in
/// tick order covers up to two slot segments.
#[derive(Clone, Copy)]
pub struct Bitmap {
    pub summary: [u64; 2],
    pub leaves: [u64; 128],
}

impl Bitmap {
    /// Whether slot `p` is occupied.
    pub open spec fn has(self, p: int) -> bool {
        0 <= p < 8192 && bit(self.leaves@[p / 64], (p % 64) as u64)
    }

    /// The summary agrees with the leaves.
    pub open spec fn wf(self) -> bool {
        forall|w: int|
            0 <= w < 128 ==> (bit(self.summary@[w / 64], (w % 64) as u64) <==> #[trigger] self.leaves@[w]
                != 0)
    }

    /// Whether `tick` is occupied.
    pub open spec fn at(self, tick: int) -> bool {
        self.has(tick % 8192)
    }

    fn leaf(&self, w: usize) -> (r: u64)
        requires
            w < 128,
        ensures
            r == self.leaves@[w as int],
    {
        self.leaves[w]
    }

    fn set_leaf(&mut self, w: usize, v: u64)
        requires
            w < 128,
        ensures
            final(self).leaves@ == old(self).leaves@.update(w as int, v),
            final(self).summary == old(self).summary,
    {
        self.leaves[w] = v;
    }

    fn summary_word(&self, s: usize) -> (r: u64)
        requires
            s < 2,
        ensures
            r == self.summary@[s as int],
    {
        self.summary[s]
    }

    fn set_summary_word(&mut self, s: usize, v: u64)
        requires
            s < 2,
        ensures
            final(self).summary@ == old(self).summary@.update(s as int, v),
            final(self).leaves == old(self).leaves,
    {
        self.summary[s] = v;
    }

    /// A bitmap with every slot free.
    pub fn empty() -> (r: Self)
        ensures
            r.wf(),
            forall|p: int| !r.has(p),
    {
        let r = Bitmap { summary: [0; 2], leaves: [0; 128] };
        proof {
            assert forall|p: int| !r.has(p) by {
                lemma_zero_bit((p % 64) as u64);
            }
            assert forall|w: int| 0 <= w < 128 implies (bit(r.summary@[w / 64], (w % 64) as u64)
                <==> #[trigger] r.leaves@[w] != 0) by {
                lemma_zero_bit((w % 64) as u64);
            }
        }
        r
    }

    /// Whether `tick` is occupied.
    pub fn get(&self, tick: u32) -> (r: bool)
        ensures
            r == self.has(slot_of(tick)),
    {
        proof {
            lemma_position(tick);
        }
        let pos: usize = (tick & WINDOW_MASK) as usize;
        proof {
            lemma_split(pos);
            lemma_bit_test(self.leaves@[pos as int / 64], (pos % 64) as u64);
        }
        self.leaf(pos >> 6) & (1u64 << (pos & 63)) != 0
    }

    /// Mark `tick` occupied.
    pub fn set(&mut self, tick: u32)
        requires
            old(self).wf(),
        ensures
            final(self).wf(),
            forall|p: int| final(self).has(p) == (p == slot_of(tick) || old(self).has(p)),
    {
        proof {
            lemma_position(tick);
        }
        let pos: usize = (tick & WINDOW_MASK) as usize;
        proof {
            lemma_split(pos);
        }
        let w: usize = pos >> 6;
        let leaf: u64 = self.leaf(w) | (1u64 << (pos & 63));
        self.set_leaf(w, leaf);
        proof {
            lemma_split(w);
        }
        let s: usize = w >> 6;
        let sum: u64 = self.summary_word(s) | (1u64 << (w & 63));
        self.set_summary_word(s, sum);
        proof {
            let k = (pos % 64) as u64;
            assert forall|p: int| self.has(p) == (p == pos || old(self).has(p)) by {
                if 0 <= p < 8192 && p / 64 == w {
                    lemma_bit_set(old(self).leaves@[w as int], k, (p % 64) as u64);
                }
            }
            assert(leaf != 0) by {
                lemma_bit_set(old(self).leaves@[w as int], k, k);
                lemma_zero_bit(k);
            }
            assert forall|v: int| 0 <= v < 128 implies (bit(self.summary@[v / 64], (v % 64) as u64)
                <==> #[trigger] self.leaves@[v] != 0) by {
                assert(bit(old(self).summary@[v / 64], (v % 64) as u64) <==> old(self).leaves@[v]
                    != 0);
                if v / 64 == s {
                    lemma_bit_set(
                        old(self).summary@[s as int],
                        (w % 64) as u64,
                        (v % 64) as u64,
                    );
                }
            }
        }
    }

    /// Mark `tick` free.
    pub fn clear(&mut self, tick: u32)
        requires
            old(self).wf(),
        ensures
            final(self).wf(),
            forall|p: int| final(self).has(p) == (p != slot_of(tick) && old(self).has(p)),
    {
        proof {
            lemma_position(tick);
        }
        let pos: usize = (tick & WINDOW_MASK) as usize;
        proof {
            lemma_split(pos);
        }
        let w: usize = pos >> 6;
        let leaf: u64 = self.leaf(w) & !(1u64 << (pos & 63));
        self.set_leaf(w, leaf);
        proof {
            lemma_split(w);
        }
        if leaf == 0 {
            let s: usize = w >> 6;
            let sum: u64 = self.summary_word(s) & !(1u64 << (w & 63));
            self.set_summary_word(s, sum);
        }
        proof {
            let s = w / 64;
            let k = (pos % 64) as u64;
            assert forall|p: int| self.has(p) == (p != pos && old(self).has(p)) by {
                if 0 <= p < 8192 && p / 64 == w {
                    lemma_bit_clear(old(self).leaves@[w as int], k, (p % 64) as u64);
                }
            }
            if leaf != 0 {
                lemma_lowest_bit(leaf);
                let j = leaf.trailing_zeros() as u64;
                lemma_bit_clear(old(self).leaves@[w as int], k, j);
                lemma_zero_bit(j);
                assert(old(self).leaves@[w as int] != 0);
            }
            assert forall|v: int| 0 <= v < 128 implies (bit(self.summary@[v / 64], (v % 64) as u64)
                <==> #[trigger] self.leaves@[v] != 0) by {
                assert(bit(old(self).summary@[v / 64], (v % 64) as u64) <==> old(self).leaves@[v]
                    != 0);
                if v / 64 == s {
                    lemma_bit_clear(
                        old(self).summary@[s as int],
                        (w % 64) as u64,
                        (v % 64) as u64,
                    );
                }
            }
        }
    }

    /// Lowest occupied slot in `[from, to)`.
    fn scan_up(&self, from: usize, to: usize) -> (r: Option<usize>)
        requires
            self.wf(),
            from <= 8192,
            to <= 8192,
        ensures
            match r {
                Some(p) => from <= p < to && self.has(p as int) && forall|q: int|
                    from <= q < p ==> !self.has(q),
                None => forall|q: int| from <= q < to ==> !self.has(q),
            },
    {
        if from >= to {
            return None;
        }
        proof {
            lemma_split(from);
            lemma_split((to - 1) as usize);
            lemma_word_base((from / 64) as usize);
        }
        let first_word: usize = from >> 6;
        let m: u64 = self.leaf(first_word) & (u64::MAX << (from & 63));
        proof {
            assert forall|q: int| from <= q < first_word * 64 + 64 implies self.has(q) == bit(
                m,
                (q % 64) as u64,
            ) by {
                lemma_bit_from(
                    self.leaves@[first_word as int],
                    (from % 64) as u64,
                    (q % 64) as u64,
                );
            }
        }
        if m != 0 {
            proof {
                lemma_lowest_bit(m);
                let t = m.trailing_zeros() as u64;
                lemma_bit_from(self.leaves@[first_word as int], (from % 64) as u64, t);
            }
            let p: usize = (first_word << 6) + m.trailing_zeros() as usize;
            return if p < to {
                Some(p)
            } else {
                None
            };
        }
        proof {
            assert forall|q: int| from <= q < first_word * 64 + 64 implies !self.has(q) by {
                lemma_zero_bit((q % 64) as u64);
            }
        }
        let last_word: usize = (to - 1) >> 6;
        let mut w: usize = first_word + 1;
        while w <= last_word
            invariant
                self.wf(),
                to <= 8192,
                last_word == (to - 1) / 64,
                last_word < 128,
                w <= 128,
                from < w * 64,
                forall|q: int| from <= q < w * 64 ==> !self.has(q),
            decreases 256 - w,
        {
            proof {
                lemma_split(w);
                lemma_word_base((w / 64) as usize);
                lemma_word_base((w / 64 + 1) as usize);
            }
            let s: usize = w >> 6;
            let sm: u64 = self.summary_word(s) & (u64::MAX << (w & 63));
            proof {
                assert forall|v: int| w <= v < s * 64 + 64 implies (self.leaves@[v] != 0) == bit(
                    sm,
                    (v % 64) as u64,
                ) by {
                    lemma_bit_from(self.summary@[s as int], (w % 64) as u64, (v % 64) as u64);
                }
            }
            if sm == 0 {
                proof {
                    assert forall|q: int| from <= q < (s * 64 + 64) * 64 implies !self.has(q) by {
                        lemma_zero_bit(((q / 64) % 64) as u64);
                        lemma_zero_bit((q % 64) as u64);
                        if q >= w * 64 && q < 8192 {
                            assert(self.leaves@[q / 64] == 0);
                        }
                    }
                }
                w = (s + 1) << 6;
                continue;
            }
            proof {
                lemma_lowest_bit(sm);
                let t = sm.trailing_zeros() as u64;
                lemma_bit_from(self.summary@[s as int], (w % 64) as u64, t);
            }
            let cand: usize = (s << 6) + sm.trailing_zeros() as usize;
            proof {
                assert((cand as int) % 64 == sm.trailing_zeros());
                assert(self.leaves@[cand as int] != 0);
                assert forall|q: int| from <= q < cand * 64 implies !self.has(q) by {
                    lemma_zero_bit((q % 64) as u64);
                    if q >= w * 64 {
                        assert(w <= q / 64 < cand);
                        assert(self.leaves@[q / 64] == 0);
                    }
                }
            }
            if cand > last_word {
                return None;
            }
            proof {
                lemma_word_base(cand);
                lemma_lowest_bit(self.leaves@[cand as int]);
            }
            let p: usize = (cand << 6) + self.leaf(cand).trailing_zeros() as usize;
            proof {
                assert(self.has(p as int));
                assert forall|q: int| from <= q < p implies !self.has(q) by {
                    if q >= cand * 64 {
                        assert(q / 64 == cand);
                        assert(!bit(self.leaves@[cand as int], (q % 64) as u64));
                    }
                }
            }
            return if p < to {
                Some(p)
            } else {
                None
            };
        }
        None
    }

    /// Highest occupied slot in `[down_to, from]`.
    fn scan_down(&self, from: usize, down_to: usize) -> (r: Option<usize>)
        requires
            self.wf(),
            down_to <= from < 8192,
        ensures
            match r {
                Some(p) => down_to <= p <= from && self.has(p as int) && forall|q: int|
                    p < q <= from ==> !self.has(q),
                None => forall|q: int| down_to <= q <= from ==> !self.has(q),
            },
    {
        proof {
            lemma_split(from);
            lemma_split(down_to);
            lemma_word_base((from / 64) as usize);
        }
        let first_word: usize = from >> 6;
        let m: u64 = self.leaf(first_word) & (u64::MAX >> (63 - (from & 63)));
        proof {
            assert forall|q: int| first_word * 64 <= q <= from implies self.has(q) == bit(
                m,
                (q % 64) as u64,
            ) by {
                lemma_bit_upto(
                    self.leaves@[first_word as int],
                    (from % 64) as u64,
                    (q % 64) as u64,
                );
            }
        }
        if m != 0 {
            proof {
                lemma_highest_bit(m);
                let t = (63 - u64_leading_zeros(m)) as u64;
                lemma_bit_upto(self.leaves@[first_word as int], (from % 64) as u64, t);
            }
            let p: usize = (first_word << 6) + 63 - m.leading_zeros() as usize;
            return if p >= down_to {
                Some(p)
            } else {
                None
            };
        }
        proof {
            assert forall|q: int| first_word * 64 <= q <= from implies !self.has(q) by {
                lemma_zero_bit((q % 64) as u64);
            }
        }
        if first_word == 0 {
            return None;
        }
        let down_word: usize = down_to >> 6;
        let mut w: usize = first_word - 1;
        loop
            invariant
                self.wf(),
                down_to <= from < 8192,
                down_word == down_to / 64,
                w < 128,
                w * 64 + 64 <= from,
                forall|q: int| w * 64 + 64 <= q <= from ==> !self.has(q),
            decreases w,
        {
            proof {
                lemma_split(w);
                lemma_word_base((w / 64) as usize);
            }
            let s: usize = w >> 6;
            let sm: u64 = self.summary_word(s) & (u64::MAX >> (63 - (w & 63)));
            proof {
                assert forall|v: int| s * 64 <= v <= w implies (self.leaves@[v] != 0) == bit(
                    sm,
                    (v % 64) as u64,
                ) by {
                    lemma_bit_upto(self.summary@[s as int], (w % 64) as u64, (v % 64) as u64);
                }
            }
            if sm == 0 {
                proof {
                    assert forall|q: int| s * 64 * 64 <= q <= from implies !self.has(q) by {
                        lemma_zero_bit(((q / 64) % 64) as u64);
                        lemma_zero_bit((q % 64) as u64);
                        if q < w * 64 + 64 {
                            assert(self.leaves@[q / 64] == 0);
                        }
                    }
                }
                if s == 0 {
                    return None;
                }
                // Step to the last leaf word of the previous summary group.
                w = (s << 6) - 1;
                if w < down_word {
                    return None;
                }
                continue;
            }
            proof {
                lemma_highest_bit(sm);
                let t = (63 - u64_leading_zeros(sm)) as u64;
                lemma_bit_upto(self.summary@[s as int], (w % 64) as u64, t);
            }
            let cand: usize = (s << 6) + 63 - sm.leading_zeros() as usize;
            proof {
                assert((cand as int) % 64 == 63 - u64_leading_zeros(sm));
                assert(self.leaves@[cand as int] != 0);
                assert forall|q: int| cand * 64 + 64 <= q <= from implies !self.has(q) by {
                    lemma_zero_bit((q % 64) as u64);
                    if q < w * 64 + 64 {
                        assert(cand < q / 64 <= w);
                        assert(self.leaves@[q / 64] == 0);
                    }
                }
            }
            if cand < down_word {
                return None;
            }
            proof {
                lemma_word_base(cand);
                lemma_highest_bit(self.leaves@[cand as int]);
            }
            let p: usize = (cand << 6) + 63 - self.leaf(cand).leading_zeros() as usize;
            proof {
                assert(p / 64 == cand);
                assert(self.has(p as int));
                assert forall|q: int| p < q <= from implies !self.has(q) by {
                    if q < cand * 64 + 64 {
                        assert(q / 64 == cand);
                        assert(!bit(self.leaves@[cand as int], (q % 64) as u64));
                    }
                }
            }
            return if p >= down_to {
                Some(p)
            } else {
                None
            };
        }
    }

    /// Lowest occupied tick at or above `from` in the window that starts at
    /// `anchor`.
    #[verifier::rlimit(30)]
    pub fn next_at_or_after(&self, anchor: u32, from: u32) -> (r: Option<u32>)
        requires
            self.wf(),
            anchor <= from <= anchor + 8191 <= u32::MAX,
        ensures
            match r {
                Some(t) => from <= t <= anchor + 8191 && self.at(t as int) && forall|u: int|
                    from <= u < t ==> !self.at(u),
                None => forall|u: int| from <= u <= anchor + 8191 ==> !self.at(u),
            },
    {
        proof {
            lemma_position(from);
        }
        let rel: u32 = from.wrapping_sub(anchor);
        let start_pos: usize = (from & WINDOW_MASK) as usize;
        let count: usize = WINDOW_TICKS - rel as usize;
        let seg_end: usize = if WINDOW_TICKS <= start_pos + count {
            WINDOW_TICKS
        } else {
            start_pos + count
        };
        if let Some(p) = self.scan_up(start_pos, seg_end) {
            proof {
                assert forall|u: int| from <= u < from + (p - start_pos) implies !self.at(u) by {
                    lemma_ring(from as int, u);
                }
                lemma_ring(from as int, from + (p - start_pos));
            }
            return Some(from + (p - start_pos) as u32);
        }
        proof {
            assert forall|u: int| from <= u < from + (seg_end - start_pos) implies !self.at(u) by {
                lemma_ring(from as int, u);
            }
        }
        let remaining: usize = count - (seg_end - start_pos);
        if remaining > 0 {
            if let Some(p) = self.scan_up(0, remaining) {
                proof {
                    assert forall|u: int|
                        from + (seg_end - start_pos) <= u < from + (seg_end - start_pos)
                            + p implies !self.at(u) by {
                        lemma_ring(from as int, u);
                    }
                    lemma_ring(from as int, from + (seg_end - start_pos) + p);
                }
                return Some(from + (seg_end - start_pos) as u32 + p as u32);
            }
            proof {
                assert forall|u: int|
                    from + (seg_end - start_pos) <= u <= anchor + 8191 implies !self.at(u) by {
                    lemma_ring(from as int, u);
                }
            }
        }
        None
    }

    /// Highest occupied tick at or below `from` in the window that starts at
    /// `anchor`.
    #[verifier::rlimit(30)]
    pub fn prev_at_or_before(&self, anchor: u32, from: u32) -> (r: Option<u32>)
        requires
            self.wf(),
            anchor <= from <= anchor + 8191,
        ensures
            match r {
                Some(t) => anchor <= t <= from && self.at(t as int) && forall|u: int|
                    t < u <= from ==> !self.at(u),
                None => forall|u: int| anchor <= u <= from ==> !self.at(u),
            },
    {
        proof {
            lemma_position(from);
        }
        let rel: u32 = from.wrapping_sub(anchor);
        let start_pos: usize = (from & WINDOW_MASK) as usize;
        let count: usize = rel as usize + 1;
        let seg_start: usize = start_pos + 1 - (if count <= start_pos + 1 {
            count
        } else {
            start_pos + 1
        });
        if let Some(p) = self.scan_down(start_pos, seg_start) {
            proof {
                assert forall|u: int| from - (start_pos - p) < u <= from implies !self.at(u) by {
                    assert(u % 8192 == start_pos - (from - u));
                }
                assert((from - (start_pos - p)) % 8192 == p);
            }
            return Some(from - (start_pos - p) as u32);
        }
        proof {
            assert forall|u: int| from - (start_pos - seg_start) <= u <= from implies !self.at(
                u,
            ) by {
                assert(u % 8192 == start_pos - (from - u));
            }
        }
        let remaining: usize = count - (start_pos + 1 - seg_start);
        if remaining > 0 {
            if let Some(p) = self.scan_down(WINDOW_TICKS - 1, WINDOW_TICKS - remaining) {
                proof {
                    assert forall|u: int|
                        from - (start_pos + 1) - (8191 - p) < u <= from - (start_pos
                            + 1) implies !self.at(u) by {
                        assert(u % 8192 == 8191 - (from - (start_pos + 1) - u));
                    }
                    assert((from - (start_pos + 1) - (8191 - p)) % 8192 == p);
                }
                return Some(from - (start_pos + 1) as u32 - (WINDOW_TICKS - 1 - p) as u32);
            }
            proof {
                assert forall|u: int| anchor <= u <= from - (start_pos + 1) implies !self.at(u) by {
                    assert(u % 8192 == 8191 - (from - (start_pos + 1) - u));
                }
            }
        }
        None
    }

    /// Lowest occupied tick of the window: the best ask.
    pub fn lowest(&self, anchor: u32) -> (r: Option<u32>)
        requires
            self.wf(),
            anchor + 8191 <= u32::MAX,
        ensures
            match r {
                Some(t) => anchor <= t <= anchor + 8191 && self.at(t as int) && forall|u: int|
                    anchor <= u < t ==> !self.at(u),
                None => forall|u: int| anchor <= u <= anchor + 8191 ==> !self.at(u),
            },
    {
        self.next_at_or_after(anchor, anchor)
    }

    /// Highest occupied tick of the window: the best bid.
    pub fn highest(&self, anchor: u32) -> (r: Option<u32>)
        requires
            self.wf(),
            anchor + 8191 <= u32::MAX,
        ensures
            match r {
                Some(t) => anchor <= t <= anchor + 8191 && self.at(t as int) && forall|u: int|
                    t < u <= anchor + 8191 ==> !self.at(u),
                None => forall|u: int| anchor <= u <= anchor + 8191 ==> !self.at(u),
            },
    {
        self.prev_at_or_before(anchor, anchor + WINDOW_MASK)
    }

    /// Whether the 64-slot word that holds `tick_base` has no occupied slot.
    /// Lets a window move skip a whole vacated word with one load.
    pub fn word_empty(&self, tick_base: u32) -> (r: bool)
        ensures
            r <==> forall|p: int|
                slot_of(tick_base) / 64 * 64 <= p < slot_of(tick_base) / 64 * 64 + 64
                    ==> !self.has(p),
    {
        proof {
            lemma_position(tick_base);
            lemma_split((tick_base % 8192) as usize);
        }
        let w: usize = ((tick_base & WINDOW_MASK) as usize) >> 6;
        let leaf: u64 = self.leaf(w);
        proof {
            if leaf == 0 {
                assert forall|p: int| w * 64 <= p < w * 64 + 64 implies !self.has(p) by {
                    lemma_zero_bit((p % 64) as u64);
                }
            } else {
                lemma_lowest_bit(leaf);
                let p = w * 64 + leaf.trailing_zeros();
                assert(p / 64 == w && p % 64 == leaf.trailing_zeros());
                assert(self.has(p));
            }
        }
        leaf == 0
    }
}

/// Words with the same bits are equal.
proof fn lemma_same_word(a: u64, b: u64)
    requires
        forall|k: u64| k < 64 ==> #[trigger] bit(a, k) == bit(b, k),
    ensures
        a == b,
{
    let x = a ^ b;
    if x != 0 {
        lemma_lowest_bit(x);
        let k = x.trailing_zeros() as u64;
        assert(bit(a, k) == bit(b, k));
        reveal(bit);
        assert(((a >> k) & 1u64 == 1u64) == ((b >> k) & 1u64 == 1u64) ==> ((a ^ b) >> k) & 1u64
            != 1u64) by (bit_vector);
    }
    assert(a ^ b == 0u64 ==> a == b) by (bit_vector);
}

/// Occupancy fixes a bitmap: its leaves hold nothing else, and its summary
/// follows from them.
pub proof fn lemma_same_bitmap(a: Bitmap, b: Bitmap)
    requires
        a.wf(),
        b.wf(),
        forall|p: int| 0 <= p < 8192 ==> #[trigger] a.has(p) == b.has(p),
    ensures
        a == b,
{
    assert forall|w: int| 0 <= w < 128 implies a.leaves@[w] == b.leaves@[w] by {
        assert forall|k: u64| k < 64 implies #[trigger] bit(a.leaves@[w], k) == bit(
            b.leaves@[w],
            k,
        ) by {
            let p = w * 64 + k;
            assert(p / 64 == w && p % 64 == k);
            assert(a.has(p) == b.has(p));
        }
        lemma_same_word(a.leaves@[w], b.leaves@[w]);
    }
    assert forall|h: int| 0 <= h < 2 implies a.summary@[h] == b.summary@[h] by {
        assert forall|k: u64| k < 64 implies #[trigger] bit(a.summary@[h], k) == bit(
            b.summary@[h],
            k,
        ) by {
            let w = h * 64 + k;
            assert(w / 64 == h && w % 64 == k);
            assert(a.leaves@[w] == b.leaves@[w]);
        }
        lemma_same_word(a.summary@[h], b.summary@[h]);
    }
    assert(a.leaves =~= b.leaves);
    assert(a.summary =~= b.summary);
}

} // verus!
