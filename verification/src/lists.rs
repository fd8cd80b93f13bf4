//! Doubly linked lists threaded through the order pool, and sums along them.

use crate::node::OrderNode;
use vstd::prelude::*;

verus! {

/// Node at position `k` of `q`, or the null index past either end.
pub open spec fn at(q: Seq<u16>, k: int) -> u16 {
    if 0 <= k < q.len() {
        q[k]
    } else {
        0
    }
}

/// Forward link of node `i`: the seat chain's when `chain`, else the level
/// queue's.
pub open spec fn fwd(p: Seq<OrderNode>, chain: bool, i: u16) -> u16 {
    if chain {
        p[i as int].maker_next
    } else {
        p[i as int].next
    }
}

/// Backward link of node `i`.
pub open spec fn back(p: Seq<OrderNode>, chain: bool, i: u16) -> u16 {
    if chain {
        p[i as int].maker_prev
    } else {
        p[i as int].prev
    }
}

/// `q` is a list without repetition of pool indices other than 0.
pub open spec fn in_pool(p: Seq<OrderNode>, q: Seq<u16>) -> bool {
    &&& q.no_duplicates()
    &&& forall|k: int| 0 <= k < q.len() ==> 0 < #[trigger] q[k] < p.len()
}

/// The pool threads `q` in order through the links of one kind.
pub open spec fn threads(p: Seq<OrderNode>, chain: bool, q: Seq<u16>) -> bool {
    &&& in_pool(p, q)
    &&& forall|k: int|
        #![trigger q[k]]
        0 <= k < q.len() ==> fwd(p, chain, q[k]) == at(q, k + 1) && back(p, chain, q[k]) == at(
            q,
            k - 1,
        )
}

/// `q` without `i`.
pub open spec fn without(q: Seq<u16>, i: u16) -> Seq<u16> {
    q.remove(q.index_of(i))
}

/// Total of `f` over `q`.
pub open spec fn total(q: Seq<u16>, f: spec_fn(u16) -> int) -> int
    decreases q.len(),
{
    if q.len() == 0 {
        0
    } else {
        total(q.drop_last(), f) + f(q.last())
    }
}

pub proof fn lemma_index_of(q: Seq<u16>, i: u16, k: int)
    requires
        q.no_duplicates(),
        0 <= k < q.len(),
        q[k] == i,
    ensures
        q.contains(i),
        q.index_of(i) == k,
{
}

/// What `without` keeps.
pub proof fn lemma_without(q: Seq<u16>, i: u16)
    requires
        q.no_duplicates(),
        q.contains(i),
    ensures
        without(q, i).no_duplicates(),
        without(q, i).len() == q.len() - 1,
        !without(q, i).contains(i),
        forall|j: u16| #[trigger] without(q, i).contains(j) <==> (j != i && q.contains(j)),
{
    let k = q.index_of(i);
    let r = without(q, i);
    assert forall|j: u16| #[trigger] r.contains(j) <==> (j != i && q.contains(j)) by {
        if r.contains(j) {
            let m = r.index_of(j);
            let n = if m < k {
                m
            } else {
                m + 1
            };
            assert(r[m] == q[n]);
        }
        if j != i && q.contains(j) {
            let n = q.index_of(j);
            let m = if n < k {
                n
            } else {
                n - 1
            };
            assert(r[m] == q[n]);
        }
    }
}

/// What inserting a new element keeps.
pub proof fn lemma_inserted(q: Seq<u16>, k: int, i: u16)
    requires
        q.no_duplicates(),
        !q.contains(i),
        0 <= k <= q.len(),
    ensures
        q.insert(k, i).no_duplicates(),
        q.insert(k, i).len() == q.len() + 1,
        forall|j: u16| #[trigger] q.insert(k, i).contains(j) <==> (j == i || q.contains(j)),
{
    let r = q.insert(k, i);
    assert(forall|m: int| 0 <= m < k ==> r[m] == q[m]);
    assert(r[k] == i);
    assert(forall|m: int| k < m < r.len() ==> r[m] == q[m - 1]);
    assert forall|j: u16| #[trigger] r.contains(j) <==> (j == i || q.contains(j)) by {
        if q.contains(j) {
            let n = q.index_of(j);
            let m = if n < k {
                n
            } else {
                n + 1
            };
            assert(r[m] == q[n]);
        }
    }
}

/// Unlinking the node at position `k` leaves the list without it.
pub proof fn lemma_unlink(
    p: Seq<OrderNode>,
    p2: Seq<OrderNode>,
    chain: bool,
    q: Seq<u16>,
    k: int,
)
    requires
        threads(p, chain, q),
        0 <= k < q.len(),
        p2.len() == p.len(),
        forall|j: int|
            #![trigger q[j]]
            0 <= j < q.len() && j != k ==> fwd(p2, chain, q[j]) == (if j == k - 1 {
                at(q, k + 1)
            } else {
                fwd(p, chain, q[j])
            }) && back(p2, chain, q[j]) == (if j == k + 1 {
                at(q, k - 1)
            } else {
                back(p, chain, q[j])
            }),
    ensures
        threads(p2, chain, without(q, q[k])),
        without(q, q[k]) == q.remove(k),
{
    lemma_index_of(q, q[k], k);
    lemma_without(q, q[k]);
    let r = q.remove(k);
    assert forall|m: int| 0 <= m < r.len() implies 0 < #[trigger] r[m] < p2.len() && fwd(
        p2,
        chain,
        r[m],
    ) == at(r, m + 1) && back(p2, chain, r[m]) == at(r, m - 1) by {
        let n = if m < k {
            m
        } else {
            m + 1
        };
        assert(r[m] == q[n]);
    }
}

/// Linking node `i` in at position `k` yields the longer list.
pub proof fn lemma_link(
    p: Seq<OrderNode>,
    p2: Seq<OrderNode>,
    chain: bool,
    q: Seq<u16>,
    k: int,
    i: u16,
)
    requires
        threads(p, chain, q),
        0 <= k <= q.len(),
        !q.contains(i),
        0 < i < p.len(),
        p2.len() == p.len(),
        fwd(p2, chain, i) == at(q, k),
        back(p2, chain, i) == at(q, k - 1),
        forall|j: int|
            #![trigger q[j]]
            0 <= j < q.len() ==> fwd(p2, chain, q[j]) == (if j == k - 1 {
                i
            } else {
                fwd(p, chain, q[j])
            }) && back(p2, chain, q[j]) == (if j == k {
                i
            } else {
                back(p, chain, q[j])
            }),
    ensures
        threads(p2, chain, q.insert(k, i)),
{
    lemma_inserted(q, k, i);
    let r = q.insert(k, i);
    assert forall|m: int| 0 <= m < r.len() implies 0 < #[trigger] r[m] < p2.len() && fwd(
        p2,
        chain,
        r[m],
    ) == at(r, m + 1) && back(p2, chain, r[m]) == at(r, m - 1) by {
        if m != k {
            let n = if m < k {
                m
            } else {
                m - 1
            };
            assert(r[m] == q[n]);
        }
    }
}

pub proof fn lemma_threads_frame(p: Seq<OrderNode>, p2: Seq<OrderNode>, chain: bool, q: Seq<u16>)
    requires
        threads(p, chain, q),
        p2.len() == p.len(),
        forall|k: int|
            #![trigger q[k]]
            0 <= k < q.len() ==> fwd(p2, chain, q[k]) == fwd(p, chain, q[k]) && back(
                p2,
                chain,
                q[k],
            ) == back(p, chain, q[k]),
    ensures
        threads(p2, chain, q),
{
}

pub proof fn lemma_total_agree(q: Seq<u16>, f: spec_fn(u16) -> int, g: spec_fn(u16) -> int)
    requires
        forall|k: int| 0 <= k < q.len() ==> f(#[trigger] q[k]) == g(q[k]),
    ensures
        total(q, f) == total(q, g),
    decreases q.len(),
{
    if q.len() > 0 {
        assert(q.last() == q[q.len() - 1]);
        assert forall|k: int| 0 <= k < q.drop_last().len() implies f(
            #[trigger] q.drop_last()[k],
        ) == g(q.drop_last()[k]) by {
            assert(q.drop_last()[k] == q[k]);
        }
        lemma_total_agree(q.drop_last(), f, g);
    }
}

pub proof fn lemma_total_remove(q: Seq<u16>, k: int, f: spec_fn(u16) -> int)
    requires
        0 <= k < q.len(),
    ensures
        total(q.remove(k), f) == total(q, f) - f(q[k]),
    decreases q.len(),
{
    if k == q.len() - 1 {
        assert(q.remove(k) =~= q.drop_last());
    } else {
        lemma_total_remove(q.drop_last(), k, f);
        assert(q.remove(k).drop_last() =~= q.drop_last().remove(k));
        assert(q.remove(k).last() == q.last());
    }
}

pub proof fn lemma_total_insert(q: Seq<u16>, k: int, i: u16, f: spec_fn(u16) -> int)
    requires
        0 <= k <= q.len(),
    ensures
        total(q.insert(k, i), f) == total(q, f) + f(i),
{
    let r = q.insert(k, i);
    lemma_total_remove(r, k, f);
    assert(r.remove(k) =~= q);
}

/// A total of bounded non-negative terms.
pub proof fn lemma_total_bound(q: Seq<u16>, f: spec_fn(u16) -> int, c: int)
    requires
        forall|k: int| 0 <= k < q.len() ==> 0 <= f(#[trigger] q[k]) <= c,
        c >= 0,
    ensures
        0 <= total(q, f) <= q.len() * c,
        forall|k: int| 0 <= k < q.len() ==> f(#[trigger] q[k]) <= total(q, f),
    decreases q.len(),
{
    if q.len() > 0 {
        let r = q.drop_last();
        assert forall|k: int| 0 <= k < r.len() implies 0 <= f(#[trigger] r[k]) <= c by {
            assert(r[k] == q[k]);
        }
        lemma_total_bound(r, f, c);
        assert(q.last() == q[q.len() - 1]);
        assert(q.len() * c == (q.len() - 1) * c + c) by (nonlinear_arith);
        assert forall|k: int| 0 <= k < q.len() implies f(#[trigger] q[k]) <= total(q, f) by {
            if k < r.len() {
                assert(r[k] == q[k]);
            }
        }
    } else {
        assert(q.len() * c == 0) by (nonlinear_arith)
            requires
                q.len() == 0,
        ;
    }
}

/// A list of distinct pool indices is shorter than the pool.
pub proof fn lemma_in_pool_len(p: Seq<OrderNode>, q: Seq<u16>)
    requires
        in_pool(p, q),
    ensures
        q.len() <= 65535,
        q.len() < p.len() || q.len() == 0,
{
    let top: int = if p.len() < 65536 {
        if p.len() == 0 {
            1
        } else {
            p.len() as int
        }
    } else {
        65536
    };
    let m = q.map_values(|x: u16| x as int);
    assert(m.no_duplicates()) by {
        assert forall|a: int, b: int| 0 <= a < m.len() && 0 <= b < m.len() && a != b implies m[a]
            != m[b] by {
            assert(m[a] == q[a] as int);
            assert(m[b] == q[b] as int);
            assert(q[a] != q[b]);
        }
    }
    m.unique_seq_to_set();
    vstd::set_lib::lemma_int_range(1, top);
    assert(m.to_set().subset_of(vstd::set_lib::set_int_range(1, top))) by {
        assert forall|x: int| m.to_set().contains(x) implies 1 <= x < top by {
            let k = m.index_of(x);
            assert(m[k] == q[k] as int);
            assert(0 < q[k] < p.len());
        }
    }
    vstd::set_lib::lemma_len_subset(m.to_set(), vstd::set_lib::set_int_range(1, top));
}

} // verus!
