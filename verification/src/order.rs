//! Stable ordering by key.
//!
//! Sorting a sequence stably by a key puts element `a` before element `b`
//! exactly when `a`'s key is smaller, or the keys are equal and `a` came
//! first. That order is computed here as a permutation of indices.
use vstd::prelude::*;

verus! {

/// Key `(major, minor)` of index `a` with the index as the last tie-breaker
/// is strictly smaller than that of index `b`.
pub open spec fn precedes(keys: Seq<(usize, i64)>, a: int, b: int) -> bool {
    let ka = keys[a];
    let kb = keys[b];
    ||| ka.0 < kb.0
    ||| ka.0 == kb.0 && ka.1 < kb.1
    ||| ka.0 == kb.0 && ka.1 == kb.1 && a < b
}

/// `p` lists every index of `keys` once, in stable key order.
pub open spec fn is_stable_order(keys: Seq<(usize, i64)>, p: Seq<usize>) -> bool {
    &&& p.len() == keys.len()
    &&& forall|k: int| 0 <= k < p.len() ==> #[trigger] p[k] < keys.len()
    &&& forall|k1: int, k2: int|
        0 <= k1 < k2 < p.len() ==> precedes(keys, #[trigger] p[k1] as int, #[trigger] p[k2] as int)
    &&& forall|i: int| 0 <= i < keys.len() ==> #[trigger] p.contains(i as usize)
}

/// The stable order of `keys` (unique: see `lemma_stable_order_unique`).
pub open spec fn stable_order(keys: Seq<(usize, i64)>) -> Seq<usize> {
    choose|p: Seq<usize>| is_stable_order(keys, p)
}

/// The elements of `s` taken in the order of the index list `p`.
pub open spec fn reorder<T>(s: Seq<T>, p: Seq<usize>) -> Seq<T> {
    Seq::new(p.len(), |k: int| s[p[k] as int])
}

/// Two stable orders of the same keys are equal.
pub proof fn lemma_stable_order_unique(keys: Seq<(usize, i64)>, p: Seq<usize>, q: Seq<usize>)
    requires
        is_stable_order(keys, p),
        is_stable_order(keys, q),
    ensures
        p == q,
{
    assert forall|k: int| 0 <= k < p.len() implies p[k] == q[k] by {
        lemma_stable_order_agree_at(keys, p, q, k);
    }
    assert(p =~= q);
}

proof fn lemma_stable_order_agree_at(keys: Seq<(usize, i64)>, p: Seq<usize>, q: Seq<usize>, k: int)
    requires
        is_stable_order(keys, p),
        is_stable_order(keys, q),
        0 <= k < p.len(),
    ensures
        p[k] == q[k],
    decreases k,
{
    assert forall|j: int| 0 <= j < k implies p[j] == q[j] by {
        lemma_stable_order_agree_at(keys, p, q, j);
    }
    if p[k] != q[k] {
        let x = p[k];
        let y = q[k];
        assert(x < keys.len());
        assert(q.contains((x as int) as usize));
        let m = choose|m: int| 0 <= m < q.len() && q[m] == x;
        assert(y < keys.len());
        assert(p.contains((y as int) as usize));
        let mm = choose|mm: int| 0 <= mm < p.len() && p[mm] == y;
        if m < k {
            assert(p[m] == q[m]);
            assert(precedes(keys, p[m] as int, p[k] as int));
        }
        if mm < k {
            assert(p[mm] == q[mm]);
            assert(precedes(keys, q[mm] as int, q[k] as int));
        }
        assert(m > k && mm > k);
        assert(precedes(keys, p[k] as int, p[mm] as int));
        assert(precedes(keys, q[k] as int, q[m] as int));
    }
}

/// A witness order fixes `stable_order`.
pub proof fn lemma_stable_order_is(keys: Seq<(usize, i64)>, p: Seq<usize>)
    requires
        is_stable_order(keys, p),
    ensures
        stable_order(keys) == p,
{
    lemma_stable_order_unique(keys, stable_order(keys), p);
}

/// Whether `(a.0, a.1)` is lexicographically at most `(b.0, b.1)`.
fn key_le(a: (usize, i64), b: (usize, i64)) -> (r: bool)
    ensures
        r == (a.0 < b.0 || (a.0 == b.0 && a.1 <= b.1)),
{
    a.0 < b.0 || (a.0 == b.0 && a.1 <= b.1)
}

/// Indices of `keys` in stable key order (the order a stable sort by this key
/// gives).
pub fn stable_order_of(keys: &Vec<(usize, i64)>) -> (r: Vec<usize>)
    ensures
        is_stable_order(keys@, r@),
        r@ == stable_order(keys@),
{
    let n = keys.len();
    let mut r: Vec<usize> = Vec::new();
    let mut i: usize = 0;
    while i < n
        invariant
            n == keys@.len(),
            i <= n,
            r@.len() == i,
            forall|k: int| 0 <= k < r@.len() ==> #[trigger] r@[k] < i,
            forall|k1: int, k2: int|
                0 <= k1 < k2 < r@.len() ==> precedes(keys@, #[trigger] r@[k1] as int, #[trigger] r@[k2] as int),
            forall|x: int| 0 <= x < i ==> #[trigger] r@.contains(x as usize),
        decreases n - i,
    {
        // first position whose key is strictly greater than that of `i`
        let mut pos: usize = 0;
        while pos < r.len() && key_le(keys[r[pos]], keys[i])
            invariant
                n == keys@.len(),
                i < n,
                r@.len() == i,
                pos <= r@.len(),
                forall|k: int| 0 <= k < r@.len() ==> #[trigger] r@[k] < i,
                forall|k: int| 0 <= k < pos ==> precedes(keys@, #[trigger] r@[k] as int, i as int),
            decreases r.len() - pos,
        {
            pos = pos + 1;
        }
        proof {
            // everything from `pos` on has a key strictly greater than `i`'s
            assert forall|k: int| pos <= k < r@.len() implies precedes(keys@, i as int, #[trigger] r@[k] as int) by {
                if k > pos {
                    assert(precedes(keys@, r@[pos as int] as int, r@[k] as int));
                }
            }
        }
        let ghost old_r = r@;
        r.insert(pos, i);
        proof {
            assert forall|k1: int, k2: int|
                0 <= k1 < k2 < r@.len() implies precedes(keys@, #[trigger] r@[k1] as int, #[trigger] r@[k2] as int) by {
                if k2 < pos {
                    assert(r@[k1] == old_r[k1] && r@[k2] == old_r[k2]);
                } else if k2 == pos {
                    assert(r@[k1] == old_r[k1]);
                } else if k1 < pos {
                    assert(r@[k1] == old_r[k1] && r@[k2] == old_r[k2 - 1]);
                    if k2 - 1 > k1 {
                    }
                } else if k1 == pos {
                    assert(r@[k2] == old_r[k2 - 1]);
                } else {
                    assert(r@[k1] == old_r[k1 - 1] && r@[k2] == old_r[k2 - 1]);
                }
            }
            assert forall|x: int| 0 <= x < i + 1 implies #[trigger] r@.contains(x as usize) by {
                if x == i {
                    assert(r@[pos as int] == i);
                } else {
                    assert(old_r.contains(x as usize));
                    let w = choose|w: int| 0 <= w < old_r.len() && old_r[w] == x as usize;
                    if w < pos {
                        assert(r@[w] == x as usize);
                    } else {
                        assert(r@[w + 1] == x as usize);
                    }
                }
            }
            assert forall|k: int| 0 <= k < r@.len() implies #[trigger] r@[k] < i + 1 by {
                if k < pos {
                    assert(r@[k] == old_r[k]);
                } else if k > pos {
                    assert(r@[k] == old_r[k - 1]);
                }
            }
        }
        i = i + 1;
    }
    proof {
        lemma_stable_order_is(keys@, r@);
    }
    r
}

} // verus!
