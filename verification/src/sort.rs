//! Stable descending ordering of items by a two-part integer key.
//!
//! Every ranking in the optimizer ("best first, earlier first among equals")
//! is computed here as a permutation of positions, so that callers can reorder
//! any kind of item by it.
use vstd::prelude::*;

verus! {

/// `a` ranks strictly above `b`: larger first component, then larger second.
pub open spec fn key_gt(a: (i128, i128), b: (i128, i128)) -> bool {
    a.0 > b.0 || (a.0 == b.0 && a.1 > b.1)
}

/// In a stable descending order of `keys`, position `i` comes before position
/// `j`: its key is larger, or the keys are equal and `i` came first.
pub open spec fn precedes(keys: Seq<(i128, i128)>, i: int, j: int) -> bool {
    key_gt(keys[i], keys[j]) || (keys[i] == keys[j] && i < j)
}

/// `p` lists every position of `keys` once, in stable descending key order.
pub open spec fn is_stable_desc_order(keys: Seq<(i128, i128)>, p: Seq<usize>) -> bool {
    &&& p.len() == keys.len()
    &&& forall|j: int| 0 <= j < p.len() ==> #[trigger] p[j] < keys.len()
    &&& forall|i: usize| i < keys.len() ==> #[trigger] p.contains(i)
    &&& forall|j: int, k: int|
        0 <= j < k < p.len() ==> precedes(keys, #[trigger] p[j] as int, #[trigger] p[k] as int)
}

/// `p` holds positions in `[lo, hi)` in stable descending key order.
pub open spec fn ordered_range(keys: Seq<(i128, i128)>, p: Seq<usize>, lo: int, hi: int) -> bool {
    &&& forall|j: int| 0 <= j < p.len() ==> lo <= #[trigger] p[j] < hi
    &&& forall|j: int, k: int|
        0 <= j < k < p.len() ==> precedes(keys, #[trigger] p[j] as int, #[trigger] p[k] as int)
}

proof fn lemma_precedes_transitive(keys: Seq<(i128, i128)>, x: int, y: int, z: int)
    requires
        precedes(keys, x, y),
        precedes(keys, y, z),
    ensures
        precedes(keys, x, z),
{
}

fn precedes_exec(keys: &Vec<(i128, i128)>, i: usize, j: usize) -> (b: bool)
    requires
        i < keys.len(),
        j < keys.len(),
    ensures
        b == precedes(keys@, i as int, j as int),
{
    let a = keys[i];
    let c = keys[j];
    a.0 > c.0 || (a.0 == c.0 && (a.1 > c.1 || (a.1 == c.1 && i < j)))
}

fn merge(keys: &Vec<(i128, i128)>, a: Vec<usize>, b: Vec<usize>, lo: usize, mid: usize, hi: usize) -> (r: Vec<usize>)
    requires
        lo <= mid <= hi <= keys.len(),
        ordered_range(keys@, a@, lo as int, mid as int),
        ordered_range(keys@, b@, mid as int, hi as int),
    ensures
        r.len() == a.len() + b.len(),
        ordered_range(keys@, r@, lo as int, hi as int),
        forall|t: int| 0 <= t < a.len() ==> r@.contains(#[trigger] a@[t]),
        forall|t: int| 0 <= t < b.len() ==> r@.contains(#[trigger] b@[t]),
{
    let mut r: Vec<usize> = Vec::new();
    let mut i: usize = 0;
    let mut j: usize = 0;
    while i < a.len() || j < b.len()
        invariant
            lo <= mid <= hi <= keys.len(),
            ordered_range(keys@, a@, lo as int, mid as int),
            ordered_range(keys@, b@, mid as int, hi as int),
            i <= a.len(),
            j <= b.len(),
            r.len() == i + j,
            ordered_range(keys@, r@, lo as int, hi as int),
            forall|t: int| 0 <= t < i ==> r@.contains(#[trigger] a@[t]),
            forall|t: int| 0 <= t < j ==> r@.contains(#[trigger] b@[t]),
            forall|k: int, t: int|
                0 <= k < r.len() && i <= t < a.len() ==> precedes(
                    keys@,
                    #[trigger] r@[k] as int,
                    #[trigger] a@[t] as int,
                ),
            forall|k: int, t: int|
                0 <= k < r.len() && j <= t < b.len() ==> precedes(
                    keys@,
                    #[trigger] r@[k] as int,
                    #[trigger] b@[t] as int,
                ),
        decreases a.len() + b.len() - i - j,
    {
        let take_a = if i == a.len() {
            false
        } else if j == b.len() {
            true
        } else {
            precedes_exec(keys, a[i], b[j])
        };
        let ghost old_r = r@;
        if take_a {
            let x = a[i];
            proof {
                assert forall|t: int| j <= t < b.len() implies precedes(keys@, x as int, #[trigger] b@[t] as int) by {
                    if t > j {
                        lemma_precedes_transitive(keys@, x as int, b@[j as int] as int, b@[t] as int);
                    }
                }
            }
            r.push(x);
            i = i + 1;
            proof {
                assert forall|t: int| 0 <= t < i implies r@.contains(#[trigger] a@[t]) by {
                    if t < i - 1 {
                        let k = choose|k: int| 0 <= k < old_r.len() && old_r[k] == a@[t];
                        assert(r@[k] == a@[t]);
                    } else {
                        assert(r@[r.len() - 1] == a@[t]);
                    }
                }
                assert forall|t: int| 0 <= t < j implies r@.contains(#[trigger] b@[t]) by {
                    let k = choose|k: int| 0 <= k < old_r.len() && old_r[k] == b@[t];
                    assert(r@[k] == b@[t]);
                }
            }
        } else {
            let x = b[j];
            proof {
                assert forall|t: int| i <= t < a.len() implies precedes(keys@, x as int, #[trigger] a@[t] as int) by {
                    assert(a@[i as int] != x);
                    if t > i {
                        lemma_precedes_transitive(keys@, x as int, a@[i as int] as int, a@[t] as int);
                    }
                }
            }
            r.push(x);
            j = j + 1;
            proof {
                assert forall|t: int| 0 <= t < i implies r@.contains(#[trigger] a@[t]) by {
                    let k = choose|k: int| 0 <= k < old_r.len() && old_r[k] == a@[t];
                    assert(r@[k] == a@[t]);
                }
                assert forall|t: int| 0 <= t < j implies r@.contains(#[trigger] b@[t]) by {
                    if t < j - 1 {
                        let k = choose|k: int| 0 <= k < old_r.len() && old_r[k] == b@[t];
                        assert(r@[k] == b@[t]);
                    } else {
                        assert(r@[r.len() - 1] == b@[t]);
                    }
                }
            }
        }
    }
    r
}

fn order_range(keys: &Vec<(i128, i128)>, lo: usize, hi: usize) -> (r: Vec<usize>)
    requires
        lo <= hi <= keys.len(),
    ensures
        r.len() == hi - lo,
        ordered_range(keys@, r@, lo as int, hi as int),
        forall|x: usize| lo <= x < hi ==> #[trigger] r@.contains(x),
    decreases hi - lo,
{
    if hi - lo == 0 {
        Vec::new()
    } else if hi - lo == 1 {
        let mut r = Vec::new();
        r.push(lo);
        assert(r@[0] == lo);
        r
    } else {
        let mid = lo + (hi - lo) / 2;
        let a = order_range(keys, lo, mid);
        let b = order_range(keys, mid, hi);
        let ghost av = a@;
        let ghost bv = b@;
        let r = merge(keys, a, b, lo, mid, hi);
        proof {
            assert forall|x: usize| lo <= x < hi implies #[trigger] r@.contains(x) by {
                if x < mid {
                    assert(av.contains(x));
                    let t = choose|t: int| 0 <= t < av.len() && av[t] == x;
                    assert(r@.contains(av[t]));
                } else {
                    assert(bv.contains(x));
                    let t = choose|t: int| 0 <= t < bv.len() && bv[t] == x;
                    assert(r@.contains(bv[t]));
                }
            }
        }
        r
    }
}

/// The positions of `keys` in stable descending order: larger keys first, and
/// equal keys in their original order.
pub fn stable_desc_order(keys: &Vec<(i128, i128)>) -> (p: Vec<usize>)
    ensures
        is_stable_desc_order(keys@, p@),
{
    order_range(keys, 0, keys.len())
}

/// The stable descending order of `keys` (see [`lemma_stable_desc_order_unique`]:
/// there is exactly one, and [`stable_desc_order`] computes it).
pub open spec fn stable_ranking(keys: Seq<(i128, i128)>) -> Seq<usize> {
    choose|p: Seq<usize>| is_stable_desc_order(keys, p)
}

/// A stable descending order is unique: two orders of the same keys are equal.
pub proof fn lemma_stable_desc_order_unique(keys: Seq<(i128, i128)>, p: Seq<usize>, q: Seq<usize>)
    requires
        is_stable_desc_order(keys, p),
        is_stable_desc_order(keys, q),
    ensures
        p == q,
{
    if p != q {
        assert(!(p =~= q));
        let k = choose|k: int| 0 <= k < p.len() && p[k] != q[k];
        let k0 = first_difference(p, q, k);
        let a = p[k0];
        let b = q[k0];
        assert(p.contains(b as usize));
        assert(q.contains(a as usize));
        let m = choose|m: int| 0 <= m < p.len() && p[m] == b;
        let m2 = choose|m: int| 0 <= m < q.len() && q[m] == a;
        if m < k0 {
            assert(p[m] == q[m]);
            assert(precedes(keys, q[m] as int, q[k0] as int));
        }
        if m2 < k0 {
            assert(q[m2] == p[m2]);
            assert(precedes(keys, p[m2] as int, p[k0] as int));
        }
        assert(m > k0);
        assert(m2 > k0);
        assert(precedes(keys, a as int, b as int));
        assert(precedes(keys, b as int, a as int));
    }
}

/// The first position before or at `k` where `p` and `q` differ.
proof fn first_difference(p: Seq<usize>, q: Seq<usize>, k: int) -> (k0: int)
    requires
        0 <= k < p.len(),
        p.len() == q.len(),
        p[k] != q[k],
    ensures
        0 <= k0 <= k,
        p[k0] != q[k0],
        forall|j: int| 0 <= j < k0 ==> p[j] == q[j],
    decreases k,
{
    if exists|j: int| 0 <= j < k && p[j] != q[j] {
        let j = choose|j: int| 0 <= j < k && p[j] != q[j];
        first_difference(p, q, j)
    } else {
        k
    }
}

/// [`stable_desc_order`] yields [`stable_ranking`].
pub proof fn lemma_stable_ranking(keys: Seq<(i128, i128)>, p: Seq<usize>)
    requires
        is_stable_desc_order(keys, p),
    ensures
        stable_ranking(keys) == p,
{
    lemma_stable_desc_order_unique(keys, stable_ranking(keys), p);
}


/// Scanning `p` from position `t`, the first position whose key `x`'s key
/// ranks strictly above (or the end of `p`).
proof fn insert_position(keys: Seq<(i128, i128)>, p: Seq<usize>, x: int, t: int) -> (r: int)
    requires
        0 <= t <= p.len(),
    ensures
        t <= r <= p.len(),
        forall|j: int| t <= j < r ==> !key_gt(keys[x], keys[#[trigger] p[j] as int]),
        r < p.len() ==> key_gt(keys[x], keys[p[r] as int]),
    decreases p.len() - t,
{
    if t == p.len() || key_gt(keys[x], keys[p[t] as int]) {
        t
    } else {
        insert_position(keys, p, x, t + 1)
    }
}

/// A stable descending order of `keys`, built by inserting each position
/// after the ones that rank at least as high.
proof fn stable_order_of(keys: Seq<(i128, i128)>) -> (q: Seq<usize>)
    requires
        keys.len() <= usize::MAX,
    ensures
        is_stable_desc_order(keys, q),
    decreases keys.len(),
{
    if keys.len() == 0 {
        let q = Seq::<usize>::empty();
        assert(is_stable_desc_order(keys, q));
        q
    } else {
        let n: int = keys.len() - 1;
        let prev = keys.take(n);
        let p0 = stable_order_of(prev);
        let t = insert_position(keys, p0, n, 0);
        let q = p0.take(t).push(n as usize) + p0.skip(t);
        assert forall|j: int| 0 <= j < q.len() implies #[trigger] q[j] == (if j < t {
            p0[j]
        } else if j == t {
            n as usize
        } else {
            p0[j - 1]
        }) by {
            if j < t {
                assert(q[j] == p0.take(t)[j]);
            } else if j > t {
                assert(q[j] == p0.skip(t)[j - t - 1]);
            }
        }
        assert forall|j: int| 0 <= j < q.len() implies #[trigger] q[j] < keys.len() by {
            if j < t {
                assert(p0[j] < prev.len());
            } else if j > t {
                assert(p0[j - 1] < prev.len());
            }
        }
        assert forall|i: usize| i < keys.len() implies #[trigger] q.contains(i) by {
            if i == n {
                assert(q[t] == i);
            } else {
                assert(p0.contains(i));
                let m = choose|m: int| 0 <= m < p0.len() && p0[m] == i;
                if m < t {
                    assert(q[m] == i);
                } else {
                    assert(q[m + 1] == i);
                }
            }
        }
        assert forall|j: int, k: int| 0 <= j < k < q.len() implies precedes(
            keys,
            #[trigger] q[j] as int,
            #[trigger] q[k] as int,
        ) by {
            if j < t && k < t {
                assert(precedes(prev, p0[j] as int, p0[k] as int));
            } else if j < t && k == t {
                assert(!key_gt(keys[n], keys[p0[j] as int]));
                assert(p0[j] < n);
            } else if j < t {
                assert(precedes(prev, p0[j] as int, p0[k - 1] as int));
            } else if j == t {
                assert(key_gt(keys[n], keys[p0[t] as int]));
                if k - 1 > t {
                    assert(precedes(prev, p0[t] as int, p0[k - 1] as int));
                }
            } else {
                assert(precedes(prev, p0[j - 1] as int, p0[k - 1] as int));
            }
        }
        q
    }
}

/// Every sequence of keys that positions can index has a stable descending
/// order, so [`stable_ranking`] is one.
pub proof fn lemma_stable_desc_order_exists(keys: Seq<(i128, i128)>)
    requires
        keys.len() <= usize::MAX,
    ensures
        is_stable_desc_order(keys, stable_ranking(keys)),
{
    let q = stable_order_of(keys);
    lemma_stable_ranking(keys, q);
}

} // verus!
