//! Lexicographic order on points.
//!
//! A point is a sequence of datums; only its first `n` elements (the
//! dimensions) take part in a comparison.

use vstd::prelude::*;

verus! {

/// A number of dimensions as a length.
pub open spec fn dims(n: usize) -> int {
    n as int
}

/// `a` and `b` agree on their first `n` elements.
pub open spec fn prefix_eq(a: Seq<u64>, b: Seq<u64>, n: int) -> bool {
    forall|j: int| 0 <= j < n ==> a[j] == b[j]
}

/// `a` comes strictly before `b` when both are read as `n`-tuples: they
/// agree up to some position `k < n`, where `a` is smaller.
pub open spec fn prefix_lt(a: Seq<u64>, b: Seq<u64>, n: int) -> bool {
    exists|k: int| 0 <= k < n && a[k] < b[k] && #[trigger] agree_below(a, b, k)
}

/// `a` and `b` agree on every position below `k`.
pub open spec fn agree_below(a: Seq<u64>, b: Seq<u64>, k: int) -> bool {
    forall|j: int| 0 <= j < k ==> a[j] == b[j]
}

/// `a` comes before `b` or equals it on the first `n` elements.
pub open spec fn prefix_le(a: Seq<u64>, b: Seq<u64>, n: int) -> bool {
    prefix_lt(a, b, n) || prefix_eq(a, b, n)
}

/// Of two `n`-tuples exactly one of "before", "equal", "after" holds.
pub proof fn lemma_prefix_trichotomy(a: Seq<u64>, b: Seq<u64>, n: int)
    ensures
        prefix_lt(a, b, n) || prefix_eq(a, b, n) || prefix_lt(b, a, n),
        !(prefix_lt(a, b, n) && prefix_eq(a, b, n)),
        !(prefix_lt(b, a, n) && prefix_eq(a, b, n)),
        !(prefix_lt(a, b, n) && prefix_lt(b, a, n)),
{
    if prefix_lt(a, b, n) {
        let k = choose|k: int| 0 <= k < n && a[k] < b[k] && #[trigger] agree_below(a, b, k);
        if prefix_lt(b, a, n) {
            let m = choose|m: int| 0 <= m < n && b[m] < a[m] && #[trigger] agree_below(b, a, m);
            if k < m {
                assert(b[k] == a[k]);
            } else if m < k {
                assert(a[m] == b[m]);
            }
        }
    }
    if !prefix_eq(a, b, n) {
        assert(0 <= n);
        let k = first_difference(a, b, n);
        lemma_first_difference(a, b, n);
        if a[k] < b[k] {
            assert(agree_below(a, b, k));
        } else {
            assert(agree_below(b, a, k));
        }
    }
}

/// The least position below `n` at which `a` and `b` differ, or `n`.
pub open spec fn first_difference(a: Seq<u64>, b: Seq<u64>, n: int) -> int
    decreases n,
{
    if n <= 0 {
        0
    } else {
        let k = first_difference(a, b, n - 1);
        if k < n - 1 {
            k
        } else if a[n - 1] != b[n - 1] {
            n - 1
        } else {
            n
        }
    }
}

pub proof fn lemma_first_difference(a: Seq<u64>, b: Seq<u64>, n: int)
    requires
        0 <= n,
    ensures
        0 <= first_difference(a, b, n) <= n,
        agree_below(a, b, first_difference(a, b, n)),
        first_difference(a, b, n) < n ==> a[first_difference(a, b, n)] != b[first_difference(
            a,
            b,
            n,
        )],
    decreases n,
{
    if n > 0 {
        lemma_first_difference(a, b, n - 1);
    }
}

/// The order is transitive.
pub proof fn lemma_prefix_lt_transitive(a: Seq<u64>, b: Seq<u64>, c: Seq<u64>, n: int)
    requires
        prefix_lt(a, b, n),
        prefix_lt(b, c, n),
    ensures
        prefix_lt(a, c, n),
{
    let k = choose|k: int| 0 <= k < n && a[k] < b[k] && #[trigger] agree_below(a, b, k);
    let m = choose|m: int| 0 <= m < n && b[m] < c[m] && #[trigger] agree_below(b, c, m);
    if k <= m {
        assert(agree_below(a, c, k));
        assert(a[k] < c[k]);
    } else {
        assert(agree_below(a, c, m));
        assert(a[m] < c[m]);
    }
}

/// Whether `point1` comes strictly before `point2` on the first `num_dims`
/// elements.
pub fn points_less(num_dims: usize, point1: &[u64], point2: &[u64]) -> (r: bool)
    requires
        num_dims <= point1@.len(),
        num_dims <= point2@.len(),
    ensures
        r == prefix_lt(point1@, point2@, num_dims as int),
{
    let mut i: usize = 0;
    while i < num_dims
        invariant
            i <= num_dims,
            num_dims <= point1@.len(),
            num_dims <= point2@.len(),
            agree_below(point1@, point2@, i as int),
        decreases num_dims - i,
    {
        if point1[i] < point2[i] {
            return true;
        }
        if point1[i] > point2[i] {
            proof {
                assert(agree_below(point2@, point1@, i as int));
                assert(prefix_lt(point2@, point1@, num_dims as int));
                lemma_prefix_trichotomy(point1@, point2@, num_dims as int);
            }
            return false;
        }
        i += 1;
    }
    proof {
        assert(prefix_eq(point1@, point2@, num_dims as int));
        lemma_prefix_trichotomy(point1@, point2@, num_dims as int);
    }
    false
}

/// Whether the two points agree on the first `num_dims` elements.
pub fn points_equal(num_dims: usize, point1: &[u64], point2: &[u64]) -> (r: bool)
    requires
        num_dims <= point1@.len(),
        num_dims <= point2@.len(),
    ensures
        r == prefix_eq(point1@, point2@, num_dims as int),
{
    let mut i: usize = 0;
    while i < num_dims
        invariant
            i <= num_dims,
            num_dims <= point1@.len(),
            num_dims <= point2@.len(),
            agree_below(point1@, point2@, i as int),
        decreases num_dims - i,
    {
        if point1[i] != point2[i] {
            return false;
        }
        i += 1;
    }
    true
}

} // verus!
