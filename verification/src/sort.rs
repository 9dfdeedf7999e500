//! A stable order by integer keys.

use vstd::prelude::*;

verus! {

/// Index `a` comes before index `b`: its key is less, or the keys are equal and
/// the index is less.
pub open spec fn before(keys: Seq<u64>, a: usize, b: usize) -> bool {
    keys[a as int] < keys[b as int] || (keys[a as int] == keys[b as int] && a < b)
}

/// Each index after those that come before it.
pub open spec fn in_key_order(keys: Seq<u64>, perm: Seq<usize>) -> bool {
    forall|i: int, j: int| 0 <= i < j < perm.len() ==> before(keys, #[trigger] perm[i], #[trigger] perm[j])
}

/// The indices of `keys`, each once, in the stable order of the keys.
pub open spec fn is_sort_order(keys: Seq<u64>, perm: Seq<usize>) -> bool {
    &&& perm.len() == keys.len()
    &&& forall|i: usize| #[trigger] perm.contains(i) <==> i < keys.len()
    &&& in_key_order(keys, perm)
}

/// The merge of two lists of indices in key order, all of the first before all of
/// the second as indices.
fn merge(keys: &Vec<u64>, a: &Vec<usize>, b: &Vec<usize>) -> (out: Vec<usize>)
    requires
        forall|i: int| 0 <= i < a@.len() ==> #[trigger] a@[i] < keys@.len(),
        forall|i: int| 0 <= i < b@.len() ==> #[trigger] b@[i] < keys@.len(),
        forall|i: int, j: int|
            0 <= i < a@.len() && 0 <= j < b@.len() ==> #[trigger] a@[i] < #[trigger] b@[j],
        in_key_order(keys@, a@),
        in_key_order(keys@, b@),
    ensures
        in_key_order(keys@, out@),
        out@.len() == a@.len() + b@.len(),
        forall|n: usize| #[trigger] out@.contains(n) <==> a@.contains(n) || b@.contains(n),
{
    let mut out: Vec<usize> = Vec::new();
    let mut i: usize = 0;
    let mut j: usize = 0;
    while i < a.len() || j < b.len()
        invariant
            forall|i: int| 0 <= i < a@.len() ==> #[trigger] a@[i] < keys@.len(),
            forall|i: int| 0 <= i < b@.len() ==> #[trigger] b@[i] < keys@.len(),
            forall|i: int, j: int|
                0 <= i < a@.len() && 0 <= j < b@.len() ==> #[trigger] a@[i] < #[trigger] b@[j],
            in_key_order(keys@, a@),
            in_key_order(keys@, b@),
            i <= a@.len(),
            j <= b@.len(),
            out@.len() == i + j,
            in_key_order(keys@, out@),
            forall|n: usize| #[trigger]
                out@.contains(n) <==> (exists|k: int| 0 <= k < i && #[trigger] a@[k] == n) || (exists|
                    k: int,
                | 0 <= k < j && #[trigger] b@[k] == n),
            forall|k: int, l: int|
                0 <= k < out@.len() && i <= l < a@.len() ==> before(
                    keys@,
                    #[trigger] out@[k],
                    #[trigger] a@[l],
                ),
            forall|k: int, l: int|
                0 <= k < out@.len() && j <= l < b@.len() ==> before(
                    keys@,
                    #[trigger] out@[k],
                    #[trigger] b@[l],
                ),
        decreases a@.len() - i + b@.len() - j,
    {
        let take_a = j >= b.len() || (i < a.len() && keys[a[i]] <= keys[b[j]]);
        let ghost out0 = out@;
        let ghost (i0, j0) = (i, j);
        let next: usize = if take_a {
            a[i]
        } else {
            b[j]
        };
        out.push(next);
        if take_a {
            i = i + 1;
        } else {
            j = j + 1;
        }
        proof {
            assert(out@[out0.len() as int] == next);
            assert forall|n: usize| #[trigger] out@.contains(n) <==> (exists|k: int|
                0 <= k < i && #[trigger] a@[k] == n) || (exists|k: int|
                0 <= k < j && #[trigger] b@[k] == n) by {
                if out@.contains(n) {
                    let k = choose|k: int| 0 <= k < out@.len() && out@[k] == n;
                    if k < out0.len() {
                        assert(out0[k] == n);
                        assert(out0.contains(n));
                    } else if take_a {
                        assert(a@[i0 as int] == n);
                    } else {
                        assert(b@[j0 as int] == n);
                    }
                }
                if (exists|k: int| 0 <= k < i && #[trigger] a@[k] == n) || (exists|k: int|
                    0 <= k < j && #[trigger] b@[k] == n) {
                    if n != next {
                        assert(out0.contains(n));
                        let k = choose|k: int| 0 <= k < out0.len() && out0[k] == n;
                        assert(out@[k] == n);
                    }
                }
            }
        }
    }
    proof {
        assert forall|n: usize| #[trigger] out@.contains(n) <==> a@.contains(n) || b@.contains(n) by {
        }
    }
    out
}

/// The indices from `lo` up to `hi` in key order.
fn sort_range(keys: &Vec<u64>, lo: usize, hi: usize) -> (out: Vec<usize>)
    requires
        lo <= hi <= keys@.len(),
    ensures
        out@.len() == hi - lo,
        forall|n: usize| #[trigger] out@.contains(n) <==> lo <= n < hi,
        in_key_order(keys@, out@),
    decreases hi - lo,
{
    if hi - lo == 0 {
        Vec::new()
    } else if hi - lo == 1 {
        let mut out: Vec<usize> = Vec::new();
        out.push(lo);
        assert(out@[0] == lo);
        out
    } else {
        let mid: usize = lo + (hi - lo) / 2;
        let a = sort_range(keys, lo, mid);
        let b = sort_range(keys, mid, hi);
        proof {
            assert forall|i: int| 0 <= i < a@.len() implies #[trigger] a@[i] < mid by {
                assert(a@.contains(a@[i]));
            }
            assert forall|i: int| 0 <= i < b@.len() implies mid <= #[trigger] b@[i] < hi by {
                assert(b@.contains(b@[i]));
            }
        }
        merge(keys, &a, &b)
    }
}

/// The stable order of `keys`, by merging.
pub(crate) fn sort_order(keys: &Vec<u64>) -> (perm: Vec<usize>)
    ensures
        is_sort_order(keys@, perm@),
{
    sort_range(keys, 0, keys.len())
}

} // verus!
