//! The keys of hash maps and the members of hash sets, in ascending order.

use crate::sort::sort_order;
#[allow(unused_imports)]
use crate::sort::before;
use std::collections::{HashMap, HashSet};
use vstd::prelude::*;
#[allow(unused_imports)]
use vstd::std_specs::iter::IteratorSpec;

verus! {

broadcast use vstd::std_specs::hash::group_hash_axioms;

/// Numbers in strictly ascending order.
pub open spec fn rising(s: Seq<usize>) -> bool {
    forall|i: int, j: int| 0 <= i < j < s.len() ==> (#[trigger] s[i]) < (#[trigger] s[j])
}

/// A list without repetition, in ascending order.
pub(crate) fn sorted(v: &Vec<usize>) -> (r: Vec<usize>)
    requires
        v@.no_duplicates(),
    ensures
        rising(r@),
        r@.len() == v@.len(),
        r@.to_set() == v@.to_set(),
{
    let mut keys: Vec<u64> = Vec::new();
    let mut i: usize = 0;
    while i < v.len()
        invariant
            i <= v@.len(),
            keys@.len() == i,
            forall|k: int| 0 <= k < i ==> keys@[k] == #[trigger] v@[k],
        decreases v@.len() - i,
    {
        keys.push(v[i] as u64);
        i = i + 1;
    }
    let perm = sort_order(&keys);
    let mut r: Vec<usize> = Vec::new();
    let mut k: usize = 0;
    proof {
        assert forall|i: int| 0 <= i < perm@.len() implies #[trigger] perm@[i] < v@.len() by {
            assert(perm@.contains(perm@[i]));
        }
    }
    while k < perm.len()
        invariant
            perm@.len() == v@.len(),
            forall|i: int| 0 <= i < perm@.len() ==> #[trigger] perm@[i] < v@.len(),
            k <= perm@.len(),
            r@.len() == k,
            forall|i: int| 0 <= i < k ==> r@[i] == v@[(#[trigger] perm@[i]) as int],
        decreases perm@.len() - k,
    {
        r.push(v[perm[k]]);
        k = k + 1;
    }
    proof {
        assert forall|i: int, j: int| 0 <= i < j < r@.len() implies (#[trigger] r@[i]) < (
        #[trigger] r@[j]) by {
            assert(before(keys@, perm@[i], perm@[j]));
            if r@[i] == r@[j] {
                assert(v@[perm@[i] as int] == v@[perm@[j] as int]);
            }
        }
        assert forall|n: usize| #[trigger] r@.contains(n) <==> v@.contains(n) by {
            if r@.contains(n) {
                let i = choose|i: int| 0 <= i < r@.len() && r@[i] == n;
                assert(v@[perm@[i] as int] == n);
            }
            if v@.contains(n) {
                let x = choose|x: int| 0 <= x < v@.len() && v@[x] == n;
                assert(perm@.contains(x as usize));
                let i = choose|i: int| 0 <= i < perm@.len() && perm@[i] == x;
                assert(r@[i] == n);
            }
        }
        assert(r@.to_set() =~= v@.to_set());
    }
    r
}

/// The keys of a map, in ascending order.
pub(crate) fn sorted_keys<V>(m: &HashMap<usize, V>) -> (r: Vec<usize>)
    ensures
        rising(r@),
        r@.to_set() == m@.dom(),
{
    let mut v: Vec<usize> = Vec::new();
    for k in it: m.keys()
        invariant
            v@ == it.seq().unref().take(it.index() as int),
            it.seq().unref().to_set() == m@.dom(),
            it.seq().no_duplicates(),
    {
        v.push(*k);
        proof {
            assert(it.seq().unref().take(it.index() + 1) =~= it.seq().unref().take(
                it.index() as int,
            ).push(*k));
        }
    }
    proof {
        let s = vstd::std_specs::hash::spec_keys_iter(m).remaining();
        assert(s.unref().take(s.len() as int) =~= s.unref());
        assert(v@.no_duplicates()) by {
            assert forall|i: int, j: int| 0 <= i < j < v@.len() implies v@[i] != v@[j] by {
                assert(s[i] != s[j]);
            }
        }
    }
    sorted(&v)
}

/// The members of a set, in ascending order.
pub(crate) fn sorted_members(m: &HashSet<usize>) -> (r: Vec<usize>)
    ensures
        rising(r@),
        r@.to_set() == m@,
{
    let mut v: Vec<usize> = Vec::new();
    for k in it: m.iter()
        invariant
            v@ == it.seq().unref().take(it.index() as int),
            it.seq().unref().to_set() == m@,
            it.seq().no_duplicates(),
    {
        v.push(*k);
        proof {
            assert(it.seq().unref().take(it.index() + 1) =~= it.seq().unref().take(
                it.index() as int,
            ).push(*k));
        }
    }
    proof {
        let s = vstd::std_specs::hash::spec_hash_keys_iter(m).remaining();
        assert(s.unref().take(s.len() as int) =~= s.unref());
        assert(v@.no_duplicates()) by {
            assert forall|i: int, j: int| 0 <= i < j < v@.len() implies v@[i] != v@[j] by {
                assert(s[i] != s[j]);
            }
        }
    }
    sorted(&v)
}

} // verus!
