//! A list of nodes in which none occurs twice.

use std::collections::HashSet;
use vstd::prelude::*;

verus! {

broadcast use vstd::std_specs::hash::group_hash_axioms;

/// Nodes in the order in which they were first seen.
pub(crate) struct NodeList {
    list: Vec<usize>,
    seen: HashSet<usize>,
}

impl NodeList {
    /// Every node once, and `seen` knows them all.
    pub closed spec fn wf(&self) -> bool {
        &&& self.list@.no_duplicates()
        &&& forall|n: usize| #[trigger] self.seen@.contains(n) <==> self.list@.contains(n)
    }

    /// The nodes in order.
    pub closed spec fn nodes(&self) -> Seq<usize> {
        self.list@
    }

    /// No nodes.
    pub(crate) fn new() -> (r: NodeList)
        ensures
            r.wf(),
            r.nodes() == Seq::<usize>::empty(),
    {
        NodeList { list: Vec::new(), seen: HashSet::new() }
    }

    /// Whether `n` was seen.
    pub(crate) fn contains(&self, n: usize) -> (r: bool)
        requires
            self.wf(),
        ensures
            r == self.nodes().contains(n),
    {
        self.seen.contains(&n)
    }

    /// How many were seen.
    pub(crate) fn len(&self) -> (r: usize)
        ensures
            r == self.nodes().len(),
    {
        self.list.len()
    }

    /// The `i`-th that was seen.
    pub(crate) fn at(&self, i: usize) -> (r: usize)
        requires
            i < self.nodes().len(),
        ensures
            r == self.nodes()[i as int],
    {
        self.list[i]
    }

    /// Every node occurs once.
    pub(crate) proof fn lemma_distinct(&self)
        requires
            self.wf(),
        ensures
            self.nodes().no_duplicates(),
    {
    }

    /// Add `n` at the end unless it was seen.
    pub(crate) fn insert(&mut self, n: usize)
        requires
            old(self).wf(),
        ensures
            final(self).wf(),
            final(self).nodes() == if old(self).nodes().contains(n) {
                old(self).nodes()
            } else {
                old(self).nodes().push(n)
            },
            forall|m: usize| #[trigger]
                final(self).nodes().contains(m) <==> old(self).nodes().contains(m) || m == n,
    {
        let ghost before = self.list@;
        if self.seen.insert(n) {
            self.list.push(n);
            proof {
                let after = self.list@;
                assert(after[before.len() as int] == n);
                assert forall|m: usize| #[trigger] after.contains(m) <==> before.contains(m) || m == n by {
                    if before.contains(m) {
                        let i = choose|i: int| 0 <= i < before.len() && before[i] == m;
                        assert(after[i] == m);
                    }
                }
            }
        }
    }

    /// Add all of `ns`.
    pub(crate) fn extend(&mut self, ns: &Vec<usize>)
        requires
            old(self).wf(),
        ensures
            final(self).wf(),
            forall|m: usize| #[trigger]
                final(self).nodes().contains(m) <==> old(self).nodes().contains(m) || ns@.contains(m),
            old(self).nodes().is_prefix_of(final(self).nodes()),
    {
        let ghost start = self.nodes();
        let mut i: usize = 0;
        while i < ns.len()
            invariant
                i <= ns@.len(),
                self.wf(),
                start.is_prefix_of(self.nodes()),
                forall|m: usize| #[trigger]
                    self.nodes().contains(m) <==> start.contains(m) || exists|k: int|
                        0 <= k < i && #[trigger] ns@[k] == m,
            decreases ns@.len() - i,
        {
            self.insert(ns[i]);
            i = i + 1;
        }
    }

    /// The nodes in order.
    pub(crate) fn into_vec(self) -> (r: Vec<usize>)
        requires
            self.wf(),
        ensures
            r@ == self.nodes(),
            r@.no_duplicates(),
    {
        self.list
    }
}

} // verus!
