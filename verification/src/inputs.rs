//! The inputs of an operation: the sources of the edges that enter its node, in
//! the order in which the edges were numbered.

#[allow(unused_imports)]
use crate::digraph::{graph_edges, graph_nodes};
use crate::digraph::{incoming_edges, DiGraph};
use crate::sort::sort_order;
#[allow(unused_imports)]
use crate::sort::before;
use vstd::prelude::*;

verus! {

/// `e` is an edge into `n`.
pub open spec fn enters(edges: Map<usize, (usize, usize)>, e: usize, n: usize) -> bool {
    edges.contains_key(e) && edges[e].1 == n
}

/// The sources of the edges into `n` whose number is below `k`, by number.
pub open spec fn sources_below(edges: Map<usize, (usize, usize)>, n: usize, k: nat) -> Seq<usize>
    decreases k,
{
    if k == 0 {
        Seq::empty()
    } else {
        let e = (k - 1) as usize;
        let rest = sources_below(edges, n, (k - 1) as nat);
        if enters(edges, e, n) {
            rest.push(edges[e].0)
        } else {
            rest
        }
    }
}

/// The sources of all edges into `n`, by number.
pub open spec fn incoming_sources(edges: Map<usize, (usize, usize)>, n: usize) -> Seq<usize> {
    sources_below(edges, n, (usize::MAX + 1) as nat)
}

proof fn lemma_sources_below(
    edges: Map<usize, (usize, usize)>,
    n: usize,
    ids: Seq<usize>,
    k: nat,
)
    requires
        k <= usize::MAX + 1,
        forall|i: int, j: int| 0 <= i < j < ids.len() ==> ids[i] < ids[j],
        forall|i: int| 0 <= i < ids.len() ==> #[trigger] ids[i] < k && enters(edges, ids[i], n),
        forall|e: usize| e < k && #[trigger] enters(edges, e, n) ==> ids.contains(e),
    ensures
        sources_below(edges, n, k) == ids.map_values(|e: usize| edges[e].0),
    decreases k,
{
    if k == 0 {
        if ids.len() > 0 {
            assert(ids[0] < k);
        }
        assert(sources_below(edges, n, k) =~= ids.map_values(|e: usize| edges[e].0));
    } else {
        let top = (k - 1) as usize;
        if enters(edges, top, n) {
            let at = choose|i: int| 0 <= i < ids.len() && ids[i] == top;
            if at < ids.len() - 1 {
                assert(ids[at] < ids[ids.len() - 1]);
            }
            let front = ids.drop_last();
            assert forall|i: int| 0 <= i < front.len() implies #[trigger] front[i] < k - 1 && enters(
                edges,
                front[i],
                n,
            ) by {
                assert(ids[i] < ids[ids.len() - 1]);
            }
            assert forall|e: usize| e < k - 1 && #[trigger] enters(edges, e, n) implies front.contains(
                e,
            ) by {
                let i = choose|i: int| 0 <= i < ids.len() && ids[i] == e;
                assert(front[i] == e);
            }
            lemma_sources_below(edges, n, front, (k - 1) as nat);
            assert(ids.map_values(|e: usize| edges[e].0) =~= front.map_values(
                |e: usize| edges[e].0,
            ).push(edges[top].0));
        } else {
            assert forall|i: int| 0 <= i < ids.len() implies #[trigger] ids[i] < k - 1 && enters(
                edges,
                ids[i],
                n,
            ) by {
            }
            lemma_sources_below(edges, n, ids, (k - 1) as nat);
        }
    }
}

proof fn lemma_sources_below_same(
    edges: Map<usize, (usize, usize)>,
    more: Map<usize, (usize, usize)>,
    n: usize,
    k: nat,
)
    requires
        k <= usize::MAX + 1,
        forall|e: usize| #[trigger] enters(edges, e, n) <==> enters(more, e, n),
        forall|e: usize| #[trigger] enters(edges, e, n) ==> edges[e].0 == more[e].0,
    ensures
        sources_below(edges, n, k) == sources_below(more, n, k),
    decreases k,
{
    if k > 0 {
        lemma_sources_below_same(edges, more, n, (k - 1) as nat);
        let e = (k - 1) as usize;
        assert(enters(edges, e, n) <==> enters(more, e, n));
    }
}

/// An edge into another node leaves the inputs of `n` as they are.
pub proof fn lemma_incoming_sources_insert(
    edges: Map<usize, (usize, usize)>,
    r: usize,
    ends: (usize, usize),
    n: usize,
)
    requires
        !edges.contains_key(r),
        ends.1 != n,
    ensures
        incoming_sources(edges.insert(r, ends), n) == incoming_sources(edges, n),
{
    lemma_sources_below_same(edges, edges.insert(r, ends), n, (usize::MAX + 1) as nat);
}

proof fn lemma_sources_below_contains(
    edges: Map<usize, (usize, usize)>,
    n: usize,
    k: nat,
    s: usize,
)
    requires
        k <= usize::MAX + 1,
    ensures
        sources_below(edges, n, k).contains(s) <==> exists|e: usize|
            e < k && #[trigger] enters(edges, e, n) && edges[e].0 == s,
    decreases k,
{
    if k > 0 {
        let top = (k - 1) as usize;
        let rest = sources_below(edges, n, (k - 1) as nat);
        let all = sources_below(edges, n, k);
        lemma_sources_below_contains(edges, n, (k - 1) as nat, s);
        if all.contains(s) {
            let i = choose|i: int| 0 <= i < all.len() && all[i] == s;
            if i < rest.len() {
                assert(rest[i] == s);
                assert(rest.contains(s));
                let e = choose|e: usize| e < k - 1 && #[trigger] enters(edges, e, n) && edges[e].0 == s;
                assert(e < k && enters(edges, e, n));
            } else {
                assert(enters(edges, top, n));
            }
        }
        if exists|e: usize| e < k && #[trigger] enters(edges, e, n) && edges[e].0 == s {
            let e = choose|e: usize| e < k && #[trigger] enters(edges, e, n) && edges[e].0 == s;
            if e == top {
                assert(all[rest.len() as int] == s);
            } else {
                assert(rest.contains(s));
                let i = choose|i: int| 0 <= i < rest.len() && rest[i] == s;
                assert(all[i] == s);
            }
        }
    }
}

/// A node is an input of `n` if and only if some edge leads from it to `n`.
pub proof fn lemma_incoming_sources_contains(
    edges: Map<usize, (usize, usize)>,
    n: usize,
    s: usize,
)
    ensures
        incoming_sources(edges, n).contains(s) <==> edges.values().contains((s, n)),
{
    lemma_sources_below_contains(edges, n, (usize::MAX + 1) as nat, s);
    if incoming_sources(edges, n).contains(s) {
        let e = choose|e: usize|
            e < usize::MAX + 1 && #[trigger] enters(edges, e, n) && edges[e].0 == s;
        assert(edges[e] == (s, n));
        assert(edges.values().contains(edges[e]));
    }
    if edges.values().contains((s, n)) {
        let e = choose|e: usize| edges.contains_key(e) && edges[e] == (s, n);
        assert(enters(edges, e, n));
    }
}

/// The inputs of a live node.
pub(crate) fn ordered_inputs(g: &DiGraph, n: usize) -> (inputs: Vec<usize>)
    requires
        graph_nodes(*g).contains(n),
    ensures
        inputs@ == incoming_sources(graph_edges(*g), n),
{
    let es = incoming_edges(g, n);
    let ghost edges = graph_edges(*g);
    let mut keys: Vec<u64> = Vec::new();
    let mut i: usize = 0;
    while i < es.len()
        invariant
            i <= es@.len(),
            keys@.len() == i,
            forall|k: int| 0 <= k < i ==> keys@[k] == (#[trigger] es@[k]).0,
        decreases es@.len() - i,
    {
        keys.push(es[i].0 as u64);
        i = i + 1;
    }
    let perm = sort_order(&keys);
    let mut inputs: Vec<usize> = Vec::new();
    let mut k: usize = 0;
    proof {
        assert forall|i: int| 0 <= i < perm@.len() implies #[trigger] perm@[i] < es@.len() by {
            assert(perm@.contains(perm@[i]));
        }
    }
    while k < perm.len()
        invariant
            perm@.len() == es@.len(),
            forall|i: int| 0 <= i < perm@.len() ==> #[trigger] perm@[i] < es@.len(),
            k <= perm@.len(),
            inputs@.len() == k,
            forall|i: int| 0 <= i < k ==> inputs@[i] == es@[(#[trigger] perm@[i]) as int].1,
        decreases perm@.len() - k,
    {
        inputs.push(es[perm[k]].1);
        k = k + 1;
    }
    proof {
        let ids = Seq::new(perm@.len(), |i: int| es@[perm@[i] as int].0);
        assert forall|i: int| 0 <= i < es@.len() implies edges.contains_key((#[trigger] es@[i]).0)
            && edges[es@[i].0] == (es@[i].1, n) by {
            assert(es@.contains((es@[i].0, es@[i].1)));
        }
        assert forall|i: int, j: int| 0 <= i < j < ids.len() implies ids[i] < ids[j] by {
            assert(before(keys@, perm@[i], perm@[j]));
            if ids[i] == ids[j] {
                let (x, y) = (perm@[i] as int, perm@[j] as int);
                assert(es@[x] == es@[y]);
                assert(false);
            }
        }
        assert forall|e: usize| e < usize::MAX + 1 && #[trigger] enters(edges, e, n) implies ids.contains(e) by {
            assert(es@.contains((e, edges[e].0)));
            let x = choose|x: int| 0 <= x < es@.len() && es@[x] == (e, edges[e].0);
            assert(perm@.contains(x as usize));
            let i = choose|i: int| 0 <= i < perm@.len() && perm@[i] == x;
            assert(ids[i] == e);
        }
        lemma_sources_below(edges, n, ids, (usize::MAX + 1) as nat);
        assert(inputs@ =~= ids.map_values(|e: usize| edges[e].0));
    }
    inputs
}

/// The inputs of a node are the sources of the edges into it, one for each, in the order of
/// the edges' numbers.
pub proof fn law_inputs_in_order_of_edges(
    edges: Map<usize, (usize, usize)>,
    n: usize,
    ids: Seq<usize>,
)
    requires
        forall|i: int, j: int| 0 <= i < j < ids.len() ==> ids[i] < ids[j],
        forall|e: usize| #[trigger]
            ids.contains(e) <==> edges.contains_key(e) && edges[e].1 == n,
    ensures
        incoming_sources(edges, n).len() == ids.len(),
        forall|i: int|
            0 <= i < ids.len() ==> #[trigger] incoming_sources(edges, n)[i] == edges[ids[i]].0,
{
    assert forall|i: int| 0 <= i < ids.len() implies #[trigger] ids[i] < (usize::MAX + 1) as nat
        && enters(edges, ids[i], n) by {
        assert(ids.contains(ids[i]));
    }
    lemma_sources_below(edges, n, ids, (usize::MAX + 1) as nat);
}

} // verus!
