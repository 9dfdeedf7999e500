//! Weakly connected components of the marked part of a graph.

use crate::digraph::{neighbors_undirected, node_indices, DiGraph};
#[allow(unused_imports)]
use crate::digraph::{
    arc_at, arcs, graph_nodes, is_walk_between, lemma_reaches_arc, lemma_reaches_join,
    lemma_reaches_stays, reaches_or_is,
};
use std::collections::{HashSet, VecDeque};
use vstd::prelude::*;

verus! {

broadcast use vstd::std_specs::hash::group_hash_axioms;

/// The live nodes that are marked.
pub open spec fn live_marked(g: DiGraph, marked: Set<usize>) -> Set<usize> {
    marked.intersect(graph_nodes(g))
}

/// Two marked nodes with an arc between them, whichever way it goes.
pub open spec fn marked_links(arcs: Set<(usize, usize)>, marked: Set<usize>) -> Set<
    (usize, usize),
> {
    Set::new(
        |p: (usize, usize)|
            marked.contains(p.0) && marked.contains(p.1) && (arcs.contains(p) || arcs.contains(
                (p.1, p.0),
            )),
    )
}

/// `v` is `u`, or marked nodes lead from one to the other along arcs taken in
/// either direction.
pub open spec fn linked(
    arcs: Set<(usize, usize)>,
    marked: Set<usize>,
    u: usize,
    v: usize,
) -> bool {
    reaches_or_is(marked_links(arcs, marked), u, v)
}

/// The node of least index in its component.
pub open spec fn is_head(arcs: Set<(usize, usize)>, marked: Set<usize>, n: usize) -> bool {
    &&& marked.contains(n)
    &&& forall|m: usize| m < n && marked.contains(m) ==> !#[trigger] linked(arcs, marked, n, m)
}

/// The heads of all components, in ascending order.
pub open spec fn component_heads(
    arcs: Set<(usize, usize)>,
    marked: Set<usize>,
    heads: Seq<usize>,
) -> bool {
    &&& forall|i: int, j: int| 0 <= i < j < heads.len() ==> heads[i] < heads[j]
    &&& forall|n: usize| #[trigger] heads.contains(n) <==> is_head(arcs, marked, n)
}

/// Every arc joins two live nodes.
pub open spec fn arcs_within(arcs: Set<(usize, usize)>, nodes: Set<usize>) -> bool {
    forall|u: usize, v: usize| #[trigger]
        arcs.contains((u, v)) ==> nodes.contains(u) && nodes.contains(v)
}

/// Links run both ways, so being linked does.
pub proof fn lemma_linked_symmetric(
    arcs: Set<(usize, usize)>,
    marked: Set<usize>,
    u: usize,
    v: usize,
)
    requires
        linked(arcs, marked, u, v),
    ensures
        linked(arcs, marked, v, u),
{
    let links = marked_links(arcs, marked);
    if u != v {
        let w = choose|w: Seq<usize>| is_walk_between(links, w, u, v);
        let b = Seq::new(w.len(), |i: int| w[w.len() - 1 - i]);
        assert forall|i: int| 0 <= i < b.len() - 1 implies #[trigger] arc_at(links, b, i) by {
            assert(arc_at(links, w, w.len() - 2 - i));
        }
        assert(is_walk_between(links, b, v, u));
    }
}

/// Being linked carries over from node to node.
pub proof fn lemma_linked_transitive(
    arcs: Set<(usize, usize)>,
    marked: Set<usize>,
    u: usize,
    v: usize,
    x: usize,
)
    requires
        linked(arcs, marked, u, v),
        linked(arcs, marked, v, x),
    ensures
        linked(arcs, marked, u, x),
{
    let links = marked_links(arcs, marked);
    if u != v && v != x {
        lemma_reaches_join(links, u, v, x);
    }
}

/// What is linked to a marked node is marked.
pub proof fn lemma_linked_marked(
    arcs: Set<(usize, usize)>,
    marked: Set<usize>,
    u: usize,
    v: usize,
)
    requires
        marked.contains(u),
        linked(arcs, marked, u, v),
    ensures
        marked.contains(v),
{
    let links = marked_links(arcs, marked);
    if u != v {
        lemma_reaches_stays(links, marked, u, v);
    }
}

/// A list without repetition is no longer than a finite set that holds it.
pub proof fn lemma_distinct_len(s: Seq<usize>, t: Set<usize>)
    requires
        s.no_duplicates(),
        t.finite(),
        forall|i: int| 0 <= i < s.len() ==> t.contains(#[trigger] s[i]),
    ensures
        s.len() <= t.len(),
{
    s.unique_seq_to_set();
    assert(s.to_set().subset_of(t));
    vstd::set_lib::lemma_len_subset(s.to_set(), t);
}

/// The component of `start`, found breadth first; `seen` gains its members.
#[verifier::rlimit(50)]
fn flood(
    g: &DiGraph,
    marked: &HashSet<usize>,
    nodes: &Vec<usize>,
    seen: &mut HashSet<usize>,
    start: usize,
) -> (comp: Vec<usize>)
    requires
        arcs_within(arcs(*g), graph_nodes(*g)),
        nodes@.to_set() == graph_nodes(*g),
        live_marked(*g, marked@).contains(start),
        !old(seen)@.contains(start),
        old(seen)@.subset_of(live_marked(*g, marked@)),
        forall|a: usize, b: usize|
            old(seen)@.contains(a) && #[trigger] marked_links(
                arcs(*g),
                live_marked(*g, marked@),
            ).contains((a, b)) ==> old(seen)@.contains(b),
    ensures
        comp@.len() > 0,
        comp@[0] == start,
        comp@.no_duplicates(),
        forall|n: usize|
            #[trigger] comp@.contains(n) <==> linked(
                arcs(*g),
                live_marked(*g, marked@),
                start,
                n,
            ),
        final(seen)@ == old(seen)@.union(comp@.to_set()),
{
    let ghost m = live_marked(*g, marked@);
    let ghost links = marked_links(arcs(*g), m);
    let ghost seen0 = seen@;
    let mut q: VecDeque<usize> = VecDeque::new();
    q.push_back(start);
    seen.insert(start);
    let mut comp: Vec<usize> = Vec::new();
    proof {
        vstd::seq_lib::seq_to_set_is_finite(nodes@);
        assert(m.finite());
        assert(q@ =~= seq![start]);
        assert(comp@ + q@ =~= seq![start]);
        assert((comp@ + q@).to_set() =~= Set::empty().insert(start)) by {
            assert((comp@ + q@)[0] == start);
        }
        assert(seen@ =~= seen0.union((comp@ + q@).to_set()));
    }
    while q.len() > 0
        invariant
            m == live_marked(*g, marked@),
            links == marked_links(arcs(*g), m),
            m.finite(),
            arcs_within(arcs(*g), graph_nodes(*g)),
            m.contains(start),
            !seen0.contains(start),
            seen0.subset_of(m),
            forall|a: usize, b: usize|
                seen0.contains(a) && #[trigger] links.contains((a, b)) ==> seen0.contains(b),
            (comp@ + q@).len() > 0,
            (comp@ + q@)[0] == start,
            (comp@ + q@).no_duplicates(),
            forall|i: int|
                0 <= i < (comp@ + q@).len() ==> reaches_or_is(
                    links,
                    start,
                    #[trigger] (comp@ + q@)[i],
                ) && m.contains((comp@ + q@)[i]) && !seen0.contains((comp@ + q@)[i]),
            seen@ == seen0.union((comp@ + q@).to_set()),
            forall|a: usize, b: usize|
                comp@.contains(a) && #[trigger] links.contains((a, b)) ==> (comp@
                    + q@).contains(b),
        decreases m.len() + 1 - comp@.len(),
    {
        let ghost q0 = q@;
        let ghost comp0 = comp@;
        let u = match q.pop_front() {
            Some(u) => u,
            None => 0,
        };
        comp.push(u);
        proof {
            assert(comp@ + q@ =~= comp0 + q0);
            assert((comp0 + q0)[comp0.len() as int] == u);
            lemma_distinct_len(comp@ + q@, m);
        }
        let vs = neighbors_undirected(g, u);
        let mut t: usize = 0;
        while t < vs.len()
            invariant
                m == live_marked(*g, marked@),
                links == marked_links(arcs(*g), m),
                arcs_within(arcs(*g), graph_nodes(*g)),
                m.contains(start),
                m.contains(u),
                seen0.subset_of(m),
                !seen0.contains(u),
                forall|a: usize, b: usize|
                    seen0.contains(a) && #[trigger] links.contains((a, b)) ==> seen0.contains(b),
                t <= vs.len(),
                forall|v: usize|
                    vs@.contains(v) <==> (arcs(*g).contains((u, v)) || arcs(*g).contains((v, u))),
                comp@ == comp0.push(u),
                reaches_or_is(links, start, u),
                (comp@ + q@)[0] == start,
                (comp@ + q@).no_duplicates(),
                forall|i: int|
                    0 <= i < (comp@ + q@).len() ==> reaches_or_is(
                        links,
                        start,
                        #[trigger] (comp@ + q@)[i],
                    ) && m.contains((comp@ + q@)[i]) && !seen0.contains((comp@ + q@)[i]),
                seen@ == seen0.union((comp@ + q@).to_set()),
                forall|a: usize, b: usize|
                    comp0.contains(a) && #[trigger] links.contains((a, b)) ==> (comp@
                        + q@).contains(b),
                forall|s: int|
                    0 <= s < t && links.contains((u, #[trigger] vs@[s])) ==> (comp@
                        + q@).contains(vs@[s]),
            decreases vs.len() - t,
        {
            let v = vs[t];
            let ghost all0 = comp@ + q@;
            let ghost q1 = q@;
            assert(vs@.contains(v));
            if marked.contains(&v) {
                if seen.insert(v) {
                    q.push_back(v);
                    proof {
                        assert(comp@ + q@ =~= all0.push(v));
                        assert(m.contains(v));
                        assert(links.contains((u, v)));
                        lemma_reaches_arc(links, u, v);
                        if start != u {
                            lemma_reaches_join(links, start, u, v);
                        }
                        assert(!all0.to_set().contains(v));
                        assert(forall|i: int| 0 <= i < all0.len() ==> all0[i] != v) by {
                            assert(forall|i: int|
                                0 <= i < all0.len() ==> all0.to_set().contains(#[trigger] all0[i]));
                        }
                        assert forall|b: usize| all0.contains(b) implies (comp@
                            + q@).contains(b) by {
                            let i = choose|i: int| 0 <= i < all0.len() && all0[i] == b;
                            assert((comp@ + q@)[i] == b);
                        }
                        assert((comp@ + q@)[all0.len() as int] == v);
                        assert(seen@ =~= seen0.union((comp@ + q@).to_set())) by {
                            all0.lemma_push_to_set_commute(v);
                        }
                    }
                } else {
                    proof {
                        assert(seen@ =~= seen0.union(all0.to_set()));
                        assert(links.contains((u, v)));
                        assert(links.contains((v, u)));
                        if seen0.contains(v) {
                            assert(seen0.contains(u));
                        }
                        assert(all0.to_set().contains(v));
                    }
                }
            }
            t = t + 1;
        }
        proof {
            assert forall|a: usize, b: usize|
                comp@.contains(a) && #[trigger] links.contains((a, b)) implies (comp@
                + q@).contains(b) by {
                if comp0.contains(a) {
                } else {
                    assert(a == u);
                    assert(vs@.contains(b));
                    let s = choose|s: int| 0 <= s < vs@.len() && vs@[s] == b;
                    assert(links.contains((u, vs@[s])));
                }
            }
        }
    }
    proof {
        assert(q@ =~= Seq::empty());
        assert(comp@ + q@ =~= comp@);
        assert forall|n: usize| linked(arcs(*g), m, start, n) implies #[trigger] comp@.contains(
            n,
        ) by {
            let s = comp@.to_set();
            assert(comp@[0] == start);
            assert(s.contains(start));
            if n != start {
                lemma_reaches_stays(links, s, start, n);
            }
        }
        assert forall|n: usize| #[trigger] comp@.contains(n) implies linked(
            arcs(*g),
            m,
            start,
            n,
        ) by {
            let i = choose|i: int| 0 <= i < comp@.len() && comp@[i] == n;
            assert((comp@ + q@)[i] == n);
        }
    }
    comp
}

/// The components of the marked live nodes: each from its head on, the heads in
/// ascending order.
#[verifier::rlimit(60)]
pub(crate) fn marked_weak_components(g: &DiGraph, marked: &HashSet<usize>) -> (comps: Vec<
    Vec<usize>,
>)
    requires
        arcs_within(arcs(*g), graph_nodes(*g)),
    ensures
        forall|k: int| 0 <= k < comps@.len() ==> (#[trigger] comps@[k])@.len() > 0,
        forall|k: int| 0 <= k < comps@.len() ==> (#[trigger] comps@[k])@.no_duplicates(),
        component_heads(
            arcs(*g),
            live_marked(*g, marked@),
            comps@.map_values(|c: Vec<usize>| c@[0]),
        ),
        forall|k: int, n: usize|
            0 <= k < comps@.len() ==> (#[trigger] comps@[k]@.contains(n) <==> linked(
                arcs(*g),
                live_marked(*g, marked@),
                comps@[k]@[0],
                n,
            )),
{
    let ghost m = live_marked(*g, marked@);
    let ghost links = marked_links(arcs(*g), m);
    let nodes = node_indices(g);
    let mut seen: HashSet<usize> = HashSet::new();
    let mut comps: Vec<Vec<usize>> = Vec::new();
    let mut i: usize = 0;
    while i < nodes.len()
        invariant
            m == live_marked(*g, marked@),
            links == marked_links(arcs(*g), m),
            arcs_within(arcs(*g), graph_nodes(*g)),
            nodes@.to_set() == graph_nodes(*g),
            forall|a: int, b: int| 0 <= a < b < nodes@.len() ==> nodes@[a] < nodes@[b],
            i <= nodes.len(),
            seen@.subset_of(m),
            forall|a: usize, b: usize|
                seen@.contains(a) && #[trigger] links.contains((a, b)) ==> seen@.contains(b),
            forall|k: int|
                0 <= k < i && m.contains(#[trigger] nodes@[k]) ==> seen@.contains(nodes@[k]),
            forall|k: int| 0 <= k < comps@.len() ==> (#[trigger] comps@[k])@.len() > 0,
            forall|k: int| 0 <= k < comps@.len() ==> (#[trigger] comps@[k])@.no_duplicates(),
            forall|k: int, n: usize|
                0 <= k < comps@.len() ==> (#[trigger] comps@[k]@.contains(n) <==> linked(
                    arcs(*g),
                    m,
                    comps@[k]@[0],
                    n,
                )),
            forall|k: int|
                0 <= k < comps@.len() ==> is_head(arcs(*g), m, (#[trigger] comps@[k])@[0]),
            forall|k: int, l: int|
                0 <= k < comps@.len() && i <= l < nodes@.len() ==> (#[trigger] comps@[k])@[0]
                    < #[trigger] nodes@[l],
            forall|k: int, l: int|
                0 <= k < l < comps@.len() ==> (#[trigger] comps@[k])@[0] < (
                #[trigger] comps@[l])@[0],
            forall|n: usize|
                #[trigger] seen@.contains(n) ==> exists|k: int|
                    0 <= k < comps@.len() && (#[trigger] comps@[k])@.contains(n),
            forall|k: int|
                0 <= k < i && is_head(arcs(*g), m, #[trigger] nodes@[k]) ==> exists|c: int|
                    0 <= c < comps@.len() && (#[trigger] comps@[c])@[0] == nodes@[k],
        decreases nodes.len() - i,
    {
        let start = nodes[i];
        assert(nodes@.to_set().contains(start));
        if marked.contains(&start) && !seen.contains(&start) {
            let ghost seen1 = seen@;
            let ghost comps1 = comps@;
            proof {
                assert(m.contains(start));
                assert forall|x: usize| x < start && m.contains(x) implies !#[trigger] linked(
                    arcs(*g),
                    m,
                    start,
                    x,
                ) by {
                    if linked(arcs(*g), m, start, x) {
                        lemma_linked_symmetric(arcs(*g), m, start, x);
                        assert(nodes@.to_set().contains(x));
                        let k = choose|k: int| 0 <= k < nodes@.len() && nodes@[k] == x;
                        assert(k < i);
                        assert(seen@.contains(nodes@[k]));
                        lemma_reaches_stays(links, seen@, x, start);
                    }
                }
                assert(is_head(arcs(*g), m, start));
            }
            let comp = flood(g, marked, &nodes, &mut seen, start);
            comps.push(comp);
            proof {
                assert(comps@[comps1.len() as int] == comp);
                assert(forall|k: int| 0 <= k < comps1.len() ==> comps@[k] == comps1[k]);
                assert forall|a: usize, b: usize|
                    seen@.contains(a) && #[trigger] links.contains((a, b)) implies seen@.contains(
                    b,
                ) by {
                    if !seen1.contains(a) {
                        assert(comp@.contains(a));
                        lemma_reaches_arc(links, a, b);
                        lemma_linked_transitive(arcs(*g), m, start, a, b);
                        assert(comp@.contains(b));
                    }
                }
                assert(seen@.subset_of(m)) by {
                    assert forall|n: usize| seen@.contains(n) implies m.contains(n) by {
                        if !seen1.contains(n) {
                            assert(comp@.contains(n));
                            lemma_linked_marked(arcs(*g), m, start, n);
                        }
                    }
                }
                assert forall|n: usize| #[trigger] seen@.contains(n) implies exists|k: int|
                    0 <= k < comps@.len() && (#[trigger] comps@[k])@.contains(n) by {
                    if seen1.contains(n) {
                        let k = choose|k: int|
                            0 <= k < comps1.len() && (#[trigger] comps1[k])@.contains(n);
                        assert(comps@[k]@.contains(n));
                    } else {
                        assert(comps@[comps1.len() as int]@.contains(n));
                    }
                }
                assert(comp@.contains(start));
                assert forall|k: int|
                    0 <= k < i + 1 && is_head(arcs(*g), m, #[trigger] nodes@[k]) implies exists|
                    c: int,
                |
                    0 <= c < comps@.len() && (#[trigger] comps@[c])@[0] == nodes@[k] by {
                    if k < i {
                        let c = choose|c: int|
                            0 <= c < comps1.len() && (#[trigger] comps1[c])@[0] == nodes@[k];
                        assert(comps@[c]@[0] == nodes@[k]);
                    } else {
                        assert(comps@[comps1.len() as int]@[0] == nodes@[k]);
                    }
                }
            }
        } else {
            proof {
                if is_head(arcs(*g), m, start) {
                    assert(m.contains(start));
                    assert(seen@.contains(start));
                    let k = choose|k: int|
                        0 <= k < comps@.len() && (#[trigger] comps@[k])@.contains(start);
                    let h = comps@[k]@[0];
                    assert(h < nodes@[i as int]);
                    lemma_linked_symmetric(arcs(*g), m, h, start);
                    assert(is_head(arcs(*g), m, h));
                    assert(linked(arcs(*g), m, start, h));
                    assert(false);
                }
            }
        }
        i = i + 1;
    }
    proof {
        let heads = comps@.map_values(|c: Vec<usize>| c@[0]);
        assert forall|n: usize| #[trigger] heads.contains(n) <==> is_head(arcs(*g), m, n) by {
            if heads.contains(n) {
                let k = choose|k: int| 0 <= k < heads.len() && heads[k] == n;
                assert(is_head(arcs(*g), m, comps@[k]@[0]));
            }
            if is_head(arcs(*g), m, n) {
                assert(nodes@.to_set().contains(n));
                let k = choose|k: int| 0 <= k < nodes@.len() && nodes@[k] == n;
                let c = choose|c: int|
                    0 <= c < comps@.len() && (#[trigger] comps@[c])@[0] == nodes@[k];
                assert(heads[c] == n);
            }
        }
    }
    comps
}

} // verus!
