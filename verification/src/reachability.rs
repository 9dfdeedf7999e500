//! Which node can be reached from which: for all nodes, over the positions of a
//! topological order, and for one node.

#[allow(unused_imports)]
use crate::bitset::{bit_len, bit_members};
#[allow(unused_imports)]
use crate::components::{arcs_within, lemma_distinct_len};
use crate::digraph::{predecessors, successors, DiGraph};
#[allow(unused_imports)]
use crate::digraph::{
    arcs, graph_nodes, lemma_reaches_arc, lemma_reaches_first, lemma_reaches_join,
    lemma_reaches_last, lemma_reaches_stays, reaches, reaches_or_is, topological,
};
use crate::node_list::NodeList;
use fixedbitset::FixedBitSet;
use std::collections::HashMap;
use vstd::prelude::*;

verus! {

broadcast use vstd::std_specs::hash::group_hash_axioms;

/// The map from each entry of a list without repetition to its position.
pub open spec fn positions_of(m: Map<usize, usize>, order: Seq<usize>) -> bool {
    &&& forall|n: usize| m.contains_key(n) <==> #[trigger] order.contains(n)
    &&& forall|i: int| 0 <= i < order.len() ==> m[#[trigger] order[i]] == i
}

/// The position of every node of an order.
pub(crate) fn positions(order: &Vec<usize>) -> (pos: HashMap<usize, usize>)
    requires
        order@.no_duplicates(),
    ensures
        positions_of(pos@, order@),
{
    let mut pos: HashMap<usize, usize> = HashMap::new();
    let mut i: usize = 0;
    while i < order.len()
        invariant
            order@.no_duplicates(),
            i <= order.len(),
            positions_of(pos@, order@.take(i as int)),
        decreases order.len() - i,
    {
        let ghost pos0 = pos@;
        let ghost t0 = order@.take(i as int);
        pos.insert(order[i], i);
        proof {
            let t1 = order@.take(i + 1);
            assert(t1 =~= t0.push(order@[i as int]));
            assert forall|n: usize| pos@.contains_key(n) <==> #[trigger] t1.contains(n) by {
                assert(t1[i as int] == order@[i as int]);
                if t0.contains(n) {
                    let k = choose|k: int| 0 <= k < t0.len() && t0[k] == n;
                    assert(t1[k] == n);
                }
                if t1.contains(n) && n != order@[i as int] {
                    let k = choose|k: int| 0 <= k < t1.len() && t1[k] == n;
                    assert(t0[k] == n);
                }
            }
            assert forall|k: int| 0 <= k < t1.len() implies pos@[#[trigger] t1[k]] == k by {
                if k < i {
                    assert(t0[k] == t1[k]);
                    assert(order@[k] != order@[i as int]);
                }
            }
        }
        i = i + 1;
    }
    assert(order@.take(order@.len() as int) =~= order@);
    pos
}

/// `row` holds the positions of what can be reached from `order[k]`.
pub open spec fn is_reach_row(
    row: FixedBitSet,
    arcs: Set<(usize, usize)>,
    order: Seq<usize>,
    k: int,
) -> bool {
    &&& bit_len(row) == order.len()
    &&& forall|j: usize| #[trigger]
        bit_members(row).contains(j) <==> j < order.len() && reaches(
            arcs,
            order[k],
            order[j as int],
        )
}

/// One row: the direct successors and all that they reach.
fn reach_row(
    g: &DiGraph,
    order: &Vec<usize>,
    pos: &HashMap<usize, usize>,
    rows: &Vec<FixedBitSet>,
    k: usize,
) -> (row: FixedBitSet)
    requires
        topological(order@, graph_nodes(*g), arcs(*g)),
        positions_of(pos@, order@),
        rows@.len() == order@.len(),
        k < order@.len(),
        forall|j: int| k < j < order@.len() ==> is_reach_row(#[trigger] rows@[j], arcs(*g), order@, j),
    ensures
        is_reach_row(row, arcs(*g), order@, k as int),
{
    let ghost a = arcs(*g);
    let mut row = FixedBitSet::with_capacity(order.len());
    assert(order@.to_set().contains(order@[k as int]));
    let vs = successors(g, order[k]);
    let mut t: usize = 0;
    while t < vs.len()
        invariant
            a == arcs(*g),
            topological(order@, graph_nodes(*g), a),
            positions_of(pos@, order@),
            rows@.len() == order@.len(),
            k < order@.len(),
            forall|j: int| k < j < order@.len() ==> is_reach_row(#[trigger] rows@[j], a, order@, j),
            forall|v: usize| vs@.contains(v) <==> a.contains((order@[k as int], v)),
            t <= vs.len(),
            bit_len(row) == order@.len(),
            forall|j: usize| #[trigger]
                bit_members(row).contains(j) ==> j < order@.len() && reaches(
                    a,
                    order@[k as int],
                    order@[j as int],
                ),
            forall|s: int, j: usize|
                0 <= s < t && j < order@.len() && #[trigger] reaches_or_is(
                    a,
                    #[trigger] vs@[s],
                    order@[j as int],
                ) ==> bit_members(row).contains(j),
        decreases vs.len() - t,
    {
        let v = vs[t];
        assert(vs@.contains(v));
        if let Some(p) = pos.get(&v) {
            let vpos: usize = *p;
            proof {
                assert(order@.contains(v));
                let q = choose|q: int| 0 <= q < order@.len() && order@[q] == v;
                assert(pos@[order@[q]] == q);
                assert(a.contains((order@[k as int], order@[q])));
                assert(k < vpos < order@.len() && order@[vpos as int] == v);
                lemma_reaches_arc(a, order@[k as int], v);
                assert(is_reach_row(rows@[vpos as int], a, order@, vpos as int));
            }
            let ghost row0 = row;
            row.insert(vpos);
            row.union_with(&rows[vpos]);
            proof {
                assert forall|j: usize| #[trigger] bit_members(row).contains(j) implies j
                    < order@.len() && reaches(a, order@[k as int], order@[j as int]) by {
                    if !bit_members(row0).contains(j) && j != vpos {
                        assert(bit_members(rows@[vpos as int]).contains(j));
                        lemma_reaches_join(a, order@[k as int], v, order@[j as int]);
                    }
                }
                assert forall|s: int, j: usize|
                    0 <= s < t + 1 && j < order@.len() && #[trigger] reaches_or_is(
                        a,
                        #[trigger] vs@[s],
                        order@[j as int],
                    ) implies bit_members(row).contains(j) by {
                    if s == t {
                        if v == order@[j as int] {
                            assert(j == vpos);
                        } else {
                            assert(bit_members(rows@[vpos as int]).contains(j));
                        }
                    } else {
                        assert(bit_members(row0).contains(j));
                    }
                }
            }
        } else {
            assert(order@.contains(v));
        }
        t = t + 1;
    }
    proof {
        assert forall|j: usize|
            j < order@.len() && reaches(a, order@[k as int], order@[j as int]) implies #[trigger] bit_members(
            row,
        ).contains(j) by {
            let v = lemma_reaches_first(a, order@[k as int], order@[j as int]);
            assert(vs@.contains(v));
            let s = choose|s: int| 0 <= s < vs@.len() && vs@[s] == v;
            assert(reaches_or_is(a, vs@[s], order@[j as int]));
        }
    }
    row
}

/// For every position of a topological order the positions that can be reached
/// from it, found from the last position back to the first.
pub(crate) fn reachability(
    g: &DiGraph,
    order: &Vec<usize>,
    pos: &HashMap<usize, usize>,
) -> (rows: Vec<FixedBitSet>)
    requires
        topological(order@, graph_nodes(*g), arcs(*g)),
        positions_of(pos@, order@),
    ensures
        rows@.len() == order@.len(),
        forall|k: int|
            0 <= k < order@.len() ==> is_reach_row(#[trigger] rows@[k], arcs(*g), order@, k),
{
    let n: usize = order.len();
    let mut rows: Vec<FixedBitSet> = Vec::new();
    let mut i: usize = 0;
    while i < n
        invariant
            i <= n,
            rows@.len() == i,
        decreases n - i,
    {
        rows.push(FixedBitSet::with_capacity(n));
        i = i + 1;
    }
    let mut k: usize = n;
    while k > 0
        invariant
            topological(order@, graph_nodes(*g), arcs(*g)),
            positions_of(pos@, order@),
            n == order@.len(),
            k <= n,
            rows@.len() == n,
            forall|j: int| k <= j < n ==> is_reach_row(#[trigger] rows@[j], arcs(*g), order@, j),
        decreases k,
    {
        k = k - 1;
        let row = reach_row(g, order, pos, &rows, k);
        rows.set(k, row);
    }
    rows
}

/// What reaches `to`: its predecessors, theirs, and so on.
pub(crate) fn ancestors(g: &DiGraph, nodes: &Vec<usize>, to: usize) -> (found: NodeList)
    requires
        nodes@.to_set() == graph_nodes(*g),
        arcs_within(arcs(*g), graph_nodes(*g)),
        graph_nodes(*g).contains(to),
    ensures
        found.wf(),
        forall|n: usize| #[trigger] found.nodes().contains(n) <==> reaches(arcs(*g), n, to),
{
    let ghost a = arcs(*g);
    let ghost live = graph_nodes(*g);
    let mut found = NodeList::new();
    let first = predecessors(g, to);
    found.extend(&first);
    proof {
        vstd::seq_lib::seq_to_set_is_finite(nodes@);
        assert forall|n: usize| #[trigger] found.nodes().contains(n) implies reaches(a, n, to)
            && live.contains(n) by {
            lemma_reaches_arc(a, n, to);
        }
    }
    let mut i: usize = 0;
    while i < found.len()
        invariant
            a == arcs(*g),
            live == graph_nodes(*g),
            live.finite(),
            arcs_within(a, live),
            found.wf(),
            i <= found.nodes().len(),
            forall|n: usize| #[trigger]
                found.nodes().contains(n) ==> reaches(a, n, to) && live.contains(n),
            forall|u: usize| #[trigger] a.contains((u, to)) ==> found.nodes().contains(u),
            forall|j: int, u: usize|
                0 <= j < i && #[trigger] a.contains((u, found.nodes()[j]))
                    ==> found.nodes().contains(u),
        decreases live.len() - i,
    {
        let n = found.at(i);
        let ghost before = found.nodes();
        proof {
            assert(before.contains(before[i as int]));
            found.lemma_distinct();
            assert forall|j: int| 0 <= j < before.len() implies live.contains(#[trigger] before[j]) by {
                assert(before.contains(before[j]));
            }
            lemma_distinct_len(before, live);
        }
        let us = predecessors(g, n);
        found.extend(&us);
        proof {
            assert forall|u: usize| #[trigger] found.nodes().contains(u) implies reaches(a, u, to)
                && live.contains(u) by {
                if !before.contains(u) {
                    assert(a.contains((u, n)));
                    lemma_reaches_arc(a, u, n);
                    lemma_reaches_join(a, u, n, to);
                }
            }
            assert forall|j: int, u: usize|
                0 <= j < i + 1 && #[trigger] a.contains(
                    (u, found.nodes()[j]),
                ) implies found.nodes().contains(u) by {
                assert(found.nodes()[j] == before[j]);
            }
        }
        i = i + 1;
    }
    proof {
        assert forall|n: usize| reaches(a, n, to) implies #[trigger] found.nodes().contains(n) by {
            if !found.nodes().contains(n) {
                let others = Set::new(|x: usize| !found.nodes().contains(x));
                assert forall|x: usize, y: usize|
                    others.contains(x) && #[trigger] a.contains((x, y)) implies others.contains(
                    y,
                ) by {
                    if found.nodes().contains(y) {
                        let j = choose|j: int| 0 <= j < found.nodes().len() && found.nodes()[j] == y;
                        assert(a.contains((x, found.nodes()[j])));
                    }
                }
                let last = lemma_reaches_last(a, n, to);
                if n != last {
                    lemma_reaches_stays(a, others, n, last);
                }
                assert(found.nodes().contains(last));
            }
        }
    }
    found
}

} // verus!
