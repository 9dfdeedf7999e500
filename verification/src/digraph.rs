//! The stable directed graph of the `petgraph` crate, as nodes and arcs, and
//! what it means to walk along its arcs.

use petgraph::graph::{EdgeIndex, NodeIndex};
use petgraph::stable_graph::StableGraph;
use petgraph::visit::EdgeRef;
use petgraph::{Directed, Direction};
use vstd::prelude::*;

verus! {

/// `petgraph::stable_graph::StableGraph`, opaque: its live nodes are
/// `graph_nodes`, its live edges `graph_edges`.
#[verifier::external_type_specification]
#[verifier::external_body]
#[verifier::reject_recursive_types(N)]
#[verifier::reject_recursive_types(E)]
#[verifier::reject_recursive_types(Ty)]
#[verifier::reject_recursive_types(Ix)]
pub struct ExStableGraph<N, E, Ty, Ix>(StableGraph<N, E, Ty, Ix>);

/// `petgraph::Directed`, the marker of a graph whose edges have a direction.
#[verifier::external_type_specification]
#[verifier::external_body]
pub struct ExDirected(Directed);

/// The shape of an operation graph: nodes and arcs without weights. What an
/// operation is stands beside the graph, by node index.
pub type DiGraph = StableGraph<(), (), Directed, u32>;

/// The indices of the live nodes.
pub uninterp spec fn graph_nodes(g: DiGraph) -> Set<usize>;

/// The live edges: from edge index to source and target node.
pub uninterp spec fn graph_edges(g: DiGraph) -> Map<usize, (usize, usize)>;

/// For each live node the sources of the edges that enter it, the most recently added edge
/// first.
pub uninterp spec fn entering(g: DiGraph) -> Map<usize, Seq<usize>>;

/// The pairs of nodes that an edge joins. Parallel edges count once.
pub open spec fn arcs(g: DiGraph) -> Set<(usize, usize)> {
    graph_edges(g).values()
}

/// `StableGraph::default`: a graph without nodes.
#[verifier::external_body]
pub(crate) fn empty_graph() -> (r: DiGraph)
    ensures
        graph_nodes(r) == Set::<usize>::empty(),
        graph_edges(r).dom() == Set::<usize>::empty(),
{
    StableGraph::default()
}

/// `StableGraph::node_indices`: the live nodes in ascending order. Indices are 32
/// bits wide, and the last is not in use.
#[verifier::external_body]
pub(crate) fn node_indices(g: &DiGraph) -> (r: Vec<usize>)
    ensures
        r@.to_set() == graph_nodes(*g),
        forall|i: int| 0 <= i < r@.len() ==> #[trigger] r@[i] < u32::MAX,
        forall|i: int, j: int| 0 <= i < j < r@.len() ==> r@[i] < r@[j],
{
    g.node_indices().map(|n| n.index()).collect()
}

/// `StableGraph::neighbors_directed` with `Outgoing`: the targets of the edges
/// that leave `u`, once for each edge.
#[verifier::external_body]
pub(crate) fn successors(g: &DiGraph, u: usize) -> (r: Vec<usize>)
    requires
        graph_nodes(*g).contains(u),
    ensures
        forall|v: usize| r@.contains(v) <==> arcs(*g).contains((u, v)),
{
    g.neighbors_directed(NodeIndex::new(u), Direction::Outgoing).map(|n| n.index()).collect()
}

/// `StableGraph::neighbors_directed` with `Incoming`: the sources of the edges
/// that enter `u`, once for each edge, in the order of `entering`.
#[verifier::external_body]
pub(crate) fn predecessors(g: &DiGraph, u: usize) -> (r: Vec<usize>)
    requires
        graph_nodes(*g).contains(u),
    ensures
        forall|v: usize| r@.contains(v) <==> arcs(*g).contains((v, u)),
        r@ == entering(*g)[u],
{
    g.neighbors_directed(NodeIndex::new(u), Direction::Incoming).map(|n| n.index()).collect()
}

/// `StableGraph::neighbors_undirected`: the other ends of the edges at `u`.
#[verifier::external_body]
pub(crate) fn neighbors_undirected(g: &DiGraph, u: usize) -> (r: Vec<usize>)
    requires
        graph_nodes(*g).contains(u),
    ensures
        forall|v: usize|
            r@.contains(v) <==> (arcs(*g).contains((u, v)) || arcs(*g).contains((v, u))),
{
    g.neighbors_undirected(NodeIndex::new(u)).map(|n| n.index()).collect()
}

/// `StableGraph::edges_directed` with `Incoming`: index and source of each edge
/// that enters `u`.
#[verifier::external_body]
pub(crate) fn incoming_edges(g: &DiGraph, u: usize) -> (r: Vec<(usize, usize)>)
    requires
        graph_nodes(*g).contains(u),
    ensures
        r@.no_duplicates(),
        forall|e: usize, s: usize|
            r@.contains((e, s)) <==> (graph_edges(*g).dom().contains(e) && graph_edges(*g)[e] == (
                s,
                u,
            )),
{
    g.edges_directed(NodeIndex::new(u), Direction::Incoming)
        .map(|e| (e.id().index(), e.source().index()))
        .collect()
}

/// `StableGraph::edge_indices`: the live edges in ascending order. Indices are 32
/// bits wide, and the last is not in use.
#[verifier::external_body]
pub(crate) fn edge_indices(g: &DiGraph) -> (r: Vec<usize>)
    ensures
        r@.to_set() == graph_edges(*g).dom(),
        forall|i: int| 0 <= i < r@.len() ==> #[trigger] r@[i] < u32::MAX,
        forall|i: int, j: int| 0 <= i < j < r@.len() ==> r@[i] < r@[j],
{
    g.edge_indices().map(|e| e.index()).collect()
}

/// `StableGraph::edge_endpoints`: source and target of a live edge, both live.
#[verifier::external_body]
pub(crate) fn edge_endpoints(g: &DiGraph, e: usize) -> (r: Option<(usize, usize)>)
    requires
        graph_edges(*g).dom().contains(e),
    ensures
        r == Some(graph_edges(*g)[e]),
        r matches Some(ends) ==> graph_nodes(*g).contains(ends.0) && graph_nodes(*g).contains(ends.1),
{
    g.edge_endpoints(EdgeIndex::new(e)).map(|(a, b)| (a.index(), b.index()))
}

/// `StableGraph::edges_connecting`: whether some edge goes from `a` to `b`.
#[verifier::external_body]
pub(crate) fn has_edge(g: &DiGraph, a: usize, b: usize) -> (r: bool)
    requires
        graph_nodes(*g).contains(a),
        graph_nodes(*g).contains(b),
    ensures
        r == arcs(*g).contains((a, b)),
{
    g.edges_connecting(NodeIndex::new(a), NodeIndex::new(b)).next().is_some()
}

/// `StableGraph::try_add_node`: a node of an index that was not in use, unless all
/// 32-bit indices but the last are taken.
#[verifier::external_body]
pub(crate) fn add_node(g: &mut DiGraph) -> (r: Option<usize>)
    ensures
        r is Some <==> graph_nodes(*old(g)).len() < u32::MAX,
        r matches Some(n) ==> !graph_nodes(*old(g)).contains(n) && n < u32::MAX,
        r matches Some(n) ==> graph_nodes(*final(g)) == graph_nodes(*old(g)).insert(n),
        r is None ==> graph_nodes(*final(g)) == graph_nodes(*old(g)),
        graph_edges(*final(g)) == graph_edges(*old(g)),
{
    g.try_add_node(()).ok().map(|n| n.index())
}

/// `StableGraph::try_add_edge` between live nodes: an edge of an index that was not
/// in use, unless all 32-bit indices but the last are taken. It is the first of those that
/// enter its target.
#[verifier::external_body]
pub(crate) fn add_edge(g: &mut DiGraph, a: usize, b: usize) -> (r: Option<usize>)
    requires
        graph_nodes(*old(g)).contains(a),
        graph_nodes(*old(g)).contains(b),
    ensures
        r is Some <==> graph_edges(*old(g)).dom().len() < u32::MAX,
        r matches Some(e) ==> !graph_edges(*old(g)).contains_key(e),
        r matches Some(e) ==> graph_edges(*final(g)) == graph_edges(*old(g)).insert(e, (a, b)),
        r is None ==> graph_edges(*final(g)) == graph_edges(*old(g)),
        r is Some ==> entering(*final(g))[b] == seq![a] + entering(*old(g))[b],
        graph_nodes(*final(g)) == graph_nodes(*old(g)),
{
    g.try_add_edge(NodeIndex::new(a), NodeIndex::new(b), ()).ok().map(|e| e.index())
}

/// `petgraph::algo::toposort`: every node once, each arc forward; or a node that
/// lies on a cycle. Which of several orders comes out is left open.
#[verifier::external_body]
pub(crate) fn toposort(g: &DiGraph) -> (r: Result<Vec<usize>, usize>)
    ensures
        r matches Ok(order) ==> topological(order@, graph_nodes(*g), arcs(*g)),
        r matches Err(n) ==> reaches(arcs(*g), n, n),
{
    match petgraph::algo::toposort(g, None) {
        Ok(order) => Ok(order.into_iter().map(|n| n.index()).collect()),
        Err(cycle) => Err(cycle.node_id().index()),
    }
}

/// `w[i]` and `w[i + 1]` are joined.
pub open spec fn arc_at(arcs: Set<(usize, usize)>, w: Seq<usize>, i: int) -> bool {
    arcs.contains((w[i], w[i + 1]))
}

/// A sequence of nodes, each joined to the next.
pub open spec fn is_walk(arcs: Set<(usize, usize)>, w: Seq<usize>) -> bool {
    &&& w.len() >= 1
    &&& forall|i: int| 0 <= i < w.len() - 1 ==> #[trigger] arc_at(arcs, w, i)
}

/// A walk of at least one arc from `u` to `v`.
pub open spec fn is_walk_between(
    arcs: Set<(usize, usize)>,
    w: Seq<usize>,
    u: usize,
    v: usize,
) -> bool {
    &&& is_walk(arcs, w)
    &&& w.len() >= 2
    &&& w[0] == u
    &&& w.last() == v
}

/// `v` can be reached from `u` along one arc or more.
pub open spec fn reaches(arcs: Set<(usize, usize)>, u: usize, v: usize) -> bool {
    exists|w: Seq<usize>| is_walk_between(arcs, w, u, v)
}

/// `v` is `u` or can be reached from it.
pub open spec fn reaches_or_is(arcs: Set<(usize, usize)>, u: usize, v: usize) -> bool {
    u == v || reaches(arcs, u, v)
}

/// No node can be reached from itself.
pub open spec fn acyclic(arcs: Set<(usize, usize)>) -> bool {
    forall|n: usize| !#[trigger] reaches(arcs, n, n)
}

/// Every node once, and the source of each arc before its target.
pub open spec fn topological(
    order: Seq<usize>,
    nodes: Set<usize>,
    arcs: Set<(usize, usize)>,
) -> bool {
    &&& order.no_duplicates()
    &&& order.to_set() == nodes
    &&& forall|u: usize, v: usize| #[trigger]
        arcs.contains((u, v)) ==> order.contains(u) && order.contains(v)
    &&& forall|i: int, j: int|
        0 <= i < order.len() && 0 <= j < order.len() && #[trigger] arcs.contains(
            (order[i], order[j]),
        ) ==> i < j
}

/// One arc is a walk.
pub proof fn lemma_reaches_arc(arcs: Set<(usize, usize)>, u: usize, v: usize)
    requires
        arcs.contains((u, v)),
    ensures
        reaches(arcs, u, v),
{
    let w = seq![u, v];
    assert(forall|i: int| 0 <= i < w.len() - 1 ==> #[trigger] arc_at(arcs, w, i));
    assert(is_walk_between(arcs, w, u, v));
}

/// Walks can be joined end to end.
pub proof fn lemma_reaches_join(arcs: Set<(usize, usize)>, u: usize, v: usize, x: usize)
    requires
        reaches(arcs, u, v),
        reaches(arcs, v, x),
    ensures
        reaches(arcs, u, x),
{
    let a = choose|w: Seq<usize>| is_walk_between(arcs, w, u, v);
    let b = choose|w: Seq<usize>| is_walk_between(arcs, w, v, x);
    let w = a + b.drop_first();
    assert forall|i: int| 0 <= i < w.len() - 1 implies #[trigger] arc_at(arcs, w, i) by {
        if i < a.len() - 1 {
            assert(arc_at(arcs, a, i));
        } else {
            assert(arc_at(arcs, b, i - (a.len() - 1)));
        }
    }
    assert(is_walk_between(arcs, w, u, x));
}

/// A walk starts with an arc.
pub proof fn lemma_reaches_first(arcs: Set<(usize, usize)>, u: usize, x: usize) -> (v: usize)
    requires
        reaches(arcs, u, x),
    ensures
        arcs.contains((u, v)),
        reaches_or_is(arcs, v, x),
{
    let w = choose|w: Seq<usize>| is_walk_between(arcs, w, u, x);
    assert(arc_at(arcs, w, 0));
    let t = w.drop_first();
    if t.len() >= 2 {
        assert forall|i: int| 0 <= i < t.len() - 1 implies #[trigger] arc_at(arcs, t, i) by {
            assert(arc_at(arcs, w, i + 1));
        }
        assert(is_walk_between(arcs, t, w[1], x));
    }
    w[1]
}

/// A walk ends with an arc.
pub proof fn lemma_reaches_last(arcs: Set<(usize, usize)>, u: usize, x: usize) -> (v: usize)
    requires
        reaches(arcs, u, x),
    ensures
        arcs.contains((v, x)),
        reaches_or_is(arcs, u, v),
{
    let w = choose|w: Seq<usize>| is_walk_between(arcs, w, u, x);
    let n = w.len();
    assert(arc_at(arcs, w, n - 2));
    let t = w.drop_last();
    if t.len() >= 2 {
        assert forall|i: int| 0 <= i < t.len() - 1 implies #[trigger] arc_at(arcs, t, i) by {
            assert(arc_at(arcs, w, i));
        }
        assert(is_walk_between(arcs, t, u, w[n - 2]));
    }
    w[n - 2]
}

/// A set that arcs do not leave holds all that can be reached from a member.
pub proof fn lemma_reaches_stays(
    arcs: Set<(usize, usize)>,
    s: Set<usize>,
    u: usize,
    v: usize,
)
    requires
        s.contains(u),
        reaches(arcs, u, v),
        forall|a: usize, b: usize| s.contains(a) && #[trigger] arcs.contains((a, b)) ==> s.contains(b),
    ensures
        s.contains(v),
{
    let w = choose|w: Seq<usize>| is_walk_between(arcs, w, u, v);
    lemma_walk_stays(arcs, s, w, w.len() - 1);
}

proof fn lemma_walk_stays(arcs: Set<(usize, usize)>, s: Set<usize>, w: Seq<usize>, k: int)
    requires
        is_walk(arcs, w),
        s.contains(w[0]),
        0 <= k < w.len(),
        forall|a: usize, b: usize| s.contains(a) && #[trigger] arcs.contains((a, b)) ==> s.contains(b),
    ensures
        s.contains(w[k]),
    decreases k,
{
    if k > 0 {
        lemma_walk_stays(arcs, s, w, k - 1);
        assert(arc_at(arcs, w, k - 1));
    }
}

/// A walk keeps within the ends of arcs.
pub proof fn lemma_reaches_ends(arcs: Set<(usize, usize)>, nodes: Set<usize>, u: usize, v: usize)
    requires
        reaches(arcs, u, v),
        forall|a: usize, b: usize| #[trigger]
            arcs.contains((a, b)) ==> nodes.contains(a) && nodes.contains(b),
    ensures
        nodes.contains(u),
        nodes.contains(v),
{
    lemma_reaches_first(arcs, u, v);
    lemma_reaches_last(arcs, u, v);
}

/// Along a topological order a walk only goes forward.
pub proof fn lemma_reaches_forward(
    order: Seq<usize>,
    nodes: Set<usize>,
    arcs: Set<(usize, usize)>,
    i: int,
    j: int,
)
    requires
        topological(order, nodes, arcs),
        0 <= i < order.len(),
        0 <= j < order.len(),
        reaches(arcs, order[i], order[j]),
    ensures
        i < j,
{
    let later = Set::new(|n: usize| exists|k: int| i < k < order.len() && order[k] == n);
    let v = lemma_reaches_first(arcs, order[i], order[j]);
    let m = choose|m: int| 0 <= m < order.len() && order[m] == v;
    assert(arcs.contains((order[i], order[m])));
    assert(later.contains(v));
    assert forall|a: usize, b: usize|
        later.contains(a) && #[trigger] arcs.contains((a, b)) implies later.contains(b) by {
        let ka = choose|k: int| i < k < order.len() && order[k] == a;
        let kb = choose|k: int| 0 <= k < order.len() && order[k] == b;
        assert(arcs.contains((order[ka], order[kb])));
        assert(ka < kb);
    }
    if v != order[j] {
        lemma_reaches_stays(arcs, later, v, order[j]);
    }
    let kj = choose|k: int| i < k < order.len() && order[k] == order[j];
    assert(kj == j);
}

/// A graph has a topological order only if it has no cycle.
pub proof fn lemma_topological_acyclic(
    order: Seq<usize>,
    nodes: Set<usize>,
    arcs: Set<(usize, usize)>,
)
    requires
        topological(order, nodes, arcs),
    ensures
        acyclic(arcs),
{
    assert forall|n: usize| !#[trigger] reaches(arcs, n, n) by {
        if reaches(arcs, n, n) {
            lemma_reaches_ends(arcs, nodes, n, n);
            assert(order.to_set().contains(n));
            let i = choose|i: int| 0 <= i < order.len() && order[i] == n;
            lemma_reaches_forward(order, nodes, arcs, i, i);
        }
    }
}

/// What can be reached can still be reached with more arcs.
pub proof fn lemma_reaches_more(
    arcs: Set<(usize, usize)>,
    more: Set<(usize, usize)>,
    u: usize,
    v: usize,
)
    requires
        reaches(arcs, u, v),
        arcs.subset_of(more),
    ensures
        reaches(more, u, v),
{
    let w = choose|w: Seq<usize>| is_walk_between(arcs, w, u, v);
    assert forall|i: int| 0 <= i < w.len() - 1 implies #[trigger] arc_at(more, w, i) by {
        assert(arc_at(arcs, w, i));
    }
    assert(is_walk_between(more, w, u, v));
}

/// With one arc more, a walk either does without it or comes to its source and goes on
/// from its target.
pub proof fn lemma_reaches_insert(
    arcs: Set<(usize, usize)>,
    s: usize,
    d: usize,
    u: usize,
    v: usize,
)
    requires
        reaches(arcs.insert((s, d)), u, v),
    ensures
        reaches(arcs, u, v) || (reaches_or_is(arcs, u, s) && reaches_or_is(arcs, d, v)),
{
    let more = arcs.insert((s, d));
    let there = Set::new(
        |x: usize| reaches(arcs, u, x) || (reaches_or_is(arcs, u, s) && reaches_or_is(arcs, d, x)),
    );
    let first = lemma_reaches_first(more, u, v);
    if arcs.contains((u, first)) {
        lemma_reaches_arc(arcs, u, first);
    }
    assert(there.contains(first));
    assert forall|a: usize, b: usize|
        there.contains(a) && #[trigger] more.contains((a, b)) implies there.contains(b) by {
        if arcs.contains((a, b)) {
            lemma_reaches_arc(arcs, a, b);
            if reaches(arcs, u, a) {
                lemma_reaches_join(arcs, u, a, b);
            } else if a != d {
                lemma_reaches_join(arcs, d, a, b);
            }
        }
    }
    if first != v {
        lemma_reaches_stays(more, there, first, v);
    }
}

/// An arc closes no cycle if its target is not its source and does not reach it. Nor does
/// it then change what reaches its source.
pub proof fn lemma_acyclic_insert(arcs: Set<(usize, usize)>, s: usize, d: usize)
    requires
        acyclic(arcs),
        s != d,
        !reaches(arcs, d, s),
    ensures
        acyclic(arcs.insert((s, d))),
        forall|u: usize| #[trigger] reaches(arcs.insert((s, d)), u, s) <==> reaches(arcs, u, s),
{
    let more = arcs.insert((s, d));
    assert forall|n: usize| !#[trigger] reaches(more, n, n) by {
        if reaches(more, n, n) {
            lemma_reaches_insert(arcs, s, d, n, n);
            if d != n && n != s {
                lemma_reaches_join(arcs, d, n, s);
            }
        }
    }
    assert forall|u: usize| #[trigger] reaches(more, u, s) <==> reaches(arcs, u, s) by {
        if reaches(more, u, s) {
            lemma_reaches_insert(arcs, s, d, u, s);
        }
        if reaches(arcs, u, s) {
            lemma_reaches_more(arcs, more, u, s);
        }
    }
}

/// One more edge is one more arc.
pub proof fn lemma_arcs_insert(edges: Map<usize, (usize, usize)>, e: usize, ends: (usize, usize))
    requires
        !edges.contains_key(e),
    ensures
        edges.insert(e, ends).values() == edges.values().insert(ends),
{
    let more = edges.insert(e, ends);
    assert forall|a: (usize, usize)| #[trigger] more.values().contains(a) <==> edges.values().insert(
        ends,
    ).contains(a) by {
        if more.values().contains(a) {
            let k = choose|k: usize| more.contains_key(k) && more[k] == a;
            if k != e {
                assert(edges.contains_key(k) && edges[k] == a);
            }
        }
        if edges.values().contains(a) {
            let k = choose|k: usize| edges.contains_key(k) && edges[k] == a;
            assert(more.contains_key(k) && more[k] == a);
        }
        if a == ends {
            assert(more.contains_key(e) && more[e] == a);
        }
    }
    assert(more.values() =~= edges.values().insert(ends));
}

/// A new node comes last, whatever arcs lead to it.
pub proof fn lemma_topological_push(
    order: Seq<usize>,
    nodes: Set<usize>,
    arcs: Set<(usize, usize)>,
    n: usize,
    more: Set<(usize, usize)>,
)
    requires
        topological(order, nodes, arcs),
        !nodes.contains(n),
        forall|u: usize, v: usize| #[trigger]
            more.contains((u, v)) ==> arcs.contains((u, v)) || (v == n && nodes.contains(u)),
    ensures
        topological(order.push(n), nodes.insert(n), more),
{
    let longer = order.push(n);
    let top = order.len() as int;
    assert(longer[top] == n);
    assert(forall|u: usize| #[trigger] order.contains(u) <==> nodes.contains(u)) by {
        assert(forall|u: usize| #[trigger] order.contains(u) <==> order.to_set().contains(u));
    }
    assert forall|u: usize| #[trigger] longer.contains(u) <==> nodes.insert(n).contains(u) by {
        if longer.contains(u) {
            let i = choose|i: int| 0 <= i < longer.len() && longer[i] == u;
            if i < top {
                assert(order.contains(order[i]));
            }
        }
        if nodes.contains(u) {
            assert(order.contains(u));
            let i = choose|i: int| 0 <= i < order.len() && order[i] == u;
            assert(longer[i] == u);
        }
    }
    assert(longer.to_set() =~= nodes.insert(n));
    assert(longer.no_duplicates()) by {
        assert forall|i: int, j: int| 0 <= i < j < longer.len() implies longer[i] != longer[j] by {
            assert(order.contains(order[i]));
        }
    }
    assert forall|u: usize, v: usize| #[trigger] more.contains((u, v)) implies longer.contains(u)
        && longer.contains(v) by {
        if arcs.contains((u, v)) {
            assert(order.contains(u) && order.contains(v));
        }
    }
    assert forall|i: int, j: int|
        0 <= i < longer.len() && 0 <= j < longer.len() && #[trigger] more.contains(
            (longer[i], longer[j]),
        ) implies i < j by {
        if arcs.contains((longer[i], longer[j])) {
            assert(order.contains(longer[i]) && order.contains(longer[j]));
            assert(i < top && j < top);
            assert(arcs.contains((order[i], order[j])));
        } else {
            assert(j == top) by {
                if j < top {
                    assert(order.contains(order[j]));
                }
            }
            assert(i < top) by {
                if i == top {
                    assert(nodes.contains(longer[i]));
                }
            }
        }
    }
}

} // verus!
