//! The graph of host operations that the runtime executes.

use crate::digraph::{
    add_edge, add_node, edge_endpoints, edge_indices, empty_graph, has_edge, node_indices,
    toposort, DiGraph,
};
#[allow(unused_imports)]
use crate::digraph::{
    acyclic, arc_at, arcs, graph_edges, graph_nodes, is_walk_between, lemma_arcs_insert, reaches,
    topological,
};
#[allow(unused_imports)]
use crate::host_plan::{
    hosted, law_consumers_follow, law_feeds_precede, new_edges_once, plan_nodes, precedes,
    producers, waits, CudaGraphPlan, KernelInfo,
};
#[allow(unused_imports)]
use crate::inputs::incoming_sources;
use crate::inputs::ordered_inputs;
use std::collections::{HashMap, HashSet};
use vstd::prelude::*;

verus! {

broadcast use vstd::std_specs::hash::group_hash_axioms;

/// A host operation that can be executed.
#[derive(Debug)]
pub struct ExecutableHostOp {
    /// The nodes that it reads, in the order of its edges.
    pub inputs: Vec<usize>,
    /// Its own node.
    pub output: usize,
}

/// The host operations of an operation graph and their order.
#[derive(Debug)]
pub struct ExecGraph {
    /// One node for each host operation, one edge for each dependency.
    pub graph: DiGraph,
    /// The operation of each node.
    pub ops: HashMap<usize, ExecutableHostOp>,
    /// From the node of a host operation to its node here.
    pub node_to_exec: HashMap<usize, usize>,
}

/// An arc joins two host operations; `m` maps it to an arc of the execution graph.
pub open spec fn maps_to(
    arcs: Set<(usize, usize)>,
    m: Map<usize, usize>,
    a: usize,
    b: usize,
) -> bool {
    exists|s: usize, t: usize|
        #[trigger] arcs.contains((s, t)) && m.contains_key(s) && m.contains_key(t) && m[s] == a
            && m[t] == b && a != b
}

/// Every host operation has a node of its own.
pub open spec fn exec_nodes_of(
    nodes: Set<usize>,
    edges: Map<usize, (usize, usize)>,
    hosts: Set<usize>,
    ops: Map<usize, ExecutableHostOp>,
    m: Map<usize, usize>,
    exec_nodes: Set<usize>,
) -> bool {
    &&& forall|h: usize| #[trigger] m.contains_key(h) <==> nodes.contains(h) && hosts.contains(h)
    &&& forall|h: usize, i: usize|
        #[trigger] m.contains_key(h) && #[trigger] m.contains_key(i) && m[h] == m[i] ==> h == i
    &&& forall|h: usize| #[trigger]
        m.contains_key(h) ==> exec_nodes.contains(m[h]) && ops.contains_key(m[h]) && ops[m[h]].output
            == h && ops[m[h]].inputs@ == incoming_sources(edges, h)
    &&& forall|x: usize| #[trigger]
        exec_nodes.contains(x) ==> ops.contains_key(x) && m.contains_key(ops[x].output)
            && m[ops[x].output] == x
    &&& forall|x: usize| #[trigger] ops.contains_key(x) ==> exec_nodes.contains(x)
}

/// `e` is the execution graph of the host operations: an arc, once, for each arc
/// between two of them.
pub open spec fn exec_graph_of(
    nodes: Set<usize>,
    edges: Map<usize, (usize, usize)>,
    hosts: Set<usize>,
    e: ExecGraph,
) -> bool {
    &&& exec_nodes_of(nodes, edges, hosts, e.ops@, e.node_to_exec@, graph_nodes(e.graph))
    &&& forall|a: usize, b: usize| #[trigger]
        arcs(e.graph).contains((a, b)) <==> maps_to(edges.values(), e.node_to_exec@, a, b)
    &&& new_edges_once(Map::empty(), graph_edges(e.graph))
}

/// Ascending numbers below a bound are no more than the bound.
pub proof fn lemma_rising_len(s: Seq<usize>, bound: nat)
    requires
        forall|i: int, j: int| 0 <= i < j < s.len() ==> s[i] < s[j],
        forall|i: int| 0 <= i < s.len() ==> #[trigger] s[i] < bound,
    ensures
        s.len() <= bound,
    decreases bound,
{
    if s.len() > 0 {
        let last = s[s.len() - 1];
        let front = s.drop_last();
        assert(bound > 0);
        assert forall|i: int| 0 <= i < front.len() implies #[trigger] front[i] < bound - 1 by {
            assert(s[i] < s[s.len() - 1]);
        }
        lemma_rising_len(front, (bound - 1) as nat);
    }
}

/// The host operations among the nodes, each with a node in a graph without edges.
fn exec_nodes(g: &DiGraph, hosts: &HashSet<usize>) -> (e: ExecGraph)
    ensures
        exec_nodes_of(
            graph_nodes(*g),
            graph_edges(*g),
            hosts@,
            e.ops@,
            e.node_to_exec@,
            graph_nodes(e.graph),
        ),
        graph_edges(e.graph).dom() == Set::<usize>::empty(),
{
    let nodes = node_indices(g);
    let mut graph = empty_graph();
    let mut ops: HashMap<usize, ExecutableHostOp> = HashMap::new();
    let mut node_to_exec: HashMap<usize, usize> = HashMap::new();
    let mut i: usize = 0;
    proof {
        lemma_rising_len(nodes@, u32::MAX as nat);
    }
    while i < nodes.len()
        invariant
            nodes@.len() <= u32::MAX,
            nodes@.to_set() == graph_nodes(*g),
            forall|a: int, b: int| 0 <= a < b < nodes@.len() ==> nodes@[a] < nodes@[b],
            i <= nodes@.len(),
            graph_edges(graph).dom() == Set::<usize>::empty(),
            graph_nodes(graph).finite(),
            graph_nodes(graph).len() <= i,
            exec_nodes_of(
                nodes@.take(i as int).to_set(),
                graph_edges(*g),
                hosts@,
                ops@,
                node_to_exec@,
                graph_nodes(graph),
            ),
        decreases nodes@.len() - i,
    {
        let h = nodes[i];
        let ghost done = nodes@.take(i as int);
        let ghost next = nodes@.take(i + 1);
        proof {
            assert(next =~= done.push(h));
            done.lemma_push_to_set_commute(h);
            assert(nodes@.to_set().contains(h));
            assert(!done.to_set().contains(h)) by {
                if done.contains(h) {
                    let k = choose|k: int| 0 <= k < done.len() && done[k] == h;
                    assert(nodes@[k] < nodes@[i as int]);
                }
            }
        }
        if hosts.contains(&h) {
            let inputs = ordered_inputs(g, h);
            let ghost m0 = node_to_exec@;
            let ghost ops0 = ops@;
            let ghost x0 = graph_nodes(graph);
            let added = add_node(&mut graph);
            if let Some(x) = added {
                node_to_exec.insert(h, x);
                ops.insert(x, ExecutableHostOp { inputs, output: h });
                proof {
                    let m = node_to_exec@;
                    assert forall|a: usize| #[trigger] m.contains_key(a) implies graph_nodes(
                        graph,
                    ).contains(m[a]) && ops@.contains_key(m[a]) && ops@[m[a]].output == a
                        && ops@[m[a]].inputs@ == incoming_sources(graph_edges(*g), a) by {
                        if a != h {
                            assert(m0.contains_key(a));
                            assert(x0.contains(m0[a]));
                        }
                    }
                    assert forall|a: usize, b: usize|
                        #[trigger] m.contains_key(a) && #[trigger] m.contains_key(b) && m[a]
                            == m[b] implies a == b by {
                        if a != h {
                            assert(m0.contains_key(a) && x0.contains(m0[a]));
                        }
                        if b != h {
                            assert(m0.contains_key(b) && x0.contains(m0[b]));
                        }
                    }
                    assert forall|y: usize| #[trigger] graph_nodes(graph).contains(y) implies ops@.contains_key(
                    y) && m.contains_key(ops@[y].output) && m[ops@[y].output] == y by {
                        if y != x {
                            assert(x0.contains(y));
                            assert(m0.contains_key(ops0[y].output));
                        }
                    }
                }
            } else {
                assert(false);
            }
        }
        i = i + 1;
    }
    proof {
        assert(nodes@.take(nodes@.len() as int) =~= nodes@);
    }
    ExecGraph { graph, ops, node_to_exec }
}

/// The execution graph of an operation graph.
pub fn build_exec_graph(g: &DiGraph, hosts: &HashSet<usize>) -> (e: ExecGraph)
    ensures
        exec_graph_of(graph_nodes(*g), graph_edges(*g), hosts@, e),
{
    let e = exec_nodes(g, hosts);
    let ExecGraph { mut graph, ops, node_to_exec } = e;
    let ghost exec_set = graph_nodes(graph);
    let ghost m = node_to_exec@;
    let ghost edges = graph_edges(*g);
    let ids = edge_indices(g);
    proof {
        lemma_rising_len(ids@, u32::MAX as nat);
    }
    let mut i: usize = 0;
    while i < ids.len()
        invariant
            ids@.len() <= u32::MAX,
            ids@.to_set() == edges.dom(),
            edges == graph_edges(*g),
            m == node_to_exec@,
            exec_nodes_of(graph_nodes(*g), edges, hosts@, ops@, m, exec_set),
            i <= ids@.len(),
            graph_nodes(graph) == exec_set,
            graph_edges(graph).dom().finite(),
            graph_edges(graph).dom().len() <= i,
            new_edges_once(Map::empty(), graph_edges(graph)),
            forall|a: usize, b: usize| #[trigger]
                arcs(graph).contains((a, b)) <==> exists|k: int|
                    0 <= k < i && joins(edges, m, #[trigger] ids@[k], a, b),
        decreases ids@.len() - i,
    {
        let id = ids[i];
        assert(ids@.to_set().contains(id));
        let ghost g1 = graph;
        if let Some((s, t)) = edge_endpoints(g, id) {
            if let (Some(xs), Some(xt)) = (node_to_exec.get(&s), node_to_exec.get(&t)) {
                let (a, b): (usize, usize) = (*xs, *xt);
                if a != b && !has_edge(&graph, a, b) {
                    let ghost e1 = graph_edges(graph);
                    let added = add_edge(&mut graph, a, b);
                    proof {
                        assert(added is Some);
                        let e = added->0;
                        let e2 = graph_edges(graph);
                        lemma_arcs_insert(e1, e, (a, b));
                        assert forall|x: usize, y: usize|
                            e2.contains_key(x) && e2.contains_key(y) && #[trigger] e2[x]
                                == #[trigger] e2[y] implies x == y by {
                            if x != e && y == e {
                                assert(e1.values().contains(e1[x]));
                            }
                            if x == e && y != e {
                                assert(e1.values().contains(e1[y]));
                            }
                        }
                        assert(e2.dom() =~= e1.dom().insert(e));
                    }
                }
            }
        }
        proof {
            assert forall|a: usize, b: usize| #[trigger] arcs(graph).contains((a, b)) <==> exists|
                k: int,
            | 0 <= k < i + 1 && joins(edges, m, #[trigger] ids@[k], a, b) by {
                assert(arcs(graph).contains((a, b)) <==> arcs(g1).contains((a, b)) || joins(
                    edges,
                    m,
                    ids@[i as int],
                    a,
                    b,
                ));
            }
        }
        i = i + 1;
    }
    proof {
        assert forall|a: usize, b: usize| #[trigger] arcs(graph).contains((a, b)) <==> maps_to(
            edges.values(),
            m,
            a,
            b,
        ) by {
            if arcs(graph).contains((a, b)) {
                let k = choose|k: int| 0 <= k < ids@.len() && joins(edges, m, #[trigger] ids@[k], a, b);
                let (s, t) = edges[ids@[k]];
                assert(ids@.to_set().contains(ids@[k]));
                assert(edges.values().contains((s, t)));
            }
            if maps_to(edges.values(), m, a, b) {
                let (s, t) = choose|s: usize, t: usize|
                    #[trigger] edges.values().contains((s, t)) && m.contains_key(s)
                        && m.contains_key(t) && m[s] == a && m[t] == b && a != b;
                let e = choose|e: usize| edges.contains_key(e) && edges[e] == (s, t);
                assert(ids@.to_set().contains(e));
                let k = choose|k: int| 0 <= k < ids@.len() && ids@[k] == e;
                assert(joins(edges, m, ids@[k], a, b));
            }
        }
    }
    ExecGraph { graph, ops, node_to_exec }
}

/// Edge `e` joins two host operations whose nodes here are `a` and `b`.
spec fn joins(
    edges: Map<usize, (usize, usize)>,
    m: Map<usize, usize>,
    e: usize,
    a: usize,
    b: usize,
) -> bool {
    let (s, t) = edges[e];
    m.contains_key(s) && m.contains_key(t) && m[s] == a && m[t] == b && a != b
}

/// The order in which the host operations are executed, or a node on a cycle.
pub fn execution_order(e: &ExecGraph) -> (r: Result<Vec<usize>, usize>)
    ensures
        r matches Ok(order) ==> topological(order@, graph_nodes(e.graph), arcs(e.graph)),
        r matches Err(n) ==> reaches(arcs(e.graph), n, n),
{
    toposort(&e.graph)
}

/// A walk between host operations here is one in the operation graph.
proof fn lemma_exec_walk(
    nodes: Set<usize>,
    edges: Map<usize, (usize, usize)>,
    hosts: Set<usize>,
    e: ExecGraph,
    a: usize,
    b: usize,
)
    requires
        exec_graph_of(nodes, edges, hosts, e),
        reaches(arcs(e.graph), a, b),
    ensures
        reaches(edges.values(), e.ops@[a].output, e.ops@[b].output),
{
    let w = choose|w: Seq<usize>| is_walk_between(arcs(e.graph), w, a, b);
    let v = Seq::new(w.len(), |i: int| e.ops@[w[i]].output);
    let m = e.node_to_exec@;
    assert forall|i: int| 0 <= i < v.len() - 1 implies #[trigger] arc_at(edges.values(), v, i) by {
        assert(arc_at(arcs(e.graph), w, i));
        assert(maps_to(edges.values(), m, w[i], w[i + 1]));
        let (s, t) = choose|s: usize, t: usize|
            #[trigger] edges.values().contains((s, t)) && m.contains_key(s) && m.contains_key(t)
                && m[s] == w[i] && m[t] == w[i + 1] && w[i] != w[i + 1];
        assert(e.ops@[m[s]].output == s && e.ops@[m[t]].output == t);
    }
    assert(is_walk_between(edges.values(), v, e.ops@[a].output, e.ops@[b].output));
}

/// The execution graph of an operation graph without cycles has none.
pub proof fn law_exec_graph_is_acyclic(
    nodes: Set<usize>,
    edges: Map<usize, (usize, usize)>,
    hosts: Set<usize>,
    e: ExecGraph,
)
    requires
        exec_graph_of(nodes, edges, hosts, e),
        acyclic(edges.values()),
    ensures
        acyclic(arcs(e.graph)),
{
    assert forall|n: usize| !#[trigger] reaches(arcs(e.graph), n, n) by {
        if reaches(arcs(e.graph), n, n) {
            lemma_exec_walk(nodes, edges, hosts, e, n, n);
            assert(reaches(edges.values(), e.ops@[n].output, e.ops@[n].output));
        }
    }
}

/// A host operation runs after every host operation that it reads.
pub proof fn law_inputs_execute_first(
    nodes: Set<usize>,
    edges: Map<usize, (usize, usize)>,
    hosts: Set<usize>,
    e: ExecGraph,
    order: Seq<usize>,
    i: int,
    j: int,
)
    requires
        exec_graph_of(nodes, edges, hosts, e),
        topological(order, graph_nodes(e.graph), arcs(e.graph)),
        0 <= i < order.len(),
        0 <= j < order.len(),
        i != j,
        e.ops@[order[j]].inputs@.contains(e.ops@[order[i]].output),
    ensures
        i < j,
{
    let m = e.node_to_exec@;
    assert(order.to_set().contains(order[i]) && order.to_set().contains(order[j]));
    let s = e.ops@[order[i]].output;
    let t = e.ops@[order[j]].output;
    assert(m.contains_key(s) && m.contains_key(t) && m[s] == order[i] && m[t] == order[j]);
    assert(e.ops@[m[t]].inputs@ == incoming_sources(edges, t));
    crate::inputs::lemma_incoming_sources_contains(edges, t, s);
    assert(edges.values().contains((s, t)));
    assert(maps_to(edges.values(), m, order[i], order[j]));
    assert(arcs(e.graph).contains((order[i], order[j])));
}

/// Of two host operations with an arc between them, the source runs first.
proof fn lemma_arc_executes_first(
    nodes: Set<usize>,
    edges: Map<usize, (usize, usize)>,
    hosts: Set<usize>,
    e: ExecGraph,
    order: Seq<usize>,
    s: usize,
    t: usize,
)
    requires
        exec_graph_of(nodes, edges, hosts, e),
        topological(order, graph_nodes(e.graph), arcs(e.graph)),
        edges.values().contains((s, t)),
        s != t,
        e.node_to_exec@.contains_key(s),
        e.node_to_exec@.contains_key(t),
    ensures
        precedes(order, e.node_to_exec@[s], e.node_to_exec@[t]),
{
    let m = e.node_to_exec@;
    assert(graph_nodes(e.graph).contains(m[s]) && graph_nodes(e.graph).contains(m[t]));
    assert(maps_to(edges.values(), m, m[s], m[t]));
    assert(arcs(e.graph).contains((m[s], m[t])));
    let i = choose|i: int| 0 <= i < order.len() && order[i] == m[s];
    let j = choose|j: int| 0 <= j < order.len() && order[j] == m[t];
    assert(arcs(e.graph).contains((order[i], order[j])));
}

/// What reads the output of a kernel runs after the CUDA graph that the kernel is in,
/// whatever order of execution is chosen: `d` is a host operation `c` that reads the output
/// itself, or the CUDA graph with the kernel `c` that does. This holds unless the CUDA graph
/// itself waits for `d`.
pub proof fn law_consumers_execute_after(
    nodes0: Set<usize>,
    edges0: Map<usize, (usize, usize)>,
    infos: Map<usize, KernelInfo>,
    hosts0: Set<usize>,
    mega: Map<usize, Vec<usize>>,
    blocks: Seq<Set<usize>>,
    plans: Seq<CudaGraphPlan>,
    nodes: Set<usize>,
    edges: Map<usize, (usize, usize)>,
    hosts: Set<usize>,
    e: ExecGraph,
    order: Seq<usize>,
    k: int,
    u: usize,
    c: usize,
    d: usize,
)
    requires
        hosted(nodes0, edges0, infos, hosts0, mega, blocks, plans, nodes, edges),
        exec_graph_of(nodes, edges, hosts, e),
        topological(order, graph_nodes(e.graph), arcs(e.graph)),
        0 <= k < plans.len(),
        producers(blocks[k], mega).contains(u),
        !producers(blocks[k], mega).contains(c),
        edges0.values().contains((u, c)),
        waits(hosts0, mega, blocks, plan_nodes(plans), k, c, d),
        d != plans[k].node,
        !reaches(edges.values(), d, plans[k].node),
        e.node_to_exec@.contains_key(plans[k].node),
        e.node_to_exec@.contains_key(d),
    ensures
        precedes(order, e.node_to_exec@[plans[k].node], e.node_to_exec@[d]),
{
    law_consumers_follow(
        nodes0,
        edges0,
        infos,
        hosts0,
        mega,
        blocks,
        plans,
        nodes,
        edges,
        k,
        u,
        c,
        d,
    );
    lemma_arc_executes_first(nodes, edges, hosts, e, order, plans[k].node, d);
}

/// A CUDA graph runs after every host operation that one of its kernels reads, whatever
/// order of execution is chosen.
pub proof fn law_feeds_execute_before(
    nodes0: Set<usize>,
    edges0: Map<usize, (usize, usize)>,
    infos: Map<usize, KernelInfo>,
    hosts0: Set<usize>,
    mega: Map<usize, Vec<usize>>,
    blocks: Seq<Set<usize>>,
    plans: Seq<CudaGraphPlan>,
    nodes: Set<usize>,
    edges: Map<usize, (usize, usize)>,
    hosts: Set<usize>,
    e: ExecGraph,
    order: Seq<usize>,
    k: int,
    s: usize,
    n: usize,
)
    requires
        hosted(nodes0, edges0, infos, hosts0, mega, blocks, plans, nodes, edges),
        exec_graph_of(nodes, edges, hosts, e),
        topological(order, graph_nodes(e.graph), arcs(e.graph)),
        0 <= k < plans.len(),
        blocks[k].contains(n),
        !blocks[k].contains(s),
        edges0.values().contains((s, n)),
        nodes0.contains(s),
        e.node_to_exec@.contains_key(s),
        e.node_to_exec@.contains_key(plans[k].node),
    ensures
        precedes(order, e.node_to_exec@[s], e.node_to_exec@[plans[k].node]),
{
    law_feeds_precede(
        nodes0,
        edges0,
        infos,
        hosts0,
        mega,
        blocks,
        plans,
        nodes,
        edges,
        k,
        s,
        n,
    );
    assert(plan_nodes(plans)[k] == plans[k].node);
    assert(plan_nodes(plans).contains(plans[k].node));
    lemma_arc_executes_first(nodes, edges, hosts, e, order, s, plans[k].node);
}

/// Every host operation of the graph has one node of its own, with the operation's inputs in
/// their order; nothing else has one. And one waits for another if, and only if, there is an
/// edge from that one to it.
pub proof fn law_host_operations_and_their_edges(
    nodes: Set<usize>,
    edges: Map<usize, (usize, usize)>,
    hosts: Set<usize>,
    e: ExecGraph,
    g: usize,
    h: usize,
    x: usize,
)
    requires
        exec_graph_of(nodes, edges, hosts, e),
        nodes.contains(g) && hosts.contains(g),
        nodes.contains(h) && hosts.contains(h),
        g != h,
    ensures
        e.node_to_exec@.contains_key(g) && e.node_to_exec@.contains_key(h),
        ({
            let (a, b) = (e.node_to_exec@[g], e.node_to_exec@[h]);
            &&& a != b && graph_nodes(e.graph).contains(a) && graph_nodes(e.graph).contains(b)
            &&& e.ops@[a].output == g && e.ops@[b].output == h
            &&& e.ops@[b].inputs@ == incoming_sources(edges, h)
            &&& arcs(e.graph).contains((a, b)) <==> exists|k: usize| #[trigger]
                edges.contains_key(k) && edges[k] == (g, h)
        }),
        graph_nodes(e.graph).contains(x) ==> nodes.contains(e.ops@[x].output) && hosts.contains(
            e.ops@[x].output,
        ),
{
    let m = e.node_to_exec@;
    let (a, b) = (m[g], m[h]);
    assert(m.contains_key(g) && m.contains_key(h));
    if arcs(e.graph).contains((a, b)) {
        assert(maps_to(edges.values(), m, a, b));
        let (s, t) = choose|s: usize, t: usize|
            #[trigger] edges.values().contains((s, t)) && m.contains_key(s) && m.contains_key(t)
                && m[s] == a && m[t] == b && a != b;
        assert(s == g && t == h);
        let k = choose|k: usize| #[trigger] edges.dom().contains(k) && edges[k] == (s, t);
        assert(edges.contains_key(k) && edges[k] == (g, h));
    }
    if exists|k: usize| #[trigger] edges.contains_key(k) && edges[k] == (g, h) {
        let k = choose|k: usize| #[trigger] edges.contains_key(k) && edges[k] == (g, h);
        assert(edges.dom().contains(k) && edges[k] == (g, h));
        assert(edges.values().contains((g, h)));
        assert(maps_to(edges.values(), m, a, b));
    }
}

} // verus!
