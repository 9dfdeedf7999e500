//! From kernels to host operations.
//!
//! The kernels of an operation graph are partitioned into convex blocks. Each block
//! becomes one CUDA graph: a new node of the operation graph, with edges from what
//! the block reads and to what reads the block. The kernels keep their nodes.

#[allow(unused_imports)]
use crate::components::arcs_within;
use crate::components::live_marked;
use crate::digraph::{
    add_edge, add_node, has_edge, node_indices, predecessors, successors, toposort, DiGraph,
};
#[allow(unused_imports)]
use crate::digraph::{
    acyclic, arcs, graph_edges, graph_nodes, lemma_acyclic_insert, lemma_arcs_insert,
    lemma_reaches_arc, lemma_reaches_join, lemma_reaches_more, lemma_topological_acyclic,
    lemma_topological_push, reaches, topological,
};
#[allow(unused_imports)]
use crate::dims::ascending;
use crate::dims::DimSet;
use crate::inputs::ordered_inputs;
#[allow(unused_imports)]
use crate::inputs::{
    incoming_sources, lemma_incoming_sources_contains, lemma_incoming_sources_insert,
};
use crate::node_list::NodeList;
use crate::partition::partition_marked_convex;
#[allow(unused_imports)]
use crate::partition::{convex_partition, set_views, swept};
use crate::reachability::{ancestors, positions};
#[allow(unused_imports)]
use crate::reachability::positions_of;
use crate::text::{blank, contains_text, same_text};
#[allow(unused_imports)]
use crate::text::{has_text, is_blank, is_white_space, stands_at};
use std::collections::{HashMap, HashSet};
use vstd::prelude::*;

verus! {

broadcast use vstd::std_specs::hash::group_hash_axioms;

/// What the plan needs to know of a compiled kernel.
#[derive(Debug)]
pub struct KernelInfo {
    /// The dynamic dimensions in its launch shape and its output size.
    pub dyn_vars: Vec<char>,
    /// The size of its output in bytes, where no dynamic dimension is needed to
    /// tell it.
    pub static_bytes: Option<usize>,
    /// The generated source.
    pub source: String,
    /// The name for profiling.
    pub name: String,
}

/// A kernel in its CUDA graph.
#[derive(Debug)]
pub struct PlannedKernel {
    /// The kernel's node.
    pub node: usize,
    /// The nodes whose buffers it reads.
    pub inputs: Vec<usize>,
}

/// One CUDA graph in place of a block of kernels.
#[derive(Debug)]
pub struct CudaGraphPlan {
    /// The node that stands for the graph.
    pub node: usize,
    /// The kernels in topological order.
    pub kernels: Vec<PlannedKernel>,
    /// The dynamic dimensions in use, in the order of their buffer.
    pub dyn_dims_order: Vec<char>,
    /// All nodes whose buffers the graph touches.
    pub buffer_nodes: Vec<usize>,
    /// The kernels that have an output buffer.
    pub sized_nodes: Vec<usize>,
    /// The kernels whose output buffer must be zeroed first.
    pub zero_output_nodes: Vec<usize>,
}

/// Why no plan was made.
#[derive(Debug, Clone, Copy)]
pub enum PlanError {
    /// The graph has a cycle through this node.
    Cycle(usize),
    /// The graph has no free node or edge index left.
    Full,
}

/// The kernel has an output buffer: its size is not known to be zero.
pub open spec fn has_output(k: KernelInfo) -> bool {
    k.static_bytes != Some(0usize)
}

/// The kernel's output buffer must be zeroed before it runs: it accumulates, it is
/// a megakernel, or nothing is known of its source.
pub open spec fn needs_zero(k: KernelInfo) -> bool {
    has_output(k) && (is_blank(k.source@) || has_text(k.source@, "atomicAdd"@) || k.name@
        == "Megakernel"@)
}

/// The block operations that a megakernel runs; none for another kernel.
pub open spec fn block_ops(mega: Map<usize, Vec<usize>>, n: usize) -> Seq<usize> {
    if mega.contains_key(n) {
        mega[n]@
    } else {
        Seq::empty()
    }
}

/// What a kernel reads: the sources of its edges, then its block operations.
pub open spec fn kernel_inputs(
    edges: Map<usize, (usize, usize)>,
    mega: Map<usize, Vec<usize>>,
    n: usize,
) -> Seq<usize> {
    incoming_sources(edges, n) + block_ops(mega, n)
}

/// The nodes of planned kernels.
pub open spec fn kernel_nodes(kernels: Seq<PlannedKernel>) -> Seq<usize> {
    kernels.map_values(|k: PlannedKernel| k.node)
}

/// The kernels of a block, each once, sources before targets, with their inputs.
pub open spec fn kernels_planned(
    kernels: Seq<PlannedKernel>,
    block: Set<usize>,
    edges: Map<usize, (usize, usize)>,
    mega: Map<usize, Vec<usize>>,
) -> bool {
    let ks = kernel_nodes(kernels);
    &&& ks.no_duplicates()
    &&& ks.to_set() == block
    &&& forall|i: int, j: int|
        0 <= i < ks.len() && 0 <= j < ks.len() && #[trigger] edges.values().contains(
            (ks[i], ks[j]),
        ) ==> i < j
    &&& forall|i: int|
        0 <= i < kernels.len() ==> (#[trigger] kernels[i]).inputs@ == kernel_inputs(
            edges,
            mega,
            kernels[i].node,
        )
}

/// Some kernel uses dimension `d`.
pub open spec fn uses_dim(kernels: Seq<PlannedKernel>, infos: Map<usize, KernelInfo>, d: char) -> bool {
    exists|i: int|
        0 <= i < kernels.len() && infos[(#[trigger] kernels[i]).node].dyn_vars@.contains(d)
}

/// Some kernel reads node `n`.
pub open spec fn reads_node(kernels: Seq<PlannedKernel>, n: usize) -> bool {
    exists|i: int| 0 <= i < kernels.len() && (#[trigger] kernels[i]).inputs@.contains(n)
}

/// `plan` is the CUDA graph of `block`.
pub open spec fn plan_for(
    plan: CudaGraphPlan,
    block: Set<usize>,
    edges: Map<usize, (usize, usize)>,
    infos: Map<usize, KernelInfo>,
    mega: Map<usize, Vec<usize>>,
) -> bool {
    let ks = kernel_nodes(plan.kernels@);
    &&& kernels_planned(plan.kernels@, block, edges, mega)
    &&& ascending(plan.dyn_dims_order@)
    &&& forall|d: char| #[trigger]
        plan.dyn_dims_order@.contains(d) <==> uses_dim(plan.kernels@, infos, d)
    &&& plan.sized_nodes@ == ks.filter(|n: usize| has_output(infos[n]))
    &&& plan.zero_output_nodes@ == ks.filter(|n: usize| needs_zero(infos[n]))
    &&& plan.buffer_nodes@.no_duplicates()
    &&& forall|n: usize| #[trigger]
        plan.buffer_nodes@.contains(n) <==> plan.sized_nodes@.contains(n) || reads_node(
            plan.kernels@,
            n,
        )
}

/// Whether the kernel's output buffer must be zeroed, given that it has one.
fn requires_zero(k: &KernelInfo) -> (r: bool)
    ensures
        r == (is_blank(k.source@) || has_text(k.source@, "atomicAdd"@) || k.name@ == "Megakernel"@),
{
    if blank(k.source.as_str()) {
        true
    } else {
        contains_text(k.source.as_str(), "atomicAdd") || same_text(k.name.as_str(), "Megakernel")
    }
}

proof fn lemma_filter_push(s: Seq<usize>, n: usize, pred: spec_fn(usize) -> bool)
    ensures
        s.push(n).filter(pred) == if pred(n) {
            s.filter(pred).push(n)
        } else {
            s.filter(pred)
        },
{
    reveal(Seq::filter);
    assert(s.push(n).drop_last() =~= s);
}

/// The nodes of `order` that lie in `block`.
fn nodes_in(order: &Vec<usize>, block: &HashSet<usize>) -> (r: Vec<usize>)
    ensures
        r@ == order@.filter(|n: usize| block@.contains(n)),
{
    let ghost pred = |n: usize| block@.contains(n);
    let mut r: Vec<usize> = Vec::new();
    let mut i: usize = 0;
    proof {
        reveal(Seq::filter);
        assert(order@.take(0) =~= Seq::empty());
    }
    while i < order.len()
        invariant
            i <= order@.len(),
            pred == (|n: usize| block@.contains(n)),
            r@ == order@.take(i as int).filter(pred),
        decreases order@.len() - i,
    {
        let n = order[i];
        proof {
            assert(order@.take(i + 1) =~= order@.take(i as int).push(n));
            lemma_filter_push(order@.take(i as int), n, pred);
        }
        if block.contains(&n) {
            r.push(n);
        }
        i = i + 1;
    }
    assert(order@.take(order@.len() as int) =~= order@);
    r
}

/// The part of a topological order within a block is in order.
proof fn lemma_block_order(
    order: Seq<usize>,
    nodes: Set<usize>,
    arcs: Set<(usize, usize)>,
    block: Set<usize>,
    ks: Seq<usize>,
)
    requires
        topological(order, nodes, arcs),
        block.subset_of(nodes),
        ks == order.filter(|n: usize| block.contains(n)),
    ensures
        ks.no_duplicates(),
        ks.to_set() == block,
        forall|i: int, j: int|
            0 <= i < ks.len() && 0 <= j < ks.len() && #[trigger] arcs.contains((ks[i], ks[j]))
                ==> i < j,
{
    let pred = |n: usize| block.contains(n);
    let ps = crate::partition::lemma_filter_positions(order, pred);
    assert forall|i: int, j: int| 0 <= i < j < ks.len() implies ks[i] != ks[j] by {
        assert(ps[i] < ps[j]);
    }
    assert forall|n: usize| #[trigger] ks.contains(n) <==> block.contains(n) by {
        if ks.contains(n) {
            let k = choose|k: int| 0 <= k < ks.len() && ks[k] == n;
            assert(pred(order[ps[k]]));
        }
        if block.contains(n) {
            assert(order.to_set().contains(n));
            let i = choose|i: int| 0 <= i < order.len() && order[i] == n;
            assert(pred(order[i]));
            let k = choose|k: int| 0 <= k < ps.len() && ps[k] == i;
            assert(ks[k] == n);
        }
    }
    assert(ks.to_set() =~= block);
    assert forall|i: int, j: int|
        0 <= i < ks.len() && 0 <= j < ks.len() && #[trigger] arcs.contains((ks[i], ks[j])) implies i
        < j by {
        assert(arcs.contains((order[ps[i]], order[ps[j]])));
        assert(ps[i] < ps[j]);
        if j < i {
            assert(ps[j] < ps[i]);
        }
    }
}

/// The plan of one block, given a topological order of the whole graph.
#[verifier::rlimit(50)]
fn plan_block(
    g: &DiGraph,
    infos: &HashMap<usize, KernelInfo>,
    mega: &HashMap<usize, Vec<usize>>,
    block: &HashSet<usize>,
    order: &Vec<usize>,
    node: usize,
) -> (plan: CudaGraphPlan)
    requires
        topological(order@, graph_nodes(*g), arcs(*g)),
        block@.subset_of(graph_nodes(*g)),
        block@.subset_of(infos@.dom()),
    ensures
        plan.node == node,
        plan_for(plan, block@, graph_edges(*g), infos@, mega@),
{
    let ghost edges = graph_edges(*g);
    let ks = nodes_in(order, block);
    proof {
        lemma_block_order(order@, graph_nodes(*g), arcs(*g), block@, ks@);
    }
    let mut kernels: Vec<PlannedKernel> = Vec::new();
    let mut dims = DimSet::new();
    let mut touched = NodeList::new();
    let mut sized: Vec<usize> = Vec::new();
    let mut zeroed: Vec<usize> = Vec::new();
    let ghost sized_pred = |n: usize| has_output(infos@[n]);
    let ghost zero_pred = |n: usize| needs_zero(infos@[n]);
    let mut i: usize = 0;
    proof {
        reveal(Seq::filter);
        assert(ks@.take(0) =~= Seq::empty());
    }
    while i < ks.len()
        invariant
            edges == graph_edges(*g),
            ks@.to_set() == block@,
            block@.subset_of(graph_nodes(*g)),
            block@.subset_of(infos@.dom()),
            sized_pred == (|n: usize| has_output(infos@[n])),
            zero_pred == (|n: usize| needs_zero(infos@[n])),
            i <= ks@.len(),
            kernels@.len() == i,
            forall|k: int|
                0 <= k < i ==> (#[trigger] kernels@[k]).node == ks@[k] && kernels@[k].inputs@
                    == kernel_inputs(edges, mega@, ks@[k]),
            dims.wf(),
            forall|d: char| #[trigger] dims@.contains(d) <==> uses_dim(kernels@, infos@, d),
            touched.wf(),
            forall|n: usize| #[trigger]
                touched.nodes().contains(n) <==> sized@.contains(n) || reads_node(kernels@, n),
            sized@ == ks@.take(i as int).filter(sized_pred),
            zeroed@ == ks@.take(i as int).filter(zero_pred),
        decreases ks@.len() - i,
    {
        let n = ks[i];
        let ghost kernels0 = kernels@;
        let ghost sized0 = sized@;
        let ghost dims0 = dims@;
        let ghost touched0 = touched.nodes();
        proof {
            assert(ks@.to_set().contains(n));
            assert(ks@.take(i + 1) =~= ks@.take(i as int).push(n));
            lemma_filter_push(ks@.take(i as int), n, sized_pred);
            lemma_filter_push(ks@.take(i as int), n, zero_pred);
        }
        let mut inputs = ordered_inputs(g, n);
        if let Some(blocks) = mega.get(&n) {
            inputs.extend_from_slice(blocks.as_slice());
            assert(inputs@ =~= kernel_inputs(edges, mega@, n));
        } else {
            assert(inputs@ =~= kernel_inputs(edges, mega@, n));
        }
        if let Some(info) = infos.get(&n) {
            dims.extend(&info.dyn_vars);
            let outputs = match info.static_bytes {
                Some(b) => b != 0,
                None => true,
            };
            if outputs {
                touched.insert(n);
                sized.push(n);
                if requires_zero(info) {
                    zeroed.push(n);
                }
            }
        }
        touched.extend(&inputs);
        kernels.push(PlannedKernel { node: n, inputs });
        proof {
            assert(kernels@.drop_last() =~= kernels0);
            assert(kernels@[i as int].node == n);
            assert forall|d: char| #[trigger] dims@.contains(d) <==> uses_dim(kernels@, infos@, d) by {
                if dims0.contains(d) {
                    let k = choose|k: int|
                        0 <= k < kernels0.len() && infos@[(
                        #[trigger] kernels0[k]).node].dyn_vars@.contains(d);
                    assert(kernels@[k] == kernels0[k]);
                }
                if infos@[n].dyn_vars@.contains(d) {
                    assert(infos@[kernels@[i as int].node].dyn_vars@.contains(d));
                }
                if uses_dim(kernels@, infos@, d) {
                    let k = choose|k: int|
                        0 <= k < kernels@.len() && infos@[(
                        #[trigger] kernels@[k]).node].dyn_vars@.contains(d);
                    if k < i {
                        assert(kernels0[k] == kernels@[k]);
                    }
                }
            }
            assert forall|m: usize| #[trigger] touched.nodes().contains(m) <==> sized@.contains(m)
                || reads_node(kernels@, m) by {
                assert(sized@.contains(m) <==> sized0.contains(m) || (m == n && has_output(
                    infos@[n],
                ))) by {
                    if has_output(infos@[n]) {
                        assert(sized@ == sized0.push(n));
                        assert(sized@[sized0.len() as int] == n);
                        if sized0.contains(m) {
                            let k = choose|k: int| 0 <= k < sized0.len() && sized0[k] == m;
                            assert(sized@[k] == m);
                        }
                    }
                }
                if reads_node(kernels0, m) {
                    let k = choose|k: int|
                        0 <= k < kernels0.len() && (#[trigger] kernels0[k]).inputs@.contains(m);
                    assert(kernels@[k] == kernels0[k]);
                }
                if kernels@[i as int].inputs@.contains(m) {
                    assert(reads_node(kernels@, m));
                }
                if reads_node(kernels@, m) {
                    let k = choose|k: int|
                        0 <= k < kernels@.len() && (#[trigger] kernels@[k]).inputs@.contains(m);
                    if k < i {
                        assert(kernels0[k] == kernels@[k]);
                    }
                }
            }
        }
        i = i + 1;
    }
    proof {
        assert(ks@.take(ks@.len() as int) =~= ks@);
        assert(kernel_nodes(kernels@) =~= ks@);
    }
    let ghost dim_set = dims@;
    let dyn_dims_order = dims.into_sorted();
    assert forall|d: char| #[trigger] dyn_dims_order@.contains(d) <==> uses_dim(kernels@, infos@, d) by {
        assert(dyn_dims_order@.contains(d) <==> dyn_dims_order@.to_set().contains(d));
    }
    CudaGraphPlan {
        node,
        kernels,
        dyn_dims_order,
        buffer_nodes: touched.into_vec(),
        sized_nodes: sized,
        zero_output_nodes: zeroed,
    }
}

/// `s` lies outside the block and has an arc into it.
pub open spec fn feeds(arcs: Set<(usize, usize)>, block: Set<usize>, s: usize) -> bool {
    !block.contains(s) && exists|n: usize| block.contains(n) && #[trigger] arcs.contains((s, n))
}

/// The arcs to the nodes of CUDA graphs from what feeds their blocks.
pub open spec fn feed_arcs(
    arcs: Set<(usize, usize)>,
    blocks: Seq<Set<usize>>,
    nodes: Seq<usize>,
) -> Set<(usize, usize)> {
    Set::new(
        |a: (usize, usize)|
            exists|k: int|
                0 <= k < nodes.len() && a.1 == #[trigger] nodes[k] && feeds(arcs, blocks[k], a.0),
    )
}

/// The nodes of planned CUDA graphs.
pub open spec fn plan_nodes(plans: Seq<CudaGraphPlan>) -> Seq<usize> {
    plans.map_values(|p: CudaGraphPlan| p.node)
}

/// The edges in `base` are still there, under their numbers.
pub open spec fn keeps_edges(
    base: Map<usize, (usize, usize)>,
    edges: Map<usize, (usize, usize)>,
) -> bool {
    forall|e: usize| #[trigger]
        base.contains_key(e) ==> edges.contains_key(e) && edges[e] == base[e]
}

/// `e` and `f` are one edge if they join the same nodes, where neither is one of
/// the edges in `base`.
pub open spec fn new_edges_once(
    base: Map<usize, (usize, usize)>,
    edges: Map<usize, (usize, usize)>,
) -> bool {
    forall|e: usize, f: usize|
        edges.contains_key(e) && edges.contains_key(f) && !base.contains_key(e)
            && !base.contains_key(f) && #[trigger] edges[e] == #[trigger] edges[f] ==> e == f
}

/// What feeds a block, each once.
fn external_inputs(g: &DiGraph, block: &HashSet<usize>, kernels: &Vec<PlannedKernel>) -> (r: Vec<usize>)
    requires
        block@.subset_of(graph_nodes(*g)),
        kernel_nodes(kernels@).to_set() == block@,
    ensures
        r@.no_duplicates(),
        forall|s: usize| #[trigger] r@.contains(s) <==> feeds(arcs(*g), block@, s),
{
    let ghost a = arcs(*g);
    let ghost ks = kernel_nodes(kernels@);
    let mut found = NodeList::new();
    let mut i: usize = 0;
    while i < kernels.len()
        invariant
            a == arcs(*g),
            ks == kernel_nodes(kernels@),
            ks.to_set() == block@,
            block@.subset_of(graph_nodes(*g)),
            i <= kernels@.len(),
            found.wf(),
            forall|s: usize| #[trigger]
                found.nodes().contains(s) <==> !block@.contains(s) && exists|k: int|
                    0 <= k < i && #[trigger] a.contains((s, ks[k])),
        decreases kernels@.len() - i,
    {
        let n = kernels[i].node;
        assert(ks[i as int] == n);
        assert(ks.to_set().contains(n));
        let ps = predecessors(g, n);
        let ghost before = found.nodes();
        let mut t: usize = 0;
        while t < ps.len()
            invariant
                t <= ps@.len(),
                found.wf(),
                forall|s: usize| #[trigger]
                    found.nodes().contains(s) <==> before.contains(s) || (!block@.contains(s)
                        && exists|k: int| 0 <= k < t && #[trigger] ps@[k] == s),
            decreases ps@.len() - t,
        {
            if !block.contains(&ps[t]) {
                found.insert(ps[t]);
            }
            t = t + 1;
        }
        proof {
            assert forall|s: usize| #[trigger] found.nodes().contains(s) <==> !block@.contains(s)
                && exists|k: int| 0 <= k < i + 1 && #[trigger] a.contains((s, ks[k])) by {
                if a.contains((s, n)) {
                    assert(ps@.contains(s));
                    assert(a.contains((s, ks[i as int])));
                }
                if found.nodes().contains(s) && !before.contains(s) {
                    assert(ps@.contains(s));
                    assert(a.contains((s, ks[i as int])));
                }
            }
        }
        i = i + 1;
    }
    proof {
        assert forall|s: usize| #[trigger] found.nodes().contains(s) <==> feeds(a, block@, s) by {
            if found.nodes().contains(s) {
                let k = choose|k: int| 0 <= k < ks.len() && #[trigger] a.contains((s, ks[k]));
                assert(ks.to_set().contains(ks[k]));
            }
            if feeds(a, block@, s) {
                let n = choose|n: usize| block@.contains(n) && #[trigger] a.contains((s, n));
                assert(ks.to_set().contains(n));
                let k = choose|k: int| 0 <= k < ks.len() && ks[k] == n;
                assert(a.contains((s, ks[k])));
            }
        }
    }
    found.into_vec()
}

/// Edges from each of `sources` to a node that has no edges yet. Whether there was
/// room for them all.
fn add_feeds(g: &mut DiGraph, sources: &Vec<usize>, node: usize, base: Ghost<Map<usize, (usize, usize)>>) -> (ok: bool)
    requires
        graph_nodes(*old(g)).contains(node),
        sources@.no_duplicates(),
        forall|i: int|
            0 <= i < sources@.len() ==> graph_nodes(*old(g)).contains(#[trigger] sources@[i]),
        forall|s: usize| !arcs(*old(g)).contains((s, node)),
        keeps_edges(base@, graph_edges(*old(g))),
        new_edges_once(base@, graph_edges(*old(g))),
    ensures
        graph_nodes(*final(g)) == graph_nodes(*old(g)),
        !ok ==> graph_edges(*final(g)).dom().len() >= u32::MAX,
        keeps_edges(base@, graph_edges(*final(g))),
        new_edges_once(base@, graph_edges(*final(g))),
        forall|n: usize|
            n != node ==> #[trigger] incoming_sources(graph_edges(*final(g)), n)
                == incoming_sources(graph_edges(*old(g)), n),
        ok ==> forall|u: usize, v: usize| #[trigger]
            arcs(*final(g)).contains((u, v)) <==> arcs(*old(g)).contains((u, v)) || (v == node
                && sources@.contains(u)),
{
    let ghost e0 = graph_edges(*g);
    let ghost a0 = arcs(*g);
    let mut i: usize = 0;
    while i < sources.len()
        invariant
            i <= sources@.len(),
            sources@.no_duplicates(),
            e0 == graph_edges(*old(g)),
            a0 == arcs(*old(g)),
            graph_nodes(*g) == graph_nodes(*old(g)),
            graph_nodes(*g).contains(node),
            forall|k: int|
                0 <= k < sources@.len() ==> graph_nodes(*g).contains(#[trigger] sources@[k]),
            forall|s: usize| !a0.contains((s, node)),
            keeps_edges(base@, graph_edges(*g)),
            new_edges_once(base@, graph_edges(*g)),
            forall|n: usize|
                n != node ==> #[trigger] incoming_sources(graph_edges(*g), n) == incoming_sources(
                    e0,
                    n,
                ),
            forall|u: usize, v: usize| #[trigger]
                arcs(*g).contains((u, v)) <==> a0.contains((u, v)) || (v == node && exists|k: int|
                    0 <= k < i && #[trigger] sources@[k] == u),
        decreases sources@.len() - i,
    {
        let s = sources[i];
        let ghost e1 = graph_edges(*g);
        let ghost a1 = arcs(*g);
        match add_edge(g, s, node) {
            Some(e) => {
                proof {
                    lemma_arcs_insert(e1, e, (s, node));
                    assert(!e1.values().contains((s, node))) by {
                        assert(!a0.contains((s, node)));
                        assert(forall|k: int| 0 <= k < i ==> #[trigger] sources@[k] != s);
                        assert(!a1.contains((s, node)));
                    }
                    let e2 = graph_edges(*g);
                    assert forall|x: usize, y: usize|
                        e2.contains_key(x) && e2.contains_key(y) && !base@.contains_key(x)
                            && !base@.contains_key(y) && #[trigger] e2[x] == #[trigger] e2[y] implies x
                        == y by {
                        if x != e && y == e {
                            assert(e1.values().contains(e1[x]));
                        }
                        if x == e && y != e {
                            assert(e1.values().contains(e1[y]));
                        }
                    }
                    assert forall|n: usize| n != node implies #[trigger] incoming_sources(e2, n)
                        == incoming_sources(e0, n) by {
                        lemma_incoming_sources_insert(e1, e, (s, node), n);
                    }
                }
            },
            None => {
                return false;
            },
        }
        i = i + 1;
    }
    true
}

proof fn lemma_plan_for_same(
    plan: CudaGraphPlan,
    block: Set<usize>,
    edges: Map<usize, (usize, usize)>,
    more: Map<usize, (usize, usize)>,
    infos: Map<usize, KernelInfo>,
    mega: Map<usize, Vec<usize>>,
)
    requires
        plan_for(plan, block, more, infos, mega),
        forall|n: usize|
            block.contains(n) ==> #[trigger] incoming_sources(more, n) == incoming_sources(edges, n),
    ensures
        plan_for(plan, block, edges, infos, mega),
{
    let ks = kernel_nodes(plan.kernels@);
    assert forall|i: int, j: int|
        0 <= i < ks.len() && 0 <= j < ks.len() && #[trigger] edges.values().contains(
            (ks[i], ks[j]),
        ) implies i < j by {
        assert(ks.to_set().contains(ks[j]));
        lemma_incoming_sources_contains(edges, ks[j], ks[i]);
        lemma_incoming_sources_contains(more, ks[j], ks[i]);
        assert(incoming_sources(more, ks[j]) == incoming_sources(edges, ks[j]));
        assert(more.values().contains((ks[i], ks[j])));
    }
    assert forall|i: int| 0 <= i < plan.kernels@.len() implies (#[trigger] plan.kernels@[i]).inputs@
        == kernel_inputs(edges, mega, plan.kernels@[i].node) by {
        assert(ks[i] == plan.kernels@[i].node);
        assert(ks.to_set().contains(ks[i]));
        assert(incoming_sources(more, ks[i]) == incoming_sources(edges, ks[i]));
    }
}

/// The state of the first pass after some blocks: their graphs have nodes, and
/// edges from what feeds them.
pub open spec fn blocks_planned(
    nodes0: Set<usize>,
    edges0: Map<usize, (usize, usize)>,
    infos: Map<usize, KernelInfo>,
    mega: Map<usize, Vec<usize>>,
    blocks: Seq<Set<usize>>,
    plans: Seq<CudaGraphPlan>,
    nodes: Set<usize>,
    edges: Map<usize, (usize, usize)>,
) -> bool {
    let pn = plan_nodes(plans);
    &&& plans.len() <= blocks.len()
    &&& forall|k: int|
        0 <= k < plans.len() ==> plan_for(#[trigger] plans[k], blocks[k], edges0, infos, mega)
    &&& pn.no_duplicates()
    &&& forall|n: usize| #[trigger] nodes.contains(n) <==> nodes0.contains(n) || pn.contains(n)
    &&& forall|n: usize| #[trigger] pn.contains(n) ==> !nodes0.contains(n)
    &&& keeps_edges(edges0, edges)
    &&& new_edges_once(edges0, edges)
    &&& edges.values() == edges0.values().union(feed_arcs(edges0.values(), blocks, pn))
}

/// Give every block a node and edges from what feeds it. `None` where the graph has
/// no room.
#[verifier::rlimit(50)]
fn plan_blocks(
    g: &mut DiGraph,
    infos: &HashMap<usize, KernelInfo>,
    mega: &HashMap<usize, Vec<usize>>,
    blocks: &Vec<HashSet<usize>>,
) -> (r: Option<Vec<CudaGraphPlan>>)
    requires
        acyclic(arcs(*old(g))),
        forall|k: int|
            0 <= k < blocks@.len() ==> (#[trigger] blocks@[k])@.subset_of(graph_nodes(*old(g)))
                && blocks@[k]@.subset_of(infos@.dom()),
    ensures
        r is None ==> graph_nodes(*final(g)).len() >= u32::MAX || graph_edges(
            *final(g),
        ).dom().len() >= u32::MAX,
        r matches Some(plans) ==> plans@.len() == blocks@.len() && blocks_planned(
            graph_nodes(*old(g)),
            graph_edges(*old(g)),
            infos@,
            mega@,
            set_views(blocks@),
            plans@,
            graph_nodes(*final(g)),
            graph_edges(*final(g)),
        ),
        r is Some ==> acyclic(arcs(*final(g))),
        r is Some && blocks@.len() > 0 ==> arcs_within(arcs(*final(g)), graph_nodes(*final(g))),
{
    let ghost n0 = graph_nodes(*g);
    let ghost e0 = graph_edges(*g);
    let ghost a0 = arcs(*g);
    let ghost views = set_views(blocks@);
    let mut plans: Vec<CudaGraphPlan> = Vec::new();
    let mut k: usize = 0;
    proof {
        assert(plan_nodes(plans@) =~= Seq::empty());
        assert(a0 =~= a0.union(feed_arcs(a0, views, plan_nodes(plans@))));
    }
    while k < blocks.len()
        invariant
            n0 == graph_nodes(*old(g)),
            e0 == graph_edges(*old(g)),
            a0 == e0.values(),
            views == set_views(blocks@),
            forall|k: int|
                0 <= k < blocks@.len() ==> (#[trigger] blocks@[k])@.subset_of(n0)
                    && blocks@[k]@.subset_of(infos@.dom()),
            k <= blocks@.len(),
            plans@.len() == k,
            acyclic(arcs(*g)),
            k > 0 ==> arcs_within(arcs(*g), graph_nodes(*g)),
            blocks_planned(
                n0,
                e0,
                infos@,
                mega@,
                views,
                plans@,
                graph_nodes(*g),
                graph_edges(*g),
            ),
            forall|n: usize|
                n0.contains(n) ==> #[trigger] incoming_sources(graph_edges(*g), n)
                    == incoming_sources(e0, n),
        decreases blocks@.len() - k,
    {
        let order = match toposort(g) {
            Ok(order) => order,
            Err(n) => {
                assert(false);
                return None;
            },
        };
        let ghost n1 = graph_nodes(*g);
        let ghost e1 = graph_edges(*g);
        let ghost a1 = arcs(*g);
        let ghost pn1 = plan_nodes(plans@);
        let ghost plans1 = plans@;
        let block = &blocks[k];
        proof {
            assert(views[k as int] == block@);
            assert forall|n: usize| block@.contains(n) implies n1.contains(n) by {
                assert(n0.contains(n));
            }
        }
        let added = add_node(g);
        let node = match added {
            Some(node) => node,
            None => {
                return None;
            },
        };
        proof {
            assert forall|u: usize, v: usize| #[trigger] a1.contains((u, v)) implies u != node && v
                != node by {
                assert(order@.contains(u) && order@.contains(v));
                assert(order@.to_set().contains(u) && order@.to_set().contains(v));
            }
            lemma_topological_push(order@, n1, a1, node, a1);
        }
        let ghost short = order@;
        let mut order = order;
        order.push(node);
        let plan = plan_block(g, infos, mega, block, &order, node);
        let sources = external_inputs(g, block, &plan.kernels);
        proof {
            assert forall|i: int| 0 <= i < sources@.len() implies graph_nodes(*g).contains(
                #[trigger] sources@[i],
            ) by {
                assert(sources@.contains(sources@[i]));
                let n = choose|n: usize| block@.contains(n) && #[trigger] a1.contains((sources@[i], n));
                assert(order@.to_set().contains(sources@[i]));
            }
        }
        if !add_feeds(g, &sources, node, Ghost(e0)) {
            return None;
        }
        proof {
            let e2 = graph_edges(*g);
            let a2 = arcs(*g);
            assert forall|n: usize| n0.contains(n) implies #[trigger] incoming_sources(e2, n)
                == incoming_sources(e0, n) by {
                assert(n1.contains(n));
                assert(n != node);
                assert(incoming_sources(e1, n) == incoming_sources(e0, n));
            }
            lemma_plan_for_same(plan, block@, e0, e1, infos@, mega@);
            assert forall|s: usize| feeds(a1, block@, s) <==> feeds(a0, block@, s) by {
                assert forall|n: usize| block@.contains(n) implies (#[trigger] a1.contains((s, n))
                    <==> a0.contains((s, n))) by {
                    assert(n0.contains(n));
                    if a1.contains((s, n)) && !a0.contains((s, n)) {
                        assert(feed_arcs(a0, views, pn1).contains((s, n)));
                        let j = choose|j: int|
                            0 <= j < pn1.len() && n == #[trigger] pn1[j] && feeds(a0, views[j], s);
                        assert(pn1.contains(n));
                    }
                }
                if feeds(a1, block@, s) {
                    let n = choose|n: usize| block@.contains(n) && #[trigger] a1.contains((s, n));
                    assert(a0.contains((s, n)));
                }
                if feeds(a0, block@, s) {
                    let n = choose|n: usize| block@.contains(n) && #[trigger] a0.contains((s, n));
                    assert(a1.contains((s, n)));
                }
            }
            lemma_feed_arcs_push(a0, views, pn1, node);
            assert forall|u: usize, v: usize| #[trigger] a2.contains((u, v)) <==> a0.union(
                feed_arcs(a0, views, pn1.push(node)),
            ).contains((u, v)) by {
                assert(a1.contains((u, v)) <==> a0.union(feed_arcs(a0, views, pn1)).contains((u, v)));
                assert(sources@.contains(u) <==> feeds(a1, block@, u));
            }
            assert forall|p: (usize, usize)| #[trigger] a2.contains(p) <==> a0.union(
                feed_arcs(a0, views, pn1.push(node)),
            ).contains(p) by {
                assert(a2.contains((p.0, p.1)) <==> a0.union(
                    feed_arcs(a0, views, pn1.push(node)),
                ).contains((p.0, p.1)));
            }
            assert(a2 =~= a0.union(feed_arcs(a0, views, pn1.push(node))));
            assert(acyclic(a2)) by {
                assert forall|u: usize, v: usize| #[trigger] a2.contains((u, v)) implies a1.contains(
                    (u, v),
                ) || (v == node && n1.contains(u)) by {
                    if !a1.contains((u, v)) {
                        assert(sources@.contains(u));
                        let n = choose|n: usize| block@.contains(n) && #[trigger] a1.contains((u, n));
                        assert(short.contains(u));
                        assert(short.to_set().contains(u));
                    }
                }
                lemma_topological_push(short, n1, a1, node, a2);
                lemma_topological_acyclic(order@, n1.insert(node), a2);
            }
            assert(arcs_within(a2, graph_nodes(*g))) by {
                assert forall|u: usize, v: usize| #[trigger] a2.contains((u, v)) implies n1.insert(
                    node,
                ).contains(u) && n1.insert(node).contains(v) by {
                    if a1.contains((u, v)) {
                        assert(short.contains(u) && short.contains(v));
                        assert(short.to_set().contains(u) && short.to_set().contains(v));
                    } else {
                        assert(sources@.contains(u));
                        let i = choose|i: int| 0 <= i < sources@.len() && sources@[i] == u;
                        assert(n1.insert(node).contains(sources@[i]));
                    }
                }
            }
        }
        plans.push(plan);
        proof {
            assert(plan_nodes(plans@) =~= pn1.push(node));
            let pn2 = plan_nodes(plans@);
            assert(pn2[k as int] == node);
            assert forall|n: usize| #[trigger] pn2.contains(n) <==> pn1.contains(n) || n == node by {
                if pn1.contains(n) {
                    let j = choose|j: int| 0 <= j < pn1.len() && pn1[j] == n;
                    assert(pn2[j] == n);
                }
            }
            assert(!pn1.contains(node));
            assert(pn2.no_duplicates()) by {
                assert forall|i: int, j: int| 0 <= i < j < pn2.len() implies pn2[i] != pn2[j] by {
                    assert(pn1.contains(pn1[i]));
                }
            }
        }
        k = k + 1;
    }
    Some(plans)
}

proof fn lemma_feed_arcs_push(
    arcs: Set<(usize, usize)>,
    blocks: Seq<Set<usize>>,
    pn: Seq<usize>,
    node: usize,
)
    requires
        pn.len() < blocks.len(),
    ensures
        forall|u: usize, v: usize| #[trigger]
            feed_arcs(arcs, blocks, pn.push(node)).contains((u, v)) <==> feed_arcs(
                arcs,
                blocks,
                pn,
            ).contains((u, v)) || (v == node && feeds(arcs, blocks[pn.len() as int], u)),
{
    let more = pn.push(node);
    assert forall|u: usize, v: usize| #[trigger]
        feed_arcs(arcs, blocks, more).contains((u, v)) <==> feed_arcs(arcs, blocks, pn).contains(
            (u, v),
        ) || (v == node && feeds(arcs, blocks[pn.len() as int], u)) by {
        if feed_arcs(arcs, blocks, more).contains((u, v)) {
            let k = choose|k: int|
                0 <= k < more.len() && v == #[trigger] more[k] && feeds(arcs, blocks[k], u);
            if k < pn.len() {
                assert(pn[k] == v);
            }
        }
        if feed_arcs(arcs, blocks, pn).contains((u, v)) {
            let k = choose|k: int|
                0 <= k < pn.len() && v == #[trigger] pn[k] && feeds(arcs, blocks[k], u);
            assert(more[k] == v);
        }
        assert(more[pn.len() as int] == node);
    }
}

/// What a CUDA graph produces: the outputs of its kernels and of the block
/// operations in them.
pub open spec fn producers(block: Set<usize>, mega: Map<usize, Vec<usize>>) -> Set<usize> {
    Set::new(
        |n: usize|
            block.contains(n) || exists|m: usize| #[trigger]
                block.contains(m) && block_ops(mega, m).contains(n),
    )
}

/// The CUDA graph that produces `c`; of several the last.
pub open spec fn owner_of(
    blocks: Seq<Set<usize>>,
    nodes: Seq<usize>,
    mega: Map<usize, Vec<usize>>,
    c: usize,
) -> Option<usize>
    decreases nodes.len(),
{
    if nodes.len() == 0 {
        None
    } else if producers(blocks[nodes.len() - 1], mega).contains(c) {
        Some(nodes.last())
    } else {
        owner_of(blocks, nodes.drop_last(), mega, c)
    }
}

/// `c` reads what the `k`-th graph produces, and `d` is what has to wait for it: the
/// CUDA graph that `c` belongs to, or `c` itself where it is a host operation.
pub open spec fn waits(
    hosts: Set<usize>,
    mega: Map<usize, Vec<usize>>,
    blocks: Seq<Set<usize>>,
    nodes: Seq<usize>,
    k: int,
    c: usize,
    d: usize,
) -> bool {
    ||| owner_of(blocks, nodes, mega, c) == Some(d) && d != nodes[k]
    ||| c == d && (hosts.contains(c) || nodes.contains(c))
}

/// `d` has to wait for the `k`-th graph.
pub open spec fn must_follow(
    arcs: Set<(usize, usize)>,
    hosts: Set<usize>,
    mega: Map<usize, Vec<usize>>,
    blocks: Seq<Set<usize>>,
    nodes: Seq<usize>,
    k: int,
    d: usize,
) -> bool {
    exists|u: usize, c: usize|
        producers(blocks[k], mega).contains(u) && #[trigger] arcs.contains((u, c)) && !producers(
            blocks[k],
            mega,
        ).contains(c) && waits(hosts, mega, blocks, nodes, k, c, d)
}

/// The CUDA graph that produces something is one of them.
proof fn lemma_owner_is_planned(
    blocks: Seq<Set<usize>>,
    nodes: Seq<usize>,
    mega: Map<usize, Vec<usize>>,
    c: usize,
)
    ensures
        owner_of(blocks, nodes, mega, c) matches Some(d) ==> nodes.contains(d),
    decreases nodes.len(),
{
    if nodes.len() > 0 {
        if producers(blocks[nodes.len() - 1], mega).contains(c) {
            assert(nodes[nodes.len() - 1] == nodes.last());
        } else {
            lemma_owner_is_planned(blocks, nodes.drop_last(), mega, c);
            if let Some(d) = owner_of(blocks, nodes.drop_last(), mega, c) {
                let i = choose|i: int| 0 <= i < nodes.drop_last().len() && nodes.drop_last()[i] == d;
                assert(nodes[i] == d);
            }
        }
    }
}

/// What has to wait for a CUDA graph is a node of the graph.
proof fn lemma_must_follow_within(
    arcs: Set<(usize, usize)>,
    live: Set<usize>,
    hosts: Set<usize>,
    mega: Map<usize, Vec<usize>>,
    blocks: Seq<Set<usize>>,
    nodes: Seq<usize>,
    k: int,
    d: usize,
)
    requires
        must_follow(arcs, hosts, mega, blocks, nodes, k, d),
        arcs_within(arcs, live),
        forall|n: usize| #[trigger] nodes.contains(n) ==> live.contains(n),
    ensures
        live.contains(d),
{
    let (u, c) = choose|u: usize, c: usize|
        producers(blocks[k], mega).contains(u) && #[trigger] arcs.contains((u, c)) && !producers(
            blocks[k],
            mega,
        ).contains(c) && waits(hosts, mega, blocks, nodes, k, c, d);
    if c != d {
        lemma_owner_is_planned(blocks, nodes, mega, c);
    }
}

/// `a` stands before `b`.
pub open spec fn precedes(order: Seq<usize>, a: usize, b: usize) -> bool {
    exists|i: int, j: int|
        0 <= i < j < order.len() && #[trigger] order[i] == a && #[trigger] order[j] == b
}

/// The arcs from CUDA graphs to what has to wait for them.
pub open spec fn ordering_arcs(
    arcs: Set<(usize, usize)>,
    hosts: Set<usize>,
    mega: Map<usize, Vec<usize>>,
    blocks: Seq<Set<usize>>,
    nodes: Seq<usize>,
) -> Set<(usize, usize)> {
    Set::new(
        |a: (usize, usize)|
            exists|k: int|
                0 <= k < nodes.len() && a.0 == #[trigger] nodes[k] && must_follow(
                    arcs,
                    hosts,
                    mega,
                    blocks,
                    nodes,
                    k,
                    a.1,
                ),
    )
}

/// The list of what a CUDA graph produces.
fn producer_list(plan: &CudaGraphPlan, mega: &HashMap<usize, Vec<usize>>, block: Ghost<Set<usize>>) -> (r: NodeList)
    requires
        kernel_nodes(plan.kernels@).to_set() == block@,
    ensures
        r.wf(),
        forall|n: usize| #[trigger]
            r.nodes().contains(n) <==> producers(block@, mega@).contains(n),
{
    let ghost ks = kernel_nodes(plan.kernels@);
    let mut r = NodeList::new();
    let mut i: usize = 0;
    while i < plan.kernels.len()
        invariant
            ks == kernel_nodes(plan.kernels@),
            i <= plan.kernels@.len(),
            r.wf(),
            forall|n: usize| #[trigger]
                r.nodes().contains(n) <==> exists|k: int|
                    0 <= k < i && (n == #[trigger] ks[k] || block_ops(mega@, ks[k]).contains(n)),
        decreases plan.kernels@.len() - i,
    {
        let m = plan.kernels[i].node;
        assert(ks[i as int] == m);
        let ghost before = r.nodes();
        r.insert(m);
        if let Some(blocks) = mega.get(&m) {
            r.extend(blocks);
        }
        proof {
            assert forall|n: usize| #[trigger] r.nodes().contains(n) <==> exists|k: int|
                0 <= k < i + 1 && (n == #[trigger] ks[k] || block_ops(mega@, ks[k]).contains(n)) by {
                assert(r.nodes().contains(n) <==> before.contains(n) || n == m || block_ops(
                    mega@,
                    m,
                ).contains(n));
                if n == m || block_ops(mega@, m).contains(n) {
                    assert(n == ks[i as int] || block_ops(mega@, ks[i as int]).contains(n));
                }
            }
        }
        i = i + 1;
    }
    proof {
        assert forall|n: usize| #[trigger] r.nodes().contains(n) <==> producers(
            block@,
            mega@,
        ).contains(n) by {
            if r.nodes().contains(n) {
                let k = choose|k: int|
                    0 <= k < ks.len() && (n == #[trigger] ks[k] || block_ops(
                        mega@,
                        ks[k],
                    ).contains(n));
                assert(ks.to_set().contains(ks[k]));
                assert(block@.contains(ks[k]));
            }
            if producers(block@, mega@).contains(n) {
                let m = if block@.contains(n) {
                    n
                } else {
                    choose|m: usize| #[trigger]
                        block@.contains(m) && block_ops(mega@, m).contains(n)
                };
                assert(ks.to_set().contains(m));
                let k = choose|k: int| 0 <= k < ks.len() && ks[k] == m;
                assert(n == ks[k] || block_ops(mega@, ks[k]).contains(n));
            }
        }
    }
    r
}

/// Which CUDA graph produces what.
fn owners(
    plans: &Vec<CudaGraphPlan>,
    mega: &HashMap<usize, Vec<usize>>,
    blocks: Ghost<Seq<Set<usize>>>,
) -> (r: HashMap<usize, usize>)
    requires
        plans@.len() == blocks@.len(),
        forall|k: int|
            0 <= k < plans@.len() ==> kernel_nodes((#[trigger] plans@[k]).kernels@).to_set()
                == blocks@[k],
    ensures
        forall|c: usize|
            (#[trigger] r@.contains_key(c) <==> owner_of(
                blocks@,
                plan_nodes(plans@),
                mega@,
                c,
            ) is Some) && (r@.contains_key(c) ==> owner_of(
                blocks@,
                plan_nodes(plans@),
                mega@,
                c,
            ) == Some(r@[c])),
{
    let ghost pn = plan_nodes(plans@);
    let mut r: HashMap<usize, usize> = HashMap::new();
    let mut k: usize = 0;
    assert(pn.take(0) =~= Seq::empty());
    while k < plans.len()
        invariant
            pn == plan_nodes(plans@),
            plans@.len() == blocks@.len(),
            forall|k: int|
                0 <= k < plans@.len() ==> kernel_nodes((#[trigger] plans@[k]).kernels@).to_set()
                    == blocks@[k],
            k <= plans@.len(),
            forall|c: usize|
                (#[trigger] r@.contains_key(c) <==> owner_of(
                    blocks@,
                    pn.take(k as int),
                    mega@,
                    c,
                ) is Some) && (r@.contains_key(c) ==> owner_of(
                    blocks@,
                    pn.take(k as int),
                    mega@,
                    c,
                ) == Some(r@[c])),
        decreases plans@.len() - k,
    {
        let node = plans[k].node;
        let ghost block = blocks@[k as int];
        let list = producer_list(&plans[k], mega, Ghost(block)).into_vec();
        let ghost r0 = r@;
        let mut i: usize = 0;
        while i < list.len()
            invariant
                i <= list@.len(),
                forall|c: usize|
                    (#[trigger] r@.contains_key(c) <==> r0.contains_key(c) || exists|j: int|
                        0 <= j < i && #[trigger] list@[j] == c) && ((exists|j: int|
                        0 <= j < i && #[trigger] list@[j] == c) ==> r@[c] == node) && ((!exists|
                        j: int,
                    | 0 <= j < i && #[trigger] list@[j] == c) && r0.contains_key(c) ==> r@[c]
                        == r0[c]),
            decreases list@.len() - i,
        {
            r.insert(list[i], node);
            i = i + 1;
        }
        proof {
            let next = pn.take(k + 1);
            assert(next.drop_last() =~= pn.take(k as int));
            assert(next.last() == node);
            assert forall|c: usize|
                (#[trigger] r@.contains_key(c) <==> owner_of(blocks@, next, mega@, c) is Some) && (
                r@.contains_key(c) ==> owner_of(blocks@, next, mega@, c) == Some(r@[c])) by {
                assert(list@.contains(c) <==> producers(block, mega@).contains(c));
                assert(list@.contains(c) <==> exists|j: int|
                    0 <= j < list@.len() && #[trigger] list@[j] == c);
                assert(r0.contains_key(c) <==> owner_of(blocks@, pn.take(k as int), mega@, c) is Some);
            }
        }
        k = k + 1;
    }
    assert(pn.take(pn.len() as int) =~= pn);
    r
}

/// What has to wait for the `k`-th CUDA graph.
#[verifier::rlimit(50)]
fn followers(
    g: &DiGraph,
    nodes: &Vec<usize>,
    pos: &HashMap<usize, usize>,
    hosts: &HashSet<usize>,
    mega: &HashMap<usize, Vec<usize>>,
    plans: &Vec<CudaGraphPlan>,
    plan_list: &NodeList,
    owner: &HashMap<usize, usize>,
    k: usize,
    blocks: Ghost<Seq<Set<usize>>>,
) -> (r: Vec<usize>)
    requires
        arcs_within(arcs(*g), graph_nodes(*g)),
        nodes@.to_set() == graph_nodes(*g),
        positions_of(pos@, nodes@),
        k < plans@.len(),
        plans@.len() == blocks@.len(),
        kernel_nodes(plans@[k as int].kernels@).to_set() == blocks@[k as int],
        plan_list.wf(),
        forall|n: usize| #[trigger]
            plan_list.nodes().contains(n) <==> plan_nodes(plans@).contains(n),
        forall|c: usize|
            (#[trigger] owner@.contains_key(c) <==> owner_of(
                blocks@,
                plan_nodes(plans@),
                mega@,
                c,
            ) is Some) && (owner@.contains_key(c) ==> owner_of(
                blocks@,
                plan_nodes(plans@),
                mega@,
                c,
            ) == Some(owner@[c])),
    ensures
        forall|d: usize| #[trigger]
            r@.contains(d) <==> must_follow(
                arcs(*g),
                hosts@,
                mega@,
                blocks@,
                plan_nodes(plans@),
                k as int,
                d,
            ),
{
    let ghost a = arcs(*g);
    let ghost pn = plan_nodes(plans@);
    let ghost prods = producers(blocks@[k as int], mega@);
    let node = plans[k].node;
    assert(pn[k as int] == node);
    let made = producer_list(&plans[k], mega, Ghost(blocks@[k as int]));
    let list = producer_list(&plans[k], mega, Ghost(blocks@[k as int])).into_vec();
    let mut found = NodeList::new();
    let mut i: usize = 0;
    while i < list.len()
        invariant
            a == arcs(*g),
            pn == plan_nodes(plans@),
            prods == producers(blocks@[k as int], mega@),
            pn[k as int] == node,
            arcs_within(a, graph_nodes(*g)),
            nodes@.to_set() == graph_nodes(*g),
            positions_of(pos@, nodes@),
            plan_list.wf(),
            forall|n: usize| #[trigger] plan_list.nodes().contains(n) <==> pn.contains(n),
            forall|c: usize|
                (#[trigger] owner@.contains_key(c) <==> owner_of(blocks@, pn, mega@, c) is Some) && (
                owner@.contains_key(c) ==> owner_of(blocks@, pn, mega@, c) == Some(owner@[c])),
            made.wf(),
            forall|n: usize| #[trigger] made.nodes().contains(n) <==> prods.contains(n),
            forall|n: usize| #[trigger] list@.contains(n) <==> prods.contains(n),
            i <= list@.len(),
            found.wf(),
            forall|d: usize| #[trigger]
                found.nodes().contains(d) <==> exists|j: int, c: usize|
                    0 <= j < i && #[trigger] a.contains((list@[j], c)) && !prods.contains(c)
                        && waits(hosts@, mega@, blocks@, pn, k as int, c, d),
        decreases list@.len() - i,
    {
        let u = list[i];
        let ghost before = found.nodes();
        let cs = if pos.contains_key(&u) {
            assert(nodes@.contains(u));
            assert(nodes@.to_set().contains(u));
            successors(g, u)
        } else {
            let none: Vec<usize> = Vec::new();
            assert forall|v: usize| none@.contains(v) <==> a.contains((u, v)) by {
                if a.contains((u, v)) {
                    assert(nodes@.to_set().contains(u));
                    assert(nodes@.contains(u));
                }
            }
            none
        };
        let mut t: usize = 0;
        while t < cs.len()
            invariant
                pn == plan_nodes(plans@),
                pn[k as int] == node,
                plan_list.wf(),
                forall|n: usize| #[trigger] plan_list.nodes().contains(n) <==> pn.contains(n),
                forall|c: usize|
                    (#[trigger] owner@.contains_key(c) <==> owner_of(blocks@, pn, mega@, c) is Some)
                        && (owner@.contains_key(c) ==> owner_of(blocks@, pn, mega@, c) == Some(
                        owner@[c],
                    )),
                made.wf(),
                forall|n: usize| #[trigger] made.nodes().contains(n) <==> prods.contains(n),
                t <= cs@.len(),
                found.wf(),
                forall|d: usize| #[trigger]
                    found.nodes().contains(d) <==> before.contains(d) || exists|j: int|
                        0 <= j < t && !prods.contains(#[trigger] cs@[j]) && waits(
                            hosts@,
                            mega@,
                            blocks@,
                            pn,
                            k as int,
                            cs@[j],
                            d,
                        ),
            decreases cs@.len() - t,
        {
            let c = cs[t];
            let ghost f0 = found.nodes();
            if !made.contains(c) {
                if let Some(other) = owner.get(&c) {
                    if *other != node {
                        found.insert(*other);
                    }
                }
                if hosts.contains(&c) || plan_list.contains(c) {
                    found.insert(c);
                }
            }
            proof {
                assert forall|d: usize| #[trigger] found.nodes().contains(d) <==> before.contains(d)
                    || exists|j: int|
                    0 <= j < t + 1 && !prods.contains(#[trigger] cs@[j]) && waits(
                        hosts@,
                        mega@,
                        blocks@,
                        pn,
                        k as int,
                        cs@[j],
                        d,
                    ) by {
                    assert(found.nodes().contains(d) <==> f0.contains(d) || (!prods.contains(c)
                        && waits(hosts@, mega@, blocks@, pn, k as int, c, d)));
                }
            }
            t = t + 1;
        }
        proof {
            assert forall|d: usize| #[trigger] found.nodes().contains(d) <==> exists|j: int, c: usize|
                0 <= j < i + 1 && #[trigger] a.contains((list@[j], c)) && !prods.contains(c)
                    && waits(hosts@, mega@, blocks@, pn, k as int, c, d) by {
                if found.nodes().contains(d) && !before.contains(d) {
                    let j = choose|j: int|
                        0 <= j < cs@.len() && !prods.contains(#[trigger] cs@[j]) && waits(
                            hosts@,
                            mega@,
                            blocks@,
                            pn,
                            k as int,
                            cs@[j],
                            d,
                        );
                    assert(cs@.contains(cs@[j]));
                    assert(a.contains((list@[i as int], cs@[j])));
                }
                if exists|j: int, c: usize|
                    0 <= j < i + 1 && #[trigger] a.contains((list@[j], c)) && !prods.contains(c)
                        && waits(hosts@, mega@, blocks@, pn, k as int, c, d) {
                    let (j, c) = choose|j: int, c: usize|
                        0 <= j < i + 1 && #[trigger] a.contains((list@[j], c)) && !prods.contains(c)
                            && waits(hosts@, mega@, blocks@, pn, k as int, c, d);
                    if j == i {
                        assert(cs@.contains(c));
                        let x = choose|x: int| 0 <= x < cs@.len() && cs@[x] == c;
                        assert(!prods.contains(cs@[x]));
                    } else {
                        assert(before.contains(d));
                    }
                }
            }
        }
        i = i + 1;
    }
    proof {
        assert forall|d: usize| #[trigger] found.nodes().contains(d) <==> must_follow(
            a,
            hosts@,
            mega@,
            blocks@,
            pn,
            k as int,
            d,
        ) by {
            if found.nodes().contains(d) {
                let (j, c) = choose|j: int, c: usize|
                    0 <= j < list@.len() && #[trigger] a.contains((list@[j], c)) && !prods.contains(c)
                        && waits(hosts@, mega@, blocks@, pn, k as int, c, d);
                assert(list@.contains(list@[j]));
                assert(prods.contains(list@[j]));
            }
            if must_follow(a, hosts@, mega@, blocks@, pn, k as int, d) {
                let (u, c) = choose|u: usize, c: usize|
                    prods.contains(u) && #[trigger] a.contains((u, c)) && !prods.contains(c) && waits(
                        hosts@,
                        mega@,
                        blocks@,
                        pn,
                        k as int,
                        c,
                        d,
                    );
                assert(list@.contains(u));
                let j = choose|j: int| 0 <= j < list@.len() && list@[j] == u;
                assert(a.contains((list@[j], c)));
            }
        }
    }
    found.into_vec()
}

/// An edge from `src` to each of `dsts`, unless there is one, or the target is `src` or
/// reaches it: then the edge would close a cycle. Whether there was room for them all.
fn add_following(
    g: &mut DiGraph,
    nodes: &Vec<usize>,
    src: usize,
    dsts: &Vec<usize>,
    base: Ghost<Map<usize, (usize, usize)>>,
) -> (ok: bool)
    requires
        nodes@.to_set() == graph_nodes(*old(g)),
        arcs_within(arcs(*old(g)), graph_nodes(*old(g))),
        acyclic(arcs(*old(g))),
        graph_nodes(*old(g)).contains(src),
        forall|i: int| 0 <= i < dsts@.len() ==> graph_nodes(*old(g)).contains(#[trigger] dsts@[i]),
        keeps_edges(base@, graph_edges(*old(g))),
        new_edges_once(base@, graph_edges(*old(g))),
    ensures
        graph_nodes(*final(g)) == graph_nodes(*old(g)),
        !ok ==> graph_edges(*final(g)).dom().len() >= u32::MAX,
        keeps_edges(base@, graph_edges(*final(g))),
        new_edges_once(base@, graph_edges(*final(g))),
        arcs_within(arcs(*final(g)), graph_nodes(*final(g))),
        acyclic(arcs(*final(g))),
        arcs(*old(g)).subset_of(arcs(*final(g))),
        forall|u: usize, v: usize| #[trigger]
            arcs(*final(g)).contains((u, v)) ==> arcs(*old(g)).contains((u, v)) || (u == src
                && dsts@.contains(v)),
        ok ==> forall|i: int|
            0 <= i < dsts@.len() && #[trigger] dsts@[i] != src ==> arcs(*final(g)).contains(
                (src, dsts@[i]),
            ) || reaches(arcs(*final(g)), dsts@[i], src),
{
    let ghost a0 = arcs(*g);
    let ghost n0 = graph_nodes(*g);
    let before = ancestors(g, nodes, src);
    let mut i: usize = 0;
    while i < dsts.len()
        invariant
            a0 == arcs(*old(g)),
            n0 == graph_nodes(*old(g)),
            graph_nodes(*g) == n0,
            n0.contains(src),
            forall|i: int| 0 <= i < dsts@.len() ==> n0.contains(#[trigger] dsts@[i]),
            arcs_within(arcs(*g), n0),
            acyclic(arcs(*g)),
            keeps_edges(base@, graph_edges(*g)),
            new_edges_once(base@, graph_edges(*g)),
            before.wf(),
            forall|n: usize| #[trigger]
                before.nodes().contains(n) <==> reaches(arcs(*g), n, src),
            i <= dsts@.len(),
            a0.subset_of(arcs(*g)),
            forall|u: usize, v: usize| #[trigger]
                arcs(*g).contains((u, v)) ==> a0.contains((u, v)) || (u == src && dsts@.contains(v)),
            forall|j: int|
                0 <= j < i && #[trigger] dsts@[j] != src ==> arcs(*g).contains((src, dsts@[j]))
                    || reaches(arcs(*g), dsts@[j], src),
        decreases dsts@.len() - i,
    {
        let dst = dsts[i];
        if dst != src && !before.contains(dst) && !has_edge(g, src, dst) {
            let ghost e1 = graph_edges(*g);
            let ghost a1 = arcs(*g);
            match add_edge(g, src, dst) {
                Some(e) => {
                    proof {
                        let e2 = graph_edges(*g);
                        let a2 = arcs(*g);
                        lemma_arcs_insert(e1, e, (src, dst));
                        lemma_acyclic_insert(a1, src, dst);
                        assert forall|x: usize, y: usize|
                            e2.contains_key(x) && e2.contains_key(y) && !base@.contains_key(x)
                                && !base@.contains_key(y) && #[trigger] e2[x]
                                == #[trigger] e2[y] implies x == y by {
                            if x != e && y == e {
                                assert(e1.values().contains(e1[x]));
                            }
                            if x == e && y != e {
                                assert(e1.values().contains(e1[y]));
                            }
                        }
                        assert forall|n: usize| #[trigger] before.nodes().contains(n) <==> reaches(
                            a2,
                            n,
                            src,
                        ) by {
                            assert(reaches(a1.insert((src, dst)), n, src) <==> reaches(a1, n, src));
                        }
                        assert forall|j: int|
                            0 <= j < i + 1 && #[trigger] dsts@[j] != src implies a2.contains(
                            (src, dsts@[j]),
                        ) || reaches(a2, dsts@[j], src) by {
                            if j < i && reaches(a1, dsts@[j], src) {
                                lemma_reaches_more(a1, a2, dsts@[j], src);
                            }
                        }
                    }
                },
                None => {
                    return false;
                },
            }
        }
        i = i + 1;
    }
    true
}

/// The kernels of the graph became CUDA graphs.
///
/// The blocks are a convex partition of the kernels, swept in a topological order. Each has
/// its plan and a node. The edges that were there are still there, under their numbers. New
/// are the arcs from what feeds a block to its node, and arcs from each node to what has to
/// wait for it; none has two edges. The graph has no cycle, and that is the only reason for
/// an arc to be left out: what has to wait for a CUDA graph has an arc from its node, or
/// reaches it.
pub open spec fn hosted(
    nodes0: Set<usize>,
    edges0: Map<usize, (usize, usize)>,
    infos: Map<usize, KernelInfo>,
    hosts: Set<usize>,
    mega: Map<usize, Vec<usize>>,
    blocks: Seq<Set<usize>>,
    plans: Seq<CudaGraphPlan>,
    nodes: Set<usize>,
    edges: Map<usize, (usize, usize)>,
) -> bool {
    let pn = plan_nodes(plans);
    let fed = edges0.values().union(feed_arcs(edges0.values(), blocks, pn));
    &&& plans.len() == blocks.len()
    &&& swept(nodes0, edges0.values(), infos.dom().intersect(nodes0), blocks)
    &&& convex_partition(edges0.values(), infos.dom().intersect(nodes0), blocks)
    &&& forall|k: int|
        0 <= k < plans.len() ==> plan_for(#[trigger] plans[k], blocks[k], edges0, infos, mega)
    &&& pn.no_duplicates()
    &&& forall|n: usize| #[trigger] nodes.contains(n) <==> nodes0.contains(n) || pn.contains(n)
    &&& forall|n: usize| #[trigger] pn.contains(n) ==> !nodes0.contains(n)
    &&& keeps_edges(edges0, edges)
    &&& new_edges_once(edges0, edges)
    &&& arcs_within(edges.values(), nodes)
    &&& acyclic(edges.values())
    &&& fed.subset_of(edges.values())
    &&& edges.values().subset_of(fed.union(ordering_arcs(fed, hosts, mega, blocks, pn)))
    &&& forall|k: int, d: usize|
        0 <= k < pn.len() && d != pn[k] && #[trigger] must_follow(
            fed,
            hosts,
            mega,
            blocks,
            pn,
            k,
            d,
        ) ==> edges.values().contains((pn[k], d)) || reaches(edges.values(), d, pn[k])
}

/// There are blocks with which the kernels became CUDA graphs.
pub open spec fn some_hosting(
    nodes0: Set<usize>,
    edges0: Map<usize, (usize, usize)>,
    infos: Map<usize, KernelInfo>,
    hosts: Set<usize>,
    mega: Map<usize, Vec<usize>>,
    plans: Seq<CudaGraphPlan>,
    nodes: Set<usize>,
    edges: Map<usize, (usize, usize)>,
) -> bool {
    exists|blocks: Seq<Set<usize>>| #[trigger]
        hosted(nodes0, edges0, infos, hosts, mega, blocks, plans, nodes, edges)
}

/// The nodes of the graph that are kernels.
fn kernels_in(g: &DiGraph, infos: &HashMap<usize, KernelInfo>) -> (r: HashSet<usize>)
    ensures
        r@ == infos@.dom().intersect(graph_nodes(*g)),
{
    let nodes = node_indices(g);
    let mut r: HashSet<usize> = HashSet::new();
    let mut i: usize = 0;
    while i < nodes.len()
        invariant
            i <= nodes@.len(),
            forall|n: usize| #[trigger]
                r@.contains(n) <==> infos@.contains_key(n) && exists|k: int|
                    0 <= k < i && #[trigger] nodes@[k] == n,
        decreases nodes@.len() - i,
    {
        if infos.contains_key(&nodes[i]) {
            r.insert(nodes[i]);
        }
        i = i + 1;
    }
    proof {
        assert forall|n: usize| #[trigger] r@.contains(n) <==> infos@.dom().intersect(
            graph_nodes(*g),
        ).contains(n) by {
            assert(graph_nodes(*g).contains(n) <==> nodes@.to_set().contains(n));
        }
        assert(r@ =~= infos@.dom().intersect(graph_nodes(*g)));
    }
    r
}

/// Turn the kernels of the graph into CUDA graphs, and order them: each has an arc from what
/// feeds it, and one to what has to wait for it unless that would close a cycle.
///
/// `infos` tells of each kernel, `hosts` holds the host operations that the graph
/// has already, `mega` the block operations in each megakernel. Without kernels
/// nothing is looked at and nothing changes.
#[verifier::rlimit(50)]
pub fn kernel_to_host(
    g: &mut DiGraph,
    infos: &HashMap<usize, KernelInfo>,
    hosts: &HashSet<usize>,
    mega: &HashMap<usize, Vec<usize>>,
) -> (r: Result<Vec<CudaGraphPlan>, PlanError>)
    ensures
        infos@.dom().intersect(graph_nodes(*old(g))) == Set::<usize>::empty() ==> (r matches Ok(
            plans,
        ) && plans@.len() == 0 && graph_nodes(*final(g)) == graph_nodes(*old(g)) && graph_edges(
            *final(g),
        ) == graph_edges(*old(g))),
        infos@.dom().intersect(graph_nodes(*old(g))) != Set::<usize>::empty() ==> (r matches Ok(plans)
            ==> acyclic(arcs(*old(g))) && some_hosting(
            graph_nodes(*old(g)),
            graph_edges(*old(g)),
            infos@,
            hosts@,
            mega@,
            plans@,
            graph_nodes(*final(g)),
            graph_edges(*final(g)),
        )),
        r matches Err(PlanError::Cycle(n)) ==> reaches(arcs(*old(g)), n, n) && graph_nodes(
            *final(g),
        ) == graph_nodes(*old(g)) && graph_edges(*final(g)) == graph_edges(*old(g)),
        r matches Err(PlanError::Full) ==> acyclic(arcs(*old(g))) && (graph_nodes(*final(g)).len()
            >= u32::MAX || graph_edges(*final(g)).dom().len() >= u32::MAX),
{
    let kernels = kernels_in(g, infos);
    if kernels.is_empty() {
        assert(kernels@ =~= Set::<usize>::empty());
        return Ok(Vec::new());
    }
    let ghost n0 = graph_nodes(*g);
    let ghost e0 = graph_edges(*g);
    let blocks = match partition_marked_convex(g, &kernels) {
        Ok(blocks) => blocks,
        Err(n) => {
            return Err(PlanError::Cycle(n));
        },
    };
    let ghost views = set_views(blocks@);
    proof {
        assert(live_marked(*g, kernels@) =~= kernels@);
        assert forall|k: int| 0 <= k < blocks@.len() implies (#[trigger] blocks@[k])@.subset_of(n0)
            && blocks@[k]@.subset_of(infos@.dom()) by {
            assert forall|n: usize| blocks@[k]@.contains(n) implies n0.contains(n)
                && infos@.contains_key(n) by {
                assert(views[k].contains(n));
                assert(kernels@.contains(n));
            }
        }
    }
    let planned = plan_blocks(g, infos, mega, &blocks);
    let plans = match planned {
        Some(plans) => plans,
        None => {
            return Err(PlanError::Full);
        },
    };
    let ghost pn = plan_nodes(plans@);
    let ghost fed = arcs(*g);
    proof {
        assert forall|k: int| 0 <= k < plans@.len() implies kernel_nodes(
            (#[trigger] plans@[k]).kernels@,
        ).to_set() == views[k] by {
            assert(plan_for(plans@[k], views[k], e0, infos@, mega@));
        }
    }
    proof {
        assert(views.len() > 0) by {
            assert(kernels@ != Set::<usize>::empty());
            let n = choose|n: usize| kernels@.contains(n);
            if views.len() == 0 {
                assert(kernels@ =~= Set::<usize>::empty());
            }
        }
    }
    let nodes = node_indices(g);
    let live = positions(&nodes);
    let owner = owners(&plans, mega, Ghost(views));
    let mut plan_list = NodeList::new();
    let mut wanted: Vec<Vec<usize>> = Vec::new();
    let mut k: usize = 0;
    while k < plans.len()
        invariant
            k <= plans@.len(),
            pn == plan_nodes(plans@),
            plan_list.wf(),
            forall|n: usize| #[trigger]
                plan_list.nodes().contains(n) <==> exists|j: int| 0 <= j < k && #[trigger] pn[j] == n,
        decreases plans@.len() - k,
    {
        assert(pn[k as int] == plans@[k as int].node);
        plan_list.insert(plans[k].node);
        k = k + 1;
    }
    let mut k: usize = 0;
    while k < plans.len()
        invariant
            k <= plans@.len(),
            plans@.len() == views.len(),
            pn == plan_nodes(plans@),
            fed == arcs(*g),
            arcs_within(fed, graph_nodes(*g)),
            nodes@.to_set() == graph_nodes(*g),
            positions_of(live@, nodes@),
            forall|k: int|
                0 <= k < plans@.len() ==> kernel_nodes((#[trigger] plans@[k]).kernels@).to_set()
                    == views[k],
            plan_list.wf(),
            forall|n: usize| #[trigger] plan_list.nodes().contains(n) <==> pn.contains(n),
            forall|c: usize|
                (#[trigger] owner@.contains_key(c) <==> owner_of(views, pn, mega@, c) is Some) && (
                owner@.contains_key(c) ==> owner_of(views, pn, mega@, c) == Some(owner@[c])),
            wanted@.len() == k,
            forall|j: int, d: usize|
                0 <= j < k ==> (#[trigger] wanted@[j]@.contains(d) <==> must_follow(
                    fed,
                    hosts@,
                    mega@,
                    views,
                    pn,
                    j,
                    d,
                )),
        decreases plans@.len() - k,
    {
        let ds = followers(
            g,
            &nodes,
            &live,
            hosts,
            mega,
            &plans,
            &plan_list,
            &owner,
            k,
            Ghost(views),
        );
        let ghost wanted0 = wanted@;
        wanted.push(ds);
        proof {
            assert(forall|j: int| 0 <= j < k ==> wanted@[j] == wanted0[j]);
        }
        k = k + 1;
    }
    let ghost n1 = graph_nodes(*g);
    proof {
        assert forall|j: int, d: usize|
            0 <= j < pn.len() && #[trigger] wanted@[j]@.contains(d) implies n1.contains(d) by {
            assert(must_follow(fed, hosts@, mega@, views, pn, j, d));
            lemma_must_follow_within(fed, n1, hosts@, mega@, views, pn, j, d);
        }
    }
    let mut k: usize = 0;
    while k < plans.len()
        invariant
            k <= plans@.len(),
            pn == plan_nodes(plans@),
            wanted@.len() == plans@.len(),
            nodes@.to_set() == n1,
            graph_nodes(*g) == n1,
            forall|n: usize| #[trigger] pn.contains(n) ==> n1.contains(n),
            forall|j: int, d: usize|
                0 <= j < pn.len() && #[trigger] wanted@[j]@.contains(d) ==> n1.contains(d),
            arcs_within(arcs(*g), n1),
            acyclic(arcs(*g)),
            keeps_edges(e0, graph_edges(*g)),
            new_edges_once(e0, graph_edges(*g)),
            acyclic(arcs(*old(g))),
            infos@.dom().intersect(graph_nodes(*old(g))) != Set::<usize>::empty(),
            fed.subset_of(arcs(*g)),
            forall|u: usize, v: usize| #[trigger]
                arcs(*g).contains((u, v)) ==> fed.contains((u, v)) || exists|j: int|
                    0 <= j < k && u == #[trigger] pn[j] && wanted@[j]@.contains(v),
            forall|j: int, d: usize|
                0 <= j < k && d != pn[j] && #[trigger] wanted@[j]@.contains(d) ==> arcs(
                    *g,
                ).contains((pn[j], d)) || reaches(arcs(*g), d, pn[j]),
        decreases plans@.len() - k,
    {
        let ghost a1 = arcs(*g);
        proof {
            assert(pn[k as int] == plans@[k as int].node);
            assert(pn.contains(pn[k as int]));
            let ds = wanted@[k as int]@;
            assert forall|i: int| 0 <= i < ds.len() implies n1.contains(#[trigger] ds[i]) by {
                assert(wanted@[k as int]@.contains(ds[i]));
            }
        }
        if !add_following(g, &nodes, plans[k].node, &wanted[k], Ghost(e0)) {
            return Err(PlanError::Full);
        }
        proof {
            let a2 = arcs(*g);
            assert forall|u: usize, v: usize| #[trigger] a2.contains((u, v)) implies fed.contains(
                (u, v),
            ) || exists|j: int|
                0 <= j < k + 1 && u == #[trigger] pn[j] && wanted@[j]@.contains(v) by {
                if !a1.contains((u, v)) {
                    assert(u == pn[k as int] && wanted@[k as int]@.contains(v));
                }
            }
            assert forall|j: int, d: usize|
                0 <= j < k + 1 && d != pn[j] && #[trigger] wanted@[j]@.contains(d) implies a2.contains(
                (pn[j], d),
            ) || reaches(a2, d, pn[j]) by {
                if j < k {
                    if reaches(a1, d, pn[j]) {
                        lemma_reaches_more(a1, a2, d, pn[j]);
                    }
                } else {
                    let ds = wanted@[j]@;
                    let i = choose|i: int| 0 <= i < ds.len() && ds[i] == d;
                    assert(ds[i] != pn[j]);
                }
            }
        }
        k = k + 1;
    }
    proof {
        let more = ordering_arcs(fed, hosts@, mega@, views, pn);
        assert forall|p: (usize, usize)| #[trigger] arcs(*g).contains(p) implies fed.union(
            more,
        ).contains(p) by {
            let (u, v) = p;
            assert(arcs(*g).contains((u, v)));
            if !fed.contains((u, v)) {
                let j = choose|j: int|
                    0 <= j < pn.len() && u == #[trigger] pn[j] && wanted@[j]@.contains(v);
                assert(must_follow(fed, hosts@, mega@, views, pn, j, v));
            }
        }
        assert forall|k: int, d: usize|
            0 <= k < pn.len() && d != pn[k] && #[trigger] must_follow(
                fed,
                hosts@,
                mega@,
                views,
                pn,
                k,
                d,
            ) implies arcs(*g).contains((pn[k], d)) || reaches(arcs(*g), d, pn[k]) by {
            assert(wanted@[k]@.contains(d));
        }
        assert(hosted(
            n0,
            e0,
            infos@,
            hosts@,
            mega@,
            views,
            plans@,
            graph_nodes(*g),
            graph_edges(*g),
        ));
    }
    Ok(plans)
}

/// The source of an arc stands before its target in every topological order.
proof fn lemma_arc_precedes(
    order: Seq<usize>,
    nodes: Set<usize>,
    arcs: Set<(usize, usize)>,
    a: usize,
    b: usize,
)
    requires
        topological(order, nodes, arcs),
        arcs.contains((a, b)),
    ensures
        precedes(order, a, b),
{
    let i = choose|i: int| 0 <= i < order.len() && order[i] == a;
    let j = choose|j: int| 0 <= j < order.len() && order[j] == b;
    assert(arcs.contains((order[i], order[j])));
}

/// Every kernel runs in exactly one CUDA graph.
pub proof fn law_every_kernel_is_planned_once(
    nodes0: Set<usize>,
    edges0: Map<usize, (usize, usize)>,
    infos: Map<usize, KernelInfo>,
    hosts: Set<usize>,
    mega: Map<usize, Vec<usize>>,
    blocks: Seq<Set<usize>>,
    plans: Seq<CudaGraphPlan>,
    nodes: Set<usize>,
    edges: Map<usize, (usize, usize)>,
    n: usize,
)
    requires
        hosted(nodes0, edges0, infos, hosts, mega, blocks, plans, nodes, edges),
    ensures
        infos.contains_key(n) && nodes0.contains(n) <==> exists|k: int|
            0 <= k < plans.len() && kernel_nodes((#[trigger] plans[k]).kernels@).contains(n),
        forall|k: int, l: int|
            0 <= k < plans.len() && 0 <= l < plans.len() && kernel_nodes(
                (#[trigger] plans[k]).kernels@,
            ).contains(n) && kernel_nodes((#[trigger] plans[l]).kernels@).contains(n) ==> k == l,
{
    assert forall|k: int| 0 <= k < plans.len() implies (kernel_nodes(
        (#[trigger] plans[k]).kernels@,
    ).contains(n) <==> blocks[k].contains(n)) by {
        assert(plan_for(plans[k], blocks[k], edges0, infos, mega));
        assert(kernel_nodes(plans[k].kernels@).to_set().contains(n) <==> blocks[k].contains(n));
    }
    let live = infos.dom().intersect(nodes0);
    if live.contains(n) {
        let k = choose|k: int| 0 <= k < blocks.len() && #[trigger] blocks[k].contains(n);
        assert(kernel_nodes(plans[k].kernels@).contains(n));
    }
    if exists|k: int| 0 <= k < plans.len() && kernel_nodes((#[trigger] plans[k]).kernels@).contains(
        n,
    ) {
        let k = choose|k: int|
            0 <= k < plans.len() && kernel_nodes((#[trigger] plans[k]).kernels@).contains(n);
        assert(blocks[k].contains(n));
        assert(live.contains(n));
    }
}

/// What a CUDA graph reads from outside has an arc to its node: whatever order keeps to the
/// arcs runs it after all that feeds it.
pub proof fn law_feeds_precede(
    nodes0: Set<usize>,
    edges0: Map<usize, (usize, usize)>,
    infos: Map<usize, KernelInfo>,
    hosts: Set<usize>,
    mega: Map<usize, Vec<usize>>,
    blocks: Seq<Set<usize>>,
    plans: Seq<CudaGraphPlan>,
    nodes: Set<usize>,
    edges: Map<usize, (usize, usize)>,
    k: int,
    s: usize,
    n: usize,
)
    requires
        hosted(nodes0, edges0, infos, hosts, mega, blocks, plans, nodes, edges),
        0 <= k < plans.len(),
        blocks[k].contains(n),
        !blocks[k].contains(s),
        edges0.values().contains((s, n)),
    ensures
        edges.values().contains((s, plans[k].node)),
        forall|order: Seq<usize>| #[trigger]
            topological(order, nodes, edges.values()) ==> precedes(order, s, plans[k].node),
{
    let pn = plan_nodes(plans);
    assert(pn[k] == plans[k].node);
    assert(feeds(edges0.values(), blocks[k], s));
    assert(feed_arcs(edges0.values(), blocks, pn).contains((s, pn[k])));
    assert forall|order: Seq<usize>| #[trigger]
        topological(order, nodes, edges.values()) implies precedes(order, s, plans[k].node) by {
        lemma_arc_precedes(order, nodes, edges.values(), s, plans[k].node);
    }
}

/// What consumes the output of a CUDA graph has an arc from its node: another CUDA graph with
/// a kernel that reads the output of one of its kernels, or a host operation that does.
/// Whatever order keeps to the arcs runs it after the graph. This holds of all that the graph
/// does not itself wait for.
pub proof fn law_consumers_follow(
    nodes0: Set<usize>,
    edges0: Map<usize, (usize, usize)>,
    infos: Map<usize, KernelInfo>,
    hosts: Set<usize>,
    mega: Map<usize, Vec<usize>>,
    blocks: Seq<Set<usize>>,
    plans: Seq<CudaGraphPlan>,
    nodes: Set<usize>,
    edges: Map<usize, (usize, usize)>,
    k: int,
    u: usize,
    c: usize,
    d: usize,
)
    requires
        hosted(nodes0, edges0, infos, hosts, mega, blocks, plans, nodes, edges),
        0 <= k < plans.len(),
        producers(blocks[k], mega).contains(u),
        !producers(blocks[k], mega).contains(c),
        edges0.values().contains((u, c)),
        waits(hosts, mega, blocks, plan_nodes(plans), k, c, d),
        d != plans[k].node,
        !reaches(edges.values(), d, plans[k].node),
    ensures
        edges.values().contains((plans[k].node, d)),
        forall|order: Seq<usize>| #[trigger]
            topological(order, nodes, edges.values()) ==> precedes(order, plans[k].node, d),
{
    let pn = plan_nodes(plans);
    let fed = edges0.values().union(feed_arcs(edges0.values(), blocks, pn));
    assert(pn[k] == plans[k].node);
    assert(fed.contains((u, c)));
    assert(must_follow(fed, hosts, mega, blocks, pn, k, d));
    assert forall|order: Seq<usize>| #[trigger]
        topological(order, nodes, edges.values()) implies precedes(order, plans[k].node, d) by {
        lemma_arc_precedes(order, nodes, edges.values(), plans[k].node, d);
    }
}

/// Where CUDA graphs and host operations do not wait for one another in a circle, no arc is
/// left out: the arcs of the graph are those that were there, those from what feeds a CUDA
/// graph, and those to all that has to wait for one.
pub proof fn law_no_consumer_is_left_out(
    nodes0: Set<usize>,
    edges0: Map<usize, (usize, usize)>,
    infos: Map<usize, KernelInfo>,
    hosts: Set<usize>,
    mega: Map<usize, Vec<usize>>,
    blocks: Seq<Set<usize>>,
    plans: Seq<CudaGraphPlan>,
    nodes: Set<usize>,
    edges: Map<usize, (usize, usize)>,
    fed: Set<(usize, usize)>,
    more: Set<(usize, usize)>,
)
    requires
        hosted(nodes0, edges0, infos, hosts, mega, blocks, plans, nodes, edges),
        fed == edges0.values().union(feed_arcs(edges0.values(), blocks, plan_nodes(plans))),
        more == ordering_arcs(fed, hosts, mega, blocks, plan_nodes(plans)),
        acyclic(fed.union(more)),
    ensures
        edges.values() == fed.union(more),
{
    let pn = plan_nodes(plans);
    let all = fed.union(more);
    let a = edges.values();
    assert forall|p: (usize, usize)| #[trigger] all.contains(p) implies a.contains(p) by {
        if more.contains(p) {
            let (s, d) = p;
            let k = choose|k: int|
                0 <= k < pn.len() && s == #[trigger] pn[k] && must_follow(
                    fed,
                    hosts,
                    mega,
                    blocks,
                    pn,
                    k,
                    d,
                );
            lemma_reaches_arc(all, s, d);
            if !a.contains((s, d)) {
                if s != d {
                    lemma_reaches_more(a, all, d, s);
                    lemma_reaches_join(all, s, d, s);
                }
                assert(reaches(all, s, s));
            }
        }
    }
    assert(a =~= all);
}

/// A kernel that accumulates has its output zeroed first: one with an output buffer, whether
/// or not its size is known beforehand, and "atomicAdd" in its source. So has one of whose
/// source nothing is known, and a megakernel; and no other kernel.
pub proof fn law_accumulating_kernels_start_from_zero(
    plan: CudaGraphPlan,
    block: Set<usize>,
    edges: Map<usize, (usize, usize)>,
    infos: Map<usize, KernelInfo>,
    mega: Map<usize, Vec<usize>>,
    n: usize,
)
    requires
        plan_for(plan, block, edges, infos, mega),
        block.contains(n),
    ensures
        infos[n].static_bytes == Some(0usize) ==> !plan.zero_output_nodes@.contains(n),
        forall|i: int|
            infos[n].static_bytes != Some(0usize) && 0 <= i && i + 9 <= infos[n].source@.len()
                && #[trigger] infos[n].source@.subrange(i, i + 9) == "atomicAdd"@
                ==> plan.zero_output_nodes@.contains(n),
        infos[n].static_bytes != Some(0usize) && infos[n].name@ == "Megakernel"@
            ==> plan.zero_output_nodes@.contains(n),
        infos[n].static_bytes != Some(0usize) && (forall|i: int|
            0 <= i < infos[n].source@.len() ==> #[trigger] infos[n].source@[i] == ' '
                || infos[n].source@[i] == '\n') ==> plan.zero_output_nodes@.contains(n),
        plan.zero_output_nodes@.contains(n) && infos[n].name@ != "Megakernel"@ ==> (exists|i: int|
            0 <= i && i + 9 <= infos[n].source@.len() && #[trigger] infos[n].source@.subrange(
                i,
                i + 9,
            ) == "atomicAdd"@) || (forall|i: int|
            0 <= i < infos[n].source@.len() ==> is_white_space(#[trigger] infos[n].source@[i])),
{
    reveal_strlit("atomicAdd");
    let k = infos[n];
    let needle = "atomicAdd"@;
    assert(needle.len() == 9);
    lemma_zeroed(plan, block, edges, infos, mega, n);
    assert forall|i: int|
        k.static_bytes != Some(0usize) && 0 <= i && i + 9 <= k.source@.len()
            && #[trigger] k.source@.subrange(i, i + 9) == needle implies plan.zero_output_nodes@.contains(
        n,
    ) by {
        assert(stands_at(k.source@, needle, i));
    }
    if has_text(k.source@, needle) {
        let i = choose|i: int| stands_at(k.source@, needle, i);
        assert(k.source@.subrange(i, i + 9) == needle);
    }
    if forall|i: int|
        0 <= i < k.source@.len() ==> #[trigger] k.source@[i] == ' ' || k.source@[i] == '\n' {
        assert(is_blank(k.source@));
    }
}

/// The nodes of a plan's lists are its kernels.
proof fn lemma_zeroed(
    plan: CudaGraphPlan,
    block: Set<usize>,
    edges: Map<usize, (usize, usize)>,
    infos: Map<usize, KernelInfo>,
    mega: Map<usize, Vec<usize>>,
    n: usize,
)
    requires
        plan_for(plan, block, edges, infos, mega),
    ensures
        plan.zero_output_nodes@.contains(n) <==> block.contains(n) && needs_zero(infos[n]),
        plan.sized_nodes@.contains(n) <==> block.contains(n) && has_output(infos[n]),
{
    let ks = kernel_nodes(plan.kernels@);
    lemma_filter_contains(ks, |m: usize| needs_zero(infos[m]), n);
    lemma_filter_contains(ks, |m: usize| has_output(infos[m]), n);
    assert(ks.contains(n) <==> ks.to_set().contains(n));
}

proof fn lemma_filter_contains(s: Seq<usize>, pred: spec_fn(usize) -> bool, n: usize)
    ensures
        s.filter(pred).contains(n) <==> s.contains(n) && pred(n),
    decreases s.len(),
{
    reveal(Seq::filter);
    if s.len() > 0 {
        let t = s.drop_last();
        let f = t.filter(pred);
        lemma_filter_contains(t, pred, n);
        assert(s =~= t.push(s.last()));
        lemma_filter_push(t, s.last(), pred);
        if s.contains(n) {
            let i = choose|i: int| 0 <= i < s.len() && s[i] == n;
            if i < t.len() {
                assert(t[i] == n);
            }
        }
        if t.contains(n) {
            let i = choose|i: int| 0 <= i < t.len() && t[i] == n;
            assert(s[i] == n);
        }
        if pred(s.last()) {
            let h = f.push(s.last());
            assert(h[f.len() as int] == s.last());
            if f.contains(n) {
                let i = choose|i: int| 0 <= i < f.len() && f[i] == n;
                assert(h[i] == n);
            }
            if h.contains(n) {
                let i = choose|i: int| 0 <= i < h.len() && h[i] == n;
                if i < f.len() {
                    assert(f[i] == n);
                }
            }
        }
        if s.last() == n {
            assert(s[s.len() - 1] == n);
        }
    }
}

/// A plan touches the output of every kernel that has one and all that its kernels read, and
/// nothing else; its outputs are among what it touches.
pub proof fn law_plan_touches_what_its_kernels_use(
    plan: CudaGraphPlan,
    block: Set<usize>,
    edges: Map<usize, (usize, usize)>,
    infos: Map<usize, KernelInfo>,
    mega: Map<usize, Vec<usize>>,
    n: usize,
)
    requires
        plan_for(plan, block, edges, infos, mega),
    ensures
        plan.sized_nodes@.contains(n) <==> block.contains(n) && infos[n].static_bytes != Some(0usize),
        block.contains(n) && infos[n].static_bytes != Some(0usize) ==> plan.buffer_nodes@.contains(n),
        forall|i: int|
            0 <= i < plan.kernels@.len() && (#[trigger] plan.kernels@[i]).inputs@.contains(n)
                ==> plan.buffer_nodes@.contains(n),
        plan.buffer_nodes@.contains(n) && !(block.contains(n) && infos[n].static_bytes != Some(0usize))
            ==> exists|i: int|
            0 <= i < plan.kernels@.len() && (#[trigger] plan.kernels@[i]).inputs@.contains(n),
        plan.zero_output_nodes@.contains(n) ==> plan.buffer_nodes@.contains(n),
        plan.buffer_nodes@.no_duplicates(),
{
    lemma_zeroed(plan, block, edges, infos, mega, n);
}

/// The dimensions that a plan has a place for are those that its kernels use, each once, in
/// the order of the alphabet.
pub proof fn law_plan_has_every_dimension(
    plan: CudaGraphPlan,
    block: Set<usize>,
    edges: Map<usize, (usize, usize)>,
    infos: Map<usize, KernelInfo>,
    mega: Map<usize, Vec<usize>>,
    d: char,
)
    requires
        plan_for(plan, block, edges, infos, mega),
    ensures
        plan.dyn_dims_order@.contains(d) <==> exists|n: usize|
            block.contains(n) && #[trigger] infos[n].dyn_vars@.contains(d),
        forall|i: int, j: int|
            0 <= i < j < plan.dyn_dims_order@.len() ==> plan.dyn_dims_order@[i]
                < plan.dyn_dims_order@[j],
{
    let ks = kernel_nodes(plan.kernels@);
    if plan.dyn_dims_order@.contains(d) {
        let i = choose|i: int|
            0 <= i < plan.kernels@.len() && infos[(#[trigger] plan.kernels@[i]).node].dyn_vars@.contains(
            d,
        );
        assert(ks[i] == plan.kernels@[i].node);
        assert(ks.to_set().contains(ks[i]));
    }
    if exists|n: usize| block.contains(n) && #[trigger] infos[n].dyn_vars@.contains(d) {
        let n = choose|n: usize| block.contains(n) && #[trigger] infos[n].dyn_vars@.contains(d);
        assert(ks.to_set().contains(n));
        let i = choose|i: int| 0 <= i < ks.len() && ks[i] == n;
        assert(plan.kernels@[i].node == n);
    }
}

/// Within a plan a kernel comes after all whose output it reads, and it reads what has an edge
/// to it and, if it is a megakernel, its block operations.
pub proof fn law_planned_kernels_read_what_feeds_them(
    plan: CudaGraphPlan,
    block: Set<usize>,
    edges: Map<usize, (usize, usize)>,
    infos: Map<usize, KernelInfo>,
    mega: Map<usize, Vec<usize>>,
    i: int,
)
    requires
        plan_for(plan, block, edges, infos, mega),
        0 <= i < plan.kernels@.len(),
    ensures
        ({
            let k = plan.kernels@[i];
            &&& forall|s: usize|
                edges.values().contains((s, k.node)) ==> #[trigger] k.inputs@.contains(s)
            &&& forall|s: usize|
                mega.contains_key(k.node) && mega[k.node]@.contains(s) ==> #[trigger] k.inputs@.contains(
                    s,
                )
            &&& forall|s: usize| #[trigger]
                k.inputs@.contains(s) ==> edges.values().contains((s, k.node)) || (mega.contains_key(
                    k.node,
                ) && mega[k.node]@.contains(s))
            &&& forall|j: int|
                0 <= j < plan.kernels@.len() && edges.values().contains(
                    ((#[trigger] plan.kernels@[j]).node, k.node),
                ) ==> j < i
        }),
{
    let ks = kernel_nodes(plan.kernels@);
    let k = plan.kernels@[i];
    let first = incoming_sources(edges, k.node);
    let second = block_ops(mega, k.node);
    assert(k.inputs@ == first + second);
    assert forall|s: usize| #[trigger] k.inputs@.contains(s) <==> first.contains(s)
        || second.contains(s) by {
        if first.contains(s) {
            let q = choose|q: int| 0 <= q < first.len() && first[q] == s;
            assert(k.inputs@[q] == s);
        }
        if second.contains(s) {
            let q = choose|q: int| 0 <= q < second.len() && second[q] == s;
            assert(k.inputs@[first.len() + q] == s);
        }
    }
    assert forall|s: usize| #[trigger] first.contains(s) <==> edges.values().contains((s, k.node)) by {
        lemma_incoming_sources_contains(edges, k.node, s);
    }
    assert forall|s: usize| edges.values().contains((s, k.node)) implies #[trigger] k.inputs@.contains(
        s,
    ) by {
        assert(first.contains(s));
    }
    assert forall|s: usize|
        mega.contains_key(k.node) && mega[k.node]@.contains(s) implies #[trigger] k.inputs@.contains(
        s,
    ) by {
        assert(second.contains(s));
    }
    assert forall|j: int|
        0 <= j < plan.kernels@.len() && edges.values().contains(
            ((#[trigger] plan.kernels@[j]).node, k.node),
        ) implies j < i by {
        assert(ks[j] == plan.kernels@[j].node && ks[i] == k.node);
    }
}

/// The only CUDA graph that produces something is its owner.
proof fn lemma_only_owner(
    blocks: Seq<Set<usize>>,
    nodes: Seq<usize>,
    mega: Map<usize, Vec<usize>>,
    c: usize,
    l: int,
)
    requires
        0 <= l < nodes.len(),
        producers(blocks[l], mega).contains(c),
        forall|j: int|
            0 <= j < nodes.len() && j != l ==> !producers(#[trigger] blocks[j], mega).contains(c),
    ensures
        owner_of(blocks, nodes, mega, c) == Some(nodes[l]),
    decreases nodes.len(),
{
    if l < nodes.len() - 1 {
        assert(!producers(blocks[nodes.len() - 1], mega).contains(c));
        lemma_only_owner(blocks, nodes.drop_last(), mega, c, l);
    }
}

/// A CUDA graph with a kernel that reads the output of a kernel in another waits for it: there
/// is an arc between their nodes, unless the other waits for it in turn.
pub proof fn law_reading_graph_waits(
    nodes0: Set<usize>,
    edges0: Map<usize, (usize, usize)>,
    infos: Map<usize, KernelInfo>,
    hosts: Set<usize>,
    mega: Map<usize, Vec<usize>>,
    blocks: Seq<Set<usize>>,
    plans: Seq<CudaGraphPlan>,
    nodes: Set<usize>,
    edges: Map<usize, (usize, usize)>,
    k: int,
    l: int,
    u: usize,
    c: usize,
)
    requires
        hosted(nodes0, edges0, infos, hosts, mega, blocks, plans, nodes, edges),
        0 <= k < plans.len(),
        0 <= l < plans.len(),
        k != l,
        blocks[k].contains(u),
        blocks[l].contains(c),
        edges0.values().contains((u, c)),
        forall|m: usize| #[trigger] mega.contains_key(m) ==> !mega[m]@.contains(c),
    ensures
        edges.values().contains((plans[k].node, plans[l].node)) || reaches(
            edges.values(),
            plans[l].node,
            plans[k].node,
        ),
        plans[k].node != plans[l].node,
{
    let pn = plan_nodes(plans);
    let fed = edges0.values().union(feed_arcs(edges0.values(), blocks, pn));
    assert(pn[k] == plans[k].node && pn[l] == plans[l].node);
    assert(fed.contains((u, c)));
    assert forall|j: int| 0 <= j < pn.len() && j != l implies !producers(
        #[trigger] blocks[j],
        mega,
    ).contains(c) by {
        if blocks[j].contains(c) {
            assert(blocks[l].contains(c));
        }
    }
    lemma_only_owner(blocks, pn, mega, c, l);
    assert(waits(hosts, mega, blocks, pn, k, c, pn[l]));
    assert(must_follow(fed, hosts, mega, blocks, pn, k, pn[l]));
}

/// A host operation that reads the output of a kernel waits for its CUDA graph: there is an arc
/// from the graph's node, unless the graph waits for it in turn.
pub proof fn law_reading_host_operation_waits(
    nodes0: Set<usize>,
    edges0: Map<usize, (usize, usize)>,
    infos: Map<usize, KernelInfo>,
    hosts: Set<usize>,
    mega: Map<usize, Vec<usize>>,
    blocks: Seq<Set<usize>>,
    plans: Seq<CudaGraphPlan>,
    nodes: Set<usize>,
    edges: Map<usize, (usize, usize)>,
    k: int,
    u: usize,
    c: usize,
)
    requires
        hosted(nodes0, edges0, infos, hosts, mega, blocks, plans, nodes, edges),
        0 <= k < plans.len(),
        blocks[k].contains(u),
        edges0.values().contains((u, c)),
        hosts.contains(c),
        nodes0.contains(c),
        !infos.contains_key(c),
        forall|m: usize| #[trigger] mega.contains_key(m) ==> !mega[m]@.contains(c),
    ensures
        edges.values().contains((plans[k].node, c)) || reaches(edges.values(), c, plans[k].node),
{
    let pn = plan_nodes(plans);
    let fed = edges0.values().union(feed_arcs(edges0.values(), blocks, pn));
    assert(pn[k] == plans[k].node);
    assert(fed.contains((u, c)));
    let live = infos.dom().intersect(nodes0);
    assert(!live.contains(c));
    assert(!blocks[k].contains(c));
    assert(!producers(blocks[k], mega).contains(c));
    assert(waits(hosts, mega, blocks, pn, k, c, c));
    assert(must_follow(fed, hosts, mega, blocks, pn, k, c));
    assert(pn.contains(pn[k]));
}

/// What the graph had stays: every node, and every edge under its number. New are one node for
/// each CUDA graph, and no other.
pub proof fn law_graph_is_kept(
    nodes0: Set<usize>,
    edges0: Map<usize, (usize, usize)>,
    infos: Map<usize, KernelInfo>,
    hosts: Set<usize>,
    mega: Map<usize, Vec<usize>>,
    blocks: Seq<Set<usize>>,
    plans: Seq<CudaGraphPlan>,
    nodes: Set<usize>,
    edges: Map<usize, (usize, usize)>,
    n: usize,
    e: usize,
)
    requires
        hosted(nodes0, edges0, infos, hosts, mega, blocks, plans, nodes, edges),
    ensures
        nodes0.contains(n) ==> nodes.contains(n),
        edges0.contains_key(e) ==> edges.contains_key(e) && edges[e] == edges0[e],
        nodes.contains(n) && !nodes0.contains(n) ==> exists|k: int|
            0 <= k < plans.len() && (#[trigger] plans[k]).node == n,
        forall|k: int, l: int|
            0 <= k < l < plans.len() ==> (#[trigger] plans[k]).node != (#[trigger] plans[l]).node,
        forall|k: int|
            0 <= k < plans.len() ==> nodes.contains((#[trigger] plans[k]).node) && !nodes0.contains(
                plans[k].node,
            ),
        !reaches(edges.values(), n, n),
{
    let pn = plan_nodes(plans);
    assert forall|k: int| 0 <= k < plans.len() implies pn.contains((#[trigger] plans[k]).node) by {
        assert(pn[k] == plans[k].node);
    }
    assert forall|k: int, l: int| 0 <= k < l < plans.len() implies (#[trigger] plans[k]).node != (
    #[trigger] plans[l]).node by {
        assert(pn[k] == plans[k].node && pn[l] == plans[l].node);
    }
    if nodes.contains(n) && !nodes0.contains(n) {
        let k = choose|k: int| 0 <= k < pn.len() && pn[k] == n;
        assert(plans[k].node == n);
    }
}

} // verus!
