//! A whole execution as one graph.
//!
//! The graph has a memset node for every buffer to be zeroed and a node for every
//! host operation: the operation's own CUDA graph, or a capture of it.

use crate::device::build_host_op_buffer_map;
#[allow(unused_imports)]
use crate::device::{lemma_rising_same, node_buffer, touches, DeviceBuffer};
use crate::digraph::predecessors;
#[allow(unused_imports)]
use crate::digraph::{arcs, graph_edges, graph_nodes, topological};
#[allow(unused_imports)]
use crate::exec_graph::{exec_graph_of, ExecutableHostOp};
use crate::node_list::NodeList;
use crate::reachability::positions;
#[allow(unused_imports)]
use crate::reachability::positions_of;
#[allow(unused_imports)]
use crate::runtime::HostOpInfo;
use crate::runtime::CudaRuntime;
use crate::text::same_text;
#[allow(unused_imports)]
use crate::walk::rising;
use std::collections::HashMap;
use vstd::prelude::*;

verus! {

broadcast use vstd::std_specs::hash::group_hash_axioms;

/// The nodes of the graph and what each host operation waits for.
#[derive(Debug)]
pub struct RuntimeGraphPlan {
    /// The nodes whose buffers are zeroed, one memset node for each.
    pub zeroed: Vec<usize>,
    /// The host operations in order.
    pub ops: Vec<PlannedOp>,
}

/// One host operation in the graph.
#[derive(Debug)]
pub struct PlannedOp {
    /// Its node in the execution graph.
    pub exec_node: usize,
    /// Whether it has to be captured, because it is no CUDA graph.
    pub capture: bool,
    /// The operations that come before it, as indices into the plan's operations.
    pub after_ops: Vec<usize>,
    /// The memsets that come before it, as indices into the plan's zeroed nodes.
    pub after_zeros: Vec<usize>,
}

/// Why no graph can be planned.
#[derive(Debug)]
pub enum RuntimeGraphError {
    /// A host operation needs a buffer for this node, and there is none.
    MissingBuffer(usize),
    /// The host operation of this name cannot be captured.
    Unsupported(String),
}

/// The operation at a node of the execution graph.
pub open spec fn exec_op(rt: CudaRuntime, x: usize) -> ExecutableHostOp {
    rt.exec_graph.ops@[x]
}

/// What is known of the operation at a node of the execution graph.
pub open spec fn exec_info(rt: CudaRuntime, x: usize) -> HostOpInfo {
    rt.host_ops@[exec_op(rt, x).output]
}

/// The name that a host operation is known under.
pub open spec fn op_name(info: HostOpInfo) -> Seq<char> {
    match info.stats_name {
        Some(name) => name@,
        None => "unknown"@,
    }
}

/// The operation is a CUDA graph, or can be captured as a child graph.
pub open spec fn capturable(info: HostOpInfo) -> bool {
    info.cuda_graph || op_name(info) == "cuBLAS"@ || op_name(info) == "cuBLASLt"@
}

/// The buffer of a node, as the runtime knows it.
pub open spec fn runtime_buffer(rt: CudaRuntime, n: usize) -> Option<DeviceBuffer> {
    node_buffer(rt.buffers@, rt.llir_to_hlir@, rt.hlir_buffers@, n)
}

/// Every extra node of the operation has a buffer.
pub open spec fn extras_present(rt: CudaRuntime, x: usize) -> bool {
    forall|i: int|
        0 <= i < exec_info(rt, x).extra_buffer_nodes@.len() ==> runtime_buffer(
            rt,
            #[trigger] exec_info(rt, x).extra_buffer_nodes@[i],
        ) is Some
}

/// The operation can stand in the graph.
pub open spec fn plannable(rt: CudaRuntime, x: usize) -> bool {
    extras_present(rt, x) && capturable(exec_info(rt, x))
}

/// The operation touches the buffer of node `n`.
pub open spec fn op_touches(rt: CudaRuntime, x: usize, n: usize) -> bool {
    touches(
        rt.buffers@,
        rt.llir_to_hlir@,
        rt.hlir_buffers@,
        exec_op(rt, x),
        exec_info(rt, x).extra_buffer_nodes@,
        n,
    )
}

/// The runtime's execution graph is that of its operation graph.
pub open spec fn executes(rt: CudaRuntime) -> bool {
    exec_graph_of(
        graph_nodes(rt.llir_graph),
        graph_edges(rt.llir_graph),
        rt.host_ops@.dom(),
        rt.exec_graph,
    )
}

/// One operation of the plan: it waits for the operations that have an arc to it, and
/// for the memset of every buffer that it touches.
pub open spec fn planned_op(
    rt: CudaRuntime,
    order: Seq<usize>,
    zeroed: Seq<usize>,
    j: int,
    op: PlannedOp,
) -> bool {
    &&& op.exec_node == order[j]
    &&& op.capture == !exec_info(rt, order[j]).cuda_graph
    &&& op.after_ops@.no_duplicates()
    &&& forall|p: usize| #[trigger]
        op.after_ops@.contains(p) <==> p < order.len() && arcs(rt.exec_graph.graph).contains(
            (order[p as int], order[j]),
        )
    &&& op.after_zeros@.no_duplicates()
    &&& forall|z: usize| #[trigger]
        op.after_zeros@.contains(z) <==> z < zeroed.len() && op_touches(
            rt,
            order[j],
            zeroed[z as int],
        )
}

/// The plan of an execution in a given order.
pub open spec fn runtime_graph_of(
    rt: CudaRuntime,
    order: Seq<usize>,
    force_zero_all: bool,
    plan: RuntimeGraphPlan,
) -> bool {
    &&& rising(plan.zeroed@)
    &&& forall|n: usize| #[trigger]
        plan.zeroed@.contains(n) <==> rt.buffers@.contains_key(n) && (force_zero_all
            || rt.buffers_requiring_zero@.contains(n))
    &&& plan.ops@.len() == order.len()
    &&& forall|j: int|
        0 <= j < order.len() ==> planned_op(rt, order, plan.zeroed@, j, #[trigger] plan.ops@[j])
}

/// The memsets that the operation waits for.
fn zeros_before(
    zeroed: &Vec<usize>,
    map: &HashMap<usize, DeviceBuffer>,
) -> (r: Vec<usize>)
    ensures
        r@.no_duplicates(),
        forall|z: usize| #[trigger]
            r@.contains(z) <==> z < zeroed@.len() && map@.contains_key(zeroed@[z as int]),
{
    let mut found = NodeList::new();
    let mut z: usize = 0;
    while z < zeroed.len()
        invariant
            z <= zeroed@.len(),
            found.wf(),
            forall|y: usize| #[trigger]
                found.nodes().contains(y) <==> y < z && map@.contains_key(zeroed@[y as int]),
        decreases zeroed@.len() - z,
    {
        if map.contains_key(&zeroed[z]) {
            found.insert(z);
        }
        z = z + 1;
    }
    found.into_vec()
}

/// The operations that the operation at `x` waits for.
fn ops_before(
    rt: &CudaRuntime,
    order: &Vec<usize>,
    pos: &HashMap<usize, usize>,
    x: usize,
) -> (r: Vec<usize>)
    requires
        topological(order@, graph_nodes(rt.exec_graph.graph), arcs(rt.exec_graph.graph)),
        positions_of(pos@, order@),
        graph_nodes(rt.exec_graph.graph).contains(x),
    ensures
        r@.no_duplicates(),
        forall|p: usize| #[trigger]
            r@.contains(p) <==> p < order@.len() && arcs(rt.exec_graph.graph).contains(
                (order@[p as int], x),
            ),
{
    let ghost a = arcs(rt.exec_graph.graph);
    let ps = predecessors(&rt.exec_graph.graph, x);
    let mut found = NodeList::new();
    let mut t: usize = 0;
    while t < ps.len()
        invariant
            positions_of(pos@, order@),
            order@.no_duplicates(),
            t <= ps@.len(),
            found.wf(),
            forall|p: usize| #[trigger]
                found.nodes().contains(p) <==> p < order@.len() && exists|k: int|
                    0 <= k < t && #[trigger] ps@[k] == order@[p as int],
        decreases ps@.len() - t,
    {
        let ghost f0 = found.nodes();
        if let Some(p) = pos.get(&ps[t]) {
            proof {
                assert(order@.contains(ps@[t as int]));
                let q = choose|q: int| 0 <= q < order@.len() && order@[q] == ps@[t as int];
                assert(pos@[order@[q]] == q);
            }
            found.insert(*p);
        } else {
            assert(!order@.contains(ps@[t as int]));
            assert forall|p: usize| p < order@.len() implies ps@[t as int] != #[trigger] order@[p as int] by {
                assert(order@.contains(order@[p as int]));
            }
        }
        t = t + 1;
    }
    proof {
        assert forall|p: usize| #[trigger] found.nodes().contains(p) <==> p < order@.len() && a.contains(
            (order@[p as int], x),
        ) by {
            if p < order@.len() {
                assert(ps@.contains(order@[p as int]) <==> a.contains((order@[p as int], x)));
            }
        }
    }
    found.into_vec()
}

/// Plan the graph of an execution in a topological order of its host operations; or
/// name what is wrong with the first operation that cannot stand in it.
pub fn build_runtime_graph(rt: &CudaRuntime, order: &Vec<usize>, force_zero_all: bool) -> (r: Result<
    RuntimeGraphPlan,
    RuntimeGraphError,
>)
    requires
        executes(*rt),
        topological(order@, graph_nodes(rt.exec_graph.graph), arcs(rt.exec_graph.graph)),
    ensures
        r is Ok <==> forall|j: int| 0 <= j < order@.len() ==> plannable(*rt, #[trigger] order@[j]),
        r matches Ok(plan) ==> runtime_graph_of(*rt, order@, force_zero_all, plan),
        r matches Err(RuntimeGraphError::MissingBuffer(n)) ==> exists|j: int|
            0 <= j < order@.len() && !extras_present(*rt, #[trigger] order@[j]) && exec_info(
                *rt,
                order@[j],
            ).extra_buffer_nodes@.contains(n) && runtime_buffer(*rt, n) is None && forall|i: int|
                0 <= i < j ==> plannable(*rt, #[trigger] order@[i]),
        r matches Err(RuntimeGraphError::Unsupported(name)) ==> exists|j: int|
            0 <= j < order@.len() && extras_present(*rt, #[trigger] order@[j]) && !capturable(
                exec_info(*rt, order@[j]),
            ) && name@ == op_name(exec_info(*rt, order@[j])) && forall|i: int|
                0 <= i < j ==> plannable(*rt, #[trigger] order@[i]),
{
    let ghost g = rt.exec_graph.graph;
    let pos = positions(order);
    let zeroed = rt.zero_buffers_for_execute(force_zero_all);
    let mut ops: Vec<PlannedOp> = Vec::new();
    let mut j: usize = 0;
    while j < order.len()
        invariant
            executes(*rt),
            g == rt.exec_graph.graph,
            topological(order@, graph_nodes(g), arcs(g)),
            positions_of(pos@, order@),
            j <= order@.len(),
            ops@.len() == j,
            forall|i: int| 0 <= i < j ==> plannable(*rt, #[trigger] order@[i]),
            forall|i: int|
                0 <= i < j ==> planned_op(*rt, order@, zeroed@, i, #[trigger] ops@[i]),
        decreases order@.len() - j,
    {
        let x = order[j];
        proof {
            assert(order@.to_set().contains(x));
            assert(graph_nodes(g).contains(x));
            assert(rt.exec_graph.ops@.contains_key(x));
            assert(rt.exec_graph.node_to_exec@.contains_key(exec_op(*rt, x).output));
        }
        if let Some(op) = rt.exec_graph.ops.get(&x) {
            if let Some(info) = rt.host_ops.get(&op.output) {
                assert(*op == exec_op(*rt, x) && *info == exec_info(*rt, x));
                let map = match build_host_op_buffer_map(
                    &rt.buffers,
                    &rt.llir_to_hlir,
                    &rt.hlir_buffers,
                    op,
                    &info.extra_buffer_nodes,
                ) {
                    Ok(map) => map,
                    Err(n) => {
                        proof {
                            assert(info.extra_buffer_nodes@.contains(n));
                            assert(!extras_present(*rt, order@[j as int]));
                        }
                        return Err(RuntimeGraphError::MissingBuffer(n));
                    },
                };
                assert(extras_present(*rt, order@[j as int]));
                if !info.cuda_graph {
                    let name = match &info.stats_name {
                        Some(name) => name.as_str(),
                        None => "unknown",
                    };
                    assert(name@ == op_name(*info));
                    if !same_text(name, "cuBLAS") && !same_text(name, "cuBLASLt") {
                        assert(!plannable(*rt, order@[j as int]));
                        return Err(RuntimeGraphError::Unsupported(name.to_owned()));
                    }
                }
                let after_ops = ops_before(rt, order, &pos, x);
                let after_zeros = zeros_before(&zeroed, &map);
                let ghost ops0 = ops@;
                ops.push(
                    PlannedOp { exec_node: x, capture: !info.cuda_graph, after_ops, after_zeros },
                );
                proof {
                    assert(planned_op(*rt, order@, zeroed@, j as int, ops@[j as int]));
                    assert forall|i: int| 0 <= i < j + 1 implies planned_op(
                        *rt,
                        order@,
                        zeroed@,
                        i,
                        #[trigger] ops@[i],
                    ) by {
                        if i < j {
                            assert(ops@[i] == ops0[i]);
                        }
                    }
                }
            } else {
                assert(false);
            }
        } else {
            assert(false);
        }
        j = j + 1;
    }
    Ok(RuntimeGraphPlan { zeroed, ops })
}

/// The memset of a buffer comes before every operation that touches the buffer.
pub proof fn law_zeroing_precedes_every_use(
    rt: CudaRuntime,
    order: Seq<usize>,
    force_zero_all: bool,
    plan: RuntimeGraphPlan,
    z: usize,
    j: int,
)
    requires
        runtime_graph_of(rt, order, force_zero_all, plan),
        z < plan.zeroed@.len(),
        0 <= j < order.len(),
        op_touches(rt, order[j], plan.zeroed@[z as int]),
    ensures
        plan.ops@[j].after_zeros@.contains(z),
{
    assert(planned_op(rt, order, plan.zeroed@, j, plan.ops@[j]));
}

/// Every dependency between host operations is one in the graph, and all of them go
/// forward: the graph has no cycle.
pub proof fn law_dependencies_go_forward(
    rt: CudaRuntime,
    order: Seq<usize>,
    force_zero_all: bool,
    plan: RuntimeGraphPlan,
    i: usize,
    j: int,
)
    requires
        runtime_graph_of(rt, order, force_zero_all, plan),
        topological(order, graph_nodes(rt.exec_graph.graph), arcs(rt.exec_graph.graph)),
        0 <= j < order.len(),
        i < order.len(),
    ensures
        arcs(rt.exec_graph.graph).contains((order[i as int], order[j]))
            <==> plan.ops@[j].after_ops@.contains(i),
        plan.ops@[j].after_ops@.contains(i) ==> i < j,
{
    assert(planned_op(rt, order, plan.zeroed@, j, plan.ops@[j]));
}

/// A recorded execution does what executing the host operations one by one does: it zeroes
/// the same buffers, and holds every operation once, in the same order.
pub proof fn law_recording_holds_a_dispatch(
    rt: CudaRuntime,
    order: Seq<usize>,
    force_zero_all: bool,
    plan: RuntimeGraphPlan,
    zeroed: Seq<usize>,
)
    requires
        runtime_graph_of(rt, order, force_zero_all, plan),
        rising(zeroed),
        forall|n: usize| #[trigger]
            zeroed.contains(n) <==> rt.buffers@.contains_key(n) && (force_zero_all
                || rt.buffers_requiring_zero@.contains(n)),
    ensures
        plan.zeroed@ == zeroed,
        plan.ops@.map_values(|op: PlannedOp| op.exec_node) == order,
{
    assert forall|n: usize| #[trigger] plan.zeroed@.to_set().contains(n) <==> zeroed.to_set().contains(
        n,
    ) by {
        assert(plan.zeroed@.contains(n) <==> zeroed.contains(n));
    }
    assert(plan.zeroed@.to_set() =~= zeroed.to_set());
    lemma_rising_same(plan.zeroed@, zeroed);
    let ops = plan.ops@.map_values(|op: PlannedOp| op.exec_node);
    assert forall|j: int| 0 <= j < order.len() implies #[trigger] ops[j] == order[j] by {
        assert(planned_op(rt, order, plan.zeroed@, j, plan.ops@[j]));
    }
    assert(ops =~= order);
}

/// An execution can be recorded if every host operation has a buffer for each of its extra
/// nodes and is a CUDA graph or a product of cuBLAS or cuBLASLt.
pub proof fn law_what_can_be_recorded(rt: CudaRuntime, x: usize, i: int)
    ensures
        exec_info(rt, x).cuda_graph && extras_present(rt, x) ==> plannable(rt, x),
        exec_info(rt, x).stats_name matches Some(name) ==> (name@ == "cuBLAS"@ || name@
            == "cuBLASLt"@) && extras_present(rt, x) ==> plannable(rt, x),
        !exec_info(rt, x).cuda_graph && exec_info(rt, x).stats_name is None ==> !plannable(rt, x),
        exec_info(rt, x).stats_name matches Some(name) ==> !exec_info(rt, x).cuda_graph && name@
            != "cuBLAS"@ && name@ != "cuBLASLt"@ ==> !plannable(rt, x),
        0 <= i < exec_info(rt, x).extra_buffer_nodes@.len() && runtime_buffer(
            rt,
            exec_info(rt, x).extra_buffer_nodes@[i],
        ) is None ==> !plannable(rt, x),
{
    reveal_strlit("unknown");
    reveal_strlit("cuBLAS");
    reveal_strlit("cuBLASLt");
    assert("unknown"@.len() == 7 && "cuBLAS"@.len() == 6 && "cuBLASLt"@.len() == 8);
}

/// The plan holds every operation of the order at its place. Each waits for exactly the
/// operations with an edge to it, and for the memset of exactly the zeroed buffers among
/// those it touches; all but CUDA graphs are captured.
pub proof fn law_plan_waits_for_what_it_must(
    rt: CudaRuntime,
    order: Seq<usize>,
    force_zero_all: bool,
    plan: RuntimeGraphPlan,
    j: int,
    p: usize,
    z: usize,
)
    requires
        runtime_graph_of(rt, order, force_zero_all, plan),
        0 <= j < order.len(),
        p < order.len(),
        z < plan.zeroed@.len(),
    ensures
        plan.ops@.len() == order.len(),
        plan.ops@[j].exec_node == order[j],
        plan.ops@[j].capture <==> !rt.host_ops@[rt.exec_graph.ops@[order[j]].output].cuda_graph,
        plan.ops@[j].after_ops@.contains(p) <==> arcs(rt.exec_graph.graph).contains(
            (order[p as int], order[j]),
        ),
        plan.ops@[j].after_zeros@.contains(z) <==> op_touches(
            rt,
            order[j],
            plan.zeroed@[z as int],
        ),
        rt.buffers@.contains_key(plan.zeroed@[z as int]),
        force_zero_all || rt.buffers_requiring_zero@.contains(plan.zeroed@[z as int]),
{
    assert(plan.zeroed@.contains(plan.zeroed@[z as int]));
    assert(planned_op(rt, order, plan.zeroed@, j, plan.ops@[j]));
}

/// A buffer that has to start from zero is zeroed, unless there is none.
pub proof fn law_buffers_that_need_it_are_zeroed(
    rt: CudaRuntime,
    order: Seq<usize>,
    force_zero_all: bool,
    plan: RuntimeGraphPlan,
    n: usize,
)
    requires
        runtime_graph_of(rt, order, force_zero_all, plan),
        rt.buffers@.contains_key(n),
        force_zero_all || rt.buffers_requiring_zero@.contains(n),
    ensures
        exists|z: int| 0 <= z < plan.zeroed@.len() && #[trigger] plan.zeroed@[z] == n,
{
    assert(plan.zeroed@.contains(n));
}

} // verus!
