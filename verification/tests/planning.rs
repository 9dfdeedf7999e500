use luminal_runtime::digraph::DiGraph;
use luminal_runtime::exec_graph::{build_exec_graph, execution_order};
use luminal_runtime::host_plan::{kernel_to_host, CudaGraphPlan, KernelInfo, PlanError};
use luminal_runtime::partition::{partition_in_order, partition_marked_convex};
use petgraph::graph::NodeIndex;
use std::collections::{HashMap, HashSet};

fn graph(nodes: usize, edges: &[(usize, usize)]) -> DiGraph {
    let mut g = DiGraph::default();
    for _ in 0..nodes {
        g.add_node(());
    }
    for (a, b) in edges {
        g.add_edge(NodeIndex::new(*a), NodeIndex::new(*b), ());
    }
    g
}

fn set(nodes: &[usize]) -> HashSet<usize> {
    nodes.iter().copied().collect()
}

fn sorted(blocks: &[HashSet<usize>]) -> Vec<Vec<usize>> {
    let mut all: Vec<Vec<usize>> = blocks
        .iter()
        .map(|b| {
            let mut v: Vec<usize> = b.iter().copied().collect();
            v.sort();
            v
        })
        .collect();
    all.sort();
    all
}

fn reaches(g: &DiGraph, a: usize, b: usize) -> bool {
    petgraph::algo::has_path_connecting(g, NodeIndex::new(a), NodeIndex::new(b), None)
}

/// No path between two nodes of a block leaves it.
fn convex(g: &DiGraph, block: &HashSet<usize>) -> bool {
    g.node_indices().map(|n| n.index()).all(|m| {
        block.contains(&m)
            || !(block.iter().any(|a| reaches(g, *a, m)) && block.iter().any(|b| reaches(g, m, *b)))
    })
}

#[test]
fn a_chain_of_marked_nodes_is_one_block() {
    let g = graph(3, &[(0, 1), (1, 2)]);
    let blocks = partition_marked_convex(&g, &set(&[0, 1, 2])).unwrap();
    assert_eq!(sorted(&blocks), vec![vec![0, 1, 2]]);
}

#[test]
fn a_detour_splits_a_block() {
    // 0 -> 2 directly, and 0 -> 1 -> 2 through the unmarked 1.
    let g = graph(3, &[(0, 1), (1, 2), (0, 2)]);
    let blocks = partition_marked_convex(&g, &set(&[0, 2])).unwrap();
    assert_eq!(sorted(&blocks), vec![vec![0], vec![2]]);
    assert!(blocks.iter().all(|b| convex(&g, b)));
}

#[test]
fn separate_components_are_separate_blocks() {
    let g = graph(5, &[(0, 1), (2, 3), (1, 4), (4, 2)]);
    let blocks = partition_marked_convex(&g, &set(&[0, 1, 2, 3])).unwrap();
    assert_eq!(sorted(&blocks), vec![vec![0, 1], vec![2, 3]]);
}

#[test]
fn marks_on_missing_nodes_do_not_count() {
    let g = graph(2, &[(0, 1)]);
    let blocks = partition_marked_convex(&g, &set(&[1, 7])).unwrap();
    assert_eq!(sorted(&blocks), vec![vec![1]]);
    assert_eq!(partition_marked_convex(&g, &set(&[])).unwrap().len(), 0);
}

#[test]
fn a_cycle_is_reported() {
    let g = graph(3, &[(0, 1), (1, 2), (2, 1)]);
    let n = partition_marked_convex(&g, &set(&[0])).unwrap_err();
    assert!(n == 1 || n == 2);
    // Without marks nothing is looked at.
    assert!(partition_marked_convex(&g, &set(&[])).is_ok());
}

#[test]
fn a_given_order_decides_the_blocks() {
    // Two marked chains joined at 4, with an unmarked detour from 0 to 4.
    let g = graph(6, &[(0, 1), (1, 4), (2, 3), (3, 4), (0, 5), (5, 4)]);
    let marked = set(&[0, 1, 2, 3, 4]);
    let blocks = partition_in_order(&g, &marked, &vec![0, 1, 2, 3, 5, 4]);
    let mut seen = 0;
    for b in &blocks {
        assert!(convex(&g, b));
        seen += b.len();
    }
    assert_eq!(seen, 5);
    assert_eq!(sorted(&blocks), vec![vec![0, 1, 2, 3], vec![4]]);
}

#[test]
fn random_graphs_are_partitioned_convexly() {
    let mut seed: u64 = 12345;
    let mut next = move || {
        seed = seed.wrapping_mul(6364136223846793005).wrapping_add(1442695040888963407);
        (seed >> 33) as usize
    };
    for _ in 0..60 {
        let n = 2 + next() % 9;
        let mut edges = Vec::new();
        for a in 0..n {
            for b in a + 1..n {
                if next() % 3 == 0 {
                    edges.push((a, b));
                }
            }
        }
        let g = graph(n, &edges);
        let marked: HashSet<usize> = (0..n).filter(|_| next() % 2 == 0).collect();
        let blocks = partition_marked_convex(&g, &marked).unwrap();
        let mut union: HashSet<usize> = HashSet::new();
        for b in &blocks {
            assert!(!b.is_empty());
            assert!(convex(&g, b));
            for m in b {
                assert!(union.insert(*m));
            }
        }
        assert_eq!(union, marked);
    }
}

fn info(source: &str, bytes: Option<usize>, dims: &[char]) -> KernelInfo {
    KernelInfo {
        dyn_vars: dims.to_vec(),
        static_bytes: bytes,
        source: source.to_string(),
        name: "kernel".to_string(),
    }
}

fn arcs(g: &DiGraph) -> HashSet<(usize, usize)> {
    g.edge_indices()
        .map(|e| {
            let (a, b) = g.edge_endpoints(e).unwrap();
            (a.index(), b.index())
        })
        .collect()
}

fn plan_of<'a>(plans: &'a [CudaGraphPlan], kernel: usize) -> &'a CudaGraphPlan {
    let found: Vec<&CudaGraphPlan> = plans
        .iter()
        .filter(|p| p.kernels.iter().any(|k| k.node == kernel))
        .collect();
    assert_eq!(found.len(), 1);
    found[0]
}

#[test]
fn kernels_become_graphs_around_a_host_operation() {
    // input 0, kernels 1 and 2, host operation 3, kernel 4
    let mut g = graph(5, &[(0, 1), (1, 2), (2, 3), (3, 4)]);
    let mut infos = HashMap::new();
    infos.insert(1, info("out[0] = in[0];", Some(16), &['s']));
    infos.insert(2, info("atomicAdd(out, 1.0);", Some(16), &['b', 's']));
    infos.insert(4, info("out[0] = in[0];", Some(0), &[]));
    let plans = kernel_to_host(&mut g, &infos, &set(&[3]), &HashMap::new()).unwrap();
    assert_eq!(plans.len(), 2);
    let first = plan_of(&plans, 1);
    assert_eq!(first.kernels.iter().map(|k| k.node).collect::<Vec<_>>(), vec![1, 2]);
    assert_eq!(first.kernels[0].inputs, vec![0]);
    assert_eq!(first.kernels[1].inputs, vec![1]);
    assert_eq!(first.dyn_dims_order, vec!['b', 's']);
    let mut sized = first.sized_nodes.clone();
    sized.sort();
    assert_eq!(sized, vec![1, 2]);
    assert_eq!(first.zero_output_nodes, vec![2]);
    let second = plan_of(&plans, 4);
    assert!(second.sized_nodes.is_empty());
    assert!(second.zero_output_nodes.is_empty());
    assert!(second.dyn_dims_order.is_empty());
    let a = arcs(&g);
    assert!(a.contains(&(0, first.node)));
    assert!(a.contains(&(3, second.node)));
    assert!(a.contains(&(first.node, 3)));
    assert!(petgraph::algo::toposort(&g, None).is_ok());
    for (x, y) in [(0, 1), (1, 2), (2, 3), (3, 4)] {
        assert!(a.contains(&(x, y)));
    }
}

#[test]
fn graphs_wait_for_graphs_that_feed_them() {
    // kernel 1 feeds host operation 2 and kernel 3, which also reads the host operation
    let mut g = graph(4, &[(0, 1), (1, 2), (1, 3), (2, 3)]);
    let mut infos = HashMap::new();
    infos.insert(1, info("x", Some(4), &[]));
    infos.insert(3, info("x", Some(4), &[]));
    let plans = kernel_to_host(&mut g, &infos, &set(&[2]), &HashMap::new()).unwrap();
    let (first, second) = (plan_of(&plans, 1).node, plan_of(&plans, 3).node);
    assert_ne!(first, second);
    let a = arcs(&g);
    assert!(a.contains(&(first, 2)));
    assert!(a.contains(&(first, second)));
    assert!(a.contains(&(2, second)));
}

#[test]
fn consumers_follow_in_every_order() {
    // kernel 1 reads 0, kernel 2 reads kernels 1 and 3, host operation 4 reads kernel 3
    let mut g = graph(5, &[(0, 1), (1, 2), (3, 2), (3, 4)]);
    let mut infos = HashMap::new();
    for k in 1..4 {
        infos.insert(k, info("x", Some(4), &[]));
    }
    let plans = kernel_to_host(&mut g, &infos, &set(&[4]), &HashMap::new()).unwrap();
    assert_eq!(plans.len(), 1);
    let a = arcs(&g);
    assert!(a.contains(&(0, plans[0].node)));
    assert!(a.contains(&(plans[0].node, 4)));
    let order = petgraph::algo::toposort(&g, None).unwrap();
    let place = |n: usize| order.iter().position(|m| m.index() == n).unwrap();
    assert!(place(plans[0].node) < place(4));
    let e = build_exec_graph(&g, &set(&[4, plans[0].node]));
    let (first, second) = (e.node_to_exec[&plans[0].node], e.node_to_exec[&4]);
    assert_eq!(execution_order(&e).unwrap(), vec![first, second]);
}

#[test]
fn only_an_arc_that_closes_a_cycle_is_left_out() {
    // kernels 0, 1, 2 and kernels 3, 4, 5; host operation 6 reads kernel 1 and feeds kernel 4,
    // host operation 7 reads kernel 5 and feeds kernel 2
    let start = [(0, 1), (0, 2), (3, 4), (3, 5), (1, 6), (6, 4), (5, 7), (7, 2)];
    let mut g = graph(8, &start);
    let mut infos = HashMap::new();
    for k in 0..6 {
        infos.insert(k, info("x", Some(4), &[]));
    }
    let plans = kernel_to_host(&mut g, &infos, &set(&[6, 7]), &HashMap::new()).unwrap();
    let (first, second) = (plan_of(&plans, 1).node, plan_of(&plans, 5).node);
    let a = arcs(&g);
    assert!(petgraph::algo::toposort(&g, None).is_ok());
    if plan_of(&plans, 2).node == first && plan_of(&plans, 4).node == second {
        assert!(a.contains(&(6, second)));
        assert!(a.contains(&(7, first)));
        assert!(a.contains(&(first, 6)) != a.contains(&(second, 7)));
    } else {
        assert!(a.contains(&(first, 6)));
        assert!(a.contains(&(second, 7)));
    }
}

#[test]
fn megakernels_read_their_block_operations() {
    let mut g = graph(3, &[(0, 2), (1, 2)]);
    let mut infos = HashMap::new();
    let mut megakernel = info("plain", Some(4), &[]);
    megakernel.name = "Megakernel".to_string();
    infos.insert(2, megakernel);
    let mut mega = HashMap::new();
    mega.insert(2, vec![1]);
    let plans = kernel_to_host(&mut g, &infos, &set(&[]), &mega).unwrap();
    assert_eq!(plans.len(), 1);
    assert!(plans[0].kernels[0].inputs.contains(&0));
    assert!(plans[0].kernels[0].inputs.contains(&1));
    assert_eq!(plans[0].zero_output_nodes, vec![2]);
}

#[test]
fn outputs_of_unknown_kernels_are_zeroed() {
    let mut g = graph(3, &[]);
    let mut infos = HashMap::new();
    infos.insert(0, info(" \n", None, &[]));
    infos.insert(1, info(" ", Some(0), &[]));
    infos.insert(2, info("x", None, &[]));
    let plans = kernel_to_host(&mut g, &infos, &set(&[]), &HashMap::new()).unwrap();
    assert_eq!(plan_of(&plans, 0).zero_output_nodes, vec![0]);
    assert!(plan_of(&plans, 1).zero_output_nodes.is_empty());
    assert!(plan_of(&plans, 2).zero_output_nodes.is_empty());
}

#[test]
fn source_of_white_space_is_no_source() {
    let white = "\t\n\u{b}\u{c}\r \u{85}\u{a0}\u{1680}\u{2000}\u{2001}\u{2002}\u{2003}\u{2004}\u{2005}\u{2006}\u{2007}\u{2008}\u{2009}\u{200a}\u{2028}\u{2029}\u{202f}\u{205f}\u{3000}";
    let other = "\u{8}\u{e}\u{1f}!\u{84}\u{86}\u{9f}\u{a1}\u{180e}\u{1fff}\u{200b}\u{202a}\u{2060}\u{3001}\u{feff}";
    for (text, zeroed) in [(white, 1), (other, 0)] {
        for c in text.chars() {
            let mut g = graph(1, &[]);
            let mut infos = HashMap::new();
            infos.insert(0, info(&c.to_string(), Some(4), &[]));
            let plans = kernel_to_host(&mut g, &infos, &set(&[]), &HashMap::new()).unwrap();
            assert_eq!(plans[0].zero_output_nodes.len(), zeroed);
        }
    }
}

#[test]
fn without_kernels_nothing_changes() {
    let mut g = graph(2, &[(0, 1)]);
    let plans = kernel_to_host(&mut g, &HashMap::new(), &set(&[1]), &HashMap::new()).unwrap();
    assert_eq!(plans.len(), 0);
    assert_eq!(g.node_count(), 2);
    assert_eq!(arcs(&g), [(0, 1)].into_iter().collect());
}

#[test]
fn kernels_on_a_cycle_are_no_plan() {
    let mut g = graph(2, &[(0, 1), (1, 0)]);
    let mut infos = HashMap::new();
    infos.insert(0, info("x", None, &[]));
    match kernel_to_host(&mut g, &infos, &set(&[]), &HashMap::new()) {
        Err(PlanError::Cycle(n)) => assert!(n < 2),
        _ => panic!("a cycle was planned"),
    }
    assert_eq!(g.node_count(), 2);
}

#[test]
fn host_operations_execute_after_their_inputs() {
    // host 1 -> host 3 directly; 2 is not a host operation.
    let g = graph(4, &[(0, 1), (1, 3), (1, 2), (2, 3)]);
    let e = build_exec_graph(&g, &set(&[1, 3]));
    assert_eq!(e.graph.node_count(), 2);
    assert_eq!(e.graph.edge_count(), 1);
    let x1 = e.node_to_exec[&1];
    let x3 = e.node_to_exec[&3];
    assert_eq!(e.ops[&x1].inputs, vec![0]);
    assert_eq!(e.ops[&x3].inputs, vec![1, 2]);
    assert_eq!(e.ops[&x3].output, 3);
    assert_eq!(execution_order(&e).unwrap(), vec![x1, x3]);
}

#[test]
fn inputs_come_in_the_order_of_their_edges() {
    let g = graph(3, &[(1, 2), (0, 2), (1, 2)]);
    let e = build_exec_graph(&g, &set(&[2]));
    let x = e.node_to_exec[&2];
    assert_eq!(e.ops[&x].inputs, vec![1, 0, 1]);
}

#[test]
fn a_cycle_of_host_operations_has_no_order() {
    let g = graph(2, &[(0, 1), (1, 0)]);
    let e = build_exec_graph(&g, &set(&[0, 1]));
    assert!(execution_order(&e).is_err());
}
