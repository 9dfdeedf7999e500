use luminal_runtime::cuda_graph_op::{
    build_graph, launch_shape, plan_launch, ChainNode, CompiledKernel, CudaGraphOp, ExecuteError,
    Launch, LaunchSettings, MissingBuffer, RefreshStep, ReplayRefreshOutcome,
};
use luminal_runtime::dims::DynMap;
use luminal_runtime::kernel_params::{KernelParams, MegakernelParams};
use luminal_runtime::timing::{
    flush_pending_timings, least_start, packet_order, CudaGraphKernelTiming, CudaGraphTiming,
    PendingTiming,
};
use std::collections::HashMap;

fn dims(entries: &[(char, usize)]) -> DynMap {
    let mut m = DynMap::new();
    for (d, v) in entries {
        m.insert(*d, *v);
    }
    m
}

fn ptrs(entries: &[(usize, u64)]) -> HashMap<usize, u64> {
    entries.iter().copied().collect()
}

fn kernel(node: usize, inputs: &[usize], has_output: bool) -> CompiledKernel {
    CompiledKernel {
        node,
        inputs: inputs.to_vec(),
        has_output,
        kernel_name: "k".to_string(),
        internal_dims: vec!['s'],
        internal_bufs: vec![],
    }
}

/// Kernel 1 reads 0 and writes 1; kernel 2 reads 1 and has no output.
fn op() -> CudaGraphOp {
    let mut sizes = HashMap::new();
    sizes.insert(1, Some(16));
    sizes.insert(2, Some(0));
    CudaGraphOp::new(
        vec![0, 1, 2],
        sizes,
        vec![1],
        vec!['b', 's'],
        vec![kernel(1, &[0], true), kernel(2, &[1], false)],
    )
}

fn settled() -> CudaGraphOp {
    let mut g = op();
    g.set_internal_bufs(0, vec![7, 8]);
    g.set_internal_bufs(1, vec![9]);
    let d = dims(&[('s', 3)]);
    let p = ptrs(&[(0, 100), (1, 200)]);
    g.brought_up_to_date(&d, &p, vec![vec![1], vec![2]]);
    g.prepared_for_capture(&d, &p);
    g
}

#[test]
fn test_kernel_params() {
    let mut params = KernelParams::new(0x1000, &[0x2000, 0x3000]);
    assert_eq!(params.as_cuda_params(), &vec![0x1000, 0x2000, 0x3000]);
    params.update_output(0x4000);
    params.update_input(0, 0x5000);
    assert_eq!(params.as_cuda_params(), &vec![0x4000, 0x5000, 0x3000]);
}

#[test]
fn kernel_parameters_are_replaced_in_place() {
    let mut p = KernelParams::with_dyn_dims(1, &[2, 3], 4);
    assert_eq!(p.as_cuda_params(), &vec![1, 2, 3, 4]);
    p.update_output(10);
    p.update_input(1, 30);
    p.update_dyn_dims(40);
    assert_eq!(p.as_cuda_params(), &vec![10, 2, 30, 40]);
    let mut q = KernelParams::new(1, &[]);
    q.update_dyn_dims(9);
    assert_eq!(q.as_cuda_params(), &vec![1]);
    let mut m = MegakernelParams::new(1, 2, 3, 4, 5, 6, 7, 8);
    assert_eq!(m.buffers_ptr(), 7);
    m.update_buffers(70);
    m.update_dyn_dims(80);
    assert_eq!(m.as_cuda_params(), &vec![1, 2, 3, 4, 5, 6, 70, 80]);
}

#[test]
fn a_graph_chains_its_kernels() {
    assert_eq!(build_graph(0, false), vec![]);
    assert_eq!(build_graph(2, false), vec![ChainNode::Kernel(0), ChainNode::Kernel(1)]);
    assert_eq!(
        build_graph(2, true),
        vec![
            ChainNode::Event(0),
            ChainNode::Kernel(0),
            ChainNode::Event(1),
            ChainNode::Kernel(1),
            ChainNode::Event(2),
        ]
    );
}

#[test]
fn launch_shapes_are_cut_to_the_device() {
    let s = launch_shape((1, 2, 3), (4, 5, 6), 7);
    assert_eq!((s.grid, s.block, s.shared_mem), ((1, 2, 3), (4, 5, 6), 7));
}

#[test]
fn launches_are_planned() {
    let p = plan_launch(false, false, false, false, true, false);
    assert_eq!(p.launch, Launch::Graph);
    assert!(!p.bind_for_update && !p.sync_before && !p.sync_after);
    let p = plan_launch(true, true, true, true, true, false);
    assert_eq!(p.launch, Launch::Captured);
    assert!(!p.bind_for_update && !p.sync_before && p.sync_after);
    let p = plan_launch(false, false, true, true, true, true);
    assert_eq!(p.launch, Launch::Individually);
    assert!(p.bind_for_update && p.sync_before);
    assert_eq!(plan_launch(false, true, false, false, false, true).launch, Launch::Skip);
    assert!(!plan_launch(false, true, false, false, false, true).sync_after);
}

#[test]
fn only_nodes_with_buffers_are_extra() {
    assert_eq!(op().extra_buffer_nodes(), vec![0, 1]);
}

#[test]
fn pointers_are_collected_and_checked() {
    let g = op();
    let got = g.collect_buffer_ptrs_from_raw(&ptrs(&[(0, 5), (9, 6)]));
    assert_eq!(got, ptrs(&[(0, 5)]));
    assert_eq!(g.validate_required_buffer_ptrs(&got), Err(vec![1]));
    assert_eq!(g.validate_required_buffer_ptrs(&ptrs(&[(0, 5), (1, 6)])), Ok(()));
}

#[test]
fn the_first_execution_builds_the_graph() {
    let mut g = op();
    let start = g.start_execute(&dims(&[('s', 3), ('b', 4)]));
    assert!(start.dyn_map_changed && start.build_graph);
    assert_eq!(start.alloc_dyn_dims, Some(2));
    assert_eq!(start.dyn_values, Some(vec![4, 3]));
    let mut done = settled();
    let start = done.start_execute(&dims(&[('s', 3)]));
    assert!(!start.dyn_map_changed && !start.realloc_internal && !start.build_graph);
    assert!(start.dyn_values.is_none());
    let start = done.start_execute(&dims(&[('s', 3), ('b', 1)]));
    assert!(start.dyn_map_changed && !start.realloc_internal && !start.build_graph);
    let start = done.start_execute(&dims(&[('s', 4)]));
    assert!(start.realloc_internal && start.build_graph);
    assert!(!done.built && done.kernel_params.is_empty());
}

const LAUNCH: LaunchSettings = LaunchSettings {
    capturing: false,
    sync_debug: false,
    launch_graph: true,
    no_cuda_graph: false,
};

#[test]
fn an_execution_builds_updates_and_launches() {
    let raw = ptrs(&[(0, 100), (1, 200), (9, 900)]);
    let mut fresh = op();
    let e = fresh.execute_internal(&raw, &dims(&[('s', 3), ('b', 4)]), LAUNCH).unwrap();
    assert_eq!(e.ptrs, ptrs(&[(0, 100), (1, 200)]));
    assert!(e.start.build_graph && e.start.dyn_map_changed && e.start.realloc_internal);
    assert_eq!(e.start.dyn_values, Some(vec![4, 3]));
    assert_eq!(e.build_args.unwrap()[0].inputs, vec![100]);
    assert_eq!(e.update_args.unwrap()[1].inputs, vec![200]);
    assert_eq!(e.launch, plan_launch(false, false, true, true, true, false));
    // Nothing changed: only the launch is left.
    let d = dims(&[('s', 3)]);
    let mut g = settled();
    let e = g.execute_internal(&raw, &d, LAUNCH).unwrap();
    assert!(e.build_args.is_none() && e.update_args.is_none());
    assert_eq!(e.launch, plan_launch(false, false, false, false, true, false));
    // Other buffers: the nodes are updated.
    let e = g.execute_internal(&ptrs(&[(0, 101), (1, 200)]), &d, LAUNCH).unwrap();
    assert!(e.build_args.is_none());
    assert_eq!(e.update_args.unwrap()[0].inputs, vec![101]);
    // Other internal sizes: the graph goes.
    let e = g.execute_internal(&raw, &dims(&[('s', 4)]), LAUNCH).unwrap();
    assert!(e.start.realloc_internal && e.build_args.is_some() && e.update_args.is_some());
    assert!(!g.built && g.kernel_params.is_empty());
}

#[test]
fn an_execution_names_what_is_missing() {
    let d = dims(&[('s', 3)]);
    match op().execute_internal(&ptrs(&[(1, 200)]), &d, LAUNCH) {
        Err(ExecuteError::Kernel(m)) => assert_eq!(m, MissingBuffer::Input(0, 0)),
        _ => panic!("nothing missing"),
    }
    match settled().execute_internal(&ptrs(&[(0, 100)]), &d, LAUNCH) {
        Err(ExecuteError::Nodes(nodes)) => assert_eq!(nodes, vec![1]),
        _ => panic!("nothing missing"),
    }
    match op().prepare_for_runtime_capture(&ptrs(&[(0, 100)]), &d) {
        Err(ExecuteError::Nodes(nodes)) => assert_eq!(nodes, vec![1]),
        _ => panic!("nothing missing"),
    }
    match op().prepare_for_runtime_capture(&ptrs(&[(0, 100), (1, 0)]), &d) {
        Err(ExecuteError::Kernel(m)) => assert_eq!(m, MissingBuffer::Output(0)),
        _ => panic!("nothing missing"),
    }
}

#[test]
fn a_graph_is_brought_up_to_date_without_a_launch() {
    let raw = ptrs(&[(0, 101), (1, 200)]);
    let e = settled()
        .ensure_built_and_updated_for_runtime_graph(&raw, &dims(&[('s', 3)]), false, true, false)
        .unwrap();
    assert!(e.build_args.is_none() && e.update_args.is_some());
    assert_eq!(e.launch.launch, Launch::Skip);
    assert!(e.launch.sync_before && !e.launch.sync_after);
}

#[test]
fn a_capture_is_prepared() {
    let raw = ptrs(&[(0, 100), (1, 200)]);
    let mut fresh = op();
    let d = dims(&[('b', 1)]);
    let c = fresh.prepare_for_runtime_capture(&raw, &d).unwrap();
    assert_eq!(c.alloc_internal, vec![0, 1]);
    assert_eq!(c.alloc_dyn_dims, Some(2));
    assert_eq!(c.dyn_values, Some(vec![1, 0]));
    assert_eq!(c.args.unwrap()[0].output, 200);
    fresh.set_internal_bufs(0, vec![7]);
    fresh.set_internal_bufs(1, vec![8]);
    fresh.parameters_made(vec![vec![1], vec![2]]);
    fresh.prepared_for_capture(&d, &c.ptrs);
    assert!(matches!(
        fresh.refresh_for_runtime_replay(&raw, &d),
        Ok(RefreshStep::Prepare(_, _))
    ));
    // Prepared already: nothing to do.
    let mut g = settled();
    let c = g.prepare_for_runtime_capture(&raw, &dims(&[('s', 3)])).unwrap();
    assert!(c.alloc_internal.is_empty() && c.args.is_none() && c.dyn_values.is_none());
    assert_eq!(c.prepare, vec![0, 1]);
    assert_eq!(g.kernel_params.len(), 2);
}

#[test]
fn updates_follow_pointers_and_dimensions() {
    let g = settled();
    let same = ptrs(&[(0, 100), (1, 200)]);
    assert!(!g.needs_update(false, &same));
    assert!(g.needs_update(true, &same));
    assert!(g.needs_update(false, &ptrs(&[(0, 101), (1, 200)])));
    assert!(!g.needs_params_rebuild(false, false, false, &same));
    assert!(g.needs_params_rebuild(true, false, false, &same));
    assert!(g.needs_params_rebuild(false, true, false, &same));
    assert!(g.needs_params_rebuild(false, false, true, &same));
    assert!(!g.dyn_map_changed(&dims(&[('s', 3)])));
    assert!(g.dyn_map_changed(&dims(&[('s', 5)])));
}

#[test]
fn kernel_arguments_come_from_the_buffers() {
    let g = op();
    let args = g.kernel_args(&ptrs(&[(0, 100), (1, 200)])).unwrap();
    assert_eq!(args.len(), 2);
    assert_eq!((args[0].output, args[0].inputs.clone()), (200, vec![100]));
    assert_eq!((args[1].output, args[1].inputs.clone()), (0, vec![200]));
    assert_eq!(g.kernel_args(&ptrs(&[(1, 200)])).unwrap_err(), MissingBuffer::Input(0, 0));
    assert_eq!(
        g.build_kernel_params_from_ptrs(&ptrs(&[(0, 100)])).unwrap_err(),
        MissingBuffer::Output(0)
    );
    assert_eq!(g.build_kernel_params_from_ptrs(&ptrs(&[(0, 1), (1, 2)])).unwrap().len(), 2);
    let lenient = g.diagnostic_args(&ptrs(&[]));
    assert_eq!((lenient[0].output, lenient[0].inputs.clone()), (0, vec![0]));
}

#[test]
fn missing_internal_buffers_are_named() {
    let mut g = settled();
    assert_eq!(g.alloc_missing_internal(), Vec::<usize>::new());
    assert_eq!(g.kernel_params.len(), 2);
    g.set_internal_bufs(1, vec![]);
    assert_eq!(g.alloc_missing_internal(), vec![1]);
    assert!(g.kernel_params.is_empty());
    assert_eq!(g.replay_kernels_onto_stream(), Err((0, 2)));
}

fn why(step: Result<RefreshStep, Vec<usize>>) -> String {
    match step {
        Ok(RefreshStep::NeedsRecapture(why)) => why,
        _ => panic!("no recapture"),
    }
}

#[test]
fn a_captured_graph_is_refreshed_while_nothing_moved() {
    let raw = ptrs(&[(0, 100), (1, 200), (9, 900)]);
    let d = dims(&[('s', 3)]);
    let g = settled();
    assert_eq!(g.internal_pointer_fingerprint(), vec![7, 8, 9, 0]);
    match g.refresh_for_runtime_replay(&raw, &d) {
        Ok(RefreshStep::Prepare(p, kernels)) => {
            assert_eq!(p, ptrs(&[(0, 100), (1, 200)]));
            assert_eq!(kernels, vec![0, 1]);
        }
        _ => panic!("not replayable"),
    }
    assert!(matches!(g.finish_refresh(), ReplayRefreshOutcome::Ready));
    assert_eq!(g.replay_kernels_onto_stream(), Ok(()));
    assert_eq!(
        why(op().refresh_for_runtime_replay(&raw, &d)),
        "missing capture internal pointer fingerprint"
    );
    assert_eq!(
        why(g.refresh_for_runtime_replay(&raw, &dims(&[('s', 4)]))),
        "dynamic dimensions changed"
    );
    assert_eq!(g.refresh_for_runtime_replay(&ptrs(&[(0, 100)]), &d).unwrap_err(), vec![1]);
    assert_eq!(
        why(g.refresh_for_runtime_replay(&ptrs(&[(0, 100), (1, 201)]), &d)),
        "buffer pointers changed"
    );
    let mut stale = settled();
    stale.kernel_params = vec![];
    assert_eq!(
        why(stale.refresh_for_runtime_replay(&raw, &d)),
        "kernel params missing or stale"
    );
    let mut moved = settled();
    moved.set_internal_bufs(0, vec![70, 8]);
    assert_eq!(
        why(moved.refresh_for_runtime_replay(&raw, &d)),
        "internal pointer drift detected before replay refresh"
    );
    match moved.finish_refresh() {
        ReplayRefreshOutcome::NeedsRecapture(why) => {
            assert_eq!(why, "internal pointer drift detected after replay refresh")
        }
        _ => panic!("drift went unseen"),
    }
}

#[test]
fn timings_start_with_the_first_processor() {
    assert_eq!(least_start(&vec![5, 3, 9]), 3);
    assert_eq!(least_start(&vec![]), 0);
    let pending = vec![
        PendingTiming { timing_buffer_idx: 4, start_time_idx: 1 },
        PendingTiming { timing_buffer_idx: 2, start_time_idx: 0 },
    ];
    let pool = vec![vec![8, 7], vec![6, 9]];
    assert_eq!(flush_pending_timings(&pending, &pool), Some(vec![(4, 6), (2, 7)]));
    assert_eq!(flush_pending_timings(&vec![], &pool), None);
    let t = CudaGraphTiming {
        kernel_timings: vec![CudaGraphKernelTiming { kernel_name: "k", start_ns: 1, end_ns: 2 }],
        launch_latency_ns: 3,
        setup_duration_ns: 4,
    };
    assert_eq!(t.clone().kernel_timings[0].kernel_name, "k");
}

#[test]
fn packets_are_ordered_by_time_stamp() {
    assert_eq!(packet_order(&vec![Some(5), None, Some(5), Some(1)]), vec![1, 3, 0, 2]);
}

#[test]
fn nothing_of_an_earlier_execution_is_launched() {
    let settings = LaunchSettings {
        capturing: false,
        sync_debug: false,
        launch_graph: true,
        no_cuda_graph: false,
    };
    let (d, p) = (dims(&[('s', 4), ('b', 9)]), ptrs(&[(0, 300), (1, 400)]));
    let (mut used, mut fresh) = (settled(), op());
    let again = used.execute_internal(&p, &d, settings).unwrap();
    let first = fresh.execute_internal(&p, &d, settings).unwrap();
    assert_eq!(again.start.dyn_values, Some(vec![9, 4]));
    assert_eq!(first.start.dyn_values, Some(vec![9, 4]));
    for e in [again, first] {
        let args = e.update_args.unwrap();
        assert_eq!((args[0].output, &args[0].inputs), (400, &vec![300]));
        assert_eq!((args[1].output, &args[1].inputs), (0, &vec![400]));
    }
}

#[test]
fn a_repeated_execution_launches_what_is_there() {
    let settings = LaunchSettings {
        capturing: false,
        sync_debug: false,
        launch_graph: true,
        no_cuda_graph: false,
    };
    let (d, p) = (dims(&[('s', 4)]), ptrs(&[(0, 300), (1, 400)]));
    let mut g = op();
    let e = g.execute_internal(&p, &d, settings).unwrap();
    g.dyn_dims_buffer = Some(77);
    g.brought_up_to_date(&d, &e.ptrs, vec![vec![1], vec![2]]);
    for _ in 0..3 {
        let e = g.execute_internal(&p, &d, settings).unwrap();
        assert!(e.build_args.is_none() && e.update_args.is_none());
        assert_eq!(e.prepare, vec![0, 1]);
        assert!(e.start.dyn_values.is_none() && e.start.alloc_dyn_dims.is_none());
        assert_eq!(e.launch.launch, Launch::Graph);
    }
}
