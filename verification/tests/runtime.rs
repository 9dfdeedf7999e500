use luminal_runtime::device::{
    build_host_op_buffer_map, get_i32, numbers_in, CudaInput, DeviceBuffer,
};
use luminal_runtime::digraph::DiGraph;
use luminal_runtime::dims::{DimSet, DynMap};
use luminal_runtime::exec_graph::{execution_order, ExecutableHostOp};
use luminal_runtime::report::kernel_stats;
use luminal_runtime::replay::{
    ReplayAction, ReplaySettings, RuntimeReplayCache, RuntimeReplaySignature, RuntimeReplayState,
};
use luminal_runtime::runtime::{
    CudaRuntime, ExecuteRefusal, ExecuteSettings, HostOpInfo, LlirOp, OpKind, OutputError,
    SliceError, Upload,
};
use luminal_runtime::runtime_graph::{build_runtime_graph, RuntimeGraphError};
use petgraph::graph::NodeIndex;
use std::collections::HashMap;

fn graph(nodes: usize, edges: &[(usize, usize)]) -> DiGraph {
    let mut g = DiGraph::default();
    for _ in 0..nodes {
        g.add_node(());
    }
    for (a, b) in edges {
        g.add_edge(NodeIndex::new(*a), NodeIndex::new(*b), ());
    }
    g
}

fn op(kind: OpKind, dims: &[char]) -> LlirOp {
    LlirOp { kind, dyn_vars: dims.to_vec() }
}

fn host(cuda_graph: bool, name: Option<&str>, extra: &[usize], zero: &[usize]) -> HostOpInfo {
    HostOpInfo {
        cuda_graph,
        stats_name: name.map(|n| n.to_string()),
        extra_buffer_nodes: extra.to_vec(),
        zero_output_nodes: zero.to_vec(),
    }
}

fn buffer(ptr: u64, len: usize) -> DeviceBuffer {
    DeviceBuffer { ptr, len }
}

fn dims(entries: &[(char, usize)]) -> DynMap {
    let mut m = DynMap::new();
    for (d, v) in entries {
        m.insert(*d, *v);
    }
    m
}

/// Tensor 10 feeds input 0; host operations 1 and 2 follow; output 3 is tensor 20.
fn loaded() -> CudaRuntime {
    let mut rt = CudaRuntime::new();
    let mut ops = HashMap::new();
    ops.insert(0, op(OpKind::Input(10), &[]));
    ops.insert(1, op(OpKind::Host, &['s']));
    ops.insert(2, op(OpKind::Kernel, &['s']));
    ops.insert(3, op(OpKind::Output(20), &[]));
    let mut hosts = HashMap::new();
    hosts.insert(1, host(true, None, &[0], &[1]));
    hosts.insert(2, host(false, Some("cuBLASLt"), &[], &[]));
    let prebuild = rt.load_llir(graph(4, &[(0, 1), (1, 2), (2, 3)]), ops, hosts);
    assert!(!prebuild);
    rt
}

/// The same with all buffers in place.
fn ready() -> CudaRuntime {
    let mut rt = loaded();
    rt.set_data(10, CudaInput::Buffer(buffer(1000, 16)));
    rt.cache_changed_inputs().unwrap();
    rt.buffer_allocated(1, buffer(2000, 32));
    rt.buffer_allocated(2, buffer(3000, 64));
    rt
}

#[test]
fn loading_a_graph_resets_the_books() {
    let rt = loaded();
    assert_eq!(rt.llir_to_hlir[&0], 10);
    assert_eq!(rt.hlir_to_llir[&10], 0);
    assert!(rt.changed_hlir.contains(&10));
    assert!(rt.buffers_requiring_zero.contains(&1));
    assert_eq!(rt.exec_graph.ops.len(), 2);
    let mut again = ready();
    again.last_dyn_map = dims(&[('s', 3)]);
    assert!(again.load_llir(graph(0, &[]), HashMap::new(), HashMap::new()));
    assert!(again.buffers.is_empty());
    assert!(again.cached_buffer_ptrs.is_empty());
    assert!(again.hlir_buffers.contains_key(&10));
}

#[test]
fn cached_pointers_follow_the_inputs() {
    let mut rt = loaded();
    assert_eq!(rt.cache_changed_inputs(), Err(10));
    rt.set_data(10, CudaInput::Ptr(77));
    rt.set_data(99, CudaInput::Ptr(5));
    assert_eq!(rt.cache_changed_inputs(), Ok(()));
    assert_eq!(rt.cached_buffer_ptrs[&0], 77);
    assert_eq!(rt.cached_buffer_ptrs.len(), 1);
    assert!(rt.changed_hlir.is_empty());
    rt.set_data(10, CudaInput::Buffer(buffer(88, 4)));
    assert_eq!(rt.cache_changed_inputs(), Ok(()));
    assert_eq!(rt.cached_buffer_ptrs[&0], 88);
    assert_eq!(rt.cache_changed_inputs(), Ok(()));
    assert_eq!(rt.cached_buffer_ptrs[&0], 88);
}

#[test]
fn prebuilding_keeps_what_is_missing_for_later() {
    let mut rt = loaded();
    assert_eq!(rt.prebuild_graphs(&dims(&[('s', 2)])), Ok(true));
    assert_eq!(rt.last_dyn_map.get('s'), Some(2));
    assert!(rt.changed_hlir.contains(&10));
    rt.set_data(10, CudaInput::Ptr(7));
    rt.buffer_allocated(1, buffer(1, 1));
    assert_eq!(rt.prebuild_graphs(&dims(&[('s', 3)])), Ok(false));
    assert_eq!(rt.last_dyn_map.get('s'), Some(2));
    assert_eq!(rt.cached_buffer_ptrs[&0], 7);
    assert!(rt.changed_hlir.is_empty());
    rt.set_data(99, CudaInput::Ptr(1));
    assert_eq!(rt.prebuild_graphs(&dims(&[])), Err(99));
}

#[test]
fn uploads_reuse_buffers_of_the_same_size() {
    let rt = ready();
    assert_eq!(rt.set_data_bytes_reuse(10, 16), Upload::Reuse(buffer(1000, 16)));
    assert_eq!(rt.set_data_bytes_reuse(10, 12), Upload::Fresh);
    assert_eq!(rt.set_data_bytes_reuse(11, 16), Upload::Fresh);
    let mut bare = loaded();
    bare.set_data(10, CudaInput::Ptr(4));
    assert_eq!(bare.set_data_bytes_reuse(10, 16), Upload::Fresh);
}

#[test]
fn parts_of_buffers_lie_within_them() {
    let mut rt = ready();
    assert_eq!(rt.update_buffer_slice(10, 4, 3), Ok((buffer(1000, 16), 4, 16)));
    assert_eq!(rt.update_buffer_slice(10, 4, 4), Err(SliceError::OutOfRange));
    assert_eq!(rt.update_buffer_slice(10, usize::MAX, 1), Err(SliceError::OutOfRange));
    assert_eq!(rt.update_buffer_slice(11, 0, 0), Err(SliceError::NoBuffer));
    rt.set_data(10, CudaInput::Ptr(3));
    assert_eq!(rt.update_buffer_slice(10, 0, 0), Err(SliceError::NotABuffer));
}

#[test]
fn outputs_are_read_from_what_feeds_them() {
    let mut rt = ready();
    assert_eq!(rt.get_output_data(20), Ok(buffer(3000, 64)));
    assert_eq!(rt.get_output_data(21), Err(OutputError::NoOutput));
    rt.clear_intermediate_buffers();
    assert_eq!(rt.get_output_data(20), Err(OutputError::NoBuffer));
    let mut ops = HashMap::new();
    ops.insert(0, op(OpKind::Output(20), &[]));
    rt.load_llir(graph(1, &[]), ops, HashMap::new());
    assert_eq!(rt.get_output_data(20), Err(OutputError::NoSource));
}

#[test]
fn an_output_is_read_from_the_source_added_last() {
    for (edges, found) in [([(0, 2), (1, 2)], 200), ([(1, 2), (0, 2)], 100)] {
        let mut rt = CudaRuntime::new();
        let mut ops = HashMap::new();
        ops.insert(0, op(OpKind::Kernel, &[]));
        ops.insert(1, op(OpKind::Kernel, &[]));
        ops.insert(2, op(OpKind::Output(7), &[]));
        rt.load_llir(graph(3, &edges), ops, HashMap::new());
        rt.buffer_allocated(0, buffer(100, 4));
        rt.buffer_allocated(1, buffer(200, 4));
        assert_eq!(rt.get_output_data(7), Ok(buffer(found, 4)));
    }
}

#[test]
fn intermediate_buffers_are_planned_by_node() {
    let mut rt = loaded();
    let mut sizes = HashMap::new();
    sizes.insert(1, 32);
    assert!(matches!(rt.allocate_intermediate_buffers(&sizes), Err(2)));
    sizes.insert(2, 64);
    let plan = rt.allocate_intermediate_buffers(&sizes).unwrap();
    assert_eq!(plan.buffers, vec![(1, 32), (2, 64)]);
    assert_eq!(plan.total_bytes, 96);
    assert!(rt.intermediate_buffer_dims.contains('s'));
    sizes.insert(2, 0);
    let plan = rt.allocate_intermediate_buffers(&sizes).unwrap();
    assert_eq!(plan.buffers, vec![(1, 32)]);
    // Host operations do not decide when buffers are allocated anew.
    assert!(!rt.intermediate_buffer_dims.contains('s'));
}

#[test]
fn buffers_are_kept_while_their_dimensions_stay() {
    let mut rt = loaded();
    let s2 = dims(&[('s', 2), ('b', 1)]);
    assert!(rt.begin_execute(&s2));
    let mut sizes = HashMap::new();
    sizes.insert(1, 8);
    sizes.insert(2, 8);
    rt.allocate_intermediate_buffers(&sizes).unwrap();
    rt.buffer_allocated(1, buffer(1, 8));
    rt.buffer_allocated(2, buffer(2, 8));
    assert!(!rt.begin_execute(&s2));
    // No size depends on b.
    assert!(!rt.begin_execute(&dims(&[('s', 2), ('b', 9)])));
    assert!(rt.begin_execute(&dims(&[('s', 3), ('b', 1)])));
    assert!(rt.begin_execute(&dims(&[('s', 3)])));
}

#[test]
fn some_or_all_buffers_are_zeroed() {
    let rt = ready();
    assert_eq!(rt.zero_buffers_for_execute(false), vec![1]);
    assert_eq!(rt.zero_buffers_for_execute(true), vec![1, 2]);
}

#[test]
fn an_execution_is_warmed_up_captured_and_replayed() {
    let mut rt = ready();
    let on = ReplaySettings { replay_enabled: true, force_recapture: false };
    let d = dims(&[('s', 2)]);
    assert_eq!(rt.announce_execution(&d, false, on), ReplayAction::Warmup);
    rt.runtime_replay.prepared_on(5);
    rt.runtime_replay.warmed_up();
    assert_eq!(rt.announce_execution(&d, false, on), ReplayAction::Capture);
    assert!(rt.runtime_replay.may_capture_on(5));
    assert!(!rt.runtime_replay.may_capture_on(6));
    rt.runtime_replay.captured();
    assert_eq!(rt.announce_execution(&d, false, on), ReplayAction::Replay);
    let again = ReplaySettings { replay_enabled: true, force_recapture: true };
    assert_eq!(rt.announce_execution(&d, false, again), ReplayAction::Capture);
    rt.runtime_replay.captured();
    // Another pointer, another signature.
    rt.buffer_allocated(2, buffer(4000, 64));
    assert_eq!(rt.announce_execution(&d, false, on), ReplayAction::Warmup);
    let off = ReplaySettings { replay_enabled: false, force_recapture: false };
    assert_eq!(rt.announce_execution(&d, false, off), ReplayAction::Dispatch);
}

const RECORDED: ExecuteSettings = ExecuteSettings {
    single_stream: true,
    sync_debug: false,
    force_zero_all: false,
    graph_replay: true,
    force_recapture: false,
};

#[test]
fn executions_are_recorded_and_replayed_until_an_input_moves() {
    let d = dims(&[('s', 3)]);
    let mut rt = loaded();
    assert_eq!(rt.execute(&d, RECORDED), Err(ExecuteRefusal::NoInput(10)));
    rt.set_data(10, CudaInput::Buffer(buffer(1000, 16)));
    let scattered = ExecuteSettings { single_stream: false, ..RECORDED };
    assert_eq!(rt.execute(&d, scattered), Err(ExecuteRefusal::ManyStreams));
    assert!(rt.changed_hlir.contains(&10));
    assert_eq!(rt.execute(&d, RECORDED), Ok((true, ReplayAction::Warmup)));
    assert_eq!(rt.cached_buffer_ptrs[&0], 1000);
    rt.buffer_allocated(1, buffer(2000, 32));
    // The pointers are others now.
    assert_eq!(rt.execute(&d, RECORDED), Ok((false, ReplayAction::Warmup)));
    rt.runtime_replay.warmed_up();
    assert_eq!(rt.execute(&d, RECORDED), Ok((false, ReplayAction::Capture)));
    rt.runtime_replay.captured();
    assert_eq!(rt.execute(&d, RECORDED), Ok((false, ReplayAction::Replay)));
    // Data of the same size goes into the same buffer, and the recording stays.
    assert_eq!(rt.set_data_bytes_reuse(10, 16), Upload::Reuse(buffer(1000, 16)));
    assert_eq!(rt.execute(&d, RECORDED), Ok((false, ReplayAction::Replay)));
    let again = ExecuteSettings { force_recapture: true, ..RECORDED };
    assert_eq!(rt.execute(&d, again), Ok((false, ReplayAction::Capture)));
    rt.runtime_replay.captured();
    rt.set_data(10, CudaInput::Buffer(buffer(1001, 16)));
    assert_eq!(rt.execute(&d, RECORDED), Ok((false, ReplayAction::Warmup)));
    let watched = ExecuteSettings { single_stream: false, sync_debug: true, ..RECORDED };
    assert_eq!(rt.execute(&d, watched), Ok((false, ReplayAction::Dispatch)));
    assert_eq!(rt.runtime_replay.state, RuntimeReplayState::Disabled);
}

#[test]
fn without_buffers_every_execution_starts_over() {
    let d = dims(&[('s', 3)]);
    let mut rt = loaded();
    rt.set_data(10, CudaInput::Buffer(buffer(1000, 16)));
    for _ in 0..4 {
        assert!(rt.begin_execute(&d));
        assert_eq!(rt.execute(&d, RECORDED), Ok((true, ReplayAction::Warmup)));
        rt.runtime_replay.warmed_up();
    }
}

#[test]
fn a_dropped_recording_is_made_anew() {
    let d = dims(&[('s', 3)]);
    let mut rt = ready();
    for dropped in [false, true] {
        if dropped {
            rt.clear_intermediate_buffers();
            rt.buffer_allocated(1, buffer(2000, 32));
            rt.buffer_allocated(2, buffer(3000, 64));
        }
        assert_eq!(rt.execute(&d, RECORDED), Ok((false, ReplayAction::Warmup)));
        rt.runtime_replay.warmed_up();
        assert_eq!(rt.execute(&d, RECORDED), Ok((false, ReplayAction::Capture)));
        rt.runtime_replay.captured();
        assert_eq!(rt.execute(&d, RECORDED), Ok((false, ReplayAction::Replay)));
        assert_eq!(rt.cached_buffer_ptrs.contains_key(&0), !dropped);
    }
    // The pointer was not cached since, and is again once the input is replaced.
    rt.set_data(10, CudaInput::Buffer(buffer(1500, 16)));
    assert_eq!(rt.execute(&d, RECORDED), Ok((false, ReplayAction::Warmup)));
    assert_eq!(rt.cached_buffer_ptrs[&0], 1500);
}

/// One operation on a device that holds a number at each address: the sum of what it reads and
/// of the dimension, times two.
fn run_op(rt: &CudaRuntime, node: usize, s: usize, memory: &mut HashMap<u64, i64>) {
    let op = &rt.exec_graph.ops[&node];
    let extra = &rt.host_ops[&op.output].extra_buffer_nodes;
    let map =
        build_host_op_buffer_map(&rt.buffers, &rt.llir_to_hlir, &rt.hlir_buffers, op, extra)
            .unwrap();
    let mut sum = s as i64;
    for n in &op.inputs {
        sum += memory[&map[n].ptr];
    }
    memory.insert(map[&op.output].ptr, 2 * sum);
}

/// Zeroes, then the operations one by one.
fn dispatch(rt: &CudaRuntime, s: usize, memory: &mut HashMap<u64, i64>) {
    for n in rt.zero_buffers_for_execute(false) {
        memory.insert(rt.buffers[&n].ptr, 0);
    }
    for x in execution_order(&rt.exec_graph).unwrap() {
        run_op(rt, x, s, memory);
    }
}

/// The planned graph.
fn launch(rt: &CudaRuntime, s: usize, memory: &mut HashMap<u64, i64>) {
    let order = execution_order(&rt.exec_graph).unwrap();
    let plan = build_runtime_graph(rt, &order, false).unwrap();
    for n in &plan.zeroed {
        memory.insert(rt.buffers[n].ptr, 0);
    }
    for op in &plan.ops {
        run_op(rt, op.exec_node, s, memory);
    }
}

#[test]
fn executions_leave_what_inputs_and_dimensions_give() {
    let mut rt = ready();
    let mut memory: HashMap<u64, i64> = HashMap::new();
    let steps: [(u64, i64, usize, i64); 8] = [
        (1000, 5, 3, 38),
        (1000, 5, 3, 38),
        // New data in the same buffer.
        (1000, 6, 3, 42),
        (1000, 6, 3, 42),
        // Another dimension, another buffer, and back.
        (1000, 6, 4, 48),
        (1100, 1, 4, 28),
        (1000, 5, 3, 38),
        (1000, 5, 3, 38),
    ];
    let mut replays = 0;
    for (address, data, s, result) in steps {
        memory.insert(address, data);
        let moved = match rt.hlir_buffers.get(&10) {
            Some(CudaInput::Buffer(b)) => b.ptr != address,
            _ => true,
        };
        if moved {
            rt.set_data(10, CudaInput::Buffer(buffer(address, 16)));
        }
        let (_, action) = rt.execute(&dims(&[('s', s)]), RECORDED).unwrap();
        match action {
            ReplayAction::Warmup => {
                rt.runtime_replay.warmed_up();
                dispatch(&rt, s, &mut memory);
            }
            ReplayAction::Capture => {
                rt.runtime_replay.captured();
                launch(&rt, s, &mut memory);
            }
            ReplayAction::Replay => {
                replays += 1;
                // What a dispatch leaves.
                let mut other = memory.clone();
                dispatch(&rt, s, &mut other);
                launch(&rt, s, &mut memory);
                assert_eq!(memory, other);
            }
            _ => panic!("no recording"),
        }
        assert_eq!(memory[&rt.get_output_data(20).unwrap().ptr], result);
        assert_eq!(memory[&address], data);
    }
    assert_eq!(replays, 2);
}

#[test]
fn operations_run_one_by_one_unless_recorded() {
    for a in [ReplayAction::Dispatch, ReplayAction::Warmup, ReplayAction::Fallback] {
        assert!(a.dispatches());
    }
    for a in [ReplayAction::Capture, ReplayAction::Replay] {
        assert!(!a.dispatches());
    }
}

#[test]
fn named_operations_are_reported() {
    let stats = kernel_stats(&loaded());
    assert_eq!(stats.len(), 1);
    assert_eq!(stats[0].name, "cuBLASLt");
    assert_eq!((stats[0].bytes_loaded, stats[0].bytes_stored, stats[0].flops), (0, 0, 0));
}

#[test]
fn failures_fall_back() {
    let mut cache = RuntimeReplayCache::new();
    let on = ReplaySettings { replay_enabled: true, force_recapture: false };
    let sig = || RuntimeReplaySignature::new(&dims(&[('s', 1)]), &HashMap::new(), false);
    assert_eq!(cache.announce(sig(), on), ReplayAction::Warmup);
    cache.warmed_up();
    assert_eq!(cache.announce(sig(), on), ReplayAction::Capture);
    assert_eq!(cache.capture_failed("no".to_string()), ReplayAction::Fallback);
    assert_eq!(cache.last_error.as_deref(), Some("no"));
    assert!(!cache.graph_exec);
    assert_eq!(cache.announce(sig(), on), ReplayAction::Warmup);
    cache.captured();
    assert_eq!(cache.replay_failed("again".to_string()), ReplayAction::Fallback);
    assert_eq!(cache.state, RuntimeReplayState::WarmupPending);
    cache.state = RuntimeReplayState::Ready;
    cache.graph_exec = false;
    assert_eq!(cache.announce(sig(), on), ReplayAction::Fallback);
}

#[test]
fn signatures_tell_executions_apart() {
    let mut ptrs = HashMap::new();
    ptrs.insert(1, 2);
    let a = RuntimeReplaySignature::new(&dims(&[('s', 1)]), &ptrs, false);
    assert!(a.same(&RuntimeReplaySignature::new(&dims(&[('s', 1)]), &ptrs, false)));
    assert!(!a.same(&RuntimeReplaySignature::new(&dims(&[('s', 2)]), &ptrs, false)));
    assert!(!a.same(&RuntimeReplaySignature::new(&dims(&[('s', 1)]), &ptrs, true)));
    assert!(!a.same(&RuntimeReplaySignature::new(&dims(&[('s', 1)]), &HashMap::new(), false)));
}

#[test]
fn modes_have_names() {
    assert_eq!(ReplayAction::Dispatch.name(), "dispatch");
    assert_eq!(ReplayAction::Warmup.name(), "warmup");
    assert_eq!(ReplayAction::Capture.name(), "capture");
    assert_eq!(ReplayAction::Replay.name(), "replay");
    assert_eq!(ReplayAction::Fallback.name(), "fallback");
}

#[test]
fn the_graph_of_an_execution_zeroes_first() {
    let rt = ready();
    let order = execution_order(&rt.exec_graph).unwrap();
    let plan = build_runtime_graph(&rt, &order, false).unwrap();
    assert_eq!(plan.zeroed, vec![1]);
    assert_eq!(plan.ops.len(), 2);
    assert!(!plan.ops[0].capture);
    assert!(plan.ops[1].capture);
    assert_eq!(plan.ops[0].after_zeros, vec![0]);
    assert!(plan.ops[0].after_ops.is_empty());
    assert_eq!(plan.ops[1].after_ops, vec![0]);
    assert_eq!(plan.ops[1].after_zeros, vec![0]);
}

#[test]
fn a_recording_holds_what_is_dispatched() {
    let rt = ready();
    let order = execution_order(&rt.exec_graph).unwrap();
    for all in [false, true] {
        let plan = build_runtime_graph(&rt, &order, all).unwrap();
        assert_eq!(plan.zeroed, rt.zero_buffers_for_execute(all));
        let ops: Vec<usize> = plan.ops.iter().map(|op| op.exec_node).collect();
        assert_eq!(ops, order);
    }
}

#[test]
fn the_replay_setting_changes_only_the_recording() {
    let mut with = ready();
    let mut without = ready();
    for address in [1000, 1000, 1000, 5000] {
        for (rt, graph_replay) in [(&mut with, true), (&mut without, false)] {
            rt.set_data(10, CudaInput::Buffer(buffer(address, 16)));
            let settings = ExecuteSettings {
                single_stream: true,
                sync_debug: false,
                force_zero_all: false,
                graph_replay,
                force_recapture: false,
            };
            let (allocate, action) = rt.execute(&dims(&[('s', 2)]), settings).unwrap();
            assert!(!allocate);
            match action {
                ReplayAction::Warmup => rt.runtime_replay.warmed_up(),
                ReplayAction::Capture => rt.runtime_replay.captured(),
                ReplayAction::Replay => {
                    let fallback = rt.runtime_replay.replay_failed("lost".to_string());
                    assert!(fallback.dispatches());
                }
                _ => assert!(!graph_replay && action == ReplayAction::Dispatch),
            }
        }
        assert_eq!(with.cached_buffer_ptrs, without.cached_buffer_ptrs);
        assert_eq!(with.cached_buffer_ptrs[&0], address);
        assert!(with.changed_hlir.is_empty() && without.changed_hlir.is_empty());
    }
}

#[test]
fn the_graph_of_an_execution_needs_buffers_and_known_operations() {
    let mut rt = ready();
    rt.host_ops.insert(2, host(false, Some("mystery"), &[], &[]));
    let order = execution_order(&rt.exec_graph).unwrap();
    match build_runtime_graph(&rt, &order, false) {
        Err(RuntimeGraphError::Unsupported(name)) => assert_eq!(name, "mystery"),
        _ => panic!("an unknown operation was planned"),
    }
    rt.host_ops.insert(1, host(true, None, &[0, 42], &[1]));
    match build_runtime_graph(&rt, &order, false) {
        Err(RuntimeGraphError::MissingBuffer(n)) => assert_eq!(n, 42),
        _ => panic!("a missing buffer was planned"),
    }
}

#[test]
fn an_operation_gets_the_buffers_it_touches() {
    let rt = ready();
    let x = ExecutableHostOp { inputs: vec![0, 9], output: 1 };
    let m = build_host_op_buffer_map(
        &rt.buffers,
        &rt.llir_to_hlir,
        &rt.hlir_buffers,
        &x,
        &vec![2],
    )
    .unwrap();
    assert_eq!(m.len(), 3);
    assert_eq!(m[&0], buffer(1000, 16));
    assert_eq!(m[&1], buffer(2000, 32));
    assert_eq!(m[&2], buffer(3000, 64));
    let e = build_host_op_buffer_map(
        &rt.buffers,
        &rt.llir_to_hlir,
        &rt.hlir_buffers,
        &x,
        &vec![2, 8],
    );
    assert_eq!(e.unwrap_err(), 8);
}

#[test]
fn device_data_is_read_as_integers() {
    let mut data = Vec::new();
    for n in [1i32, -2, i32::MIN, 123456789] {
        data.extend_from_slice(&n.to_ne_bytes());
    }
    data.push(9);
    assert_eq!(get_i32(&data), vec![1, -2, i32::MIN, 123456789]);
    let bytes = vec![1, 2, 0, 0, 0, 0, 0, 255, 7];
    assert_eq!(numbers_in(&bytes, true), vec![513, -16777216]);
    assert_eq!(numbers_in(&bytes, false), vec![16908288, 255]);
    assert_eq!(CudaInput::Ptr(3).device_ptr(), 3);
    assert_eq!(CudaInput::Buffer(buffer(4, 1)).device_ptr(), 4);
}

#[test]
fn dimensions_are_kept_in_order() {
    let mut m = dims(&[('z', 1), ('a', 2), ('z', 3)]);
    assert_eq!(m.entries(), &vec![('a', 2), ('z', 3)]);
    assert_eq!(m.len(), 2);
    m.insert('b', 5);
    assert_eq!(m.get('b'), Some(5));
    assert_eq!(m.get('c'), None);
    assert_eq!(m.duplicate().entries(), m.entries());
    let mut s = DimSet::new();
    assert!(s.is_empty());
    s.extend(&vec!['c', 'a', 'c']);
    s.insert('b');
    assert!(s.contains('c') && !s.contains('d'));
    assert_eq!(s.into_sorted(), vec!['a', 'b', 'c']);
}
