use luminal_runtime::block_stats::{
    compute_block_op_stats, BlockOpCost, BlockOpStats, PartCost, SMEvent,
};
use luminal_runtime::digraph::DiGraph;
use luminal_runtime::loader::{load_safetensors, tensor_data, LoadError, TensorData};
use luminal_runtime::report::{
    count_ops, format_flops, format_size, profile_display, profile_line, stat_row_cells,
    total_stats, KernelStats, OpCounts, Unit,
};
use luminal_runtime::runtime::{LlirOp, OpKind};
use safetensors::tensor::{Dtype, TensorView};
use std::collections::HashMap;

fn cost(bytes_loaded: usize, bytes_stored: usize, flops: usize) -> PartCost {
    PartCost { bytes_loaded, bytes_stored, flops }
}

fn block(name: &str, main: PartCost, a: PartCost) -> BlockOpCost {
    BlockOpCost {
        name: name.to_string(),
        main,
        prologue_a: a,
        prologue_b: cost(0, 0, 0),
        prologue_c: cost(3, 0, 4),
    }
}

fn event(start: u64, stop: u64, event: i32) -> SMEvent {
    SMEvent { start, stop, event }
}

fn line(s: &BlockOpStats) -> (String, u64, usize, usize, usize, usize) {
    (s.name.clone(), s.time_ns, s.bytes_loaded, s.bytes_stored, s.flops, s.count)
}

#[test]
fn block_statistics_are_gathered_by_kind_and_part() {
    let ops = vec![
        block("Mul", cost(10, 20, 30), cost(1, 0, 2)),
        block("Add", cost(100, 200, 300), cost(5, 0, 6)),
        block("Mul", cost(1, 2, 3), cost(1, 0, 2)),
    ];
    // Add is kind 0, Mul kind 1: codes 2 and 3, prologues from 4 on.
    let timings = vec![vec![
        event(10, 15, 3),
        event(20, 27, 0),
        event(30, 33, 7),
        event(0, 0, 2),
        event(5, 6, 2),
        event(8, 9, 1),
        event(9, 0, 3),
        event(0, 0, 0),
    ]];
    let stats = compute_block_op_stats(&ops, &timings, 4).unwrap();
    assert_eq!(
        stats.iter().map(line).collect::<Vec<_>>(),
        vec![
            ("Add".to_string(), 1, 100, 200, 300, 1),
            ("Mul".to_string(), 5, 11, 22, 33, 2),
            ("Mul (prologue A)".to_string(), 3, 2, 0, 4, 1),
            ("Issue".to_string(), 7, 0, 0, 0, 1),
            ("Wait".to_string(), 1, 0, 0, 0, 1),
        ]
    );
    assert_eq!(compute_block_op_stats(&vec![], &vec![], 1).unwrap().len(), 0);
}

#[test]
fn totals_are_summed_over_kernels_and_blocks() {
    let kernels = vec![KernelStats {
        name: "k".to_string(),
        bytes_loaded: 1,
        bytes_stored: 2,
        flops: 3,
    }];
    let blocks = vec![BlockOpStats {
        name: "b".to_string(),
        time_ns: 9,
        bytes_loaded: 10,
        bytes_stored: 20,
        flops: 30,
        count: 1,
    }];
    let t = total_stats(&kernels, &blocks).unwrap();
    assert_eq!((t.bytes_loaded, t.bytes_stored, t.flops), (11, 22, 33));
    let huge = vec![KernelStats {
        name: "h".to_string(),
        bytes_loaded: usize::MAX,
        bytes_stored: 0,
        flops: 0,
    }];
    assert!(total_stats(&huge, &blocks).is_none());
}

#[test]
fn units_follow_the_size() {
    assert_eq!(format_size(999), Unit::One);
    assert_eq!(format_size(1_000), Unit::Kilo);
    assert_eq!(format_size(1_000_000), Unit::Mega);
    assert_eq!(format_size(1_000_000_000_000), Unit::Giga);
    assert_eq!(format_flops(999), Unit::One);
    assert_eq!(format_flops(999_999), Unit::Kilo);
    assert_eq!(format_flops(1_000_000), Unit::Mega);
    assert_eq!(format_flops(1_000_000_000), Unit::Giga);
    assert_eq!(format_flops(1_000_000_000_000), Unit::Tera);
}

#[test]
fn cells_without_a_value_are_left_out() {
    let r = stat_row_cells(0, 5, 0, true, true);
    assert!(!r.loaded && r.stored && !r.flops && r.bandwidth && !r.tflops && r.mbu && !r.mfu);
    let r = stat_row_cells(0, 0, 7, false, false);
    assert!(!r.bandwidth && r.flops && r.tflops && !r.mbu && !r.mfu);
}

#[test]
fn a_profile_is_one_line() {
    let counts = OpCounts { block: 10, kernel: 0, host: 307 };
    assert_eq!(
        profile_line("5ms", &Some("12.5%".to_string()), &None, counts),
        "5ms | MBU: 12.5% | MFU: - [BLK: 10 KRN: 0 HOST: 307]"
    );
    assert_eq!(
        profile_display(3, 20_000_000, &None, &None, counts),
        "3s 20ms | MBU: - | MFU: - [BLK: 10 KRN: 0 HOST: 307]"
    );
}

#[test]
fn operations_are_counted_by_kind() {
    let mut g = DiGraph::default();
    for _ in 0..5 {
        g.add_node(());
    }
    let mut ops = HashMap::new();
    for (n, kind) in [
        (0, OpKind::Block),
        (1, OpKind::Kernel),
        (2, OpKind::Kernel),
        (3, OpKind::Host),
        (4, OpKind::Other),
        (9, OpKind::Host),
    ] {
        ops.insert(n, LlirOp { kind, dyn_vars: vec![] });
    }
    let c = count_ops(&g, &ops);
    assert_eq!((c.block, c.kernel, c.host), (1, 2, 1));
}

fn file() -> Vec<u8> {
    let single: Vec<u8> = [1.5f32, -2.0].iter().flat_map(|x| x.to_le_bytes()).collect();
    let halves = vec![0x00, 0x3c, 0x00, 0xc0];
    let bytes = vec![1u8, 2];
    let longs = vec![0u8; 8];
    let tensors = vec![
        ("a".to_string(), TensorView::new(Dtype::F32, vec![2], &single).unwrap()),
        ("h".to_string(), TensorView::new(Dtype::F16, vec![2], &halves).unwrap()),
        ("u".to_string(), TensorView::new(Dtype::U8, vec![2], &bytes).unwrap()),
        ("l".to_string(), TensorView::new(Dtype::I64, vec![1], &longs).unwrap()),
    ];
    let all: Vec<(String, TensorView)> = tensors;
    safetensors::serialize(all, None).unwrap()
}

#[test]
fn named_inputs_are_loaded_from_a_file() {
    let inputs = vec![
        (5, "h".to_string()),
        (6, "missing".to_string()),
        (7, "a".to_string()),
    ];
    let got = load_safetensors(&file(), &inputs).unwrap();
    assert_eq!(got.len(), 2);
    assert_eq!(got[0].0, 5);
    assert!(matches!(&got[0].1, TensorData::Halves(v) if v == &vec![0x3c00, 0xc000]));
    assert_eq!(got[1].0, 7);
    let single: Vec<u8> = [1.5f32, -2.0].iter().flat_map(|x| x.to_le_bytes()).collect();
    assert!(matches!(&got[1].1, TensorData::Bytes(v) if v == &single));
}

#[test]
fn other_files_and_types_are_refused() {
    assert!(matches!(load_safetensors(&[1, 2, 3], &vec![]), Err(LoadError::Malformed)));
    match load_safetensors(&file(), &vec![(0, "u".to_string()), (1, "l".to_string())]) {
        Err(LoadError::Unsupported(1, t)) => assert_eq!(t, "I64"),
        _ => panic!("longs were loaded"),
    }
    let u = load_safetensors(&file(), &vec![(0, "u".to_string())]).unwrap();
    assert!(matches!(&u[0].1, TensorData::Bytes(v) if v == &vec![1u8, 2]));
    assert!(tensor_data("I64", vec![]).is_none());
}
