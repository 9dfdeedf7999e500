use luminal_runtime::flash_attn::{
    attention_launch, attention_output_size, kernel_entry_name, AttentionBuffer, AttentionDim,
    AttentionDims, AttentionPtrs, AttentionSizes, FlashAttentionCausal, FlashAttentionError,
    FlashAttentionMasked, FlashAttentionMode, FlashAttentionOp, LoadSteps, LoadedConfig,
};
use luminal_runtime::matmul::{
    dtype_to_cuda_types, output_element_size, parse_cublas_op, BlasOp, CaptureError, ComputeType,
    CuBlasLt, CuBlasSgemmV2, CudaDataType, DType, MatmulDims, MatrixLayouts, Operand, OperandPtrs,
    SgemmError, CUBLASLT_WORKSPACE_SIZE,
};
use luminal_runtime::op_term::{OpParam, TermArg};
use std::collections::HashMap;

const DIMS: MatmulDims = MatmulDims { m: 2, n: 3, k: 4, lda: 5, ldb: 6, ldc: 7 };

fn ptrs(entries: &[(usize, u64)]) -> HashMap<usize, u64> {
    entries.iter().copied().collect()
}

#[test]
fn layouts_are_read_with_or_without_quotes() {
    assert_eq!(parse_cublas_op("T"), Some(BlasOp::T));
    assert_eq!(parse_cublas_op("\"N\""), Some(BlasOp::N));
    assert_eq!(parse_cublas_op("\"\"C"), Some(BlasOp::C));
    assert_eq!(parse_cublas_op("t"), None);
    assert_eq!(parse_cublas_op("\"\""), None);
    assert_eq!(parse_cublas_op("TN"), None);
    assert_eq!(parse_cublas_op("T\"N"), None);
}

#[test]
fn element_types_have_matrix_types() {
    assert_eq!(
        dtype_to_cuda_types(DType::F32),
        Some((CudaDataType::R32F, ComputeType::Compute32F, CudaDataType::R32F))
    );
    assert_eq!(
        dtype_to_cuda_types(DType::F16),
        Some((CudaDataType::R16F, ComputeType::Compute32F, CudaDataType::R32F))
    );
    assert_eq!(
        dtype_to_cuda_types(DType::Bf16),
        Some((CudaDataType::R16BF, ComputeType::Compute32FFast16BF, CudaDataType::R32F))
    );
    for d in [DType::Int, DType::Bool, DType::NvFp4, DType::Mxfp4] {
        assert_eq!(dtype_to_cuda_types(d), None);
    }
    assert_eq!(output_element_size(DType::Int), Some(4));
    assert_eq!(output_element_size(DType::Bf16), Some(2));
    assert_eq!(output_element_size(DType::Bool), Some(1));
    assert_eq!(output_element_size(DType::Mxfp4), None);
}

#[test]
fn a_product_names_what_is_missing() {
    let mut op = CuBlasSgemmV2::new(BlasOp::N, BlasOp::T);
    let inputs = vec![1, 2];
    let all = ptrs(&[(1, 10), (2, 20), (3, 30)]);
    let call = op.run_with_handle_raw(DIMS, 3, &inputs, &all, false).unwrap();
    assert_eq!((call.m, call.n, call.k), (2, 3, 4));
    assert_eq!((call.lda, call.ldb, call.ldc), (5, 6, 7));
    assert_eq!(call.ptrs, OperandPtrs { a_ptr: 10, b_ptr: 20, c_ptr: 30 });
    assert_eq!((call.a_layout, call.b_layout), (BlasOp::N, BlasOp::T));
    assert!(!call.set_stream);
    assert_eq!(op.run_with_handle_raw(DIMS, 3, &inputs, &ptrs(&[]), true), Err(Operand::A));
    assert_eq!(op.run_with_handle_raw(DIMS, 3, &inputs, &ptrs(&[(1, 1)]), true), Err(Operand::B));
    assert_eq!(
        op.run_with_handle_raw(DIMS, 3, &inputs, &ptrs(&[(1, 1), (2, 2)]), true),
        Err(Operand::C)
    );
    let shared = op.execute(DIMS, 3, &inputs, &all);
    assert!(shared.set_stream);
    assert_eq!(shared.ptrs, call.ptrs);
    // In a capture the handle has to be there, and stays on its stream.
    assert_eq!(op.execute_for_capture(DIMS, 3, &inputs, &all), Err(SgemmError::NoHandle));
    assert_eq!(op.execute_for_capture_raw(DIMS, 3, &inputs, &all), Err(SgemmError::NoHandle));
    let warm = op.warmup_for_capture(DIMS, 3, &inputs, &all);
    assert_eq!(warm, shared);
    assert_eq!(op.execute_for_capture(DIMS, 3, &inputs, &all), Ok(call));
    assert_eq!(op.execute_for_capture_raw(DIMS, 3, &inputs, &all), Ok(call));
    assert_eq!(
        op.execute_for_capture_raw(DIMS, 3, &inputs, &ptrs(&[(1, 1)])),
        Err(SgemmError::Missing(Operand::B))
    );
    let mut prepared = CuBlasSgemmV2::new(BlasOp::N, BlasOp::T);
    prepared.prepare_for_capture();
    assert!(prepared.capture_ready);
    assert_eq!(op.output_size(DIMS), Some(6));
    assert_eq!(op.output_size(MatmulDims { m: usize::MAX, ..DIMS }), None);
    assert_eq!(op.output_bytes(DIMS), Some(24));
    assert_eq!(op.output_bytes(MatmulDims { m: usize::MAX / 4, ..DIMS }), None);
    assert_eq!(op.stats_name(), "cuBLAS");
}

#[test]
fn a_product_is_described_to_the_library() {
    let op = CuBlasLt::new(BlasOp::T, BlasOp::N, DType::Bf16);
    let all = ptrs(&[(1, 10), (2, 20), (3, 30)]);
    let (d, places) = op.execute(DIMS, 3, &vec![1, 2], &all);
    assert_eq!(d.matrix_type, CudaDataType::R16BF);
    assert_eq!(d.compute_type, ComputeType::Compute32FFast16BF);
    assert_eq!(d.scale_type, CudaDataType::R32F);
    assert_eq!((d.a_layout, d.b_layout), (BlasOp::T, BlasOp::N));
    assert_eq!((d.lda, d.ldb, d.ldc), (5, 6, 7));
    assert_eq!(d.layouts, op.build_capture_config(DIMS).layouts());
    assert_eq!(d.workspace_bytes, CUBLASLT_WORKSPACE_SIZE);
    assert_eq!(places, OperandPtrs { a_ptr: 10, b_ptr: 20, c_ptr: 30 });
}

#[test]
fn transposed_operands_are_stored_the_other_way_round() {
    let op = CuBlasLt::new(BlasOp::N, BlasOp::T, DType::F32);
    let config = op.build_capture_config(DIMS);
    assert_eq!(
        config.layouts(),
        MatrixLayouts { a_rows: 2, a_cols: 4, b_rows: 3, b_cols: 4, c_rows: 2, c_cols: 3 }
    );
    let flipped = CuBlasLt::new(BlasOp::T, BlasOp::N, DType::F32).build_capture_config(DIMS);
    assert_eq!(
        flipped.layouts(),
        MatrixLayouts { a_rows: 4, a_cols: 2, b_rows: 4, b_cols: 3, c_rows: 2, c_cols: 3 }
    );
}

#[test]
fn a_captured_product_runs_for_its_sizes_only() {
    let mut op = CuBlasLt::new(BlasOp::N, BlasOp::N, DType::F32);
    let other = MatmulDims { m: 9, ..DIMS };
    let inputs = vec![1, 2];
    let all = ptrs(&[(1, 10), (2, 20), (3, 30)]);
    let places = OperandPtrs { a_ptr: 10, b_ptr: 20, c_ptr: 30 };
    assert_eq!(op.execute_for_capture(DIMS, 3, &inputs, &all), Err(CaptureError::NoHandle));
    let (config, description, found) = op.warmup_for_capture(DIMS, 3, &inputs, &all);
    assert_eq!(config, op.build_capture_config(DIMS));
    assert_eq!(description, Some(op.execute(DIMS, 3, &inputs, &all).0));
    assert_eq!(found, places);
    assert_eq!(op.execute_for_capture(DIMS, 3, &inputs, &all), Err(CaptureError::NoWorkspace));
    op.prepare_for_capture();
    assert_eq!(op.execute_for_capture(DIMS, 3, &inputs, &all), Err(CaptureError::NoState));
    assert!(!op.capture_state_built(config, 0));
    assert_eq!(op.execute_for_capture(DIMS, 3, &inputs, &all), Err(CaptureError::NoState));
    assert!(op.capture_state_built(config, 1));
    assert_eq!(op.ensure_capture_state(config), None);
    assert_eq!(op.warmup_for_capture(DIMS, 3, &inputs, &all).1, None);
    assert_eq!(op.execute_for_capture(DIMS, 3, &inputs, &all), Ok(places));
    assert_eq!(op.execute_for_capture(other, 3, &inputs, &all), Err(CaptureError::ConfigMismatch));
    // A failure keeps what is there.
    let wanted = op.build_capture_config(other);
    assert!(op.ensure_capture_state(wanted).is_some());
    assert!(!op.capture_state_built(wanted, 0));
    assert_eq!(op.execute_for_capture(DIMS, 3, &inputs, &all), Ok(places));
}

#[test]
fn products_as_terms() {
    let plain = vec![OpParam::Input, OpParam::Input, OpParam::Expr, OpParam::Expr, OpParam::Expr, OpParam::Str, OpParam::Str, OpParam::Expr, OpParam::Expr, OpParam::Expr];
    let op = CuBlasSgemmV2::new(BlasOp::N, BlasOp::N);
    assert_eq!(op.term(), ("cublasSgemmV2", plain.clone()));
    let lt = CuBlasLt::new(BlasOp::N, BlasOp::N, DType::Bf16);
    let mut typed = plain;
    typed.push(OpParam::Dty);
    assert_eq!(lt.term(), ("cublaslt", typed));
    assert_eq!(lt.stats_name(), "cuBLASLt");
    assert_eq!(lt.output_bytes(DIMS), Some(12));
    assert_eq!(lt.output_bytes(MatmulDims { m: usize::MAX / 4, ..DIMS }), None);
    let fp4 = CuBlasLt::new(BlasOp::N, BlasOp::N, DType::NvFp4);
    assert_eq!(fp4.output_bytes(DIMS), None);
    let (name, params) = FlashAttentionMode::Masked.term();
    assert_eq!(name, "flash_attention_masked");
    assert_eq!(params, vec![OpParam::Input, OpParam::Input, OpParam::Input, OpParam::Input, OpParam::Expr, OpParam::Expr, OpParam::Expr, OpParam::Expr, OpParam::Expr, OpParam::Dty]);
    let (name, params) = FlashAttentionMode::Causal.term();
    assert_eq!(name, "flash_attention_causal");
    assert_eq!(params, vec![OpParam::Input, OpParam::Input, OpParam::Input, OpParam::Expr, OpParam::Expr, OpParam::Expr, OpParam::Expr, OpParam::Expr, OpParam::Dty]);
    assert_eq!(FlashAttentionMode::Masked.input_count(), 4);
}

fn product_args(a: &str, b: &str) -> Vec<TermArg> {
    vec![
        TermArg::Input(70),
        TermArg::Input(71),
        TermArg::Expr(2),
        TermArg::Expr(3),
        TermArg::Expr(4),
        TermArg::Str(a.to_string()),
        TermArg::Str(b.to_string()),
        TermArg::Expr(5),
        TermArg::Expr(6),
        TermArg::Expr(7),
    ]
}

#[test]
fn products_are_extracted_from_terms() {
    let (op, sizes, nodes) = CuBlasSgemmV2::extract(&product_args("\"T\"", "N")).unwrap();
    assert_eq!(op, CuBlasSgemmV2::new(BlasOp::T, BlasOp::N));
    assert_eq!((sizes, nodes), (DIMS, vec![70, 71]));
    assert!(CuBlasSgemmV2::extract(&product_args("T", "x")).is_none());
    assert!(CuBlasSgemmV2::extract(&vec![]).is_none());
    let mut args = product_args("N", "C");
    assert!(CuBlasLt::extract(&args).is_none());
    args.push(TermArg::Dty(DType::F16));
    assert!(CuBlasSgemmV2::extract(&args).is_none());
    let (op, sizes, nodes) = CuBlasLt::extract(&args).unwrap();
    assert_eq!(op, CuBlasLt::new(BlasOp::N, BlasOp::C, DType::F16));
    assert_eq!((sizes, nodes), (DIMS, vec![70, 71]));
    args[0] = TermArg::Expr(1);
    assert!(CuBlasLt::extract(&args).is_none());
}

#[test]
fn attentions_are_extracted_from_terms() {
    let mut args = vec![TermArg::Input(1), TermArg::Input(2), TermArg::Input(3)];
    for i in 10..15 {
        args.push(TermArg::Expr(i));
    }
    args.push(TermArg::Dty(DType::F32));
    assert!(FlashAttentionMasked.extract(&args).is_none());
    let (op, sizes, nodes) = FlashAttentionCausal.extract(&args).unwrap();
    let wanted = AttentionSizes { batch: 10, heads: 11, seq_q: 12, seq_k: 13, head_dim: 14 };
    assert_eq!(op, FlashAttentionOp::new(FlashAttentionMode::Causal, DType::F32));
    assert_eq!((sizes, nodes), (wanted, vec![1, 2, 3]));
    args.insert(3, TermArg::Input(4));
    assert!(FlashAttentionCausal.extract(&args).is_none());
    let (op, sizes, nodes) = FlashAttentionMasked.extract(&args).unwrap();
    assert_eq!(op, FlashAttentionOp::new(FlashAttentionMode::Masked, DType::F32));
    assert_eq!((sizes, nodes), (wanted, vec![1, 2, 3, 4]));
    assert_eq!(FlashAttentionMasked.term(), FlashAttentionMode::Masked.term());
    assert_eq!(FlashAttentionCausal.term(), FlashAttentionMode::Causal.term());
}

fn dims() -> AttentionDims {
    AttentionDims {
        batch: Some(2),
        heads: Some(3),
        seq_q: Some(65),
        seq_k: Some(7),
        head_dim: Some(64),
    }
}

#[test]
fn kernel_files_are_named_after_mode_head_and_architecture() {
    let masked = FlashAttentionOp::new(FlashAttentionMode::Masked, DType::F32);
    assert_eq!(masked.kernel_filename(90, 128), "flash_attn_masked_h128_sm90.cubin");
    let causal = FlashAttentionOp::new(FlashAttentionMode::Causal, DType::F32);
    assert_eq!(causal.kernel_filename(86, 64), "flash_attn_causal_h64_sm86.cubin");
    assert_eq!(causal.kernel_filename(-7, 0), "flash_attn_causal_h0_sm-7.cubin");
    assert_eq!(causal.kernel_filename(i32::MIN, 10), "flash_attn_causal_h10_sm-2147483648.cubin");
    assert_eq!(masked.stats_name(), "FlashAttn2");
}

#[test]
fn the_entry_is_named_beside_the_kernel() {
    assert_eq!(kernel_entry_name(Some("  my_kernel\n")), "my_kernel");
    assert_eq!(kernel_entry_name(Some("a b")), "a b");
    assert_eq!(kernel_entry_name(Some(" \t\n")), "flash_attn_fwd");
    assert_eq!(kernel_entry_name(Some("")), "flash_attn_fwd");
    assert_eq!(kernel_entry_name(None), "flash_attn_fwd");
}

#[test]
fn a_kernel_is_loaded_once() {
    let mut op = FlashAttentionOp::new(FlashAttentionMode::Causal, DType::F32);
    assert_eq!(op.ensure_kernel_loaded(90, 64), Ok(LoadSteps { module: true, function: true }));
    assert_eq!(
        op.ensure_kernel_loaded(90, 96),
        Err(FlashAttentionError::UnsupportedHeadDim(96))
    );
    // The module is loaded, and the kernel not found in it yet.
    op.module_loaded(90, 64);
    let loaded = LoadedConfig { sm: 90, head_dim: 64, mode: FlashAttentionMode::Causal };
    assert_eq!(op.ensure_kernel_loaded(90, 64), Ok(LoadSteps { module: false, function: true }));
    assert_eq!(
        op.ensure_kernel_loaded(90, 128),
        Err(FlashAttentionError::LoadedForOther(loaded))
    );
    op.kernel_loaded();
    assert_eq!(op.ensure_kernel_loaded(90, 64), Ok(LoadSteps { module: false, function: false }));
    assert_eq!(
        op.ensure_kernel_loaded(90, 128),
        Err(FlashAttentionError::LoadedForOther(loaded))
    );
    assert_eq!(
        op.ensure_kernel_loaded(80, 64),
        Err(FlashAttentionError::LoadedForOther(loaded))
    );
}

#[test]
fn attention_is_launched_where_there_is_something_to_do() {
    let op = FlashAttentionOp::new(FlashAttentionMode::Masked, DType::F32);
    assert_eq!(op.launch_raw(dims(), 9), Ok(Some(64)));
    assert_eq!(op.launch_raw(dims(), 0), Err(FlashAttentionError::NoMask));
    let causal = FlashAttentionOp::new(FlashAttentionMode::Causal, DType::F32);
    assert_eq!(causal.launch_raw(dims(), 0), Ok(Some(64)));
    for empty in [
        AttentionDims { batch: Some(0), ..dims() },
        AttentionDims { heads: Some(0), ..dims() },
        AttentionDims { seq_q: Some(0), ..dims() },
        AttentionDims { seq_k: Some(0), ..dims() },
    ] {
        assert_eq!(op.launch_raw(empty, 0), Ok(None));
    }
    let half = FlashAttentionOp::new(FlashAttentionMode::Masked, DType::F16);
    assert_eq!(
        half.launch_raw(dims(), 9),
        Err(FlashAttentionError::UnsupportedType(DType::F16))
    );
    for (unknown, which) in [
        (AttentionDims { batch: None, heads: None, ..dims() }, AttentionDim::Batch),
        (AttentionDims { heads: None, ..dims() }, AttentionDim::Heads),
        (AttentionDims { seq_q: None, ..dims() }, AttentionDim::SeqQ),
        (AttentionDims { seq_k: None, ..dims() }, AttentionDim::SeqK),
        (AttentionDims { head_dim: None, ..dims() }, AttentionDim::HeadDim),
    ] {
        assert_eq!(op.launch_raw(unknown, 9), Err(FlashAttentionError::Unresolved(which)));
    }
}

#[test]
fn blocks_cover_the_queries() {
    let l = attention_launch(2, 3, 65, 7, 64);
    assert_eq!((l.grid_x, l.grid_y, l.grid_z), (2, 3, 2));
    assert_eq!(l.block_x, 128);
    assert_eq!((l.batch, l.heads, l.seq_q, l.seq_k, l.head_dim), (2, 3, 65, 7, 64));
    assert_eq!(attention_launch(1, 1, 64, 1, 128).grid_x, 1);
    assert_eq!(attention_launch(1, 1, 64, 1, 128).block_x, 256);
    assert_eq!(attention_launch(1, 1, usize::MAX, 1, 128).grid_x, 0);
    assert_eq!(attention_output_size(2, 3, 5, 64), Some(1920));
    assert_eq!(attention_output_size(usize::MAX, 2, 0, 1), None);
}

#[test]
fn attention_names_what_is_missing() {
    let op = FlashAttentionOp::new(FlashAttentionMode::Masked, DType::F32);
    let inputs = vec![1, 2, 3, 4];
    let mut known: Vec<(usize, u64)> = vec![];
    for (n, missing) in [
        (1, AttentionBuffer::Q),
        (2, AttentionBuffer::K),
        (3, AttentionBuffer::V),
        (5, AttentionBuffer::Out),
        (4, AttentionBuffer::Mask),
    ] {
        assert_eq!(op.attention_ptrs(5, &inputs, &ptrs(&known)), Err(missing));
        known.push((n, 10 * n as u64));
    }
    assert_eq!(
        op.attention_ptrs(5, &inputs, &ptrs(&known)),
        Ok(AttentionPtrs { q: 10, k: 20, v: 30, mask: 40, out: 50 })
    );
    let causal = FlashAttentionOp::new(FlashAttentionMode::Causal, DType::F32);
    assert_eq!(
        causal.attention_ptrs(5, &vec![1, 2, 3], &ptrs(&known)),
        Ok(AttentionPtrs { q: 10, k: 20, v: 30, mask: 0, out: 50 })
    );
}
