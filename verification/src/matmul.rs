//! Matrix products on the device: what the cuBLAS and cuBLASLt operations hand to the
//! library, and when a captured product can be run again.

use crate::op_term::{checked_product, fill, OpParam, TermArg};
#[allow(unused_imports)]
use crate::op_term::{fills, inputs, sizes};
use crate::text::chars_of;
use std::collections::HashMap;
use vstd::prelude::*;

verus! {

broadcast use vstd::std_specs::hash::group_hash_axioms;

/// How much scratch memory a captured cuBLAS product gets, in bytes.
pub const CUBLAS_CAPTURE_WORKSPACE_SIZE: usize = 4_194_304;

/// How much scratch memory a cuBLASLt product gets, in bytes.
pub const CUBLASLT_WORKSPACE_SIZE: usize = 33_554_432;

/// How an operand enters a product.
#[derive(Debug, Clone, Copy, PartialEq, Eq, Structural)]
pub enum BlasOp {
    /// As it is.
    N,
    /// Transposed.
    T,
    /// Transposed and conjugated.
    C,
}

/// The type of the elements of a tensor.
#[derive(Debug, Clone, Copy, PartialEq, Eq, Structural)]
pub enum DType {
    F32,
    F16,
    Bf16,
    Int,
    Bool,
    NvFp4,
    Mxfp4,
}

/// The element types of cuBLASLt matrices.
#[derive(Debug, Clone, Copy, PartialEq, Eq, Structural)]
pub enum CudaDataType {
    R32F,
    R16F,
    R16BF,
}

/// How cuBLASLt computes a product.
#[derive(Debug, Clone, Copy, PartialEq, Eq, Structural)]
pub enum ComputeType {
    Compute32F,
    Compute32FFast16BF,
}

/// The text without the quotes at its beginning.
pub open spec fn without_leading_quotes(s: Seq<char>) -> Seq<char>
    decreases s.len(),
{
    if s.len() > 0 && s[0] == '"' {
        without_leading_quotes(s.drop_first())
    } else {
        s
    }
}

/// The text without the quotes at its end.
pub open spec fn without_trailing_quotes(s: Seq<char>) -> Seq<char>
    decreases s.len(),
{
    if s.len() > 0 && s.last() == '"' {
        without_trailing_quotes(s.drop_last())
    } else {
        s
    }
}

/// The operation of a one-letter name, in quotes or not.
pub open spec fn blas_op_of(s: Seq<char>) -> Option<BlasOp> {
    let t = without_trailing_quotes(without_leading_quotes(s));
    if t == seq!['T'] {
        Some(BlasOp::T)
    } else if t == seq!['N'] {
        Some(BlasOp::N)
    } else if t == seq!['C'] {
        Some(BlasOp::C)
    } else {
        None
    }
}

/// The operation of a one-letter name, in quotes or not; `None` for any other name.
pub fn parse_cublas_op(s: &str) -> (r: Option<BlasOp>)
    ensures
        r == blas_op_of(s@),
{
    let v = chars_of(s);
    let mut a: usize = 0;
    assert(v@.skip(0) =~= v@);
    while a < v.len() && v[a] == '"'
        invariant
            v@ == s@,
            a <= v@.len(),
            without_leading_quotes(s@) == without_leading_quotes(v@.skip(a as int)),
        decreases v@.len() - a,
    {
        proof {
            let t = v@.skip(a as int);
            assert(t[0] == v@[a as int]);
            assert(t.drop_first() =~= v@.skip(a + 1));
        }
        a = a + 1;
    }
    let ghost core = v@.skip(a as int);
    proof {
        if a < v@.len() {
            assert(core[0] == v@[a as int]);
        }
        assert(without_leading_quotes(s@) == core);
    }
    let mut b: usize = v.len();
    assert(v@.subrange(a as int, b as int) =~= core);
    while b > a && v[b - 1] == '"'
        invariant
            a <= b <= v@.len(),
            core == v@.skip(a as int),
            without_trailing_quotes(core) == without_trailing_quotes(
                v@.subrange(a as int, b as int),
            ),
        decreases b,
    {
        proof {
            let t = v@.subrange(a as int, b as int);
            assert(t.last() == v@[b - 1]);
            assert(t.drop_last() =~= v@.subrange(a as int, b - 1));
        }
        b = b - 1;
    }
    let ghost t = v@.subrange(a as int, b as int);
    proof {
        if b > a {
            assert(t.last() == v@[b - 1]);
        }
        assert(without_trailing_quotes(core) == t);
    }
    if b - a == 1 {
        let c = v[a];
        assert(t =~= seq![c]);
        assert(seq![c][0] == c);
        assert(seq!['T'][0] == 'T' && seq!['N'][0] == 'N' && seq!['C'][0] == 'C');
        if c == 'T' {
            Some(BlasOp::T)
        } else if c == 'N' {
            Some(BlasOp::N)
        } else if c == 'C' {
            Some(BlasOp::C)
        } else {
            None
        }
    } else {
        assert(t.len() != 1);
        assert(seq!['T'].len() == 1 && seq!['N'].len() == 1 && seq!['C'].len() == 1);
        None
    }
}

/// The matrix, compute and scale types for elements of a type. Products of integers,
/// truth values and 4-bit numbers are not supported.
pub open spec fn cuda_types(dtype: DType) -> Option<(CudaDataType, ComputeType, CudaDataType)> {
    match dtype {
        DType::F32 => Some((CudaDataType::R32F, ComputeType::Compute32F, CudaDataType::R32F)),
        DType::F16 => Some((CudaDataType::R16F, ComputeType::Compute32F, CudaDataType::R32F)),
        DType::Bf16 => Some(
            (CudaDataType::R16BF, ComputeType::Compute32FFast16BF, CudaDataType::R32F),
        ),
        _ => None,
    }
}

/// The matrix, compute and scale types for elements of a type.
pub fn dtype_to_cuda_types(dtype: DType) -> (r: Option<(CudaDataType, ComputeType, CudaDataType)>)
    ensures
        r == cuda_types(dtype),
{
    match dtype {
        DType::F32 => Some((CudaDataType::R32F, ComputeType::Compute32F, CudaDataType::R32F)),
        DType::F16 => Some((CudaDataType::R16F, ComputeType::Compute32F, CudaDataType::R32F)),
        DType::Bf16 => Some(
            (CudaDataType::R16BF, ComputeType::Compute32FFast16BF, CudaDataType::R32F),
        ),
        _ => None,
    }
}

/// The size of an output element in bytes; not settled for 4-bit numbers.
pub open spec fn element_bytes(dtype: DType) -> Option<usize> {
    match dtype {
        DType::F32 | DType::Int => Some(4usize),
        DType::F16 | DType::Bf16 => Some(2usize),
        DType::Bool => Some(1usize),
        DType::NvFp4 | DType::Mxfp4 => None,
    }
}

/// The size of an output element in bytes; not settled for 4-bit numbers.
pub fn output_element_size(dtype: DType) -> (r: Option<usize>)
    ensures
        r == element_bytes(dtype),
{
    match dtype {
        DType::F32 | DType::Int => Some(4),
        DType::F16 | DType::Bf16 => Some(2),
        DType::Bool => Some(1),
        DType::NvFp4 | DType::Mxfp4 => None,
    }
}

/// The sizes of a product: an `m` by `k` matrix times a `k` by `n` matrix, and the
/// leading dimensions of the operands and the result.
#[derive(Debug, Clone, Copy, PartialEq, Eq, Structural)]
pub struct MatmulDims {
    pub m: usize,
    pub n: usize,
    pub k: usize,
    pub lda: usize,
    pub ldb: usize,
    pub ldc: usize,
}

/// A single-precision product of cuBLAS.
#[derive(Debug, Clone, Copy, PartialEq, Eq, Structural)]
pub struct CuBlasSgemmV2 {
    pub a_layout: BlasOp,
    pub b_layout: BlasOp,
    /// Whether there is a handle for captures.
    pub capture_ready: bool,
}

/// The arguments of a single-precision product: sizes as the library takes them, and
/// where the matrices are.
#[derive(Debug, Clone, Copy, PartialEq, Eq, Structural)]
pub struct SgemmCall {
    pub a_layout: BlasOp,
    pub b_layout: BlasOp,
    pub m: i32,
    pub n: i32,
    pub k: i32,
    pub lda: i32,
    pub ldb: i32,
    pub ldc: i32,
    pub ptrs: OperandPtrs,
    /// Whether the handle is first put on the stream.
    pub set_stream: bool,
}

/// Where the matrices of a product are.
#[derive(Debug, Clone, Copy, PartialEq, Eq, Structural)]
pub struct OperandPtrs {
    pub a_ptr: u64,
    pub b_ptr: u64,
    pub c_ptr: u64,
}

/// A matrix of a product.
#[derive(Debug, Clone, Copy, PartialEq, Eq, Structural)]
pub enum Operand {
    A,
    B,
    C,
}

/// Why a cuBLAS product cannot be run in a capture.
#[derive(Debug, Clone, Copy, PartialEq, Eq, Structural)]
pub enum SgemmError {
    /// There is no handle: the product was not prepared.
    NoHandle,
    /// The place of a matrix is not known.
    Missing(Operand),
}

/// The operands are the first two inputs and the result is the node itself: the first
/// of them whose place is not known.
pub open spec fn missing_operand(
    self_node: usize,
    inputs: Seq<usize>,
    buffers: Map<usize, u64>,
) -> Option<Operand> {
    if !buffers.contains_key(inputs[0]) {
        Some(Operand::A)
    } else if !buffers.contains_key(inputs[1]) {
        Some(Operand::B)
    } else if !buffers.contains_key(self_node) {
        Some(Operand::C)
    } else {
        None
    }
}

/// Where the operands and the result are.
pub open spec fn operand_ptrs(
    self_node: usize,
    inputs: Seq<usize>,
    buffers: Map<usize, u64>,
) -> OperandPtrs {
    OperandPtrs {
        a_ptr: buffers[inputs[0]],
        b_ptr: buffers[inputs[1]],
        c_ptr: buffers[self_node],
    }
}

/// Where the operands and the result are, or the first of them that is not known.
fn find_operands(self_node: usize, inputs: &Vec<usize>, buffers: &HashMap<usize, u64>) -> (r: Result<
    OperandPtrs,
    Operand,
>)
    requires
        inputs@.len() >= 2,
    ensures
        r == match missing_operand(self_node, inputs@, buffers@) {
            Some(operand) => Err(operand),
            None => Ok(operand_ptrs(self_node, inputs@, buffers@)),
        },
{
    let a_ptr: u64 = match buffers.get(&inputs[0]) {
        Some(p) => *p,
        None => {
            return Err(Operand::A);
        },
    };
    let b_ptr: u64 = match buffers.get(&inputs[1]) {
        Some(p) => *p,
        None => {
            return Err(Operand::B);
        },
    };
    let c_ptr: u64 = match buffers.get(&self_node) {
        Some(p) => *p,
        None => {
            return Err(Operand::C);
        },
    };
    Ok(OperandPtrs { a_ptr, b_ptr, c_ptr })
}

/// Where the operands and the result are.
fn known_operands(self_node: usize, inputs: &Vec<usize>, buffers: &HashMap<usize, u64>) -> (r:
    OperandPtrs)
    requires
        inputs@.len() >= 2,
        missing_operand(self_node, inputs@, buffers@) is None,
    ensures
        r == operand_ptrs(self_node, inputs@, buffers@),
{
    OperandPtrs {
        a_ptr: *buffers.get(&inputs[0]).unwrap(),
        b_ptr: *buffers.get(&inputs[1]).unwrap(),
        c_ptr: *buffers.get(&self_node).unwrap(),
    }
}

/// The parameters of a product's term: the operands, the sizes, how the operands enter,
/// and the leading dimensions.
pub open spec fn product_params() -> Seq<OpParam> {
    inputs(2) + sizes(3) + seq![OpParam::Str, OpParam::Str] + sizes(3)
}

/// The numbers of a product's sizes among the arguments of its term.
pub open spec fn product_sizes(args: Seq<TermArg>) -> MatmulDims {
    MatmulDims {
        m: args[2].number(),
        n: args[3].number(),
        k: args[4].number(),
        lda: args[7].number(),
        ldb: args[8].number(),
        ldc: args[9].number(),
    }
}

/// How the operand enters that this argument of a term speaks of.
pub open spec fn layout_of(arg: TermArg) -> Option<BlasOp> {
    match arg {
        TermArg::Str(s) => blas_op_of(s@),
        _ => None,
    }
}

/// The numbers of a product's sizes.
fn read_sizes(args: &Vec<TermArg>) -> (r: MatmulDims)
    requires
        args@.len() >= 10,
    ensures
        r == product_sizes(args@),
{
    MatmulDims {
        m: args[2].read_number(),
        n: args[3].read_number(),
        k: args[4].read_number(),
        lda: args[7].read_number(),
        ldb: args[8].read_number(),
        ldc: args[9].read_number(),
    }
}

/// How an operand enters.
fn read_layout(arg: &TermArg) -> (r: Option<BlasOp>)
    ensures
        r == layout_of(*arg),
{
    match arg {
        TermArg::Str(s) => parse_cublas_op(s.as_str()),
        _ => None,
    }
}

impl CuBlasSgemmV2 {
    /// The operation as a term: its name and its parameters.
    pub fn term(&self) -> (r: (&'static str, Vec<OpParam>))
        ensures
            r.0@ == "cublasSgemmV2"@,
            r.1@ == product_params(),
    {
        let params: Vec<OpParam> = vec![
            OpParam::Input,
            OpParam::Input,
            OpParam::Expr,
            OpParam::Expr,
            OpParam::Expr,
            OpParam::Str,
            OpParam::Str,
            OpParam::Expr,
            OpParam::Expr,
            OpParam::Expr,
        ];
        assert(params@ =~= product_params());
        ("cublasSgemmV2", params)
    }

    /// The operation that a term stands for, the numbers of its sizes, and the nodes that it
    /// reads; `None` where the arguments are not for a product.
    pub fn extract(args: &Vec<TermArg>) -> (r: Option<(CuBlasSgemmV2, MatmulDims, Vec<usize>)>)
        ensures
            r is Some <==> fills(args@, product_params()) && layout_of(args@[5]) is Some
                && layout_of(args@[6]) is Some,
            r matches Some((op, sizes, nodes)) ==> op == (CuBlasSgemmV2 {
                a_layout: layout_of(args@[5])->0,
                b_layout: layout_of(args@[6])->0,
                capture_ready: false,
            }) && sizes == product_sizes(args@) && nodes@ == seq![
                args@[0].number(),
                args@[1].number(),
            ],
    {
        let params = CuBlasSgemmV2::new(BlasOp::N, BlasOp::N).term().1;
        if !fill(args, &params) {
            return None;
        }
        assert(params@.len() == 10);
        match (read_layout(&args[5]), read_layout(&args[6])) {
            (Some(a_layout), Some(b_layout)) => {
                let nodes: Vec<usize> = vec![args[0].read_number(), args[1].read_number()];
                assert(nodes@ =~= seq![args@[0].number(), args@[1].number()]);
                Some((CuBlasSgemmV2::new(a_layout, b_layout), read_sizes(args), nodes))
            },
            (_, _) => None,
        }
    }

    /// How many elements the result has.
    pub fn output_size(&self, dims: MatmulDims) -> (r: Option<usize>)
        ensures
            r == (if dims.m * dims.n <= usize::MAX {
                Some((dims.m * dims.n) as usize)
            } else {
                None
            }),
    {
        dims.m.checked_mul(dims.n)
    }

    /// The operation's name in statistics.
    pub fn stats_name(&self) -> (r: &'static str)
        ensures
            r@ == "cuBLAS"@,
    {
        "cuBLAS"
    }

    /// A product that was not prepared for a capture.
    pub fn new(a_layout: BlasOp, b_layout: BlasOp) -> (r: CuBlasSgemmV2)
        ensures
            r == (CuBlasSgemmV2 { a_layout, b_layout, capture_ready: false }),
    {
        CuBlasSgemmV2 { a_layout, b_layout, capture_ready: false }
    }

    /// How many bytes the result takes.
    pub fn output_bytes(&self, dims: MatmulDims) -> (r: Option<usize>)
        ensures
            r == (if dims.m * dims.n * 4 <= usize::MAX {
                Some((dims.m * dims.n * 4) as usize)
            } else {
                None
            }),
    {
        checked_product(dims.m.checked_mul(dims.n), 4)
    }

    /// The arguments of the product of these matrices. Sizes are cut to 32 bits.
    pub open spec fn call(self, dims: MatmulDims, ptrs: OperandPtrs, set_stream: bool) -> SgemmCall {
        SgemmCall {
            a_layout: self.a_layout,
            b_layout: self.b_layout,
            m: dims.m as i32,
            n: dims.n as i32,
            k: dims.k as i32,
            lda: dims.lda as i32,
            ldb: dims.ldb as i32,
            ldc: dims.ldc as i32,
            ptrs,
            set_stream,
        }
    }

    /// The arguments of the product of these matrices.
    fn make_call(&self, dims: MatmulDims, ptrs: OperandPtrs, set_stream: bool) -> (r: SgemmCall)
        ensures
            r == self.call(dims, ptrs, set_stream),
    {
        SgemmCall {
            a_layout: self.a_layout,
            b_layout: self.b_layout,
            m: #[verifier::truncate] (dims.m as i32),
            n: #[verifier::truncate] (dims.n as i32),
            k: #[verifier::truncate] (dims.k as i32),
            lda: #[verifier::truncate] (dims.lda as i32),
            ldb: #[verifier::truncate] (dims.ldb as i32),
            ldc: #[verifier::truncate] (dims.ldc as i32),
            ptrs,
            set_stream,
        }
    }

    /// The arguments of the product of the first two inputs, all of which have buffers.
    pub fn run_with_handle(
        &self,
        dims: MatmulDims,
        self_node: usize,
        inputs: &Vec<usize>,
        buffers: &HashMap<usize, u64>,
        set_stream: bool,
    ) -> (r: SgemmCall)
        requires
            inputs@.len() >= 2,
            missing_operand(self_node, inputs@, buffers@) is None,
        ensures
            r == self.call(dims, operand_ptrs(self_node, inputs@, buffers@), set_stream),
    {
        self.make_call(dims, known_operands(self_node, inputs, buffers), set_stream)
    }

    /// The arguments of the product of the first two inputs; or the first matrix whose
    /// place is not known.
    pub fn run_with_handle_raw(
        &self,
        dims: MatmulDims,
        self_node: usize,
        inputs: &Vec<usize>,
        raw_buffers: &HashMap<usize, u64>,
        set_stream: bool,
    ) -> (r: Result<SgemmCall, Operand>)
        requires
            inputs@.len() >= 2,
        ensures
            r == match missing_operand(self_node, inputs@, raw_buffers@) {
                Some(operand) => Err(operand),
                None => Ok(
                    self.call(dims, operand_ptrs(self_node, inputs@, raw_buffers@), set_stream),
                ),
            },
    {
        match find_operands(self_node, inputs, raw_buffers) {
            Ok(ptrs) => Ok(self.make_call(dims, ptrs, set_stream)),
            Err(operand) => Err(operand),
        }
    }

    /// The product as it runs outside a capture, on a handle that all products share.
    pub fn execute(
        &self,
        dims: MatmulDims,
        self_node: usize,
        inputs: &Vec<usize>,
        buffers: &HashMap<usize, u64>,
    ) -> (r: SgemmCall)
        requires
            inputs@.len() >= 2,
            missing_operand(self_node, inputs@, buffers@) is None,
        ensures
            r == self.call(dims, operand_ptrs(self_node, inputs@, buffers@), true),
    {
        self.run_with_handle(dims, self_node, inputs, buffers, true)
    }

    /// There is a handle for captures.
    pub fn prepare_for_capture(&mut self)
        ensures
            *final(self) == (CuBlasSgemmV2 { capture_ready: true, ..*old(self) }),
    {
        self.capture_ready = true;
    }

    /// The product as it runs before a capture, on the capture's handle, which is there
    /// afterwards.
    pub fn warmup_for_capture(
        &mut self,
        dims: MatmulDims,
        self_node: usize,
        inputs: &Vec<usize>,
        buffers: &HashMap<usize, u64>,
    ) -> (r: SgemmCall)
        requires
            inputs@.len() >= 2,
            missing_operand(self_node, inputs@, buffers@) is None,
        ensures
            r == old(self).call(dims, operand_ptrs(self_node, inputs@, buffers@), true),
            *final(self) == (CuBlasSgemmV2 { capture_ready: true, ..*old(self) }),
    {
        self.capture_ready = true;
        self.run_with_handle(dims, self_node, inputs, buffers, true)
    }

    /// The product as it runs in a capture: on the capture's handle, whose stream stays.
    pub fn execute_for_capture(
        &self,
        dims: MatmulDims,
        self_node: usize,
        inputs: &Vec<usize>,
        buffers: &HashMap<usize, u64>,
    ) -> (r: Result<SgemmCall, SgemmError>)
        requires
            inputs@.len() >= 2,
            missing_operand(self_node, inputs@, buffers@) is None,
        ensures
            r == (if self.capture_ready {
                Ok(self.call(dims, operand_ptrs(self_node, inputs@, buffers@), false))
            } else {
                Err(SgemmError::NoHandle)
            }),
    {
        if !self.capture_ready {
            return Err(SgemmError::NoHandle);
        }
        Ok(self.run_with_handle(dims, self_node, inputs, buffers, false))
    }

    /// The product as it runs in a capture, from addresses.
    pub fn execute_for_capture_raw(
        &self,
        dims: MatmulDims,
        self_node: usize,
        inputs: &Vec<usize>,
        raw_buffers: &HashMap<usize, u64>,
    ) -> (r: Result<SgemmCall, SgemmError>)
        requires
            inputs@.len() >= 2,
        ensures
            r == (if !self.capture_ready {
                Err(SgemmError::NoHandle)
            } else {
                match missing_operand(self_node, inputs@, raw_buffers@) {
                    Some(operand) => Err(SgemmError::Missing(operand)),
                    None => Ok(
                        self.call(dims, operand_ptrs(self_node, inputs@, raw_buffers@), false),
                    ),
                }
            }),
    {
        if !self.capture_ready {
            return Err(SgemmError::NoHandle);
        }
        match self.run_with_handle_raw(dims, self_node, inputs, raw_buffers, false) {
            Ok(call) => Ok(call),
            Err(operand) => Err(SgemmError::Missing(operand)),
        }
    }
}

/// What a captured cuBLASLt product was made for.
#[derive(Debug, Clone, Copy, PartialEq, Eq, Structural)]
pub struct CapturedMatmulConfig {
    pub m: u64,
    pub n: u64,
    pub k: u64,
    pub a_layout: BlasOp,
    pub b_layout: BlasOp,
    pub lda: i64,
    pub ldb: i64,
    pub ldc: i64,
    pub dtype: DType,
}

/// The rows and columns of the three matrices as they are stored.
#[derive(Debug, Clone, Copy, PartialEq, Eq, Structural)]
pub struct MatrixLayouts {
    pub a_rows: u64,
    pub a_cols: u64,
    pub b_rows: u64,
    pub b_cols: u64,
    pub c_rows: u64,
    pub c_cols: u64,
}

/// What a cuBLASLt product is described by before an algorithm is looked for: the types,
/// how the operands enter, the stored matrices with their leading dimensions, and the
/// scratch memory.
#[derive(Debug, Clone, Copy, PartialEq, Eq, Structural)]
pub struct MatmulDescription {
    pub matrix_type: CudaDataType,
    pub compute_type: ComputeType,
    pub scale_type: CudaDataType,
    pub a_layout: BlasOp,
    pub b_layout: BlasOp,
    pub layouts: MatrixLayouts,
    pub lda: i64,
    pub ldb: i64,
    pub ldc: i64,
    pub workspace_bytes: usize,
}

impl CapturedMatmulConfig {
    /// The rows and columns of the matrices as they are stored: an operand that is
    /// transposed on the way is stored the other way round.
    pub open spec fn stored(self) -> MatrixLayouts {
        let (a_rows, a_cols) = if self.a_layout == BlasOp::N {
            (self.m, self.k)
        } else {
            (self.k, self.m)
        };
        let (b_rows, b_cols) = if self.b_layout == BlasOp::N {
            (self.k, self.n)
        } else {
            (self.n, self.k)
        };
        MatrixLayouts { a_rows, a_cols, b_rows, b_cols, c_rows: self.m, c_cols: self.n }
    }

    /// The description of the product.
    pub open spec fn description(self) -> MatmulDescription {
        let (matrix_type, compute_type, scale_type) = cuda_types(self.dtype)->0;
        MatmulDescription {
            matrix_type,
            compute_type,
            scale_type,
            a_layout: self.a_layout,
            b_layout: self.b_layout,
            layouts: self.stored(),
            lda: self.lda,
            ldb: self.ldb,
            ldc: self.ldc,
            workspace_bytes: CUBLASLT_WORKSPACE_SIZE,
        }
    }

    /// The description of a product of a supported type.
    pub fn describe(&self) -> (r: MatmulDescription)
        requires
            cuda_types(self.dtype) is Some,
        ensures
            r == self.description(),
    {
        let (matrix_type, compute_type, scale_type) = dtype_to_cuda_types(self.dtype).unwrap();
        MatmulDescription {
            matrix_type,
            compute_type,
            scale_type,
            a_layout: self.a_layout,
            b_layout: self.b_layout,
            layouts: self.layouts(),
            lda: self.lda,
            ldb: self.ldb,
            ldc: self.ldc,
            workspace_bytes: CUBLASLT_WORKSPACE_SIZE,
        }
    }

    /// The rows and columns of the matrices as they are stored.
    pub fn layouts(&self) -> (r: MatrixLayouts)
        ensures
            r == self.stored(),
    {
        let (a_rows, a_cols): (u64, u64) = if self.a_layout == BlasOp::N {
            (self.m, self.k)
        } else {
            (self.k, self.m)
        };
        let (b_rows, b_cols): (u64, u64) = if self.b_layout == BlasOp::N {
            (self.k, self.n)
        } else {
            (self.n, self.k)
        };
        MatrixLayouts { a_rows, a_cols, b_rows, b_cols, c_rows: self.m, c_cols: self.n }
    }
}

/// Whether a product can run: only where the library found a way of computing it.
pub fn algorithm_found(algorithms: i32) -> (r: bool)
    ensures
        r == (algorithms != 0),
{
    algorithms != 0
}

/// A product of cuBLASLt and its state for captures.
#[derive(Debug, Clone, Copy, PartialEq, Eq, Structural)]
pub struct CuBlasLt {
    pub a_layout: BlasOp,
    pub b_layout: BlasOp,
    pub dtype: DType,
    /// Whether there is a handle for captures.
    pub capture_handle: bool,
    /// Whether there is scratch memory for captures.
    pub capture_workspace: bool,
    /// What the captured product was made for, once there is one.
    pub captured: Option<CapturedMatmulConfig>,
}

/// Why a captured product cannot be run.
#[derive(Debug, Clone, Copy, PartialEq, Eq, Structural)]
pub enum CaptureError {
    /// There is no handle: the product was not prepared.
    NoHandle,
    /// There is no scratch memory: the product was not prepared.
    NoWorkspace,
    /// There is no captured product: the warmup was not run.
    NoState,
    /// The captured product was made for something else.
    ConfigMismatch,
}

impl CuBlasLt {
    /// A product that was not prepared for a capture.
    pub fn new(a_layout: BlasOp, b_layout: BlasOp, dtype: DType) -> (r: CuBlasLt)
        ensures
            r == (CuBlasLt {
                a_layout,
                b_layout,
                dtype,
                capture_handle: false,
                capture_workspace: false,
                captured: None,
            }),
    {
        CuBlasLt {
            a_layout,
            b_layout,
            dtype,
            capture_handle: false,
            capture_workspace: false,
            captured: None,
        }
    }

    /// The operation as a term: its name and its parameters.
    pub fn term(&self) -> (r: (&'static str, Vec<OpParam>))
        ensures
            r.0@ == "cublaslt"@,
            r.1@ == product_params().push(OpParam::Dty),
    {
        let params: Vec<OpParam> = vec![
            OpParam::Input,
            OpParam::Input,
            OpParam::Expr,
            OpParam::Expr,
            OpParam::Expr,
            OpParam::Str,
            OpParam::Str,
            OpParam::Expr,
            OpParam::Expr,
            OpParam::Expr,
            OpParam::Dty,
        ];
        assert(params@ =~= product_params().push(OpParam::Dty));
        ("cublaslt", params)
    }

    /// The operation that a term stands for, the numbers of its sizes, and the nodes that it
    /// reads; `None` where the arguments are not for a product.
    pub fn extract(args: &Vec<TermArg>) -> (r: Option<(CuBlasLt, MatmulDims, Vec<usize>)>)
        ensures
            r is Some <==> fills(args@, product_params().push(OpParam::Dty)) && layout_of(
                args@[5],
            ) is Some && layout_of(args@[6]) is Some,
            r matches Some((op, sizes, nodes)) ==> op == (CuBlasLt {
                a_layout: layout_of(args@[5])->0,
                b_layout: layout_of(args@[6])->0,
                dtype: args@[10]->Dty_0,
                capture_handle: false,
                capture_workspace: false,
                captured: None,
            }) && sizes == product_sizes(args@) && nodes@ == seq![
                args@[0].number(),
                args@[1].number(),
            ],
    {
        let params = CuBlasLt::new(BlasOp::N, BlasOp::N, DType::F32).term().1;
        if !fill(args, &params) {
            return None;
        }
        assert(params@.len() == 11);
        assert(args@[10].kind() == params@[10]);
        match (read_layout(&args[5]), read_layout(&args[6]), &args[10]) {
            (Some(a_layout), Some(b_layout), TermArg::Dty(dtype)) => {
                let nodes: Vec<usize> = vec![args[0].read_number(), args[1].read_number()];
                assert(nodes@ =~= seq![args@[0].number(), args@[1].number()]);
                Some((CuBlasLt::new(a_layout, b_layout, *dtype), read_sizes(args), nodes))
            },
            (_, _, _) => None,
        }
    }

    /// How many bytes the result takes; `None` where it is not settled for the type, or
    /// beyond the machine's sizes.
    pub fn output_bytes(&self, dims: MatmulDims) -> (r: Option<usize>)
        ensures
            r == (match element_bytes(self.dtype) {
                Some(size) => if dims.m * dims.n * size <= usize::MAX {
                    Some((dims.m * dims.n * size) as usize)
                } else {
                    None
                },
                None => None,
            }),
    {
        match output_element_size(self.dtype) {
            Some(size) => {
                proof {
                    let e = dims.m * dims.n;
                    let z = size as int;
                    assert(e * z >= e) by (nonlinear_arith)
                        requires
                            e >= 0,
                            z >= 1,
                    ;
                }
                checked_product(dims.m.checked_mul(dims.n), size)
            },
            None => None,
        }
    }

    /// The operation's name in statistics.
    pub fn stats_name(&self) -> (r: &'static str)
        ensures
            r@ == "cuBLASLt"@,
    {
        "cuBLASLt"
    }

    /// What a product of these sizes is captured for. Leading dimensions beyond the
    /// signed range are cut to 64 bits.
    pub open spec fn config(self, dims: MatmulDims) -> CapturedMatmulConfig {
        CapturedMatmulConfig {
            m: dims.m as u64,
            n: dims.n as u64,
            k: dims.k as u64,
            a_layout: self.a_layout,
            b_layout: self.b_layout,
            lda: dims.lda as i64,
            ldb: dims.ldb as i64,
            ldc: dims.ldc as i64,
            dtype: self.dtype,
        }
    }

    /// What a product of these sizes is captured for.
    pub fn build_capture_config(&self, dims: MatmulDims) -> (r: CapturedMatmulConfig)
        ensures
            r == self.config(dims),
    {
        CapturedMatmulConfig {
            m: dims.m as u64,
            n: dims.n as u64,
            k: dims.k as u64,
            a_layout: self.a_layout,
            b_layout: self.b_layout,
            lda: #[verifier::truncate] (dims.lda as i64),
            ldb: #[verifier::truncate] (dims.ldb as i64),
            ldc: #[verifier::truncate] (dims.ldc as i64),
            dtype: self.dtype,
        }
    }

    /// Whether the captured product can be run for sizes that come to `config`, and if
    /// not, why.
    pub open spec fn capture_check(self, config: CapturedMatmulConfig) -> Result<
        (),
        CaptureError,
    > {
        if !self.capture_handle {
            Err(CaptureError::NoHandle)
        } else if !self.capture_workspace {
            Err(CaptureError::NoWorkspace)
        } else if self.captured is None {
            Err(CaptureError::NoState)
        } else if self.captured != Some(config) {
            Err(CaptureError::ConfigMismatch)
        } else {
            Ok(())
        }
    }

    /// The product with handle and scratch memory.
    pub open spec fn prepared(self) -> CuBlasLt {
        CuBlasLt { capture_handle: true, capture_workspace: true, ..self }
    }

    /// The product set up for `config`.
    pub open spec fn set_up(self, config: CapturedMatmulConfig) -> CuBlasLt {
        CuBlasLt { captured: Some(config), ..self }
    }

    /// Handle and scratch memory for captures are there.
    pub fn prepare_for_capture(&mut self)
        ensures
            *final(self) == old(self).prepared(),
    {
        self.capture_handle = true;
        self.capture_workspace = true;
    }

    /// The product as it runs outside a capture: its description and where its matrices
    /// are. Its type is one that can be multiplied.
    pub fn execute(
        &self,
        dims: MatmulDims,
        self_node: usize,
        inputs: &Vec<usize>,
        buffers: &HashMap<usize, u64>,
    ) -> (r: (MatmulDescription, OperandPtrs))
        requires
            cuda_types(self.dtype) is Some,
            inputs@.len() >= 2,
            missing_operand(self_node, inputs@, buffers@) is None,
        ensures
            r.0 == self.config(dims).description(),
            r.1 == operand_ptrs(self_node, inputs@, buffers@),
    {
        let config = self.build_capture_config(dims);
        (config.describe(), known_operands(self_node, inputs, buffers))
    }

    /// What has to be described to the library before a capture: nothing where the
    /// product was already set up for the same sizes.
    pub fn ensure_capture_state(&self, config: CapturedMatmulConfig) -> (r: Option<
        MatmulDescription,
    >)
        requires
            cuda_types(config.dtype) is Some,
        ensures
            r == (if self.captured == Some(config) {
                None
            } else {
                Some(config.description())
            }),
    {
        match self.captured {
            Some(existing) => {
                if existing == config {
                    return None;
                }
            },
            None => {},
        }
        Some(config.describe())
    }

    /// The product as it runs before a capture, on the capture's handle, which is there
    /// afterwards: what it is set up for, what is described to the library for that, and
    /// where the matrices are.
    pub fn warmup_for_capture(
        &mut self,
        dims: MatmulDims,
        self_node: usize,
        inputs: &Vec<usize>,
        buffers: &HashMap<usize, u64>,
    ) -> (r: (CapturedMatmulConfig, Option<MatmulDescription>, OperandPtrs))
        requires
            cuda_types(old(self).dtype) is Some,
            inputs@.len() >= 2,
            missing_operand(self_node, inputs@, buffers@) is None,
        ensures
            r.0 == old(self).config(dims),
            r.1 == (if old(self).captured == Some(r.0) {
                None
            } else {
                Some(r.0.description())
            }),
            r.2 == operand_ptrs(self_node, inputs@, buffers@),
            *final(self) == (CuBlasLt { capture_handle: true, ..*old(self) }),
    {
        let config = self.build_capture_config(dims);
        let ptrs = known_operands(self_node, inputs, buffers);
        self.capture_handle = true;
        (config, self.ensure_capture_state(config), ptrs)
    }

    /// The product was set up; `algorithms` is how many ways of computing it the
    /// library found. Without one nothing changes.
    pub fn capture_state_built(&mut self, config: CapturedMatmulConfig, algorithms: i32) -> (ok: bool)
        ensures
            ok == (algorithms != 0),
            *final(self) == if ok {
                old(self).set_up(config)
            } else {
                *old(self)
            },
    {
        if !algorithm_found(algorithms) {
            return false;
        }
        self.captured = Some(config);
        true
    }

    /// The captured product for these sizes: where its matrices are, or why it cannot
    /// be run.
    pub fn execute_for_capture(
        &self,
        dims: MatmulDims,
        self_node: usize,
        inputs: &Vec<usize>,
        buffers: &HashMap<usize, u64>,
    ) -> (r: Result<OperandPtrs, CaptureError>)
        requires
            inputs@.len() >= 2,
            missing_operand(self_node, inputs@, buffers@) is None,
        ensures
            r == match self.capture_check(self.config(dims)) {
                Err(why) => Err(why),
                Ok(_) => Ok(operand_ptrs(self_node, inputs@, buffers@)),
            },
    {
        let config = self.build_capture_config(dims);
        if !self.capture_handle {
            return Err(CaptureError::NoHandle);
        }
        let ptrs = known_operands(self_node, inputs, buffers);
        if !self.capture_workspace {
            return Err(CaptureError::NoWorkspace);
        }
        match self.captured {
            None => Err(CaptureError::NoState),
            Some(existing) => {
                if existing != config {
                    Err(CaptureError::ConfigMismatch)
                } else {
                    Ok(ptrs)
                }
            },
        }
    }
}

/// A product that was prepared and set up for some sizes can be run for them, and for
/// no others.
pub proof fn law_captured_product_runs_for_its_config(
    op: CuBlasLt,
    config: CapturedMatmulConfig,
    other: CapturedMatmulConfig,
)
    ensures
        op.prepared().set_up(config).capture_check(other) == (if other == config {
            Ok::<(), CaptureError>(())
        } else {
            Err::<(), CaptureError>(CaptureError::ConfigMismatch)
        }),
{
}

/// Once each operand has entered by its layout, with rows and columns exchanged unless it
/// enters as it is, the first is `m` by `k` and the second `k` by `n`, so that their inner
/// sizes agree; and the result is `m` by `n`. Layouts and leading dimensions are those asked
/// for, as far as the library can take them.
pub proof fn law_operands_go_together(op: CuBlasLt, dims: MatmulDims)
    requires
        cuda_types(op.dtype) is Some,
    ensures
        ({
            let d = op.config(dims).description();
            let l = d.layouts;
            &&& op.a_layout == BlasOp::N ==> l.a_rows == dims.m && l.a_cols == dims.k
            &&& op.a_layout != BlasOp::N ==> l.a_cols == dims.m && l.a_rows == dims.k
            &&& op.b_layout == BlasOp::N ==> l.b_rows == dims.k && l.b_cols == dims.n
            &&& op.b_layout != BlasOp::N ==> l.b_cols == dims.k && l.b_rows == dims.n
            &&& l.c_rows == dims.m && l.c_cols == dims.n
            &&& d.a_layout == op.a_layout && d.b_layout == op.b_layout
            &&& dims.lda <= i64::MAX ==> d.lda == dims.lda
            &&& dims.ldb <= i64::MAX ==> d.ldb == dims.ldb
            &&& dims.ldc <= i64::MAX ==> d.ldc == dims.ldc
        }),
{
}

/// How an operand is stored depends on its own layout alone, and another layout of one
/// exchanges its rows and columns or leaves them; the other operand and the result stay.
pub proof fn law_stored_shapes_are_independent(
    op: CuBlasLt,
    a_layout: BlasOp,
    b_layout: BlasOp,
    dims: MatmulDims,
)
    ensures
        ({
            let l = op.config(dims).stored();
            let a = (CuBlasLt { a_layout, ..op }).config(dims).stored();
            let b = (CuBlasLt { b_layout, ..op }).config(dims).stored();
            &&& (a.b_rows, a.b_cols, a.c_rows, a.c_cols) == (l.b_rows, l.b_cols, l.c_rows, l.c_cols)
            &&& (b.a_rows, b.a_cols, b.c_rows, b.c_cols) == (l.a_rows, l.a_cols, l.c_rows, l.c_cols)
            &&& (a_layout is N == op.a_layout is N) ==> (a.a_rows, a.a_cols) == (l.a_rows, l.a_cols)
            &&& (a_layout is N != op.a_layout is N) ==> (a.a_rows, a.a_cols) == (l.a_cols, l.a_rows)
            &&& (b_layout is N == op.b_layout is N) ==> (b.b_rows, b.b_cols) == (l.b_rows, l.b_cols)
            &&& (b_layout is N != op.b_layout is N) ==> (b.b_rows, b.b_cols) == (l.b_cols, l.b_rows)
        }),
{
}

/// The product of the transposed matrices in the other order is the transposed product: with
/// `m` and `n` exchanged and each operand the other one transposed, the stored matrices are
/// the same with their places exchanged.
pub proof fn law_transposed_product(op: CuBlasLt, dims: MatmulDims)
    requires
        op.a_layout is N || op.a_layout is T,
        op.b_layout is N || op.b_layout is T,
    ensures
        ({
            let l = op.config(dims).stored();
            let other = CuBlasLt {
                a_layout: if op.b_layout is N {
                    BlasOp::T
                } else {
                    BlasOp::N
                },
                b_layout: if op.a_layout is N {
                    BlasOp::T
                } else {
                    BlasOp::N
                },
                ..op
            };
            let t = other.config(MatmulDims { m: dims.n, n: dims.m, ..dims }).stored();
            &&& (t.a_rows, t.a_cols) == (l.b_rows, l.b_cols)
            &&& (t.b_rows, t.b_cols) == (l.a_rows, l.a_cols)
            &&& (t.c_rows, t.c_cols) == (l.c_cols, l.c_rows)
        }),
{
}

/// Elements of a product are as wide as those of the result's buffer, sums are kept in single
/// precision, and the types that cannot be multiplied are whole numbers, truth values and
/// 4-bit numbers.
pub proof fn law_types_of_a_product(op: CuBlasLt, dims: MatmulDims)
    ensures
        cuda_types(op.dtype) is Some <==> op.dtype is F32 || op.dtype is F16 || op.dtype is Bf16,
        cuda_types(op.dtype) is Some ==> ({
            let d = op.config(dims).description();
            &&& d.matrix_type is R32F <==> op.dtype is F32
            &&& d.matrix_type is R16F <==> op.dtype is F16
            &&& d.matrix_type is R16BF <==> op.dtype is Bf16
            &&& d.scale_type is R32F
            &&& d.compute_type is Compute32FFast16BF <==> op.dtype is Bf16
            &&& d.workspace_bytes == 32 * 1024 * 1024
            &&& element_bytes(op.dtype) == Some(
                if d.matrix_type is R32F {
                    4usize
                } else {
                    2usize
                },
            )
        }),
        element_bytes(op.dtype) is None <==> op.dtype is NvFp4 || op.dtype is Mxfp4,
        op.dtype is Int ==> element_bytes(op.dtype) == Some(4usize),
        op.dtype is Bool ==> element_bytes(op.dtype) == Some(1usize),
{
}

/// A product reads its first input as the first operand and its second as the second, and
/// writes to its own buffer; each matters for its own place alone.
pub proof fn law_operands_in_order(
    self_node: usize,
    inputs: Seq<usize>,
    buffers: Map<usize, u64>,
    moved: Map<usize, u64>,
)
    requires
        inputs.len() >= 2,
        buffers.contains_key(inputs[0]) && buffers.contains_key(inputs[1]) && buffers.contains_key(
            self_node,
        ),
        moved.contains_key(inputs[0]) && moved.contains_key(inputs[1]) && moved.contains_key(
            self_node,
        ),
    ensures
        missing_operand(self_node, inputs, buffers) is None,
        ({
            let (p, q) = (
                operand_ptrs(self_node, inputs, buffers),
                operand_ptrs(self_node, inputs, moved),
            );
            &&& p.a_ptr == q.a_ptr <==> buffers[inputs[0]] == moved[inputs[0]]
            &&& p.b_ptr == q.b_ptr <==> buffers[inputs[1]] == moved[inputs[1]]
            &&& p.c_ptr == q.c_ptr <==> buffers[self_node] == moved[self_node]
            &&& p.a_ptr == buffers[inputs[0]] && p.b_ptr == buffers[inputs[1]] && p.c_ptr
                == buffers[self_node]
        }),
        missing_operand(self_node, inputs, buffers.remove(inputs[0])) == Some(Operand::A),
        inputs[1] != inputs[0] ==> missing_operand(self_node, inputs, buffers.remove(inputs[1]))
            == Some(Operand::B),
        self_node != inputs[0] && self_node != inputs[1] ==> missing_operand(
            self_node,
            inputs,
            buffers.remove(self_node),
        ) == Some(Operand::C),
{
}

/// Sizes that fit in 32 bits reach the single-precision product as they are, with the layouts
/// asked for.
pub proof fn law_small_sizes_are_kept(
    op: CuBlasSgemmV2,
    dims: MatmulDims,
    ptrs: OperandPtrs,
    set_stream: bool,
)
    requires
        dims.m <= i32::MAX && dims.n <= i32::MAX && dims.k <= i32::MAX,
        dims.lda <= i32::MAX && dims.ldb <= i32::MAX && dims.ldc <= i32::MAX,
    ensures
        ({
            let c = op.call(dims, ptrs, set_stream);
            &&& (c.m as int, c.n as int, c.k as int) == (dims.m as int, dims.n as int, dims.k as int)
            &&& c.lda == dims.lda && c.ldb == dims.ldb && c.ldc == dims.ldc
            &&& c.a_layout == op.a_layout && c.b_layout == op.b_layout
            &&& c.ptrs == ptrs && c.set_stream == set_stream
        }),
{
}

/// A product that is written as a term is read back from it.
pub proof fn law_product_is_read_back(
    args: Seq<TermArg>,
    a: usize,
    b: usize,
    dims: MatmulDims,
    a_layout: String,
    b_layout: String,
)
    requires
        args == seq![
            TermArg::Input(a),
            TermArg::Input(b),
            TermArg::Expr(dims.m),
            TermArg::Expr(dims.n),
            TermArg::Expr(dims.k),
            TermArg::Str(a_layout),
            TermArg::Str(b_layout),
            TermArg::Expr(dims.lda),
            TermArg::Expr(dims.ldb),
            TermArg::Expr(dims.ldc),
        ],
    ensures
        fills(args, product_params()),
        product_sizes(args) == dims,
        args[0].number() == a && args[1].number() == b,
        a_layout@ == seq!['N'] ==> layout_of(args[5]) == Some(BlasOp::N),
        a_layout@ == seq!['T'] ==> layout_of(args[5]) == Some(BlasOp::T),
        a_layout@ == seq!['C'] ==> layout_of(args[5]) == Some(BlasOp::C),
        b_layout@ == seq!['N'] ==> layout_of(args[6]) == Some(BlasOp::N),
        b_layout@ == seq!['T'] ==> layout_of(args[6]) == Some(BlasOp::T),
        b_layout@ == seq!['C'] ==> layout_of(args[6]) == Some(BlasOp::C),
{
    let params = product_params();
    assert(params.len() == 10);
    assert forall|i: int| 0 <= i < args.len() implies (#[trigger] args[i]).kind() == params[i] by {}
    lemma_one_letter('N');
    lemma_one_letter('T');
    lemma_one_letter('C');
}

proof fn lemma_one_letter(c: char)
    requires
        c != '"',
    ensures
        without_trailing_quotes(without_leading_quotes(seq![c])) == seq![c],
        seq![c][0] == c,
{
    assert(seq![c].last() == c);
}

/// Quotes around a name do not matter.
pub proof fn law_quotes_do_not_matter(s: Seq<char>)
    ensures
        s.len() > 0 ==> blas_op_of(seq!['"'] + s) == blas_op_of(s),
        s.len() > 0 ==> blas_op_of(s.push('"')) == blas_op_of(s),
{
    if s.len() > 0 {
        let front = seq!['"'] + s;
        assert(front.drop_first() =~= s);
        lemma_leading_of_push(s);
        let back = s.push('"');
        assert(back.drop_last() =~= s);
    }
}

proof fn lemma_leading_of_push(s: Seq<char>)
    ensures
        without_trailing_quotes(without_leading_quotes(s.push('"'))) == without_trailing_quotes(
            without_leading_quotes(s),
        ),
    decreases s.len(),
{
    let t = s.push('"');
    if s.len() == 0 {
        assert(t.drop_first() =~= s);
    } else if s[0] == '"' {
        assert(t.drop_first() =~= s.drop_first().push('"'));
        lemma_leading_of_push(s.drop_first());
    } else {
        assert(t[0] == s[0]);
        assert(t.drop_last() =~= s);
    }
}

} // verus!
