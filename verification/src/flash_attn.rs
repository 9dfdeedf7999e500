//! Attention in one kernel.

use crate::matmul::DType;
use crate::op_term::{checked_product, fill, OpParam, TermArg};
#[allow(unused_imports)]
use crate::op_term::{fills, inputs, sizes};
use crate::report::append_decimal;
#[allow(unused_imports)]
use crate::report::decimal_text;
use crate::text::chars_of;
#[allow(unused_imports)]
use crate::text::is_white_space;
use std::collections::HashMap;
use vstd::prelude::*;

verus! {

broadcast use vstd::std_specs::hash::group_hash_axioms;

/// What restricts the attention.
#[derive(Debug, Clone, Copy, PartialEq, Eq, Structural)]
pub enum FlashAttentionMode {
    /// A mask that is given.
    Masked,
    /// No position sees a later one.
    Causal,
}

impl FlashAttentionMode {
    /// What the names of the mode's kernels begin with.
    pub open spec fn stem(self) -> Seq<char> {
        match self {
            FlashAttentionMode::Masked => "flash_attn_masked"@,
            FlashAttentionMode::Causal => "flash_attn_causal"@,
        }
    }

    /// What the names of the mode's kernels begin with.
    pub fn kernel_stem(self) -> (r: &'static str)
        ensures
            r@ == self.stem(),
    {
        match self {
            FlashAttentionMode::Masked => "flash_attn_masked",
            FlashAttentionMode::Causal => "flash_attn_causal",
        }
    }

    /// The mode's name as a term.
    pub open spec fn term_text(self) -> Seq<char> {
        match self {
            FlashAttentionMode::Masked => "flash_attention_masked"@,
            FlashAttentionMode::Causal => "flash_attention_causal"@,
        }
    }

    /// How many tensors the mode takes: queries, keys and values, and a mask where there
    /// is one.
    pub open spec fn inputs_taken(self) -> nat {
        match self {
            FlashAttentionMode::Masked => 4,
            FlashAttentionMode::Causal => 3,
        }
    }

    /// How many tensors the mode takes, which is also where the sizes begin among the
    /// parameters of its term.
    pub fn input_count(self) -> (r: usize)
        ensures
            r == self.inputs_taken(),
    {
        match self {
            FlashAttentionMode::Masked => 4,
            FlashAttentionMode::Causal => 3,
        }
    }

    /// The mode as a term: its name and its parameters, which are tensors, five sizes and
    /// a type.
    pub fn term(self) -> (r: (&'static str, Vec<OpParam>))
        ensures
            r.0@ == self.term_text(),
            r.1@ == (inputs(self.inputs_taken()) + sizes(5)).push(OpParam::Dty),
    {
        let mut params: Vec<OpParam> = Vec::new();
        let n: usize = self.input_count();
        let mut i: usize = 0;
        while i < n
            invariant
                i <= n,
                params@ == inputs(i as nat),
            decreases n - i,
        {
            params.push(OpParam::Input);
            assert(params@ =~= inputs((i + 1) as nat));
            i = i + 1;
        }
        let mut k: usize = 0;
        assert(params@ =~= inputs(n as nat) + sizes(0));
        while k < 5
            invariant
                k <= 5,
                params@ == inputs(n as nat) + sizes(k as nat),
            decreases 5 - k,
        {
            params.push(OpParam::Expr);
            assert(params@ =~= inputs(n as nat) + sizes((k + 1) as nat));
            k = k + 1;
        }
        params.push(OpParam::Dty);
        (self.term_name(), params)
    }

    /// The mode's name as a term.
    pub fn term_name(self) -> (r: &'static str)
        ensures
            r@ == self.term_text(),
    {
        match self {
            FlashAttentionMode::Masked => "flash_attention_masked",
            FlashAttentionMode::Causal => "flash_attention_causal",
        }
    }
}

/// What a kernel was loaded for: the device's architecture, the size of a head, and the
/// mode.
#[derive(Debug, Clone, Copy, PartialEq, Eq, Structural)]
pub struct LoadedConfig {
    pub sm: i32,
    pub head_dim: usize,
    pub mode: FlashAttentionMode,
}

/// An attention operation and what it has loaded.
#[derive(Debug, Clone, Copy, PartialEq, Eq, Structural)]
pub struct FlashAttentionOp {
    pub mode: FlashAttentionMode,
    pub dtype: DType,
    /// What the module was loaded for, once it is.
    pub loaded_config: Option<LoadedConfig>,
    /// Whether the kernel was found in the module.
    pub function_loaded: bool,
}

/// A size of the attention.
#[derive(Debug, Clone, Copy, PartialEq, Eq, Structural)]
pub enum AttentionDim {
    Batch,
    Heads,
    SeqQ,
    SeqK,
    HeadDim,
}

/// The sizes of the attention, as far as they could be told.
#[derive(Debug, Clone, Copy, PartialEq, Eq, Structural)]
pub struct AttentionDims {
    pub batch: Option<usize>,
    pub heads: Option<usize>,
    pub seq_q: Option<usize>,
    pub seq_k: Option<usize>,
    pub head_dim: Option<usize>,
}

/// The numbers of an attention's sizes in a list of sizes.
#[derive(Debug, Clone, Copy, PartialEq, Eq, Structural)]
pub struct AttentionSizes {
    pub batch: usize,
    pub heads: usize,
    pub seq_q: usize,
    pub seq_k: usize,
    pub head_dim: usize,
}

/// The numbers of an attention's sizes among the arguments of its term, from the `n`-th on.
pub open spec fn attention_sizes(args: Seq<TermArg>, n: int) -> AttentionSizes {
    AttentionSizes {
        batch: args[n].number(),
        heads: args[n + 1].number(),
        seq_q: args[n + 2].number(),
        seq_k: args[n + 3].number(),
        head_dim: args[n + 4].number(),
    }
}

/// A buffer of the attention.
#[derive(Debug, Clone, Copy, PartialEq, Eq, Structural)]
pub enum AttentionBuffer {
    Q,
    K,
    V,
    Out,
    Mask,
}

/// Where the buffers of the attention are.
#[derive(Debug, Clone, Copy, PartialEq, Eq, Structural)]
pub struct AttentionPtrs {
    pub q: u64,
    pub k: u64,
    pub v: u64,
    /// The null pointer where there is no mask.
    pub mask: u64,
    pub out: u64,
}

/// Why the attention cannot be launched.
#[derive(Debug, Clone, Copy, PartialEq, Eq, Structural)]
pub enum FlashAttentionError {
    /// The elements are not single-precision numbers.
    UnsupportedType(DType),
    /// A size could not be told.
    Unresolved(AttentionDim),
    /// There is no mask to go by.
    NoMask,
    /// Heads of this size are not supported.
    UnsupportedHeadDim(usize),
    /// The kernel was loaded for something else.
    LoadedForOther(LoadedConfig),
}

/// The launch of an attention kernel.
#[derive(Debug, Clone, Copy, PartialEq, Eq, Structural)]
pub struct AttentionLaunch {
    pub grid_x: u32,
    pub grid_y: u32,
    pub grid_z: u32,
    pub block_x: u32,
    pub batch: i32,
    pub heads: i32,
    pub seq_q: i32,
    pub seq_k: i32,
    pub head_dim: i32,
}

/// What to load before a kernel can be launched.
#[derive(Debug, Clone, Copy, PartialEq, Eq, Structural)]
pub struct LoadSteps {
    /// The module must be read.
    pub module: bool,
    /// The kernel must be looked up.
    pub function: bool,
}

/// How many queries one block of threads handles.
pub const BLOCK_M: usize = 64;

/// A number with its sign.
pub open spec fn signed_text(n: int) -> Seq<char> {
    if n < 0 {
        "-"@ + decimal_text((-n) as nat)
    } else {
        decimal_text(n as nat)
    }
}

/// The name of a kernel file.
pub open spec fn filename_text(stem: Seq<char>, head_dim: nat, sm: int) -> Seq<char> {
    stem + "_h"@ + decimal_text(head_dim) + "_sm"@ + signed_text(sm) + ".cubin"@
}

/// `t` is `s` without white space at its ends.
pub open spec fn is_trimmed(s: Seq<char>, t: Seq<char>) -> bool {
    exists|a: int, b: int|
        0 <= a <= b <= s.len() && t == #[trigger] s.subrange(a, b) && (forall|i: int|
            0 <= i < a ==> is_white_space(#[trigger] s[i])) && (forall|i: int|
            b <= i < s.len() ==> is_white_space(#[trigger] s[i])) && (a < b ==> !is_white_space(
            s[a],
        ) && !is_white_space(s[b - 1]))
}

/// The name of a kernel in its module: what the accompanying text says, without white
/// space around it, or else the usual name.
pub open spec fn is_entry_name(contents: Option<&str>, name: Seq<char>) -> bool {
    match contents {
        Some(c) => if is_trimmed(c@, Seq::empty()) {
            name == "flash_attn_fwd"@
        } else {
            is_trimmed(c@, name)
        },
        None => name == "flash_attn_fwd"@,
    }
}

/// The blocks of queries that it takes.
pub open spec fn query_blocks(seq_q: int) -> int {
    (seq_q + BLOCK_M - 1) / (BLOCK_M as int)
}

fn append_signed(s: &mut String, n: i32)
    ensures
        final(s)@ == old(s)@ + signed_text(n as int),
{
    if n < 0 {
        s.append("-");
        let m: u64 = (-(n as i64)) as u64;
        append_decimal(s, m as usize);
        assert(s@ =~= old(s)@ + signed_text(n as int));
    } else {
        append_decimal(s, n as usize);
    }
}

/// The name of a kernel in its module, given the text that accompanies the module, if
/// there is one.
pub fn kernel_entry_name(contents: Option<&str>) -> (r: String)
    ensures
        is_entry_name(contents, r@),
{
    if let Some(c) = contents {
        let v = chars_of(c);
        let mut a: usize = 0;
        while a < v.len() && v[a].is_whitespace()
            invariant
                v@ == c@,
                a <= v@.len(),
                forall|i: int| 0 <= i < a ==> is_white_space(#[trigger] v@[i]),
            decreases v@.len() - a,
        {
            a = a + 1;
        }
        if a < v.len() {
            let mut b: usize = v.len();
            while b > a && v[b - 1].is_whitespace()
                invariant
                    v@ == c@,
                    a < v@.len(),
                    !is_white_space(v@[a as int]),
                    a < b <= v@.len(),
                    forall|i: int| b <= i < v@.len() ==> is_white_space(#[trigger] v@[i]),
                decreases b,
            {
                b = b - 1;
            }
            let t = c.substring_char(a, b);
            proof {
                assert(is_trimmed(c@, t@));
                if is_trimmed(c@, Seq::empty()) {
                    let (x, y) = choose|x: int, y: int|
                        0 <= x <= y <= c@.len() && Seq::<char>::empty() == #[trigger] c@.subrange(
                            x,
                            y,
                        ) && (forall|i: int| 0 <= i < x ==> is_white_space(#[trigger] c@[i])) && (
                        forall|i: int|
                            y <= i < c@.len() ==> is_white_space(#[trigger] c@[i])) && (x < y
                            ==> !is_white_space(c@[x]) && !is_white_space(c@[y - 1]));
                    assert(c@.subrange(x, y).len() == y - x);
                    assert(x == y);
                    if a < x {
                        assert(is_white_space(c@[a as int]));
                    } else {
                        assert(is_white_space(c@[a as int]));
                    }
                    assert(false);
                }
            }
            return t.to_owned();
        }
        proof {
            assert(c@.subrange(c@.len() as int, c@.len() as int) =~= Seq::empty());
            assert(is_trimmed(c@, Seq::empty()));
        }
    }
    "flash_attn_fwd".to_owned()
}

impl FlashAttentionOp {
    /// An operation that has loaded nothing.
    pub fn new(mode: FlashAttentionMode, dtype: DType) -> (r: FlashAttentionOp)
        ensures
            r == (FlashAttentionOp { mode, dtype, loaded_config: None, function_loaded: false }),
    {
        FlashAttentionOp { mode, dtype, loaded_config: None, function_loaded: false }
    }

    /// The operation that a term of this mode stands for, the numbers of its sizes, and the
    /// nodes that it reads; `None` where the arguments are not for an attention.
    pub fn extract(mode: FlashAttentionMode, args: &Vec<TermArg>) -> (r: Option<
        (FlashAttentionOp, AttentionSizes, Vec<usize>),
    >)
        ensures
            r is Some <==> fills(args@, (inputs(mode.inputs_taken()) + sizes(5)).push(OpParam::Dty)),
            r matches Some((op, sizes, nodes)) ==> op == (FlashAttentionOp {
                mode,
                dtype: args@[mode.inputs_taken() as int + 5]->Dty_0,
                loaded_config: None,
                function_loaded: false,
            }) && sizes == attention_sizes(args@, mode.inputs_taken() as int) && nodes@
                == args@.take(mode.inputs_taken() as int).map_values(|a: TermArg| a.number()),
    {
        let n: usize = mode.input_count();
        let params = mode.term().1;
        if !fill(args, &params) {
            return None;
        }
        let ghost nodes_read = args@.take(n as int).map_values(|a: TermArg| a.number());
        proof {
            assert(params@.len() == n + 6);
            assert(args@[n + 5].kind() == params@[n + 5]);
        }
        let mut nodes: Vec<usize> = Vec::new();
        while nodes.len() < n
            invariant
                nodes@.len() <= n <= args@.len(),
                nodes_read == args@.take(n as int).map_values(|a: TermArg| a.number()),
                nodes@ == nodes_read.take(nodes@.len() as int),
            decreases n - nodes@.len(),
        {
            let ghost k = nodes@.len() as int;
            nodes.push(args[nodes.len()].read_number());
            assert(nodes@ =~= nodes_read.take(k + 1));
        }
        assert(nodes@ =~= nodes_read);
        match &args[n + 5] {
            TermArg::Dty(dtype) => {
                let sizes = AttentionSizes {
                    batch: args[n].read_number(),
                    heads: args[n + 1].read_number(),
                    seq_q: args[n + 2].read_number(),
                    seq_k: args[n + 3].read_number(),
                    head_dim: args[n + 4].read_number(),
                };
                Some((FlashAttentionOp::new(mode, *dtype), sizes, nodes))
            },
            _ => None,
        }
    }

    /// The operation's name in statistics.
    pub fn stats_name(&self) -> (r: &'static str)
        ensures
            r@ == "FlashAttn2"@,
    {
        "FlashAttn2"
    }

    /// The name of the kernel file for an architecture and a size of heads.
    pub fn kernel_filename(&self, sm: i32, head_dim: usize) -> (r: String)
        ensures
            r@ == filename_text(self.mode.stem(), head_dim as nat, sm as int),
    {
        let mut s = self.mode.kernel_stem().to_owned();
        s.append("_h");
        append_decimal(&mut s, head_dim);
        s.append("_sm");
        append_signed(&mut s, sm);
        s.append(".cubin");
        s
    }

    /// What to load for heads of this size on this architecture, or why the operation
    /// cannot serve them.
    pub open spec fn load_result(self, sm: i32, head_dim: usize) -> Result<
        LoadSteps,
        FlashAttentionError,
    > {
        let wanted = LoadedConfig { sm, head_dim, mode: self.mode };
        if head_dim != 64 && head_dim != 128 {
            Err(FlashAttentionError::UnsupportedHeadDim(head_dim))
        } else if self.loaded_config is Some && self.loaded_config != Some(wanted) {
            Err(FlashAttentionError::LoadedForOther(self.loaded_config->0))
        } else {
            Ok(
                LoadSteps {
                    module: self.loaded_config is None,
                    function: !self.function_loaded,
                },
            )
        }
    }

    /// The operation once the module for heads of this size is loaded.
    pub open spec fn with_module(self, sm: i32, head_dim: usize) -> FlashAttentionOp {
        FlashAttentionOp {
            loaded_config: Some(LoadedConfig { sm, head_dim, mode: self.mode }),
            ..self
        }
    }

    /// The operation once the kernel is found in its module.
    pub open spec fn with_kernel(self) -> FlashAttentionOp {
        FlashAttentionOp { function_loaded: true, ..self }
    }

    /// Only heads of some sizes are served.
    pub fn check_head_dim(head_dim: usize) -> (r: Result<(), FlashAttentionError>)
        ensures
            r == (if head_dim == 64 || head_dim == 128 {
                Ok(())
            } else {
                Err(FlashAttentionError::UnsupportedHeadDim(head_dim))
            }),
    {
        if head_dim == 64 || head_dim == 128 {
            Ok(())
        } else {
            Err(FlashAttentionError::UnsupportedHeadDim(head_dim))
        }
    }

    /// What to load for heads of this size on this architecture. One operation serves
    /// one size and one architecture.
    pub fn ensure_kernel_loaded(&self, sm: i32, head_dim: usize) -> (r: Result<
        LoadSteps,
        FlashAttentionError,
    >)
        ensures
            r == self.load_result(sm, head_dim),
    {
        match Self::check_head_dim(head_dim) {
            Ok(_) => {},
            Err(e) => {
                return Err(e);
            },
        }
        if let Some(loaded) = self.loaded_config {
            if loaded.sm != sm || loaded.head_dim != head_dim || loaded.mode != self.mode {
                return Err(FlashAttentionError::LoadedForOther(loaded));
            }
        }
        Ok(
            LoadSteps {
                module: self.loaded_config.is_none(),
                function: !self.function_loaded,
            },
        )
    }

    /// The module was loaded: from now on the operation is for heads of this size on this
    /// architecture, whether the kernel is found in the module or not.
    pub fn module_loaded(&mut self, sm: i32, head_dim: usize)
        ensures
            *final(self) == old(self).with_module(sm, head_dim),
    {
        self.loaded_config = Some(LoadedConfig { sm, head_dim, mode: self.mode });
    }

    /// The kernel was found in the module.
    pub fn kernel_loaded(&mut self)
        ensures
            *final(self) == old(self).with_kernel(),
    {
        self.function_loaded = true;
    }

    /// Where the buffers are: queries, keys and values are the first three inputs, the
    /// mask is the fourth; or the first buffer whose place is not known.
    pub fn attention_ptrs(
        &self,
        self_node: usize,
        inputs: &Vec<usize>,
        ptrs: &HashMap<usize, u64>,
    ) -> (r: Result<AttentionPtrs, AttentionBuffer>)
        requires
            inputs@.len() >= 3,
            self.mode == FlashAttentionMode::Masked ==> inputs@.len() >= 4,
        ensures
            r == (if !ptrs@.contains_key(inputs@[0]) {
                Err(AttentionBuffer::Q)
            } else if !ptrs@.contains_key(inputs@[1]) {
                Err(AttentionBuffer::K)
            } else if !ptrs@.contains_key(inputs@[2]) {
                Err(AttentionBuffer::V)
            } else if !ptrs@.contains_key(self_node) {
                Err(AttentionBuffer::Out)
            } else if self.mode == FlashAttentionMode::Masked && !ptrs@.contains_key(inputs@[3]) {
                Err(AttentionBuffer::Mask)
            } else {
                Ok(
                    AttentionPtrs {
                        q: ptrs@[inputs@[0]],
                        k: ptrs@[inputs@[1]],
                        v: ptrs@[inputs@[2]],
                        mask: if self.mode == FlashAttentionMode::Masked {
                            ptrs@[inputs@[3]]
                        } else {
                            0
                        },
                        out: ptrs@[self_node],
                    },
                )
            }),
    {
        let q: u64 = match ptrs.get(&inputs[0]) {
            Some(p) => *p,
            None => {
                return Err(AttentionBuffer::Q);
            },
        };
        let k: u64 = match ptrs.get(&inputs[1]) {
            Some(p) => *p,
            None => {
                return Err(AttentionBuffer::K);
            },
        };
        let v: u64 = match ptrs.get(&inputs[2]) {
            Some(p) => *p,
            None => {
                return Err(AttentionBuffer::V);
            },
        };
        let out: u64 = match ptrs.get(&self_node) {
            Some(p) => *p,
            None => {
                return Err(AttentionBuffer::Out);
            },
        };
        let mask: u64 = if self.mode == FlashAttentionMode::Masked {
            match ptrs.get(&inputs[3]) {
                Some(p) => *p,
                None => {
                    return Err(AttentionBuffer::Mask);
                },
            }
        } else {
            0
        };
        Ok(AttentionPtrs { q, k, v, mask, out })
    }

    /// The first size that could not be told.
    pub open spec fn first_unresolved(dims: AttentionDims) -> Option<AttentionDim> {
        if dims.batch is None {
            Some(AttentionDim::Batch)
        } else if dims.heads is None {
            Some(AttentionDim::Heads)
        } else if dims.seq_q is None {
            Some(AttentionDim::SeqQ)
        } else if dims.seq_k is None {
            Some(AttentionDim::SeqK)
        } else if dims.head_dim is None {
            Some(AttentionDim::HeadDim)
        } else {
            None
        }
    }

    /// Whether there is anything to compute, where all sizes are known.
    pub open spec fn is_empty_attention(dims: AttentionDims) -> bool {
        dims.batch == Some(0usize) || dims.heads == Some(0usize) || dims.seq_q == Some(0usize)
            || dims.seq_k == Some(0usize)
    }

    /// The size of heads to load a kernel for, before a launch with these sizes and this
    /// mask. `None` where nothing is to be launched, because a size is 0.
    pub fn launch_raw(&self, dims: AttentionDims, mask_ptr: u64) -> (r: Result<
        Option<usize>,
        FlashAttentionError,
    >)
        ensures
            r == (if self.dtype != DType::F32 {
                Err(FlashAttentionError::UnsupportedType(self.dtype))
            } else if Self::first_unresolved(dims) is Some {
                Err(FlashAttentionError::Unresolved(Self::first_unresolved(dims)->0))
            } else if Self::is_empty_attention(dims) {
                Ok(None)
            } else if self.mode == FlashAttentionMode::Masked && mask_ptr == 0 {
                Err(FlashAttentionError::NoMask)
            } else {
                Ok(dims.head_dim)
            }),
    {
        if self.dtype != DType::F32 {
            return Err(FlashAttentionError::UnsupportedType(self.dtype));
        }
        let batch: usize = match dims.batch {
            Some(n) => n,
            None => {
                return Err(FlashAttentionError::Unresolved(AttentionDim::Batch));
            },
        };
        let heads: usize = match dims.heads {
            Some(n) => n,
            None => {
                return Err(FlashAttentionError::Unresolved(AttentionDim::Heads));
            },
        };
        let seq_q: usize = match dims.seq_q {
            Some(n) => n,
            None => {
                return Err(FlashAttentionError::Unresolved(AttentionDim::SeqQ));
            },
        };
        let seq_k: usize = match dims.seq_k {
            Some(n) => n,
            None => {
                return Err(FlashAttentionError::Unresolved(AttentionDim::SeqK));
            },
        };
        let head_dim: usize = match dims.head_dim {
            Some(n) => n,
            None => {
                return Err(FlashAttentionError::Unresolved(AttentionDim::HeadDim));
            },
        };
        if batch == 0 || heads == 0 || seq_q == 0 || seq_k == 0 {
            return Ok(None);
        }
        if self.mode == FlashAttentionMode::Masked && mask_ptr == 0 {
            return Err(FlashAttentionError::NoMask);
        }
        Ok(Some(head_dim))
    }
}

/// The attention with a mask, as terms have it.
#[derive(Debug, Clone, Copy, PartialEq, Eq, Structural)]
pub struct FlashAttentionMasked;

impl FlashAttentionMasked {
    /// The operation as a term: its name, and its parameters, which are the queries, the
    /// keys, the values, the mask, five sizes and a type.
    pub fn term(&self) -> (r: (&'static str, Vec<OpParam>))
        ensures
            r.0@ == "flash_attention_masked"@,
            r.1@ == (inputs(4) + sizes(5)).push(OpParam::Dty),
    {
        FlashAttentionMode::Masked.term()
    }

    /// The operation that a term stands for, the numbers of its sizes, and the nodes that it
    /// reads; `None` where the arguments are not for the term.
    pub fn extract(&self, args: &Vec<TermArg>) -> (r: Option<
        (FlashAttentionOp, AttentionSizes, Vec<usize>),
    >)
        ensures
            r is Some <==> fills(args@, (inputs(4) + sizes(5)).push(OpParam::Dty)),
            r matches Some((op, sizes, nodes)) ==> op == (FlashAttentionOp {
                mode: FlashAttentionMode::Masked,
                dtype: args@[9]->Dty_0,
                loaded_config: None,
                function_loaded: false,
            }) && sizes == attention_sizes(args@, 4) && nodes@ == args@.take(4).map_values(
                |a: TermArg| a.number(),
            ),
    {
        FlashAttentionOp::extract(FlashAttentionMode::Masked, args)
    }
}

/// The causal attention, as terms have it.
#[derive(Debug, Clone, Copy, PartialEq, Eq, Structural)]
pub struct FlashAttentionCausal;

impl FlashAttentionCausal {
    /// The operation as a term: its name, and its parameters, which are the queries, the
    /// keys, the values, five sizes and a type.
    pub fn term(&self) -> (r: (&'static str, Vec<OpParam>))
        ensures
            r.0@ == "flash_attention_causal"@,
            r.1@ == (inputs(3) + sizes(5)).push(OpParam::Dty),
    {
        FlashAttentionMode::Causal.term()
    }

    /// The operation that a term stands for, the numbers of its sizes, and the nodes that it
    /// reads; `None` where the arguments are not for the term.
    pub fn extract(&self, args: &Vec<TermArg>) -> (r: Option<
        (FlashAttentionOp, AttentionSizes, Vec<usize>),
    >)
        ensures
            r is Some <==> fills(args@, (inputs(3) + sizes(5)).push(OpParam::Dty)),
            r matches Some((op, sizes, nodes)) ==> op == (FlashAttentionOp {
                mode: FlashAttentionMode::Causal,
                dtype: args@[8]->Dty_0,
                loaded_config: None,
                function_loaded: false,
            }) && sizes == attention_sizes(args@, 3) && nodes@ == args@.take(3).map_values(
                |a: TermArg| a.number(),
            ),
    {
        FlashAttentionOp::extract(FlashAttentionMode::Causal, args)
    }
}

/// How many elements the result has: one for every batch, head, query and place in the
/// head; `None` where that is beyond the machine's sizes at some step.
pub fn attention_output_size(batch: usize, heads: usize, seq_q: usize, head_dim: usize) -> (r: Option<
    usize,
>)
    ensures
        r matches Some(n) ==> n == batch * heads * seq_q * head_dim,
        r is None <==> batch * heads > usize::MAX || batch * heads * seq_q > usize::MAX || batch
            * heads * seq_q * head_dim > usize::MAX,
{
    checked_product(checked_product(batch.checked_mul(heads), seq_q), head_dim)
}

/// The launch of a kernel for these sizes: a block of threads for every block of
/// queries, head and batch. Sizes are cut to 32 bits.
pub fn attention_launch(batch: usize, heads: usize, seq_q: usize, seq_k: usize, head_dim: usize) -> (r:
    AttentionLaunch)
    ensures
        r.grid_x == query_blocks(seq_q as int) as u32,
        r.grid_y == heads as u32,
        r.grid_z == batch as u32,
        r.block_x == (if head_dim == 64 {
            128u32
        } else {
            256u32
        }),
        r.batch == batch as i32,
        r.heads == heads as i32,
        r.seq_q == seq_q as i32,
        r.seq_k == seq_k as i32,
        r.head_dim == head_dim as i32,
{
    let full: usize = seq_q / BLOCK_M;
    let blocks: usize = if seq_q % BLOCK_M == 0 {
        full
    } else {
        full + 1
    };
    assert(blocks == query_blocks(seq_q as int));
    AttentionLaunch {
        grid_x: #[verifier::truncate] (blocks as u32),
        grid_y: #[verifier::truncate] (heads as u32),
        grid_z: #[verifier::truncate] (batch as u32),
        block_x: if head_dim == 64 {
            128
        } else {
            256
        },
        batch: #[verifier::truncate] (batch as i32),
        heads: #[verifier::truncate] (heads as i32),
        seq_q: #[verifier::truncate] (seq_q as i32),
        seq_k: #[verifier::truncate] (seq_k as i32),
        head_dim: #[verifier::truncate] (head_dim as i32),
    }
}

/// The blocks of queries cover all queries, and one fewer would not.
pub proof fn law_query_blocks_cover(seq_q: int)
    requires
        seq_q > 0,
    ensures
        query_blocks(seq_q) * BLOCK_M >= seq_q,
        (query_blocks(seq_q) - 1) * BLOCK_M < seq_q,
{
}

/// Once a module is loaded, any other supported size of heads or architecture is refused; for
/// the same the module is not loaded again, and the kernel is looked up only until it is
/// found.
pub proof fn law_kernel_is_loaded_once(
    op: FlashAttentionOp,
    sm: i32,
    head_dim: usize,
    other_sm: i32,
    other_head_dim: usize,
)
    requires
        head_dim == 64 || head_dim == 128,
        other_head_dim == 64 || other_head_dim == 128,
        (other_sm, other_head_dim) != (sm, head_dim),
    ensures
        op.with_module(sm, head_dim).load_result(sm, head_dim) == Ok::<
            LoadSteps,
            FlashAttentionError,
        >(LoadSteps { module: false, function: !op.function_loaded }),
        op.with_module(sm, head_dim).with_kernel().load_result(sm, head_dim) == Ok::<
            LoadSteps,
            FlashAttentionError,
        >(LoadSteps { module: false, function: false }),
        op.with_module(sm, head_dim).load_result(other_sm, other_head_dim) == Err::<
            LoadSteps,
            FlashAttentionError,
        >(FlashAttentionError::LoadedForOther(LoadedConfig { sm, head_dim, mode: op.mode })),
        op.with_module(sm, head_dim).with_kernel().load_result(other_sm, other_head_dim) == Err::<
            LoadSteps,
            FlashAttentionError,
        >(FlashAttentionError::LoadedForOther(LoadedConfig { sm, head_dim, mode: op.mode })),
{
}

/// An attention can be launched if its elements are single-precision numbers, every size could
/// be told, and it has a mask where it goes by one; with a size of 0, other than that of heads,
/// there is nothing to launch.
pub proof fn law_sizes_decide(dims: AttentionDims)
    ensures
        FlashAttentionOp::first_unresolved(dims) is None <==> dims.batch is Some && dims.heads is Some
            && dims.seq_q is Some && dims.seq_k is Some && dims.head_dim is Some,
        FlashAttentionOp::first_unresolved(dims) == Some(AttentionDim::Batch) ==> dims.batch is None,
        FlashAttentionOp::first_unresolved(dims) == Some(AttentionDim::Heads) ==> dims.heads is None
            && dims.batch is Some,
        FlashAttentionOp::first_unresolved(dims) == Some(AttentionDim::SeqQ) ==> dims.seq_q is None
            && dims.heads is Some,
        FlashAttentionOp::first_unresolved(dims) == Some(AttentionDim::SeqK) ==> dims.seq_k is None
            && dims.seq_q is Some,
        FlashAttentionOp::first_unresolved(dims) == Some(AttentionDim::HeadDim) ==> dims.head_dim is None
            && dims.seq_k is Some,
        dims.batch is Some && dims.heads is Some && dims.seq_q is Some && dims.seq_k is Some ==> (
        FlashAttentionOp::is_empty_attention(dims) <==> dims.batch->0 * dims.heads->0 == 0
            || dims.seq_q->0 * dims.seq_k->0 == 0),
{
    if dims.batch is Some && dims.heads is Some && dims.seq_q is Some && dims.seq_k is Some {
        let (a, b, c, d) = (
            dims.batch->0 as int,
            dims.heads->0 as int,
            dims.seq_q->0 as int,
            dims.seq_k->0 as int,
        );
        assert(a * b == 0 <==> a == 0 || b == 0) by (nonlinear_arith);
        assert(c * d == 0 <==> c == 0 || d == 0) by (nonlinear_arith);
    }
}

/// An operation that has loaded nothing loads both module and kernel, for heads of 64 and of
/// 128 and on any architecture; other heads are refused whatever is loaded.
pub proof fn law_heads_that_are_served(op: FlashAttentionOp, sm: i32, head_dim: usize)
    ensures
        head_dim != 64 && head_dim != 128 ==> op.load_result(sm, head_dim) == Err::<
            LoadSteps,
            FlashAttentionError,
        >(FlashAttentionError::UnsupportedHeadDim(head_dim)),
        (head_dim == 64 || head_dim == 128) && op.loaded_config is None && !op.function_loaded
            ==> op.load_result(sm, head_dim) == Ok::<LoadSteps, FlashAttentionError>(
            LoadSteps { module: true, function: true },
        ),
        op.with_module(sm, head_dim).mode == op.mode,
        op.with_module(sm, head_dim).with_kernel().function_loaded,
{
}

/// Blocks of queries: none for no queries, and one more for every 64.
pub proof fn law_query_blocks_step(seq_q: int)
    requires
        seq_q >= 0,
    ensures
        query_blocks(0) == 0,
        query_blocks(seq_q + 64) == query_blocks(seq_q) + 1,
        1 <= seq_q <= 64 ==> query_blocks(seq_q) == 1,
{
}

/// An attention that is written as a term is read back from it: the tensors in order, the
/// sizes by their places, and the type last.
pub proof fn law_attention_is_read_back(
    mode: FlashAttentionMode,
    tensors: Seq<usize>,
    s: AttentionSizes,
    dtype: DType,
    args: Seq<TermArg>,
)
    requires
        mode is Masked ==> tensors.len() == 4,
        mode is Causal ==> tensors.len() == 3,
        args == tensors.map_values(|n: usize| TermArg::Input(n)) + seq![
            TermArg::Expr(s.batch),
            TermArg::Expr(s.heads),
            TermArg::Expr(s.seq_q),
            TermArg::Expr(s.seq_k),
            TermArg::Expr(s.head_dim),
            TermArg::Dty(dtype),
        ],
    ensures
        mode.inputs_taken() == tensors.len(),
        fills(args, (inputs(mode.inputs_taken()) + sizes(5)).push(OpParam::Dty)),
        attention_sizes(args, mode.inputs_taken() as int) == s,
        args[mode.inputs_taken() as int + 5] == TermArg::Dty(dtype),
        args.take(mode.inputs_taken() as int).map_values(|a: TermArg| a.number()) == tensors,
{
    let n = mode.inputs_taken() as int;
    let params = (inputs(mode.inputs_taken()) + sizes(5)).push(OpParam::Dty);
    assert forall|i: int| 0 <= i < args.len() implies (#[trigger] args[i]).kind() == params[i] by {}
    assert(args.take(n).map_values(|a: TermArg| a.number()) =~= tensors);
}

/// Kernels of different modes, heads or architectures lie in files of different names.
pub proof fn law_files_begin_with_their_mode(mode: FlashAttentionMode, head_dim: nat, sm: int)
    ensures
        mode is Masked ==> filename_text(mode.stem(), head_dim, sm) == "flash_attn_masked_h"@
            + decimal_text(head_dim) + "_sm"@ + signed_text(sm) + ".cubin"@,
        mode is Causal ==> filename_text(mode.stem(), head_dim, sm) == "flash_attn_causal_h"@
            + decimal_text(head_dim) + "_sm"@ + signed_text(sm) + ".cubin"@,
        sm >= 0 ==> signed_text(sm) == decimal_text(sm as nat),
{
    reveal_strlit("flash_attn_masked");
    reveal_strlit("flash_attn_causal");
    reveal_strlit("flash_attn_masked_h");
    reveal_strlit("flash_attn_causal_h");
    reveal_strlit("_h");
    assert("flash_attn_masked"@ + "_h"@ =~= "flash_attn_masked_h"@);
    assert("flash_attn_causal"@ + "_h"@ =~= "flash_attn_causal_h"@);
}

/// White space around the name of a kernel does not matter, the name itself is taken as it is,
/// and where there is none the usual one is taken.
pub proof fn law_white_space_around_a_name(
    contents: &str,
    a: Seq<char>,
    t: Seq<char>,
    b: Seq<char>,
    name: Seq<char>,
)
    requires
        contents@ == a + t + b,
        crate::text::is_blank(a) && crate::text::is_blank(b),
        t.len() > 0 ==> !is_white_space(t[0]) && !is_white_space(t.last()),
        is_entry_name(Some(contents), name),
    ensures
        t.len() > 0 ==> name == t,
        t.len() == 0 ==> name == "flash_attn_fwd"@,
{
    let s = contents@;
    let empty = Seq::<char>::empty();
    if t.len() == 0 {
        assert(s.subrange(0, 0) =~= empty);
        assert forall|i: int| 0 <= i < s.len() implies is_white_space(#[trigger] s[i]) by {
            if i < a.len() {
                assert(s[i] == a[i]);
            } else {
                assert(s[i] == b[i - a.len()]);
            }
        }
        assert(is_trimmed(s, empty));
    } else {
        assert(s[a.len() as int] == t[0]);
        assert(s[a.len() + t.len() - 1] == t.last());
        if is_trimmed(s, empty) {
            let (x, y) = choose|x: int, y: int|
                0 <= x <= y <= s.len() && empty == #[trigger] s.subrange(x, y) && (forall|i: int|
                    0 <= i < x ==> is_white_space(#[trigger] s[i])) && (forall|i: int|
                    y <= i < s.len() ==> is_white_space(#[trigger] s[i])) && (x < y
                    ==> !is_white_space(s[x]) && !is_white_space(s[y - 1]));
            assert(s.subrange(x, y).len() == y - x);
            assert(false);
        }
        let (x, y) = choose|x: int, y: int|
            0 <= x <= y <= s.len() && name == #[trigger] s.subrange(x, y) && (forall|i: int|
                0 <= i < x ==> is_white_space(#[trigger] s[i])) && (forall|i: int|
                y <= i < s.len() ==> is_white_space(#[trigger] s[i])) && (x < y
                ==> !is_white_space(s[x]) && !is_white_space(s[y - 1]));
        assert(x <= a.len() && y >= a.len() + t.len());
        if x < a.len() {
            assert(s[x] == a[x]);
        }
        if y > a.len() + t.len() {
            assert(s[y - 1] == b[y - 1 - a.len() - t.len()]);
        }
        assert(s.subrange(a.len() as int, (a.len() + t.len()) as int) =~= t);
    }
}

} // verus!
