//! A CUDA graph as a host operation: what it has built, what it was built for, and
//! what has to be done before it can be launched again.
//!
//! The operation does not touch the device. Each method says what is to be done;
//! whoever does it reports the device pointers that came of it.

use crate::device::{copy_ptrs, same_ptrs};
use crate::dims::DynMap;
#[allow(unused_imports)]
use crate::dims::{ascending_entries, entry_map, lemma_entry_map_injective};
use std::collections::HashMap;
use vstd::prelude::*;

verus! {

broadcast use vstd::std_specs::hash::group_hash_axioms;

/// A compiled kernel within a CUDA graph.
#[derive(Debug)]
pub struct CompiledKernel {
    /// The kernel's node.
    pub node: usize,
    /// The nodes whose buffers it reads.
    pub inputs: Vec<usize>,
    /// Whether it writes an output buffer of its own.
    pub has_output: bool,
    /// The name for profiling.
    pub kernel_name: String,
    /// The dynamic dimensions that the sizes of its internal buffers depend on.
    pub internal_dims: Vec<char>,
    /// Where its internal buffers are.
    pub internal_bufs: Vec<u64>,
}

/// A CUDA graph: what it is made of, and its state.
#[derive(Debug)]
pub struct CudaGraphOp {
    /// All nodes that the graph needs buffers for.
    pub buffer_nodes: Vec<usize>,
    /// The sizes of its kernels' output buffers, where no dynamic dimension is needed
    /// to tell them.
    pub buffer_sizes: HashMap<usize, Option<usize>>,
    /// The nodes whose buffers must be zeroed before the graph runs.
    pub zero_output_nodes: Vec<usize>,
    /// The dynamic dimensions in use, in the order of their buffer.
    pub dyn_dims_order: Vec<char>,
    /// The kernels in topological order.
    pub kernels: Vec<CompiledKernel>,
    /// Where the buffer of dynamic dimensions is, once there is one.
    pub dyn_dims_buffer: Option<u64>,
    /// Whether the graph is built.
    pub built: bool,
    /// The parameters of each kernel.
    pub kernel_params: Vec<Vec<u64>>,
    /// The dynamic dimensions that the graph is up to date with.
    pub last_dyn_values: DynMap,
    /// The buffers that the graph is up to date with.
    pub last_buffer_ptrs: HashMap<usize, u64>,
    /// The internal pointers at the time of the last capture.
    pub runtime_capture_internal_ptrs: Option<Vec<u64>>,
}

/// What to do first when the graph is to be executed.
#[derive(Debug)]
pub struct ExecuteStart {
    /// The dynamic dimensions are not those the graph is up to date with.
    pub dyn_map_changed: bool,
    /// All internal buffers must be allocated anew.
    pub realloc_internal: bool,
    /// A buffer for so many dynamic dimensions must be allocated.
    pub alloc_dyn_dims: Option<usize>,
    /// The values to write to that buffer.
    pub dyn_values: Option<Vec<i32>>,
    /// The graph must be built.
    pub build_graph: bool,
}

/// The pointers that a kernel is launched with.
#[derive(Debug)]
pub struct KernelArgs {
    pub output: u64,
    pub inputs: Vec<u64>,
}

/// A buffer that a kernel needs and that is not there.
#[derive(Debug, Clone, Copy, PartialEq, Eq, Structural)]
pub enum MissingBuffer {
    /// The output of the kernel with this index.
    Output(usize),
    /// Of the kernel with the first index, the input with the second.
    Input(usize, usize),
}

/// How the graph is launched.
#[derive(Debug, Clone, Copy, PartialEq, Eq, Structural)]
pub enum Launch {
    /// Not at all.
    Skip,
    /// Kernel by kernel, for diagnosis.
    Individually,
    /// Within the capture of another graph, without binding the context.
    Captured,
    /// As a graph.
    Graph,
}

/// The steps around a launch.
#[derive(Debug, Clone, Copy, PartialEq, Eq, Structural)]
pub struct LaunchPlan {
    /// Bind the context before the graph's nodes are updated.
    pub bind_for_update: bool,
    /// Wait for the stream before the launch.
    pub sync_before: bool,
    pub launch: Launch,
    /// Wait for the stream after the launch.
    pub sync_after: bool,
}

/// What decides how a graph is launched.
#[derive(Debug, Clone, Copy, PartialEq, Eq, Structural)]
pub struct LaunchSettings {
    /// A capture is under way on the stream.
    pub capturing: bool,
    /// Wait for the stream after every step.
    pub sync_debug: bool,
    /// Launch the graph, and not only bring it up to date.
    pub launch_graph: bool,
    /// Launch the kernels one by one.
    pub no_cuda_graph: bool,
}

/// What an execution of the graph has to do, in order: get ready, build the graph where
/// there is none, prepare the kernels, update the graph's nodes, and launch it.
#[derive(Debug)]
pub struct Execution {
    pub start: ExecuteStart,
    /// The buffers of the graph.
    pub ptrs: HashMap<usize, u64>,
    /// The kernels' pointers to build the graph with. The kernels below are prepared before
    /// their nodes are made, and once more as in every execution.
    pub build_args: Option<Vec<KernelArgs>>,
    /// The kernels to prepare with these buffers, in order: all of them, in every execution,
    /// as a launch may change what they keep for themselves.
    pub prepare: Vec<usize>,
    /// The kernels' pointers to update the graph's nodes with.
    pub update_args: Option<Vec<KernelArgs>>,
    pub launch: LaunchPlan,
}

/// What the preparation of a capture has to do, in order.
#[derive(Debug)]
pub struct CapturePreparation {
    /// The dynamic dimensions are not those the graph is up to date with.
    pub dyn_map_changed: bool,
    /// The kernels that are to be given internal buffers.
    pub alloc_internal: Vec<usize>,
    /// A buffer for so many dynamic dimensions must be allocated.
    pub alloc_dyn_dims: Option<usize>,
    /// The values to write to that buffer.
    pub dyn_values: Option<Vec<i32>>,
    /// The buffers of the graph.
    pub ptrs: HashMap<usize, u64>,
    /// The kernels to prepare with these buffers, in order.
    pub prepare: Vec<usize>,
    /// The kernels' pointers to make parameters from, where they must be made anew.
    pub args: Option<Vec<KernelArgs>>,
}

/// Why a graph cannot be executed or captured.
#[derive(Debug)]
pub enum ExecuteError {
    /// A kernel lacks a buffer.
    Kernel(MissingBuffer),
    /// These nodes should have a buffer and have none.
    Nodes(Vec<usize>),
}

/// Whether a captured graph can be replayed.
#[derive(Debug)]
pub enum ReplayRefreshOutcome {
    Ready,
    NeedsRecapture(String),
}

/// The outcome of the checks before a replay.
#[derive(Debug)]
pub enum RefreshStep {
    /// The graph must be captured again, for this reason.
    NeedsRecapture(String),
    /// These kernels are to be prepared, in order, with these buffers.
    Prepare(HashMap<usize, u64>, Vec<usize>),
}

/// A node of the CUDA graph under construction.
#[derive(Debug, Clone, Copy, PartialEq, Eq, Structural)]
pub enum ChainNode {
    /// Record the timing event with this index.
    Event(usize),
    /// Launch the kernel with this index.
    Kernel(usize),
}

/// Launch dimensions as the driver takes them.
#[derive(Debug, Clone, Copy, PartialEq, Eq)]
pub struct LaunchShape {
    pub grid: (u32, u32, u32),
    pub block: (u32, u32, u32),
    pub shared_mem: u32,
}

/// What a map has for a dimension, or 0.
pub open spec fn dim_or_zero(m: Map<char, usize>, d: char) -> usize {
    if m.contains_key(d) {
        m[d]
    } else {
        0
    }
}

/// What two maps have for a dimension differs.
pub open spec fn dim_differs(a: Map<char, usize>, b: Map<char, usize>, d: char) -> bool {
    a.contains_key(d) != b.contains_key(d) || (a.contains_key(d) && a[d] != b[d])
}

/// A pointer, or the null pointer where there is none.
pub open spec fn ptr_or_null(ptrs: Map<usize, u64>, n: usize) -> u64 {
    if ptrs.contains_key(n) {
        ptrs[n]
    } else {
        0
    }
}

/// The internal pointers of the kernels, one kernel after another.
pub open spec fn internal_ptrs(kernels: Seq<CompiledKernel>) -> Seq<u64>
    decreases kernels.len(),
{
    if kernels.len() == 0 {
        Seq::empty()
    } else {
        internal_ptrs(kernels.drop_last()) + kernels.last().internal_bufs@
    }
}

/// The inputs of the kernel with this index are there, up to the `n`-th.
pub open spec fn inputs_present(k: CompiledKernel, ptrs: Map<usize, u64>, n: int) -> bool {
    forall|j: int| 0 <= j < n ==> ptrs.contains_key(#[trigger] k.inputs@[j])
}

/// The kernel's output is there, or it has none. Where `strict`, a null pointer
/// counts as absent.
pub open spec fn output_present(k: CompiledKernel, ptrs: Map<usize, u64>, strict: bool) -> bool {
    !k.has_output || (ptrs.contains_key(k.node) && (strict ==> ptrs[k.node] != 0))
}

/// All that the kernel needs is there.
pub open spec fn kernel_present(k: CompiledKernel, ptrs: Map<usize, u64>, strict: bool) -> bool {
    output_present(k, ptrs, strict) && inputs_present(k, ptrs, k.inputs@.len() as int)
}

/// `m` is the first buffer that is missing.
pub open spec fn is_first_missing(
    kernels: Seq<CompiledKernel>,
    ptrs: Map<usize, u64>,
    strict: bool,
    m: MissingBuffer,
) -> bool {
    match m {
        MissingBuffer::Output(i) => i < kernels.len() && !output_present(
            kernels[i as int],
            ptrs,
            strict,
        ) && forall|k: int| 0 <= k < i ==> kernel_present(#[trigger] kernels[k], ptrs, strict),
        MissingBuffer::Input(i, j) => i < kernels.len() && j < kernels[i as int].inputs@.len()
            && output_present(kernels[i as int], ptrs, strict) && inputs_present(
            kernels[i as int],
            ptrs,
            j as int,
        ) && !ptrs.contains_key(kernels[i as int].inputs@[j as int]) && forall|k: int|
            0 <= k < i ==> kernel_present(#[trigger] kernels[k], ptrs, strict),
    }
}

/// The pointers of each kernel, null where there is none.
pub open spec fn args_for(
    kernels: Seq<CompiledKernel>,
    ptrs: Map<usize, u64>,
    args: Seq<KernelArgs>,
) -> bool {
    &&& args.len() == kernels.len()
    &&& forall|k: int|
        0 <= k < kernels.len() ==> (#[trigger] args[k]).output == ptr_or_null(ptrs, kernels[k].node)
    &&& forall|k: int|
        0 <= k < kernels.len() ==> (#[trigger] args[k]).inputs@ == kernels[k].inputs@.map_values(
            |n: usize| ptr_or_null(ptrs, n),
        )
}

impl CudaGraphOp {
    /// The recorded dimensions are in order.
    pub open spec fn wf(&self) -> bool {
        self.last_dyn_values.wf()
    }

    /// Node `n` is expected to have a buffer: it is no kernel with an empty output.
    pub open spec fn expects_buffer(&self, n: usize) -> bool {
        self.buffer_sizes@.contains_key(n) ==> self.buffer_sizes@[n] != Some(0usize)
    }

    /// The nodes that should have a buffer and have none.
    pub open spec fn missing(&self, ptrs: Map<usize, u64>) -> Seq<usize> {
        self.buffer_nodes@.filter(|n: usize| !ptrs.contains_key(n) && self.expects_buffer(n))
    }

    /// The internal pointers, then where the dynamic dimensions are.
    pub open spec fn fingerprint(&self) -> Seq<u64> {
        internal_ptrs(self.kernels@).push(
            match self.dyn_dims_buffer {
                Some(p) => p,
                None => 0,
            },
        )
    }

    /// The size of some kernel's internal buffers depends on a dimension that changed.
    pub open spec fn internal_dims_changed(&self, dims: Map<char, usize>) -> bool {
        exists|k: int|
            0 <= k < self.kernels@.len() && kernel_dims_changed(
                #[trigger] self.kernels@[k],
                dims,
                self.last_dyn_values@,
            )
    }

    /// The values for the buffer of dynamic dimensions.
    pub open spec fn dim_values(&self, dims: Map<char, usize>) -> Seq<i32> {
        self.dyn_dims_order@.map_values(|d: char| dim_or_zero(dims, d) as i32)
    }

    /// Nothing changed since the last capture: the captured graph can be replayed with
    /// these buffers and dimensions.
    pub open spec fn replayable(&self, ptrs: Map<usize, u64>, dims: Map<char, usize>) -> bool {
        &&& self.runtime_capture_internal_ptrs matches Some(captured) && captured@
            == self.fingerprint()
        &&& dims == self.last_dyn_values@
        &&& self.missing(ptrs).len() == 0
        &&& ptrs == self.last_buffer_ptrs@
        &&& self.kernel_params@.len() == self.kernels@.len()
    }

    /// All kernels by index, in order.
    pub open spec fn every_kernel(&self) -> Seq<usize> {
        Seq::new(self.kernels@.len(), |i: int| i as usize)
    }

    /// The graph is as in `before`, but for its state.
    pub open spec fn same_graph(&self, before: &CudaGraphOp) -> bool {
        &&& self.buffer_nodes == before.buffer_nodes
        &&& self.buffer_sizes == before.buffer_sizes
        &&& self.zero_output_nodes == before.zero_output_nodes
        &&& self.dyn_dims_order == before.dyn_dims_order
    }

    /// A graph that is not built yet.
    pub fn new(
        buffer_nodes: Vec<usize>,
        buffer_sizes: HashMap<usize, Option<usize>>,
        zero_output_nodes: Vec<usize>,
        dyn_dims_order: Vec<char>,
        kernels: Vec<CompiledKernel>,
    ) -> (r: CudaGraphOp)
        ensures
            r.wf(),
            r.buffer_nodes == buffer_nodes,
            r.buffer_sizes == buffer_sizes,
            r.zero_output_nodes == zero_output_nodes,
            r.dyn_dims_order == dyn_dims_order,
            r.kernels == kernels,
            !r.built,
            r.dyn_dims_buffer is None,
            r.kernel_params@.len() == 0,
            r.last_dyn_values@ == Map::<char, usize>::empty(),
            r.last_buffer_ptrs@ == Map::<usize, u64>::empty(),
            r.runtime_capture_internal_ptrs is None,
    {
        CudaGraphOp {
            buffer_nodes,
            buffer_sizes,
            zero_output_nodes,
            dyn_dims_order,
            kernels,
            dyn_dims_buffer: None,
            built: false,
            kernel_params: Vec::new(),
            last_dyn_values: DynMap::new(),
            last_buffer_ptrs: HashMap::new(),
            runtime_capture_internal_ptrs: None,
        }
    }

    fn expects(&self, n: usize) -> (r: bool)
        ensures
            r == self.expects_buffer(n),
    {
        match self.buffer_sizes.get(&n) {
            Some(size) => match *size {
                Some(b) => b != 0,
                None => true,
            },
            None => true,
        }
    }

    /// The nodes that the graph needs buffers for, without kernels that have an empty
    /// output.
    pub fn extra_buffer_nodes(&self) -> (r: Vec<usize>)
        ensures
            r@ == self.buffer_nodes@.filter(|n: usize| self.expects_buffer(n)),
    {
        let ghost pred = |n: usize| self.expects_buffer(n);
        let mut r: Vec<usize> = Vec::new();
        let mut i: usize = 0;
        proof {
            reveal(Seq::filter);
            assert(self.buffer_nodes@.take(0) =~= Seq::empty());
        }
        while i < self.buffer_nodes.len()
            invariant
                i <= self.buffer_nodes@.len(),
                pred == (|n: usize| self.expects_buffer(n)),
                r@ == self.buffer_nodes@.take(i as int).filter(pred),
            decreases self.buffer_nodes@.len() - i,
        {
            let n = self.buffer_nodes[i];
            proof {
                reveal(Seq::filter);
                let t = self.buffer_nodes@.take(i + 1);
                assert(t.drop_last() =~= self.buffer_nodes@.take(i as int));
            }
            if self.expects(n) {
                r.push(n);
            }
            i = i + 1;
        }
        assert(self.buffer_nodes@.take(self.buffer_nodes@.len() as int) =~= self.buffer_nodes@);
        r
    }

    /// Of these pointers those that the graph needs.
    pub fn collect_buffer_ptrs_from_raw(&self, raw_ptrs: &HashMap<usize, u64>) -> (r: HashMap<
        usize,
        u64,
    >)
        ensures
            r@ == raw_ptrs@.restrict(self.buffer_nodes@.to_set()),
    {
        let mut r: HashMap<usize, u64> = HashMap::new();
        let mut i: usize = 0;
        while i < self.buffer_nodes.len()
            invariant
                i <= self.buffer_nodes@.len(),
                forall|n: usize|
                    (#[trigger] r@.contains_key(n) <==> raw_ptrs@.contains_key(n) && exists|k: int|
                        0 <= k < i && #[trigger] self.buffer_nodes@[k] == n) && (r@.contains_key(n)
                        ==> r@[n] == raw_ptrs@[n]),
            decreases self.buffer_nodes@.len() - i,
        {
            let n = self.buffer_nodes[i];
            if let Some(p) = raw_ptrs.get(&n) {
                r.insert(n, *p);
            }
            i = i + 1;
        }
        assert(r@ =~= raw_ptrs@.restrict(self.buffer_nodes@.to_set()));
        r
    }

    /// Whether every node that should have a buffer has one; if not, those without.
    pub fn validate_required_buffer_ptrs(&self, ptrs: &HashMap<usize, u64>) -> (r: Result<
        (),
        Vec<usize>,
    >)
        ensures
            r is Ok <==> self.missing(ptrs@).len() == 0,
            r matches Err(nodes) ==> nodes@ == self.missing(ptrs@),
    {
        let ghost pred = |n: usize| !ptrs@.contains_key(n) && self.expects_buffer(n);
        let mut missing: Vec<usize> = Vec::new();
        let mut i: usize = 0;
        proof {
            reveal(Seq::filter);
            assert(self.buffer_nodes@.take(0) =~= Seq::empty());
        }
        while i < self.buffer_nodes.len()
            invariant
                i <= self.buffer_nodes@.len(),
                pred == (|n: usize| !ptrs@.contains_key(n) && self.expects_buffer(n)),
                missing@ == self.buffer_nodes@.take(i as int).filter(pred),
            decreases self.buffer_nodes@.len() - i,
        {
            let n = self.buffer_nodes[i];
            proof {
                reveal(Seq::filter);
                let t = self.buffer_nodes@.take(i + 1);
                assert(t.drop_last() =~= self.buffer_nodes@.take(i as int));
            }
            if !ptrs.contains_key(&n) && self.expects(n) {
                missing.push(n);
            }
            i = i + 1;
        }
        assert(self.buffer_nodes@.take(self.buffer_nodes@.len() as int) =~= self.buffer_nodes@);
        if missing.len() > 0 {
            Err(missing)
        } else {
            Ok(())
        }
    }

    /// The internal pointers of all kernels, then where the dynamic dimensions are.
    pub fn internal_pointer_fingerprint(&self) -> (r: Vec<u64>)
        ensures
            r@ == self.fingerprint(),
    {
        let mut r: Vec<u64> = Vec::new();
        let mut i: usize = 0;
        assert(self.kernels@.take(0) =~= Seq::empty());
        while i < self.kernels.len()
            invariant
                i <= self.kernels@.len(),
                r@ == internal_ptrs(self.kernels@.take(i as int)),
            decreases self.kernels@.len() - i,
        {
            r.extend_from_slice(self.kernels[i].internal_bufs.as_slice());
            proof {
                let t = self.kernels@.take(i + 1);
                assert(t.drop_last() =~= self.kernels@.take(i as int));
                assert(r@ =~= internal_ptrs(t));
            }
            i = i + 1;
        }
        assert(self.kernels@.take(self.kernels@.len() as int) =~= self.kernels@);
        let dyn_dims_ptr: u64 = match self.dyn_dims_buffer {
            Some(p) => p,
            None => 0,
        };
        r.push(dyn_dims_ptr);
        r
    }

    /// Whether the dynamic dimensions differ from those the graph is up to date with.
    pub fn dyn_map_changed(&self, dyn_map: &DynMap) -> (r: bool)
        requires
            self.wf(),
            dyn_map.wf(),
        ensures
            r == (dyn_map@ != self.last_dyn_values@),
    {
        !same_dims(dyn_map, &self.last_dyn_values)
    }

    fn internal_realloc_needed(&self, dyn_map: &DynMap) -> (r: bool)
        requires
            self.wf(),
            dyn_map.wf(),
        ensures
            r == self.internal_dims_changed(dyn_map@),
    {
        let mut k: usize = 0;
        while k < self.kernels.len()
            invariant
                self.wf(),
                dyn_map.wf(),
                k <= self.kernels@.len(),
                forall|i: int|
                    0 <= i < k ==> !kernel_dims_changed(
                        #[trigger] self.kernels@[i],
                        dyn_map@,
                        self.last_dyn_values@,
                    ),
            decreases self.kernels@.len() - k,
        {
            let dims = &self.kernels[k].internal_dims;
            let mut i: usize = 0;
            while i < dims.len()
                invariant
                    self.wf(),
                    dyn_map.wf(),
                    k < self.kernels@.len(),
                    *dims == self.kernels@[k as int].internal_dims,
                    i <= dims@.len(),
                    forall|j: int|
                        0 <= j < i ==> !dim_differs(
                            dyn_map@,
                            self.last_dyn_values@,
                            #[trigger] dims@[j],
                        ),
                decreases dims@.len() - i,
            {
                let d = dims[i];
                let same = match (dyn_map.get(d), self.last_dyn_values.get(d)) {
                    (Some(a), Some(b)) => a == b,
                    (None, None) => true,
                    (_, _) => false,
                };
                if !same {
                    assert(dim_differs(dyn_map@, self.last_dyn_values@, dims@[i as int]));
                    assert(kernel_dims_changed(
                        self.kernels@[k as int],
                        dyn_map@,
                        self.last_dyn_values@,
                    ));
                    return true;
                }
                i = i + 1;
            }
            k = k + 1;
        }
        false
    }

    fn dyn_dim_values(&self, dyn_map: &DynMap) -> (r: Vec<i32>)
        requires
            dyn_map.wf(),
        ensures
            r@ == self.dim_values(dyn_map@),
    {
        let mut r: Vec<i32> = Vec::new();
        let mut i: usize = 0;
        while i < self.dyn_dims_order.len()
            invariant
                dyn_map.wf(),
                i <= self.dyn_dims_order@.len(),
                r@.len() == i,
                forall|k: int|
                    0 <= k < i ==> r@[k] == dim_or_zero(
                        dyn_map@,
                        #[trigger] self.dyn_dims_order@[k],
                    ) as i32,
            decreases self.dyn_dims_order@.len() - i,
        {
            let v: usize = match dyn_map.get(self.dyn_dims_order[i]) {
                Some(v) => v,
                None => 0,
            };
            r.push(v as i32);
            i = i + 1;
        }
        assert(r@ =~= self.dim_values(dyn_map@));
        r
    }

    /// What to do before the graph can be launched with these dimensions. Where
    /// internal buffers are allocated anew, the graph and the parameters that hold
    /// their pointers are dropped.
    pub fn start_execute(&mut self, dyn_map: &DynMap) -> (r: ExecuteStart)
        requires
            old(self).wf(),
            dyn_map.wf(),
        ensures
            r.dyn_map_changed == (dyn_map@ != old(self).last_dyn_values@),
            r.realloc_internal == old(self).internal_dims_changed(dyn_map@),
            r.alloc_dyn_dims == (if old(self).dyn_dims_order@.len() > 0 && old(self).dyn_dims_buffer is None {
                Some(old(self).dyn_dims_order@.len() as usize)
            } else {
                None
            }),
            r.dyn_values is Some <==> r.dyn_map_changed && old(self).dyn_dims_order@.len() > 0,
            r.dyn_values matches Some(v) ==> v@ == old(self).dim_values(dyn_map@),
            r.build_graph == (r.realloc_internal || !old(self).built),
            final(self).wf(),
            final(self).same_graph(old(self)),
            final(self).kernels == old(self).kernels,
            final(self).dyn_dims_buffer == old(self).dyn_dims_buffer,
            final(self).last_dyn_values == old(self).last_dyn_values,
            final(self).last_buffer_ptrs == old(self).last_buffer_ptrs,
            final(self).runtime_capture_internal_ptrs == old(self).runtime_capture_internal_ptrs,
            final(self).built == (old(self).built && !r.realloc_internal),
            r.realloc_internal ==> final(self).kernel_params@.len() == 0,
            !r.realloc_internal ==> final(self).kernel_params == old(self).kernel_params,
    {
        let dyn_map_changed = self.dyn_map_changed(dyn_map);
        let realloc_internal = self.internal_realloc_needed(dyn_map);
        let uses_dims = self.dyn_dims_order.len() > 0;
        let alloc_dyn_dims = if uses_dims && self.dyn_dims_buffer.is_none() {
            Some(self.dyn_dims_order.len())
        } else {
            None
        };
        let dyn_values = if dyn_map_changed && uses_dims {
            Some(self.dyn_dim_values(dyn_map))
        } else {
            None
        };
        if realloc_internal {
            self.built = false;
            self.kernel_params = Vec::new();
        }
        ExecuteStart {
            dyn_map_changed,
            realloc_internal,
            alloc_dyn_dims,
            dyn_values,
            build_graph: !self.built,
        }
    }

    /// The kernel with this index has its internal buffers here.
    pub fn set_internal_bufs(&mut self, idx: usize, ptrs: Vec<u64>)
        requires
            idx < old(self).kernels@.len(),
        ensures
            final(self).kernels@.len() == old(self).kernels@.len(),
            final(self).kernels@[idx as int] == (CompiledKernel {
                internal_bufs: ptrs,
                ..old(self).kernels@[idx as int]
            }),
            forall|k: int|
                0 <= k < old(self).kernels@.len() && k != idx ==> final(self).kernels@[k] == old(self).kernels@[k],
            final(self).same_graph(old(self)),
            final(self).built == old(self).built,
            final(self).dyn_dims_buffer == old(self).dyn_dims_buffer,
            final(self).kernel_params == old(self).kernel_params,
            final(self).last_dyn_values == old(self).last_dyn_values,
            final(self).last_buffer_ptrs == old(self).last_buffer_ptrs,
            final(self).runtime_capture_internal_ptrs == old(self).runtime_capture_internal_ptrs,
    {
        self.kernels[idx].internal_bufs = ptrs;
    }

    /// The first buffer that a kernel needs and that is missing, if one is.
    fn first_missing(&self, ptrs: &HashMap<usize, u64>, strict: bool) -> (r: Option<MissingBuffer>)
        ensures
            r matches Some(m) ==> is_first_missing(self.kernels@, ptrs@, strict, m),
            r is None <==> forall|k: int|
                0 <= k < self.kernels@.len() ==> kernel_present(
                    #[trigger] self.kernels@[k],
                    ptrs@,
                    strict,
                ),
    {
        let mut i: usize = 0;
        while i < self.kernels.len()
            invariant
                i <= self.kernels@.len(),
                forall|k: int|
                    0 <= k < i ==> kernel_present(#[trigger] self.kernels@[k], ptrs@, strict),
            decreases self.kernels@.len() - i,
        {
            let kernel = &self.kernels[i];
            let there = match ptrs.get(&kernel.node) {
                Some(p) => !strict || *p != 0,
                None => false,
            };
            if kernel.has_output && !there {
                assert(!kernel_present(self.kernels@[i as int], ptrs@, strict));
                return Some(MissingBuffer::Output(i));
            }
            let mut j: usize = 0;
            while j < kernel.inputs.len()
                invariant
                    i < self.kernels@.len(),
                    *kernel == self.kernels@[i as int],
                    output_present(*kernel, ptrs@, strict),
                    forall|k: int|
                        0 <= k < i ==> kernel_present(#[trigger] self.kernels@[k], ptrs@, strict),
                    j <= kernel.inputs@.len(),
                    inputs_present(*kernel, ptrs@, j as int),
                decreases kernel.inputs@.len() - j,
            {
                if !ptrs.contains_key(&kernel.inputs[j]) {
                    assert(!ptrs@.contains_key(self.kernels@[i as int].inputs@[j as int]));
                    assert(!kernel_present(self.kernels@[i as int], ptrs@, strict));
                    return Some(MissingBuffer::Input(i, j));
                }
                j = j + 1;
            }
            i = i + 1;
        }
        None
    }

    /// The pointers of each kernel, null where there is none: for launching kernels
    /// one by one under diagnosis.
    pub fn diagnostic_args(&self, ptrs: &HashMap<usize, u64>) -> (r: Vec<KernelArgs>)
        ensures
            args_for(self.kernels@, ptrs@, r@),
    {
        let mut r: Vec<KernelArgs> = Vec::new();
        let mut i: usize = 0;
        while i < self.kernels.len()
            invariant
                i <= self.kernels@.len(),
                args_for(self.kernels@.take(i as int), ptrs@, r@),
            decreases self.kernels@.len() - i,
        {
            let kernel = &self.kernels[i];
            let output: u64 = match ptrs.get(&kernel.node) {
                Some(p) => *p,
                None => 0,
            };
            let mut inputs: Vec<u64> = Vec::new();
            let mut j: usize = 0;
            while j < kernel.inputs.len()
                invariant
                    j <= kernel.inputs@.len(),
                    inputs@.len() == j,
                    forall|k: int|
                        0 <= k < j ==> inputs@[k] == ptr_or_null(ptrs@, #[trigger] kernel.inputs@[k]),
                decreases kernel.inputs@.len() - j,
            {
                let p: u64 = match ptrs.get(&kernel.inputs[j]) {
                    Some(p) => *p,
                    None => 0,
                };
                inputs.push(p);
                j = j + 1;
            }
            assert(inputs@ =~= kernel.inputs@.map_values(|n: usize| ptr_or_null(ptrs@, n)));
            let ghost r0 = r@;
            r.push(KernelArgs { output, inputs });
            proof {
                let t = self.kernels@.take(i + 1);
                assert forall|k: int| 0 <= k < t.len() implies (#[trigger] r@[k]).output
                    == ptr_or_null(ptrs@, t[k].node) && r@[k].inputs@ == t[k].inputs@.map_values(
                    |n: usize| ptr_or_null(ptrs@, n),
                ) by {
                    if k < i {
                        assert(r@[k] == r0[k]);
                        assert(t[k] == self.kernels@.take(i as int)[k]);
                    }
                }
            }
            i = i + 1;
        }
        assert(self.kernels@.take(self.kernels@.len() as int) =~= self.kernels@);
        r
    }

    /// The pointers of each kernel, for building or updating the graph; or the first
    /// buffer that is missing.
    pub fn kernel_args(&self, ptrs: &HashMap<usize, u64>) -> (r: Result<
        Vec<KernelArgs>,
        MissingBuffer,
    >)
        ensures
            r is Ok <==> forall|k: int|
                0 <= k < self.kernels@.len() ==> kernel_present(
                    #[trigger] self.kernels@[k],
                    ptrs@,
                    false,
                ),
            r matches Ok(args) ==> args_for(self.kernels@, ptrs@, args@),
            r matches Err(m) ==> is_first_missing(self.kernels@, ptrs@, false, m),
    {
        match self.first_missing(ptrs, false) {
            Some(m) => Err(m),
            None => Ok(self.diagnostic_args(ptrs)),
        }
    }

    /// The pointers of each kernel, for a capture, which takes no null pointer for an
    /// output; or the first buffer that is missing.
    pub fn build_kernel_params_from_ptrs(&self, ptrs: &HashMap<usize, u64>) -> (r: Result<
        Vec<KernelArgs>,
        MissingBuffer,
    >)
        ensures
            r is Ok <==> forall|k: int|
                0 <= k < self.kernels@.len() ==> kernel_present(
                    #[trigger] self.kernels@[k],
                    ptrs@,
                    true,
                ),
            r matches Ok(args) ==> args_for(self.kernels@, ptrs@, args@),
            r matches Err(m) ==> is_first_missing(self.kernels@, ptrs@, true, m),
    {
        match self.first_missing(ptrs, true) {
            Some(m) => Err(m),
            None => Ok(self.diagnostic_args(ptrs)),
        }
    }

    /// The graph was built, or its nodes updated, for these buffers and dimensions.
    pub fn brought_up_to_date(
        &mut self,
        dyn_map: &DynMap,
        ptrs: &HashMap<usize, u64>,
        kernel_params: Vec<Vec<u64>>,
    )
        requires
            old(self).wf(),
            dyn_map.wf(),
        ensures
            final(self).wf(),
            final(self).same_graph(old(self)),
            final(self).kernels == old(self).kernels,
            final(self).dyn_dims_buffer == old(self).dyn_dims_buffer,
            final(self).runtime_capture_internal_ptrs == old(self).runtime_capture_internal_ptrs,
            final(self).built,
            final(self).kernel_params == kernel_params,
            final(self).last_dyn_values@ == dyn_map@,
            final(self).last_buffer_ptrs@ == ptrs@,
    {
        self.built = true;
        self.kernel_params = kernel_params;
        self.last_dyn_values = dyn_map.duplicate();
        self.last_buffer_ptrs = copy_ptrs(ptrs);
    }

    /// Whether the graph's nodes must be updated before it is launched.
    pub fn needs_update(&self, dyn_map_changed: bool, ptrs: &HashMap<usize, u64>) -> (r: bool)
        ensures
            r == (dyn_map_changed || ptrs@ != self.last_buffer_ptrs@),
    {
        dyn_map_changed || !same_ptrs(ptrs, &self.last_buffer_ptrs)
    }

    /// The kernels without internal buffers, which are to be given some. Parameters
    /// made without them are dropped.
    pub fn alloc_missing_internal(&mut self) -> (r: Vec<usize>)
        requires
            old(self).wf(),
        ensures
            forall|i: usize| #[trigger]
                r@.contains(i) <==> i < old(self).kernels@.len() && old(self).kernels@[i as int].internal_bufs@.len() == 0,
            crate::walk::rising(r@),
            final(self).wf(),
            final(self).same_graph(old(self)),
            final(self).kernels == old(self).kernels,
            final(self).built == old(self).built,
            final(self).dyn_dims_buffer == old(self).dyn_dims_buffer,
            final(self).last_dyn_values == old(self).last_dyn_values,
            final(self).last_buffer_ptrs == old(self).last_buffer_ptrs,
            final(self).runtime_capture_internal_ptrs == old(self).runtime_capture_internal_ptrs,
            r@.len() > 0 ==> final(self).kernel_params@.len() == 0,
            r@.len() == 0 ==> final(self).kernel_params == old(self).kernel_params,
    {
        let mut r: Vec<usize> = Vec::new();
        let mut i: usize = 0;
        while i < self.kernels.len()
            invariant
                i <= self.kernels@.len(),
                forall|k: int| 0 <= k < r@.len() ==> #[trigger] r@[k] < i,
                crate::walk::rising(r@),
                forall|k: usize| #[trigger]
                    r@.contains(k) <==> k < i && self.kernels@[k as int].internal_bufs@.len() == 0,
            decreases self.kernels@.len() - i,
        {
            let ghost r0 = r@;
            if self.kernels[i].internal_bufs.len() == 0 {
                r.push(i);
                proof {
                    assert(r@[r0.len() as int] == i);
                    assert forall|k: usize| #[trigger] r@.contains(k) <==> k < i + 1
                        && self.kernels@[k as int].internal_bufs@.len() == 0 by {
                        if r0.contains(k) {
                            let x = choose|x: int| 0 <= x < r0.len() && r0[x] == k;
                            assert(r@[x] == k);
                        }
                    }
                }
            }
            i = i + 1;
        }
        if r.len() > 0 {
            self.kernel_params = Vec::new();
        }
        r
    }

    /// Whether the parameters must be made anew for a capture.
    pub fn needs_params_rebuild(
        &self,
        realloc_internal: bool,
        allocated_missing: bool,
        dyn_map_changed: bool,
        ptrs: &HashMap<usize, u64>,
    ) -> (r: bool)
        ensures
            r == (realloc_internal || allocated_missing || dyn_map_changed || ptrs@
                != self.last_buffer_ptrs@ || self.kernel_params@.len() != self.kernels@.len()),
    {
        realloc_internal || allocated_missing || dyn_map_changed || !same_ptrs(
            ptrs,
            &self.last_buffer_ptrs,
        ) || self.kernel_params.len() != self.kernels.len()
    }

    /// The graph is prepared for a capture with these buffers and dimensions.
    pub fn prepared_for_capture(&mut self, dyn_map: &DynMap, ptrs: &HashMap<usize, u64>)
        requires
            old(self).wf(),
            dyn_map.wf(),
        ensures
            final(self).wf(),
            final(self).same_graph(old(self)),
            final(self).kernels == old(self).kernels,
            final(self).built == old(self).built,
            final(self).dyn_dims_buffer == old(self).dyn_dims_buffer,
            final(self).kernel_params == old(self).kernel_params,
            final(self).last_dyn_values@ == dyn_map@,
            final(self).last_buffer_ptrs@ == ptrs@,
            final(self).runtime_capture_internal_ptrs matches Some(f) && f@ == old(self).fingerprint(),
    {
        let f = self.internal_pointer_fingerprint();
        self.last_dyn_values = dyn_map.duplicate();
        self.last_buffer_ptrs = copy_ptrs(ptrs);
        self.runtime_capture_internal_ptrs = Some(f);
    }

    /// The checks before a replay: nothing may have changed since the capture.
    pub fn refresh_for_runtime_replay(
        &self,
        raw_ptrs: &HashMap<usize, u64>,
        dyn_map: &DynMap,
    ) -> (r: Result<RefreshStep, Vec<usize>>)
        requires
            self.wf(),
            dyn_map.wf(),
        ensures
            r matches Ok(RefreshStep::Prepare(_, _)) <==> self.replayable(
                raw_ptrs@.restrict(self.buffer_nodes@.to_set()),
                dyn_map@,
            ),
            self.runtime_capture_internal_ptrs is None ==> (r matches Ok(
                RefreshStep::NeedsRecapture(why),
            ) && why@ == "missing capture internal pointer fingerprint"@),
            self.runtime_capture_internal_ptrs is Some && dyn_map@ != self.last_dyn_values@ ==> (
            r matches Ok(RefreshStep::NeedsRecapture(why)) && why@ == "dynamic dimensions changed"@),
            self.runtime_capture_internal_ptrs matches Some(captured) ==> dyn_map@
                == self.last_dyn_values@ ==> {
                let ptrs = raw_ptrs@.restrict(self.buffer_nodes@.to_set());
                if self.missing(ptrs).len() > 0 {
                    r matches Err(nodes) && nodes@ == self.missing(ptrs)
                } else if ptrs != self.last_buffer_ptrs@ {
                    r matches Ok(RefreshStep::NeedsRecapture(why)) && why@
                        == "buffer pointers changed"@
                } else if self.kernel_params@.len() != self.kernels@.len() {
                    r matches Ok(RefreshStep::NeedsRecapture(why)) && why@
                        == "kernel params missing or stale"@
                } else if self.fingerprint() != captured@ {
                    r matches Ok(RefreshStep::NeedsRecapture(why)) && why@
                        == "internal pointer drift detected before replay refresh"@
                } else {
                    r matches Ok(RefreshStep::Prepare(p, kernels)) && p@ == ptrs && kernels@
                        == self.every_kernel()
                }
            },
    {
        let captured = match &self.runtime_capture_internal_ptrs {
            Some(captured) => captured,
            None => {
                return Ok(
                    RefreshStep::NeedsRecapture(
                        "missing capture internal pointer fingerprint".to_owned(),
                    ),
                );
            },
        };
        if self.dyn_map_changed(dyn_map) {
            return Ok(RefreshStep::NeedsRecapture("dynamic dimensions changed".to_owned()));
        }
        let ptrs = self.collect_buffer_ptrs_from_raw(raw_ptrs);
        match self.validate_required_buffer_ptrs(&ptrs) {
            Ok(()) => {},
            Err(nodes) => {
                return Err(nodes);
            },
        }
        if !same_ptrs(&ptrs, &self.last_buffer_ptrs) {
            return Ok(RefreshStep::NeedsRecapture("buffer pointers changed".to_owned()));
        }
        if self.kernel_params.len() != self.kernels.len() {
            return Ok(RefreshStep::NeedsRecapture("kernel params missing or stale".to_owned()));
        }
        if !same_values(&self.internal_pointer_fingerprint(), captured) {
            return Ok(
                RefreshStep::NeedsRecapture(
                    "internal pointer drift detected before replay refresh".to_owned(),
                ),
            );
        }
        Ok(RefreshStep::Prepare(ptrs, self.all_kernels()))
    }

    /// The check after the kernels were prepared for a replay: no internal pointer may
    /// have moved.
    pub fn finish_refresh(&self) -> (r: ReplayRefreshOutcome)
        requires
            self.runtime_capture_internal_ptrs is Some,
        ensures
            self.runtime_capture_internal_ptrs matches Some(captured) ==> if self.fingerprint()
                == captured@ {
                r is Ready
            } else {
                r matches ReplayRefreshOutcome::NeedsRecapture(why) && why@
                    == "internal pointer drift detected after replay refresh"@
            },
    {
        let same = match &self.runtime_capture_internal_ptrs {
            Some(captured) => same_values(&self.internal_pointer_fingerprint(), captured),
            None => false,
        };
        if same {
            ReplayRefreshOutcome::Ready
        } else {
            ReplayRefreshOutcome::NeedsRecapture(
                "internal pointer drift detected after replay refresh".to_owned(),
            )
        }
    }

    /// Whether every kernel has its parameters; if not, how many have, and how many
    /// kernels there are.
    pub fn replay_kernels_onto_stream(&self) -> (r: Result<(), (usize, usize)>)
        ensures
            r is Ok <==> self.kernel_params@.len() == self.kernels@.len(),
            r matches Err(counts) ==> counts == (
                self.kernel_params@.len() as usize,
                self.kernels@.len() as usize,
            ),
    {
        if self.kernel_params.len() != self.kernels.len() {
            Err((self.kernel_params.len(), self.kernels.len()))
        } else {
            Ok(())
        }
    }
}

/// Of the dimensions that the kernel's internal buffers depend on one differs.
pub open spec fn kernel_dims_changed(
    k: CompiledKernel,
    dims: Map<char, usize>,
    last: Map<char, usize>,
) -> bool {
    exists|i: int|
        0 <= i < k.internal_dims@.len() && dim_differs(dims, last, #[trigger] k.internal_dims@[i])
}

/// Whether two maps of dynamic dimensions are the same: they have equally many
/// entries, and each entry of the one is in the other.
pub(crate) fn same_dims(a: &DynMap, b: &DynMap) -> (r: bool)
    requires
        a.wf(),
        b.wf(),
    ensures
        r == (a@ == b@),
{
    let ea = a.entries();
    let eb = b.entries();
    if ea.len() != eb.len() {
        proof {
            if a@ == b@ {
                lemma_entry_map_injective(ea@, eb@);
            }
        }
        return false;
    }
    let mut i: usize = 0;
    while i < ea.len()
        invariant
            ea@.len() == eb@.len(),
            ascending_entries(ea@),
            ascending_entries(eb@),
            entry_map(ea@) == a@,
            entry_map(eb@) == b@,
            i <= ea@.len(),
            forall|k: int| 0 <= k < i ==> ea@[k] == eb@[k],
        decreases ea@.len() - i,
    {
        if ea[i].0 != eb[i].0 || ea[i].1 != eb[i].1 {
            proof {
                if a@ == b@ {
                    lemma_entry_map_injective(ea@, eb@);
                }
            }
            return false;
        }
        i = i + 1;
    }
    assert(ea@ =~= eb@);
    true
}

/// Whether two lists of numbers are the same.
pub(crate) fn same_values(a: &Vec<u64>, b: &Vec<u64>) -> (r: bool)
    ensures
        r == (a@ == b@),
{
    if a.len() != b.len() {
        return false;
    }
    let mut i: usize = 0;
    while i < a.len()
        invariant
            a@.len() == b@.len(),
            i <= a@.len(),
            forall|k: int| 0 <= k < i ==> a@[k] == b@[k],
        decreases a@.len() - i,
    {
        if a[i] != b[i] {
            return false;
        }
        i = i + 1;
    }
    assert(a@ =~= b@);
    true
}

/// The steps around a launch.
pub open spec fn launch_plan(
    capturing: bool,
    sync_debug: bool,
    graph_rebuilt: bool,
    needs_update: bool,
    launch_graph: bool,
    no_cuda_graph: bool,
) -> LaunchPlan {
    LaunchPlan {
        bind_for_update: needs_update && !capturing,
        sync_before: !capturing && (sync_debug || graph_rebuilt || needs_update),
        launch: if !launch_graph {
            Launch::Skip
        } else if no_cuda_graph {
            Launch::Individually
        } else if capturing {
            Launch::Captured
        } else {
            Launch::Graph
        },
        sync_after: launch_graph && sync_debug,
    }
}

/// The steps around a launch.
///
/// `capturing` tells of a capture under way on the stream, in which waiting and
/// binding the context are not allowed.
pub fn plan_launch(
    capturing: bool,
    sync_debug: bool,
    graph_rebuilt: bool,
    needs_update: bool,
    launch_graph: bool,
    no_cuda_graph: bool,
) -> (r: LaunchPlan)
    ensures
        r == launch_plan(
            capturing,
            sync_debug,
            graph_rebuilt,
            needs_update,
            launch_graph,
            no_cuda_graph,
        ),
{
    let launch = if !launch_graph {
        Launch::Skip
    } else if no_cuda_graph {
        Launch::Individually
    } else if capturing {
        Launch::Captured
    } else {
        Launch::Graph
    };
    LaunchPlan {
        bind_for_update: needs_update && !capturing,
        sync_before: !capturing && (sync_debug || graph_rebuilt || needs_update),
        launch,
        sync_after: launch_graph && sync_debug,
    }
}

/// The nodes of a CUDA graph of so many kernels, each of which depends on the one
/// before it: the kernels in order and, where `tracing`, a timing event before each
/// and one at the end.
pub open spec fn chain(kernels: nat, tracing: bool) -> Seq<ChainNode>
    decreases kernels,
{
    if kernels == 0 {
        Seq::empty()
    } else if tracing {
        let last = (kernels - 1) as usize;
        let before = chain((kernels - 1) as nat, true);
        let open = if before.len() == 0 {
            before.push(ChainNode::Event(0))
        } else {
            before
        };
        open.push(ChainNode::Kernel(last)).push(ChainNode::Event(kernels as usize))
    } else {
        chain((kernels - 1) as nat, false).push(ChainNode::Kernel((kernels - 1) as usize))
    }
}

/// The nodes of a CUDA graph, in the order in which they depend on each other.
pub fn build_graph(num_kernels: usize, tracing: bool) -> (r: Vec<ChainNode>)
    requires
        num_kernels < usize::MAX,
    ensures
        r@ == chain(num_kernels as nat, tracing),
{
    let mut r: Vec<ChainNode> = Vec::new();
    let mut idx: usize = 0;
    while idx < num_kernels
        invariant
            idx <= num_kernels < usize::MAX,
            tracing && idx > 0 ==> chain(idx as nat, true).len() > 0 && chain(
                idx as nat,
                true,
            ).last() == ChainNode::Event(idx),
            r@ == (if tracing && idx > 0 {
                chain(idx as nat, tracing).drop_last()
            } else {
                chain(idx as nat, tracing)
            }),
        decreases num_kernels - idx,
    {
        if tracing {
            r.push(ChainNode::Event(idx));
            assert(idx > 0 ==> r@ =~= chain(idx as nat, true));
        }
        r.push(ChainNode::Kernel(idx));
        idx = idx + 1;
        proof {
            if tracing {
                assert(r@ =~= chain(idx as nat, true).drop_last());
            }
        }
    }
    if tracing && num_kernels > 0 {
        r.push(ChainNode::Event(num_kernels));
        assert(r@ =~= chain(num_kernels as nat, true));
    }
    r
}

/// Launch dimensions as the driver takes them, the low 32 bits of each.
pub fn launch_shape(
    grid: (usize, usize, usize),
    block: (usize, usize, usize),
    shared_mem: usize,
) -> (r: LaunchShape)
    ensures
        r.grid == (grid.0 as u32, grid.1 as u32, grid.2 as u32),
        r.block == (block.0 as u32, block.1 as u32, block.2 as u32),
        r.shared_mem == shared_mem as u32,
{
    LaunchShape {
        grid: (
            #[verifier::truncate] (grid.0 as u32),
            #[verifier::truncate] (grid.1 as u32),
            #[verifier::truncate] (grid.2 as u32),
        ),
        block: (
            #[verifier::truncate] (block.0 as u32),
            #[verifier::truncate] (block.1 as u32),
            #[verifier::truncate] (block.2 as u32),
        ),
        shared_mem: #[verifier::truncate] (shared_mem as u32),
    }
}

/// Every kernel has what it needs.
pub open spec fn all_present(
    kernels: Seq<CompiledKernel>,
    ptrs: Map<usize, u64>,
    strict: bool,
) -> bool {
    forall|k: int| 0 <= k < kernels.len() ==> kernel_present(#[trigger] kernels[k], ptrs, strict)
}

impl CudaGraphOp {
    /// The graph has to be built for these dimensions.
    pub open spec fn must_build(&self, dims: Map<char, usize>) -> bool {
        self.internal_dims_changed(dims) || !self.built
    }

    /// The graph's nodes have to be updated for these dimensions and buffers. One that is
    /// built anew is up to date with its buffers.
    pub open spec fn must_update(&self, dims: Map<char, usize>, ptrs: Map<usize, u64>) -> bool {
        dims != self.last_dyn_values@ || (!self.must_build(dims) && ptrs != self.last_buffer_ptrs@)
    }

    /// The buffers of the graph among some buffers.
    pub open spec fn own_ptrs(&self, raw_ptrs: Map<usize, u64>) -> Map<usize, u64> {
        raw_ptrs.restrict(self.buffer_nodes@.to_set())
    }

    /// The kernels' parameters have to be made anew before a capture.
    pub open spec fn must_remake(&self, dims: Map<char, usize>, ptrs: Map<usize, u64>) -> bool {
        ||| self.internal_dims_changed(dims)
        ||| exists|k: int|
            0 <= k < self.kernels@.len() && (#[trigger] self.kernels@[k]).internal_bufs@.len() == 0
        ||| dims != self.last_dyn_values@
        ||| ptrs != self.last_buffer_ptrs@
        ||| self.kernel_params@.len() != self.kernels@.len()
    }

    /// An execution with these buffers and dimensions left the graph as `after` and came to
    /// `r`: what there is to do, or what is missing.
    pub open spec fn executed(
        self,
        after: CudaGraphOp,
        raw_ptrs: Map<usize, u64>,
        dims: Map<char, usize>,
        settings: LaunchSettings,
        r: Result<Execution, ExecuteError>,
    ) -> bool {
        &&& after.wf()
        &&& after.same_graph(&self)
        &&& after.kernels == self.kernels
        &&& after.dyn_dims_buffer == self.dyn_dims_buffer
        &&& after.last_dyn_values == self.last_dyn_values
        &&& after.last_buffer_ptrs == self.last_buffer_ptrs
        &&& after.runtime_capture_internal_ptrs == self.runtime_capture_internal_ptrs
        &&& after.built == (self.built && !self.internal_dims_changed(dims))
        &&& (if self.internal_dims_changed(dims) {
            after.kernel_params@.len() == 0
        } else {
            after.kernel_params == self.kernel_params
        })
        &&& (r matches Err(ExecuteError::Nodes(nodes)) <==> self.missing(
            self.own_ptrs(raw_ptrs),
        ).len() > 0 && (self.must_build(dims) ==> all_present(
            self.kernels@,
            self.own_ptrs(raw_ptrs),
            false,
        )))
        &&& (r matches Err(ExecuteError::Nodes(nodes)) ==> nodes@ == self.missing(
            self.own_ptrs(raw_ptrs),
        ))
        &&& (r matches Err(ExecuteError::Kernel(m)) <==> (self.must_build(dims) || (
        self.missing(self.own_ptrs(raw_ptrs)).len() == 0 && self.must_update(
            dims,
            self.own_ptrs(raw_ptrs),
        ))) && !all_present(self.kernels@, self.own_ptrs(raw_ptrs), false))
        &&& (r matches Err(ExecuteError::Kernel(m)) ==> is_first_missing(
            self.kernels@,
            self.own_ptrs(raw_ptrs),
            false,
            m,
        ))
        &&& (r matches Ok(e) ==> e.ptrs@ == self.own_ptrs(raw_ptrs) && e.prepare@
            == self.every_kernel())
        &&& (r matches Ok(e) ==> e.start.dyn_map_changed == (dims != self.last_dyn_values@)
            && e.start.realloc_internal == self.internal_dims_changed(dims)
            && e.start.build_graph == self.must_build(dims))
        &&& (r matches Ok(e) ==> e.start.alloc_dyn_dims == (if self.dyn_dims_order@.len() > 0
            && self.dyn_dims_buffer is None {
            Some(self.dyn_dims_order@.len() as usize)
        } else {
            None
        }))
        &&& (r matches Ok(e) ==> match e.start.dyn_values {
            Some(v) => dims != self.last_dyn_values@ && self.dyn_dims_order@.len()
                > 0 && v@ == self.dim_values(dims),
            None => dims == self.last_dyn_values@ || self.dyn_dims_order@.len()
                == 0,
        })
        &&& (r matches Ok(e) ==> match e.build_args {
            Some(args) => self.must_build(dims) && args_for(
                self.kernels@,
                e.ptrs@,
                args@,
            ),
            None => !self.must_build(dims),
        })
        &&& (r matches Ok(e) ==> match e.update_args {
            Some(args) => self.must_update(dims, e.ptrs@) && args_for(
                self.kernels@,
                e.ptrs@,
                args@,
            ),
            None => !self.must_update(dims, e.ptrs@),
        })
        &&& (r matches Ok(e) ==> e.launch == launch_plan(
            settings.capturing,
            settings.sync_debug,
            self.must_build(dims),
            self.must_update(dims, e.ptrs@),
            settings.launch_graph,
            settings.no_cuda_graph,
        ))
    }

    /// What an execution with these buffers and dimensions has to do. Once it is done, and
    /// the graph was built or updated, `brought_up_to_date` is called.
    pub fn execute_internal(
        &mut self,
        raw_ptrs: &HashMap<usize, u64>,
        dyn_map: &DynMap,
        settings: LaunchSettings,
    ) -> (r: Result<Execution, ExecuteError>)
        requires
            old(self).wf(),
            dyn_map.wf(),
        ensures
            old(self).executed(*final(self), raw_ptrs@, dyn_map@, settings, r),
    {
        let ghost before = *self;
        let start = self.start_execute(dyn_map);
        let ptrs = self.collect_buffer_ptrs_from_raw(raw_ptrs);
        proof {
            lemma_same_missing(*self, before, ptrs@);
        }
        let build_args = if start.build_graph {
            match self.kernel_args(&ptrs) {
                Ok(args) => Some(args),
                Err(m) => {
                    return Err(ExecuteError::Kernel(m));
                },
            }
        } else {
            None
        };
        match self.validate_required_buffer_ptrs(&ptrs) {
            Ok(_) => {},
            Err(nodes) => {
                return Err(ExecuteError::Nodes(nodes));
            },
        }
        let needs_update = start.dyn_map_changed || (!start.build_graph && self.needs_update(
            false,
            &ptrs,
        ));
        let update_args = if needs_update {
            match self.kernel_args(&ptrs) {
                Ok(args) => Some(args),
                Err(m) => {
                    return Err(ExecuteError::Kernel(m));
                },
            }
        } else {
            None
        };
        let launch = plan_launch(
            settings.capturing,
            settings.sync_debug,
            start.build_graph,
            needs_update,
            settings.launch_graph,
            settings.no_cuda_graph,
        );
        let prepare = self.all_kernels();
        Ok(Execution { start, ptrs, build_args, prepare, update_args, launch })
    }

    /// What has to be done so that the graph is built and up to date with these buffers and
    /// dimensions: all that an execution does but the launch.
    pub fn ensure_built_and_updated_for_runtime_graph(
        &mut self,
        raw_ptrs: &HashMap<usize, u64>,
        dyn_map: &DynMap,
        capturing: bool,
        sync_debug: bool,
        no_cuda_graph: bool,
    ) -> (r: Result<Execution, ExecuteError>)
        requires
            old(self).wf(),
            dyn_map.wf(),
        ensures
            old(self).executed(
                *final(self),
                raw_ptrs@,
                dyn_map@,
                (LaunchSettings { capturing, sync_debug, launch_graph: false, no_cuda_graph }),
                r,
            ),
            r matches Ok(e) ==> e.launch.launch == Launch::Skip && !e.launch.sync_after,
    {
        let settings = LaunchSettings { capturing, sync_debug, launch_graph: false, no_cuda_graph };
        self.execute_internal(raw_ptrs, dyn_map, settings)
    }

    /// What the preparation of a capture with these buffers and dimensions has to do. Once
    /// it is done, `parameters_made` is called where there are new parameters, and then
    /// `prepared_for_capture`.
    #[verifier::rlimit(50)]
    pub fn prepare_for_runtime_capture(
        &mut self,
        raw_ptrs: &HashMap<usize, u64>,
        dyn_map: &DynMap,
    ) -> (r: Result<CapturePreparation, ExecuteError>)
        requires
            old(self).wf(),
            dyn_map.wf(),
        ensures
            final(self).wf(),
            final(self).same_graph(old(self)),
            final(self).kernels == old(self).kernels,
            final(self).dyn_dims_buffer == old(self).dyn_dims_buffer,
            final(self).last_dyn_values == old(self).last_dyn_values,
            final(self).last_buffer_ptrs == old(self).last_buffer_ptrs,
            final(self).runtime_capture_internal_ptrs == old(self).runtime_capture_internal_ptrs,
            final(self).built == (old(self).built && !old(self).internal_dims_changed(dyn_map@)),
            r matches Err(ExecuteError::Nodes(nodes)) <==> old(self).missing(
                old(self).own_ptrs(raw_ptrs@),
            ).len() > 0,
            r matches Err(ExecuteError::Nodes(nodes)) ==> nodes@ == old(self).missing(
                old(self).own_ptrs(raw_ptrs@),
            ),
            r matches Err(ExecuteError::Kernel(m)) <==> old(self).missing(
                old(self).own_ptrs(raw_ptrs@),
            ).len() == 0 && old(self).must_remake(dyn_map@, old(self).own_ptrs(raw_ptrs@))
                && !all_present(old(self).kernels@, old(self).own_ptrs(raw_ptrs@), true),
            r matches Err(ExecuteError::Kernel(m)) ==> is_first_missing(
                old(self).kernels@,
                old(self).own_ptrs(raw_ptrs@),
                true,
                m,
            ),
            r matches Ok(c) ==> c.ptrs@ == old(self).own_ptrs(raw_ptrs@) && c.dyn_map_changed == (
            dyn_map@ != old(self).last_dyn_values@) && c.prepare@ == old(self).every_kernel(),
            r matches Ok(c) ==> crate::walk::rising(c.alloc_internal@) && forall|i: usize| #[trigger]
                c.alloc_internal@.contains(i) <==> i < old(self).kernels@.len() && (
                old(self).internal_dims_changed(dyn_map@)
                    || old(self).kernels@[i as int].internal_bufs@.len() == 0),
            r matches Ok(c) ==> c.alloc_dyn_dims == (if old(self).dyn_dims_order@.len() > 0
                && old(self).dyn_dims_buffer is None {
                Some(old(self).dyn_dims_order@.len() as usize)
            } else {
                None
            }),
            r matches Ok(c) ==> match c.dyn_values {
                Some(v) => dyn_map@ != old(self).last_dyn_values@ && old(self).dyn_dims_order@.len()
                    > 0 && v@ == old(self).dim_values(dyn_map@),
                None => dyn_map@ == old(self).last_dyn_values@ || old(self).dyn_dims_order@.len()
                    == 0,
            },
            r matches Ok(c) ==> match c.args {
                Some(args) => old(self).must_remake(dyn_map@, c.ptrs@) && args_for(
                    old(self).kernels@,
                    c.ptrs@,
                    args@,
                ),
                None => !old(self).must_remake(dyn_map@, c.ptrs@) && final(self).kernel_params == old(
                    self,
                ).kernel_params,
            },
    {
        let ghost before = *self;
        let start = self.start_execute(dyn_map);
        let empty = self.alloc_missing_internal();
        let alloc_internal = if start.realloc_internal {
            self.all_kernels()
        } else {
            empty
        };
        let ptrs = self.collect_buffer_ptrs_from_raw(raw_ptrs);
        proof {
            lemma_same_missing(*self, before, ptrs@);
        }
        match self.validate_required_buffer_ptrs(&ptrs) {
            Ok(_) => {},
            Err(nodes) => {
                return Err(ExecuteError::Nodes(nodes));
            },
        }
        let allocated = alloc_internal.len() > 0;
        proof {
            if allocated {
                assert(alloc_internal@.contains(alloc_internal@[0]));
            } else {
                assert forall|k: int| 0 <= k < before.kernels@.len() implies (
                #[trigger] before.kernels@[k]).internal_bufs@.len() != 0 by {
                    assert(k < before.kernels.len());
                    assert(!alloc_internal@.contains(k as usize));
                }
            }
        }
        let remake = self.needs_params_rebuild(
            start.realloc_internal,
            allocated,
            start.dyn_map_changed,
            &ptrs,
        );
        assert(remake == before.must_remake(dyn_map@, ptrs@));
        let args = if remake {
            match self.build_kernel_params_from_ptrs(&ptrs) {
                Ok(args) => Some(args),
                Err(m) => {
                    return Err(ExecuteError::Kernel(m));
                },
            }
        } else {
            None
        };
        Ok(
            CapturePreparation {
                dyn_map_changed: start.dyn_map_changed,
                alloc_internal,
                alloc_dyn_dims: start.alloc_dyn_dims,
                dyn_values: start.dyn_values,
                ptrs,
                prepare: self.all_kernels(),
                args,
            },
        )
    }

    fn all_kernels(&self) -> (r: Vec<usize>)
        ensures
            r@ == self.every_kernel(),
            crate::walk::rising(r@),
            forall|i: usize| #[trigger] r@.contains(i) <==> i < self.kernels@.len(),
    {
        let mut r: Vec<usize> = Vec::new();
        let mut i: usize = 0;
        while i < self.kernels.len()
            invariant
                i <= self.kernels@.len(),
                r@.len() == i,
                forall|k: int| 0 <= k < i ==> #[trigger] r@[k] == k,
            decreases self.kernels@.len() - i,
        {
            r.push(i);
            i = i + 1;
        }
        proof {
            assert forall|k: usize| #[trigger] r@.contains(k) <==> k < self.kernels@.len() by {
                if k < self.kernels@.len() {
                    assert(r@[k as int] == k);
                }
            }
            assert(r@ =~= self.every_kernel());
        }
        r
    }

    /// The kernels have new parameters.
    pub fn parameters_made(&mut self, kernel_params: Vec<Vec<u64>>)
        requires
            old(self).wf(),
        ensures
            *final(self) == (CudaGraphOp { kernel_params, ..*old(self) }),
    {
        self.kernel_params = kernel_params;
    }
}

proof fn lemma_same_missing(a: CudaGraphOp, b: CudaGraphOp, ptrs: Map<usize, u64>)
    requires
        a.same_graph(&b),
    ensures
        a.missing(ptrs) == b.missing(ptrs),
{
    assert((|n: usize| !ptrs.contains_key(n) && a.expects_buffer(n)) =~= (|n: usize|
        !ptrs.contains_key(n) && b.expects_buffer(n)));
}

/// A graph that is built and up to date with some dimensions and buffers has nothing
/// to do for them: no allocation, no rebuild, no update.
pub proof fn law_up_to_date_graph_is_ready(
    op: CudaGraphOp,
    dims: Map<char, usize>,
    ptrs: Map<usize, u64>,
)
    requires
        op.built,
        op.last_dyn_values@ == dims,
        op.last_buffer_ptrs@ == ptrs,
    ensures
        !op.internal_dims_changed(dims),
        !op.must_build(dims),
        !op.must_update(dims, ptrs),
{
}

/// A graph that was just prepared for a capture, with no buffer missing and all
/// parameters made, can be replayed; and no longer once a dimension, a buffer or an
/// internal pointer is another.
pub proof fn law_prepared_graph_is_replayable(
    before: CudaGraphOp,
    after: CudaGraphOp,
    dims: Map<char, usize>,
    ptrs: Map<usize, u64>,
    later: CudaGraphOp,
    later_dims: Map<char, usize>,
    later_ptrs: Map<usize, u64>,
)
    requires
        after.same_graph(&before),
        after.kernels == before.kernels,
        after.dyn_dims_buffer == before.dyn_dims_buffer,
        after.kernel_params == before.kernel_params,
        after.last_dyn_values@ == dims,
        after.last_buffer_ptrs@ == ptrs,
        after.runtime_capture_internal_ptrs matches Some(f) && f@ == before.fingerprint(),
        before.missing(ptrs).len() == 0,
        before.kernel_params@.len() == before.kernels@.len(),
        later.last_dyn_values == after.last_dyn_values,
        later.last_buffer_ptrs == after.last_buffer_ptrs,
        later.runtime_capture_internal_ptrs == after.runtime_capture_internal_ptrs,
    ensures
        after.replayable(ptrs, dims),
        later.replayable(later_ptrs, later_dims) ==> later_dims == dims && later_ptrs == ptrs
            && later.fingerprint() == before.fingerprint(),
{
    assert(after.missing(ptrs) =~= before.missing(ptrs)) by {
        assert((|n: usize| !ptrs.contains_key(n) && after.expects_buffer(n)) =~= (|n: usize|
            !ptrs.contains_key(n) && before.expects_buffer(n)));
    }
}

/// The kernels of the chain stand in their order, each once, and with tracing each
/// stands between two timing events.
pub proof fn law_chain_holds_every_kernel(kernels: nat, tracing: bool, k: nat)
    requires
        k < kernels,
        kernels < usize::MAX,
    ensures
        chain(kernels, tracing).len() == if tracing {
            2 * kernels + 1
        } else {
            kernels
        },
        chain(kernels, tracing)[if tracing {
            (2 * k + 1) as int
        } else {
            k as int
        }] == ChainNode::Kernel(k as usize),
        tracing ==> chain(kernels, true)[(2 * k) as int] == ChainNode::Event(k as usize)
            && chain(kernels, true)[(2 * k + 2) as int] == ChainNode::Event((k + 1) as usize),
    decreases kernels,
{
    let before = (kernels - 1) as nat;
    if kernels == 1 {
        assert(chain(0, tracing).len() == 0);
    } else {
        law_chain_holds_every_kernel(before, tracing, (before - 1) as nat);
        if k < before {
            law_chain_holds_every_kernel(before, tracing, k);
        }
    }
}

/// What the device holds of a CUDA graph, as far as executions decide it.
pub struct OnDevice {
    /// The pointers in the graph's nodes: for each kernel its output and its inputs.
    pub args: Seq<(u64, Seq<u64>)>,
    /// The dimensions that the nodes' launch shapes were worked out for.
    pub shaped_for: Map<char, usize>,
    /// What stands in the buffer of dynamic dimensions.
    pub dim_values: Seq<i32>,
}

/// The pointers of kernels as numbers.
pub open spec fn pointers_in(args: Seq<KernelArgs>) -> Seq<(u64, Seq<u64>)> {
    args.map_values(|a: KernelArgs| (a.output, a.inputs@))
}

/// The pointers that kernels are launched with where buffers are these.
pub open spec fn pointers_for(kernels: Seq<CompiledKernel>, ptrs: Map<usize, u64>) -> Seq<
    (u64, Seq<u64>),
> {
    kernels.map_values(
        |k: CompiledKernel|
            (ptr_or_null(ptrs, k.node), k.inputs@.map_values(|n: usize| ptr_or_null(ptrs, n))),
    )
}

/// What the device holds once an execution's steps before the launch are carried out: a new
/// buffer of dimensions holds zeros, and values, nodes and shapes are written over where the
/// execution says so.
pub open spec fn carried_out(d: OnDevice, e: Execution, dims: Map<char, usize>) -> OnDevice {
    OnDevice {
        args: match (e.update_args, e.build_args) {
            (Some(args), _) => pointers_in(args@),
            (None, Some(args)) => pointers_in(args@),
            (None, None) => d.args,
        },
        shaped_for: if e.update_args is Some || e.build_args is Some {
            dims
        } else {
            d.shaped_for
        },
        dim_values: match (e.start.dyn_values, e.start.alloc_dyn_dims) {
            (Some(values), _) => values@,
            (None, Some(n)) => Seq::new(n as nat, |i: int| 0i32),
            (None, None) => d.dim_values,
        },
    }
}

/// What the device holds is what the graph takes it to hold.
pub open spec fn in_step(op: CudaGraphOp, d: OnDevice) -> bool {
    &&& op.built ==> d.args == pointers_for(op.kernels@, op.last_buffer_ptrs@) && d.shaped_for
        == op.last_dyn_values@
    &&& op.dyn_dims_order@.len() > 0 ==> if op.dyn_dims_buffer is Some {
        d.dim_values == op.dim_values(op.last_dyn_values@)
    } else {
        op.last_dyn_values@ == Map::<char, usize>::empty()
    }
}

/// The execution was carried out, and `done` is what the graph is then: up to date with the
/// execution where it built or updated something, and otherwise as it was. Internal buffers
/// may be others.
pub open spec fn settled(
    before: CudaGraphOp,
    done: CudaGraphOp,
    e: Execution,
    dims: Map<char, usize>,
) -> bool {
    &&& done.dyn_dims_order == before.dyn_dims_order
    &&& done.kernels@.len() == before.kernels@.len()
    &&& forall|k: int|
        0 <= k < done.kernels@.len() ==> (#[trigger] done.kernels@[k]).node == before.kernels@[k].node
            && done.kernels@[k].inputs == before.kernels@[k].inputs
    &&& done.dyn_dims_buffer is Some <==> before.dyn_dims_buffer is Some || e.start.alloc_dyn_dims is Some
    &&& if e.build_args is Some || e.update_args is Some {
        done.built && done.last_dyn_values@ == dims && done.last_buffer_ptrs@ == e.ptrs@
    } else {
        done.built == before.built && done.last_dyn_values@ == before.last_dyn_values@
            && done.last_buffer_ptrs@ == before.last_buffer_ptrs@
    }
}

/// A new graph is in step with whatever the device holds.
pub proof fn law_new_graph_is_in_step(op: CudaGraphOp, d: OnDevice)
    requires
        !op.built,
        op.dyn_dims_buffer is None,
        op.last_dyn_values@ == Map::<char, usize>::empty(),
    ensures
        in_step(op, d),
{
}

proof fn lemma_pointers(kernels: Seq<CompiledKernel>, ptrs: Map<usize, u64>, args: Seq<KernelArgs>)
    requires
        args_for(kernels, ptrs, args),
    ensures
        pointers_in(args) == pointers_for(kernels, ptrs),
{
    let (a, b) = (pointers_in(args), pointers_for(kernels, ptrs));
    assert forall|k: int| 0 <= k < kernels.len() implies #[trigger] a[k] == b[k] by {
        assert(args[k].output == ptr_or_null(ptrs, kernels[k].node));
        assert(args[k].inputs@ == kernels[k].inputs@.map_values(|n: usize| ptr_or_null(ptrs, n)));
    }
    assert(a =~= b);
}

/// What is launched is made of the buffers and dimensions of this execution alone: the nodes
/// hold its pointers and shapes, and the buffer of dimensions holds its values. Nothing of an
/// earlier execution is left.
pub proof fn law_launch_is_of_this_execution(
    before: CudaGraphOp,
    after: CudaGraphOp,
    d: OnDevice,
    raw_ptrs: Map<usize, u64>,
    dims: Map<char, usize>,
    settings: LaunchSettings,
    e: Execution,
)
    requires
        in_step(before, d),
        before.executed(after, raw_ptrs, dims, settings, Ok(e)),
    ensures
        carried_out(d, e, dims).args == pointers_for(before.kernels@, before.own_ptrs(raw_ptrs)),
        carried_out(d, e, dims).shaped_for == dims,
        before.dyn_dims_order@.len() > 0 ==> carried_out(d, e, dims).dim_values
            == before.dim_values(dims),
{
    let ptrs = before.own_ptrs(raw_ptrs);
    if let Some(args) = e.build_args {
        lemma_pointers(before.kernels@, ptrs, args@);
    }
    if let Some(args) = e.update_args {
        lemma_pointers(before.kernels@, ptrs, args@);
    }
    if before.dyn_dims_order@.len() > 0 && e.start.dyn_values is None && before.dyn_dims_buffer is None {
        let zeros = carried_out(d, e, dims).dim_values;
        let n = e.start.alloc_dyn_dims->0;
        assert(before.dyn_dims_order.len() == before.dyn_dims_order@.len());
        assert(n == before.dyn_dims_order@.len());
        assert(zeros =~= before.dim_values(dims));
    }
}

/// Once an execution is carried out, the graph is in step with the device again.
pub proof fn law_executions_keep_step(
    before: CudaGraphOp,
    after: CudaGraphOp,
    done: CudaGraphOp,
    d: OnDevice,
    raw_ptrs: Map<usize, u64>,
    dims: Map<char, usize>,
    settings: LaunchSettings,
    e: Execution,
)
    requires
        in_step(before, d),
        before.executed(after, raw_ptrs, dims, settings, Ok(e)),
        settled(before, done, e, dims),
    ensures
        in_step(done, carried_out(d, e, dims)),
        done.built,
        done.last_dyn_values@ == dims,
        done.last_buffer_ptrs@ == before.own_ptrs(raw_ptrs),
{
    law_launch_is_of_this_execution(before, after, d, raw_ptrs, dims, settings, e);
    let (a, b) = (
        pointers_for(done.kernels@, e.ptrs@),
        pointers_for(before.kernels@, e.ptrs@),
    );
    assert forall|k: int| 0 <= k < b.len() implies #[trigger] a[k] == b[k] by {
        assert(done.kernels@[k].node == before.kernels@[k].node);
    }
    assert(a =~= b);
}

/// An execution repeated with the same buffers and dimensions has nothing to build, update or
/// write, and launches what the first one launched.
pub proof fn law_repeated_execution_launches_the_same(
    before: CudaGraphOp,
    after: CudaGraphOp,
    done: CudaGraphOp,
    later: CudaGraphOp,
    d: OnDevice,
    raw_ptrs: Map<usize, u64>,
    dims: Map<char, usize>,
    settings: LaunchSettings,
    e: Execution,
    again: Execution,
)
    requires
        in_step(before, d),
        before.executed(after, raw_ptrs, dims, settings, Ok(e)),
        settled(before, done, e, dims),
        done.buffer_nodes == before.buffer_nodes,
        done.executed(later, raw_ptrs, dims, settings, Ok(again)),
    ensures
        again.build_args is None,
        again.update_args is None,
        again.start.dyn_values is None,
        again.start.alloc_dyn_dims is None,
        carried_out(carried_out(d, e, dims), again, dims) == carried_out(d, e, dims),
{
    law_executions_keep_step(before, after, done, d, raw_ptrs, dims, settings, e);
    law_up_to_date_graph_is_ready(done, dims, done.own_ptrs(raw_ptrs));
}

/// Two graphs of the same kernels, whatever they were executed with before, launch the same
/// when they are executed with the same buffers and dimensions.
pub proof fn law_launch_does_not_depend_on_the_past(
    one: CudaGraphOp,
    two: CudaGraphOp,
    one_after: CudaGraphOp,
    two_after: CudaGraphOp,
    d1: OnDevice,
    d2: OnDevice,
    raw_ptrs: Map<usize, u64>,
    dims: Map<char, usize>,
    settings: LaunchSettings,
    e1: Execution,
    e2: Execution,
)
    requires
        in_step(one, d1),
        in_step(two, d2),
        one.kernels == two.kernels,
        one.buffer_nodes == two.buffer_nodes,
        one.dyn_dims_order == two.dyn_dims_order,
        one.executed(one_after, raw_ptrs, dims, settings, Ok(e1)),
        two.executed(two_after, raw_ptrs, dims, settings, Ok(e2)),
    ensures
        carried_out(d1, e1, dims).args == carried_out(d2, e2, dims).args,
        carried_out(d1, e1, dims).shaped_for == carried_out(d2, e2, dims).shaped_for,
        one.dyn_dims_order@.len() > 0 ==> carried_out(d1, e1, dims).dim_values == carried_out(
            d2,
            e2,
            dims,
        ).dim_values,
        e1.launch.launch == e2.launch.launch,
{
    law_launch_is_of_this_execution(one, one_after, d1, raw_ptrs, dims, settings, e1);
    law_launch_is_of_this_execution(two, two_after, d2, raw_ptrs, dims, settings, e2);
}

/// The buffer of dynamic dimensions holds the value of each dimension at its own place, and 0
/// for one that has none; no other dimension matters.
pub proof fn law_each_dimension_has_its_place(
    op: CudaGraphOp,
    dims: Map<char, usize>,
    other: Map<char, usize>,
    i: int,
)
    requires
        0 <= i < op.dyn_dims_order@.len(),
    ensures
        op.dim_values(dims).len() == op.dyn_dims_order@.len(),
        ({
            let d = op.dyn_dims_order@[i];
            &&& dims.contains_key(d) && dims[d] <= i32::MAX ==> op.dim_values(dims)[i] == dims[d]
            &&& !dims.contains_key(d) ==> op.dim_values(dims)[i] == 0
            &&& dims.contains_key(d) == other.contains_key(d) && (dims.contains_key(d) ==> dims[d]
                == other[d]) ==> op.dim_values(dims)[i] == op.dim_values(other)[i]
        }),
{
}

/// Kernels are launched with the pointers of their own buffers among those handed in: each
/// with that of its node as output and those of its inputs in their order.
pub proof fn law_kernels_get_their_buffers(
    op: CudaGraphOp,
    raw_ptrs: Map<usize, u64>,
    args: Seq<KernelArgs>,
    k: int,
    j: int,
)
    requires
        args_for(op.kernels@, op.own_ptrs(raw_ptrs), args),
        0 <= k < op.kernels@.len(),
        0 <= j < op.kernels@[k].inputs@.len(),
    ensures
        args.len() == op.kernels@.len(),
        args[k].inputs@.len() == op.kernels@[k].inputs@.len(),
        op.buffer_nodes@.contains(op.kernels@[k].node) && raw_ptrs.contains_key(op.kernels@[k].node)
            ==> args[k].output == raw_ptrs[op.kernels@[k].node],
        op.buffer_nodes@.contains(op.kernels@[k].inputs@[j]) && raw_ptrs.contains_key(
            op.kernels@[k].inputs@[j],
        ) ==> args[k].inputs@[j] == raw_ptrs[op.kernels@[k].inputs@[j]],
        !raw_ptrs.contains_key(op.kernels@[k].node) ==> args[k].output == 0,
{
    let n = op.kernels@[k].node;
    let i = op.kernels@[k].inputs@[j];
    assert(op.buffer_nodes@.contains(n) <==> op.buffer_nodes@.to_set().contains(n));
    assert(op.buffer_nodes@.contains(i) <==> op.buffer_nodes@.to_set().contains(i));
    assert(args[k].output == ptr_or_null(op.own_ptrs(raw_ptrs), n));
    assert(args[k].inputs@ == op.kernels@[k].inputs@.map_values(
        |m: usize| ptr_or_null(op.own_ptrs(raw_ptrs), m),
    ));
}

/// Internal buffers are allocated anew if a dimension that the size of one depends on came,
/// went or has another value, and otherwise not.
pub proof fn law_internal_buffers_follow_their_dims(
    op: CudaGraphOp,
    dims: Map<char, usize>,
    k: int,
    i: int,
)
    requires
        0 <= k < op.kernels@.len(),
        0 <= i < op.kernels@[k].internal_dims@.len(),
    ensures
        ({
            let d = op.kernels@[k].internal_dims@[i];
            let last = op.last_dyn_values@;
            &&& dims.contains_key(d) && last.contains_key(d) && dims[d] != last[d]
                ==> op.internal_dims_changed(dims)
            &&& dims.contains_key(d) != last.contains_key(d) ==> op.internal_dims_changed(dims)
            &&& !op.internal_dims_changed(dims) ==> (dims.contains_key(d) <==> last.contains_key(d))
                && (dims.contains_key(d) ==> dims[d] == last[d])
        }),
{
    let d = op.kernels@[k].internal_dims@[i];
    if dim_differs(dims, op.last_dyn_values@, d) {
        assert(kernel_dims_changed(op.kernels@[k], dims, op.last_dyn_values@));
    }
}

/// An execution goes on only with every buffer that the graph needs: each of its nodes has one
/// unless its output is known to be empty.
pub proof fn law_execution_has_its_buffers(
    op: CudaGraphOp,
    after: CudaGraphOp,
    raw_ptrs: Map<usize, u64>,
    dims: Map<char, usize>,
    settings: LaunchSettings,
    e: Execution,
    n: usize,
)
    requires
        op.executed(after, raw_ptrs, dims, settings, Ok(e)),
        op.buffer_nodes@.contains(n),
        !op.buffer_sizes@.contains_key(n) || op.buffer_sizes@[n] != Some(0usize),
    ensures
        raw_ptrs.contains_key(n),
        e.ptrs@.contains_key(n) && e.ptrs@[n] == raw_ptrs[n],
{
    let ptrs = op.own_ptrs(raw_ptrs);
    let pred = |m: usize| !ptrs.contains_key(m) && op.expects_buffer(m);
    assert(op.buffer_nodes@.to_set().contains(n));
    if !raw_ptrs.contains_key(n) {
        let i = choose|i: int| 0 <= i < op.buffer_nodes@.len() && op.buffer_nodes@[i] == n;
        lemma_filter_keeps(op.buffer_nodes@, pred, i);
        assert(op.missing(ptrs).len() > 0);
        assert(false);
    }
}

proof fn lemma_filter_keeps(s: Seq<usize>, pred: spec_fn(usize) -> bool, i: int)
    requires
        0 <= i < s.len(),
        pred(s[i]),
    ensures
        s.filter(pred).len() > 0,
    decreases s.len(),
{
    reveal(Seq::filter);
    if i < s.len() - 1 {
        lemma_filter_keeps(s.drop_last(), pred, i);
    }
}

/// A graph that is not built is built; one that is up to date with other dimensions or buffers
/// is updated; and the values of dimensions are written when one has changed.
pub proof fn law_out_of_date_graph_is_renewed(
    op: CudaGraphOp,
    after: CudaGraphOp,
    raw_ptrs: Map<usize, u64>,
    dims: Map<char, usize>,
    settings: LaunchSettings,
    e: Execution,
)
    requires
        op.executed(after, raw_ptrs, dims, settings, Ok(e)),
    ensures
        !op.built ==> e.build_args is Some,
        dims != op.last_dyn_values@ ==> e.update_args is Some,
        dims != op.last_dyn_values@ && op.dyn_dims_order@.len() > 0 ==> e.start.dyn_values is Some,
        e.ptrs@ != op.last_buffer_ptrs@ ==> e.build_args is Some || e.update_args is Some,
        op.dyn_dims_order@.len() > 0 && op.dyn_dims_buffer is None ==> e.start.alloc_dyn_dims is Some,
        e.prepare@.len() == op.kernels@.len(),
        forall|i: int| 0 <= i < op.kernels@.len() ==> #[trigger] e.prepare@[i] == i,
{
    assert(op.kernels.len() == op.kernels@.len());
}

/// Within a capture nothing waits and no context is bound; outside, the stream is waited for
/// before a graph that was built or updated is launched. Exactly one way of launching is
/// taken, and none where none is wanted.
pub proof fn law_launch_goes_by_the_settings(
    op: CudaGraphOp,
    after: CudaGraphOp,
    raw_ptrs: Map<usize, u64>,
    dims: Map<char, usize>,
    settings: LaunchSettings,
    e: Execution,
)
    requires
        op.executed(after, raw_ptrs, dims, settings, Ok(e)),
    ensures
        settings.capturing ==> !e.launch.bind_for_update && !e.launch.sync_before,
        !settings.capturing && (e.build_args is Some || e.update_args is Some)
            ==> e.launch.sync_before,
        !settings.capturing && e.update_args is Some ==> e.launch.bind_for_update,
        !settings.capturing && settings.sync_debug ==> e.launch.sync_before,
        e.launch.launch is Skip <==> !settings.launch_graph,
        e.launch.launch is Individually <==> settings.launch_graph && settings.no_cuda_graph,
        e.launch.launch is Captured <==> settings.launch_graph && !settings.no_cuda_graph
            && settings.capturing,
        e.launch.launch is Graph <==> settings.launch_graph && !settings.no_cuda_graph
            && !settings.capturing,
        e.launch.sync_after <==> settings.launch_graph && settings.sync_debug,
{
}

/// A captured graph is replayed only if no internal pointer of any kernel, nor that of the
/// dimensions, has moved since.
pub proof fn law_moved_internal_buffer_forbids_replay(
    op: CudaGraphOp,
    captured: Vec<u64>,
    a: Seq<CompiledKernel>,
    k: CompiledKernel,
    b: Seq<CompiledKernel>,
    ptrs: Map<usize, u64>,
    dims: Map<char, usize>,
)
    requires
        op.kernels@ == a.push(k) + b,
        op.runtime_capture_internal_ptrs == Some(captured),
        op.replayable(ptrs, dims),
    ensures
        captured@.len() == internal_ptrs(a).len() + k.internal_bufs@.len() + internal_ptrs(b).len()
            + 1,
        forall|j: int|
            0 <= j < k.internal_bufs@.len() ==> captured@[internal_ptrs(a).len() + j]
                == #[trigger] k.internal_bufs@[j],
        captured@.last() == (match op.dyn_dims_buffer {
            Some(p) => p,
            None => 0,
        }),
        dims == op.last_dyn_values@,
        ptrs == op.last_buffer_ptrs@,
{
    lemma_internal_ptrs_join(a.push(k), b);
    assert(a.push(k).drop_last() =~= a);
    assert(a.push(k).last() == k);
    assert(internal_ptrs(a.push(k)) == internal_ptrs(a) + k.internal_bufs@);
}

proof fn lemma_internal_ptrs_join(a: Seq<CompiledKernel>, b: Seq<CompiledKernel>)
    ensures
        internal_ptrs(a + b) == internal_ptrs(a) + internal_ptrs(b),
    decreases b.len(),
{
    if b.len() == 0 {
        assert(a + b =~= a);
        assert(internal_ptrs(a) + internal_ptrs(b) =~= internal_ptrs(a));
    } else {
        lemma_internal_ptrs_join(a, b.drop_last());
        assert((a + b).drop_last() =~= a + b.drop_last());
        assert((a + b).last() == b.last());
        assert(internal_ptrs(a + b) =~= internal_ptrs(a) + internal_ptrs(b));
    }
}

/// A graph that is built or updated has the pointers of every kernel: of each input, and of
/// the output where the kernel has one. Before a capture an output's pointer is not null
/// either.
pub proof fn law_launched_kernels_have_their_pointers(
    op: CudaGraphOp,
    after: CudaGraphOp,
    raw_ptrs: Map<usize, u64>,
    dims: Map<char, usize>,
    settings: LaunchSettings,
    e: Execution,
    k: int,
    j: int,
)
    requires
        op.executed(after, raw_ptrs, dims, settings, Ok(e)),
        e.build_args is Some || e.update_args is Some,
        0 <= k < op.kernels@.len(),
        0 <= j < op.kernels@[k].inputs@.len(),
    ensures
        raw_ptrs.contains_key(op.kernels@[k].inputs@[j]),
        op.buffer_nodes@.contains(op.kernels@[k].inputs@[j]),
        op.kernels@[k].has_output ==> raw_ptrs.contains_key(op.kernels@[k].node)
            && op.buffer_nodes@.contains(op.kernels@[k].node),
        forall|ptrs: Map<usize, u64>|
            #![trigger all_present(op.kernels@, ptrs, true)]
            all_present(op.kernels@, ptrs, true) && op.kernels@[k].has_output
                ==> ptrs.contains_key(op.kernels@[k].node) && ptrs[op.kernels@[k].node] != 0,
{
    let ptrs = op.own_ptrs(raw_ptrs);
    assert(all_present(op.kernels@, ptrs, false)) by {
        if !all_present(op.kernels@, ptrs, false) {
            assert(op.must_build(dims) || op.must_update(dims, ptrs));
        }
    }
    assert(kernel_present(op.kernels@[k], ptrs, false));
    assert(ptrs.contains_key(op.kernels@[k].inputs@[j]));
    assert forall|ptrs: Map<usize, u64>|
        #![trigger all_present(op.kernels@, ptrs, true)]
        all_present(op.kernels@, ptrs, true) && op.kernels@[k].has_output implies ptrs.contains_key(
        op.kernels@[k].node,
    ) && ptrs[op.kernels@[k].node] != 0 by {
        assert(kernel_present(op.kernels@[k], ptrs, true));
    }
}

/// The buffer that is reported is missing, and nothing before it is: the kernels come in their
/// order, and of each the output before the inputs.
pub proof fn law_first_missing_buffer(
    kernels: Seq<CompiledKernel>,
    ptrs: Map<usize, u64>,
    strict: bool,
    m: MissingBuffer,
    k: int,
    j: int,
)
    requires
        is_first_missing(kernels, ptrs, strict, m),
        0 <= k < kernels.len(),
        0 <= j < kernels[k].inputs@.len(),
        !ptrs.contains_key(kernels[k].inputs@[j]),
    ensures
        match m {
            MissingBuffer::Output(i) => i <= k && kernels[i as int].has_output && (!ptrs.contains_key(
                kernels[i as int].node,
            ) || strict && ptrs[kernels[i as int].node] == 0),
            MissingBuffer::Input(i, l) => (i < k || i == k && l <= j) && !ptrs.contains_key(
                kernels[i as int].inputs@[l as int],
            ),
        },
{
    assert(!kernel_present(kernels[k], ptrs, strict));
}

} // verus!
