//! The runtime's books: which buffers there are, what they belong to, what changed,
//! and what an execution has to do about it.

use crate::device::{CudaInput, DeviceBuffer};
use crate::digraph::{empty_graph, node_indices, predecessors, DiGraph};
#[allow(unused_imports)]
use crate::digraph::{arcs, entering, graph_edges, graph_nodes};
use crate::dims::{DimSet, DynMap};
#[allow(unused_imports)]
use crate::dims::{ascending_entries, entry_map, lemma_entry_map};
#[allow(unused_imports)]
use crate::exec_graph::{exec_graph_of, ExecutableHostOp};
use crate::exec_graph::{build_exec_graph, ExecGraph};
use crate::replay::{ReplayAction, ReplaySettings, RuntimeReplayCache, RuntimeReplaySignature};
#[allow(unused_imports)]
use crate::replay::{action_in, announced};
#[allow(unused_imports)]
use crate::runtime_graph::executes;
#[allow(unused_imports)]
use crate::walk::rising;
use crate::walk::{sorted_keys, sorted_members};
use std::collections::{HashMap, HashSet};
use vstd::prelude::*;

verus! {

broadcast use vstd::std_specs::hash::group_hash_axioms;

/// What kind of operation a node is.
#[derive(Debug, Clone, Copy, PartialEq, Eq, Structural)]
pub enum OpKind {
    /// An input, which the tensor node with this index stands for.
    Input(usize),
    /// An output, which the tensor node with this index is read from.
    Output(usize),
    /// A block operation.
    Block,
    /// A kernel.
    Kernel,
    /// A host operation.
    Host,
    /// Anything else.
    Other,
}

/// An operation of the graph.
#[derive(Debug)]
pub struct LlirOp {
    pub kind: OpKind,
    /// The dynamic dimensions in the size of its output.
    pub dyn_vars: Vec<char>,
}

/// What the runtime needs to know of a host operation.
#[derive(Debug)]
pub struct HostOpInfo {
    /// Whether it is a CUDA graph.
    pub cuda_graph: bool,
    /// The name for statistics, if it is reported.
    pub stats_name: Option<String>,
    /// Nodes beyond its edges that it needs buffers for.
    pub extra_buffer_nodes: Vec<usize>,
    /// Nodes whose buffers must be zeroed before it runs.
    pub zero_output_nodes: Vec<usize>,
}

/// The buffers to allocate.
#[derive(Debug)]
pub struct AllocationPlan {
    /// Nodes and sizes in bytes, in ascending order of the nodes.
    pub buffers: Vec<(usize, usize)>,
    /// The sum of the sizes.
    pub total_bytes: u128,
}

/// How input data is to be uploaded.
#[derive(Debug, Clone, Copy, PartialEq, Eq, Structural)]
pub enum Upload {
    /// Into the buffer that is there.
    Reuse(DeviceBuffer),
    /// Into a new buffer.
    Fresh,
}

/// Why a part of a buffer cannot be written.
#[derive(Debug, Clone, Copy, PartialEq, Eq, Structural)]
pub enum SliceError {
    /// The node has no input.
    NoBuffer,
    /// The node's input is a bare pointer.
    NotABuffer,
    /// The part does not lie within the buffer.
    OutOfRange,
}

/// Why an output cannot be read.
#[derive(Debug, Clone, Copy, PartialEq, Eq, Structural)]
pub enum OutputError {
    /// No operation is the output of that node.
    NoOutput,
    /// The output operation reads nothing.
    NoSource,
    /// What the output operation reads has no buffer.
    NoBuffer,
}

/// What an execution runs under.
#[derive(Debug, Clone, Copy, PartialEq, Eq, Structural)]
pub struct ExecuteSettings {
    /// Whether all host operations are on the runtime's own stream.
    pub single_stream: bool,
    /// Wait for the stream after every host operation.
    pub sync_debug: bool,
    /// Zero all intermediate buffers, and not only those that need it.
    pub force_zero_all: bool,
    /// Replay recorded executions, unless every host operation is waited for.
    pub graph_replay: bool,
    /// Record anew in place of a replay.
    pub force_recapture: bool,
}

/// Why an execution cannot begin.
#[derive(Debug, Clone, Copy, PartialEq, Eq, Structural)]
pub enum ExecuteRefusal {
    /// Host operations on several streams, and nothing that orders them.
    ManyStreams,
    /// The graph reads this tensor node, and it has no input.
    NoInput(usize),
}

/// The runtime's books.
#[derive(Debug)]
pub struct CudaRuntime {
    /// Inputs by tensor node.
    pub hlir_buffers: HashMap<usize, CudaInput>,
    /// Intermediate buffers by operation node.
    pub buffers: HashMap<usize, DeviceBuffer>,
    /// The shape of the operation graph.
    pub llir_graph: DiGraph,
    /// The operations by node.
    pub llir_ops: HashMap<usize, LlirOp>,
    /// The host operations by node.
    pub host_ops: HashMap<usize, HostOpInfo>,
    /// The order of the host operations.
    pub exec_graph: ExecGraph,
    /// The dimensions that the intermediate buffers were allocated for.
    pub last_dyn_map: DynMap,
    /// The dimensions that their sizes depend on.
    pub intermediate_buffer_dims: DimSet,
    /// From operation nodes that are inputs to their tensor nodes.
    pub llir_to_hlir: HashMap<usize, usize>,
    /// And back.
    pub hlir_to_llir: HashMap<usize, usize>,
    /// The tensor nodes whose input was replaced since its pointer was last cached.
    pub changed_hlir: HashSet<usize>,
    /// The operation nodes whose buffers must be zeroed before an execution.
    pub buffers_requiring_zero: HashSet<usize>,
    /// Device pointers by operation node.
    pub cached_buffer_ptrs: HashMap<usize, u64>,
    /// The recording of an execution.
    pub runtime_replay: RuntimeReplayCache,
}

/// The operation gets an intermediate buffer, if its output is not empty.
pub open spec fn has_intermediate(ops: Map<usize, LlirOp>, n: usize) -> bool {
    ops.contains_key(n) && (ops[n].kind == OpKind::Block || ops[n].kind == OpKind::Kernel
        || ops[n].kind == OpKind::Host)
}

/// The size of the operation's buffer decides when buffers are allocated anew.
pub open spec fn tracks_dims(ops: Map<usize, LlirOp>, n: usize) -> bool {
    ops.contains_key(n) && (ops[n].kind == OpKind::Block || ops[n].kind == OpKind::Kernel)
}

/// The sum of the sizes.
pub open spec fn total_size(buffers: Seq<(usize, usize)>) -> nat
    decreases buffers.len(),
{
    if buffers.len() == 0 {
        0
    } else {
        total_size(buffers.drop_last()) + buffers.last().1 as nat
    }
}

/// The pointer of node `n` is to be cached anew: its tensor node is among `changed`
/// and has an input.
pub open spec fn to_cache(
    llir_to_hlir: Map<usize, usize>,
    hlir_to_llir: Map<usize, usize>,
    hlir_buffers: Map<usize, CudaInput>,
    changed: Set<usize>,
    n: usize,
) -> bool {
    &&& llir_to_hlir.contains_key(n)
    &&& changed.contains(llir_to_hlir[n])
    &&& hlir_to_llir.contains_key(llir_to_hlir[n])
    &&& hlir_to_llir[llir_to_hlir[n]] == n
    &&& hlir_buffers.contains_key(llir_to_hlir[n])
}

/// The cached pointers with those of changed inputs.
pub open spec fn cached_anew(
    cached: Map<usize, u64>,
    llir_to_hlir: Map<usize, usize>,
    hlir_to_llir: Map<usize, usize>,
    hlir_buffers: Map<usize, CudaInput>,
    changed: Set<usize>,
) -> Map<usize, u64> {
    Map::new(
        |n: usize|
            cached.contains_key(n) || to_cache(
                llir_to_hlir,
                hlir_to_llir,
                hlir_buffers,
                changed,
                n,
            ),
        |n: usize|
            if to_cache(llir_to_hlir, hlir_to_llir, hlir_buffers, changed, n) {
                hlir_buffers[llir_to_hlir[n]].address()
            } else {
                cached[n]
            },
    )
}

/// `n` is the last operation node that is the input of tensor node `h`.
pub open spec fn last_input_node(
    nodes: Set<usize>,
    ops: Map<usize, LlirOp>,
    h: usize,
    n: usize,
) -> bool {
    &&& is_input_node(nodes, ops, h, n)
    &&& forall|m: usize| #[trigger] is_input_node(nodes, ops, h, m) ==> m <= n
}

/// `n` is an operation node that is the input of tensor node `h`.
pub open spec fn is_input_node(
    nodes: Set<usize>,
    ops: Map<usize, LlirOp>,
    h: usize,
    n: usize,
) -> bool {
    nodes.contains(n) && ops.contains_key(n) && ops[n].kind == OpKind::Input(h)
}

/// `n` is an operation node that is an output of tensor node `id`.
pub open spec fn is_output_node(
    nodes: Set<usize>,
    ops: Map<usize, LlirOp>,
    id: usize,
    n: usize,
) -> bool {
    nodes.contains(n) && ops.contains_key(n) && ops[n].kind == OpKind::Output(id)
}

/// `n` is the first output of tensor node `id`.
pub open spec fn first_output_node(
    nodes: Set<usize>,
    ops: Map<usize, LlirOp>,
    id: usize,
    n: usize,
) -> bool {
    &&& is_output_node(nodes, ops, id, n)
    &&& forall|m: usize| #[trigger] is_output_node(nodes, ops, id, m) ==> n <= m
}

/// Some dimension that buffer sizes depend on has another value than before.
pub open spec fn buffer_dims_changed(
    dims: Map<char, usize>,
    last: Map<char, usize>,
    watched: Set<char>,
) -> bool {
    exists|d: char| #[trigger]
        dims.contains_key(d) && watched.contains(d) && (!last.contains_key(d) || last[d] != dims[d])
}

impl CudaRuntime {
    /// The parts are in order, and the maps between tensor and operation nodes agree.
    pub open spec fn wf(&self) -> bool {
        &&& self.last_dyn_map.wf()
        &&& self.intermediate_buffer_dims.wf()
        &&& self.runtime_replay.wf()
        &&& forall|h: usize| #[trigger]
            self.hlir_to_llir@.contains_key(h) ==> self.llir_to_hlir@.contains_key(
                self.hlir_to_llir@[h],
            ) && self.llir_to_hlir@[self.hlir_to_llir@[h]] == h
    }

    /// The books on inputs agree: the nodes that they list are inputs of the graph, and a
    /// pointer that is cached for an input is the one that it has, unless it was replaced
    /// since.
    pub open spec fn in_order(&self) -> bool {
        &&& forall|n: usize| #[trigger]
            self.llir_to_hlir@.contains_key(n) ==> self.hlir_to_llir@.contains_key(
                self.llir_to_hlir@[n],
            ) && is_input_node(
                graph_nodes(self.llir_graph),
                self.llir_ops@,
                self.llir_to_hlir@[n],
                n,
            )
        &&& forall|h: usize|
            #[trigger] self.hlir_to_llir@.contains_key(h) && self.cached_buffer_ptrs@.contains_key(
                self.hlir_to_llir@[h],
            ) ==> self.hlir_buffers@.contains_key(h) && (self.changed_hlir@.contains(h)
                || self.cached_buffer_ptrs@[self.hlir_to_llir@[h]]
                == self.hlir_buffers@[h].address())
    }

    /// All but the inputs' side of the books is as in `before`.
    pub open spec fn same_graph(&self, before: &CudaRuntime) -> bool {
        &&& self.llir_graph == before.llir_graph
        &&& self.llir_ops == before.llir_ops
        &&& self.host_ops == before.host_ops
        &&& self.exec_graph == before.exec_graph
        &&& self.llir_to_hlir == before.llir_to_hlir
        &&& self.hlir_to_llir == before.hlir_to_llir
        &&& self.buffers_requiring_zero == before.buffers_requiring_zero
    }

    /// A runtime without graph and buffers.
    pub fn new() -> (r: CudaRuntime)
        ensures
            r.wf(),
            r.in_order(),
            r.hlir_buffers@ == Map::<usize, CudaInput>::empty(),
            r.buffers@ == Map::<usize, DeviceBuffer>::empty(),
            r.cached_buffer_ptrs@ == Map::<usize, u64>::empty(),
            r.changed_hlir@ == Set::<usize>::empty(),
            r.hlir_to_llir@ == Map::<usize, usize>::empty(),
            r.llir_to_hlir@ == Map::<usize, usize>::empty(),
            r.buffers_requiring_zero@ == Set::<usize>::empty(),
            graph_nodes(r.llir_graph) == Set::<usize>::empty(),
            graph_nodes(r.exec_graph.graph) == Set::<usize>::empty(),
            graph_edges(r.llir_graph) == Map::<usize, (usize, usize)>::empty(),
            graph_edges(r.exec_graph.graph) == Map::<usize, (usize, usize)>::empty(),
            r.llir_ops@ == Map::<usize, LlirOp>::empty(),
            r.host_ops@ == Map::<usize, HostOpInfo>::empty(),
            r.exec_graph.ops@ == Map::<usize, ExecutableHostOp>::empty(),
            r.exec_graph.node_to_exec@ == Map::<usize, usize>::empty(),
            executes(r),
            r.last_dyn_map@ == Map::<char, usize>::empty(),
            r.last_dyn_map.count() == 0,
            r.intermediate_buffer_dims@ == Set::<char>::empty(),
            r.runtime_replay.is_fresh(),
    {
        let r = CudaRuntime {
            hlir_buffers: HashMap::new(),
            buffers: HashMap::new(),
            llir_graph: empty_graph(),
            llir_ops: HashMap::new(),
            host_ops: HashMap::new(),
            exec_graph: ExecGraph {
                graph: empty_graph(),
                ops: HashMap::new(),
                node_to_exec: HashMap::new(),
            },
            last_dyn_map: DynMap::new(),
            intermediate_buffer_dims: DimSet::new(),
            llir_to_hlir: HashMap::new(),
            hlir_to_llir: HashMap::new(),
            changed_hlir: HashSet::new(),
            buffers_requiring_zero: HashSet::new(),
            cached_buffer_ptrs: HashMap::new(),
            runtime_replay: RuntimeReplayCache::new(),
        };
        proof {
            assert(graph_edges(r.llir_graph) =~= Map::<usize, (usize, usize)>::empty());
            assert(graph_edges(r.exec_graph.graph) =~= Map::<usize, (usize, usize)>::empty());
        }
        r
    }

    /// Tensor node `id` has a new input.
    pub fn set_data(&mut self, id: usize, input: CudaInput)
        requires
            old(self).wf(),
        ensures
            final(self).wf(),
            old(self).in_order() ==> final(self).in_order(),
            final(self).same_graph(old(self)),
            final(self).hlir_buffers@ == old(self).hlir_buffers@.insert(id, input),
            final(self).changed_hlir@ == old(self).changed_hlir@.insert(id),
            final(self).buffers == old(self).buffers,
            final(self).cached_buffer_ptrs == old(self).cached_buffer_ptrs,
            final(self).last_dyn_map == old(self).last_dyn_map,
            final(self).intermediate_buffer_dims == old(self).intermediate_buffer_dims,
            final(self).runtime_replay == old(self).runtime_replay,
    {
        self.hlir_buffers.insert(id, input);
        self.changed_hlir.insert(id);
    }

    /// How data of so many bytes is to be uploaded for tensor node `id`: into the
    /// buffer that is there if the size matches, so that its pointer stays. A fresh
    /// buffer is reported with `set_data`.
    pub fn set_data_bytes_reuse(&self, id: usize, byte_len: usize) -> (r: Upload)
        ensures
            r == match self.hlir_buffers@.contains_key(id) {
                true => match self.hlir_buffers@[id] {
                    CudaInput::Buffer(b) => if b.len == byte_len {
                        Upload::Reuse(b)
                    } else {
                        Upload::Fresh
                    },
                    CudaInput::Ptr(_) => Upload::Fresh,
                },
                false => Upload::Fresh,
            },
    {
        if let Some(CudaInput::Buffer(b)) = self.hlir_buffers.get(&id) {
            if b.len == byte_len {
                return Upload::Reuse(*b);
            }
        }
        Upload::Fresh
    }

    /// Where so many 4-byte numbers go in the buffer of tensor node `id`, from a byte
    /// offset on: the buffer, and the part's start and end in bytes. The pointer stays,
    /// so the input does not count as changed.
    pub fn update_buffer_slice(&self, id: usize, byte_offset: usize, numbers: usize) -> (r: Result<
        (DeviceBuffer, usize, usize),
        SliceError,
    >)
        ensures
            r matches Err(SliceError::NoBuffer) <==> !self.hlir_buffers@.contains_key(id),
            r matches Err(SliceError::NotABuffer) <==> self.hlir_buffers@.contains_key(id)
                && self.hlir_buffers@[id] is Ptr,
            r matches Err(SliceError::OutOfRange) <==> self.hlir_buffers@.contains_key(id) && (
            self.hlir_buffers@[id] matches CudaInput::Buffer(b) && byte_offset + 4 * numbers
                > b.len),
            r matches Ok(part) ==> self.hlir_buffers@.contains_key(id) && self.hlir_buffers@[id]
                == CudaInput::Buffer(part.0) && part.1 == byte_offset && part.2 == byte_offset + 4
                * numbers && part.2 <= part.0.len,
    {
        match self.hlir_buffers.get(&id) {
            Some(CudaInput::Buffer(b)) => {
                if byte_offset <= b.len && numbers <= (b.len - byte_offset) / 4 {
                    Ok((*b, byte_offset, byte_offset + 4 * numbers))
                } else {
                    Err(SliceError::OutOfRange)
                }
            },
            Some(CudaInput::Ptr(_)) => Err(SliceError::NotABuffer),
            None => Err(SliceError::NoBuffer),
        }
    }

    /// The buffer that holds the data of tensor node `id`: that of what the first
    /// output operation of `id` reads, by the edge that was added last.
    pub fn get_output_data(&self, id: usize) -> (r: Result<DeviceBuffer, OutputError>)
        ensures
            r matches Err(OutputError::NoOutput) <==> forall|n: usize|
                !#[trigger] is_output_node(graph_nodes(self.llir_graph), self.llir_ops@, id, n),
            forall|n: usize| #[trigger]
                first_output_node(graph_nodes(self.llir_graph), self.llir_ops@, id, n) ==> r == ({
                    let sources = entering(self.llir_graph)[n];
                    if sources.len() == 0 {
                        Err(OutputError::NoSource)
                    } else if self.buffers@.contains_key(sources[0]) {
                        Ok(self.buffers@[sources[0]])
                    } else {
                        Err(OutputError::NoBuffer)
                    }
                }),
    {
        let nodes = node_indices(&self.llir_graph);
        let mut i: usize = 0;
        while i < nodes.len()
            invariant
                nodes@.to_set() == graph_nodes(self.llir_graph),
                forall|a: int, b: int| 0 <= a < b < nodes@.len() ==> nodes@[a] < nodes@[b],
                i <= nodes@.len(),
                forall|k: int|
                    0 <= k < i ==> !is_output_node(
                        graph_nodes(self.llir_graph),
                        self.llir_ops@,
                        id,
                        #[trigger] nodes@[k],
                    ),
            decreases nodes@.len() - i,
        {
            let n = nodes[i];
            assert(nodes@.to_set().contains(n));
            let found = match self.llir_ops.get(&n) {
                Some(op) => op.kind == OpKind::Output(id),
                None => false,
            };
            if found {
                proof {
                    assert(is_output_node(graph_nodes(self.llir_graph), self.llir_ops@, id, n));
                    assert forall|m: usize|
                        #[trigger] is_output_node(
                            graph_nodes(self.llir_graph),
                            self.llir_ops@,
                            id,
                            m,
                        ) implies n <= m by {
                        assert(nodes@.to_set().contains(m));
                        let k = choose|k: int| 0 <= k < nodes@.len() && nodes@[k] == m;
                        if k > i {
                            assert(nodes@[i as int] < nodes@[k]);
                        }
                    }
                    assert(first_output_node(graph_nodes(self.llir_graph), self.llir_ops@, id, n));
                }
                let sources = predecessors(&self.llir_graph, n);
                if sources.len() == 0 {
                    return Err(OutputError::NoSource);
                }
                let s = sources[0];
                return match self.buffers.get(&s) {
                    Some(b) => Ok(*b),
                    None => Err(OutputError::NoBuffer),
                };
            }
            i = i + 1;
        }
        proof {
            assert forall|n: usize|
                !#[trigger] is_output_node(graph_nodes(self.llir_graph), self.llir_ops@, id, n) by {
                if is_output_node(graph_nodes(self.llir_graph), self.llir_ops@, id, n) {
                    assert(nodes@.to_set().contains(n));
                    let k = choose|k: int| 0 <= k < nodes@.len() && nodes@[k] == n;
                    assert(!is_output_node(
                        graph_nodes(self.llir_graph),
                        self.llir_ops@,
                        id,
                        nodes@[k],
                    ));
                }
            }
        }
        Err(OutputError::NoOutput)
    }
}

impl CudaRuntime {
    /// Take up another operation graph. Intermediate buffers, cached pointers and the
    /// recording go; inputs stay, and all that the graph reads count as changed.
    /// Whether buffers can be allocated at once, for dimensions known from before.
    pub fn load_llir(
        &mut self,
        graph: DiGraph,
        ops: HashMap<usize, LlirOp>,
        host_ops: HashMap<usize, HostOpInfo>,
    ) -> (prebuild: bool)
        requires
            old(self).wf(),
        ensures
            final(self).wf(),
            final(self).in_order(),
            final(self).hlir_buffers == old(self).hlir_buffers,
            final(self).last_dyn_map == old(self).last_dyn_map,
            final(self).intermediate_buffer_dims == old(self).intermediate_buffer_dims,
            final(self).buffers@ == Map::<usize, DeviceBuffer>::empty(),
            final(self).cached_buffer_ptrs@ == Map::<usize, u64>::empty(),
            final(self).runtime_replay.is_fresh(),
            final(self).llir_graph == graph,
            final(self).llir_ops == ops,
            final(self).host_ops == host_ops,
            exec_graph_of(
                graph_nodes(graph),
                graph_edges(graph),
                host_ops@.dom(),
                final(self).exec_graph,
            ),
            forall|n: usize| #[trigger]
                final(self).buffers_requiring_zero@.contains(n) <==> exists|h: usize|
                    graph_nodes(graph).contains(h) && #[trigger] host_ops@.contains_key(h)
                        && host_ops@[h].zero_output_nodes@.contains(n),
            forall|n: usize| #[trigger]
                final(self).llir_to_hlir@.contains_key(n) <==> exists|h: usize| #[trigger]
                    is_input_node(graph_nodes(graph), ops@, h, n),
            forall|n: usize, h: usize| #[trigger]
                is_input_node(graph_nodes(graph), ops@, h, n) ==> final(self).llir_to_hlir@[n] == h,
            forall|h: usize| #[trigger]
                final(self).hlir_to_llir@.contains_key(h) <==> exists|n: usize| #[trigger]
                    is_input_node(graph_nodes(graph), ops@, h, n),
            forall|h: usize| #[trigger]
                final(self).hlir_to_llir@.contains_key(h) ==> last_input_node(
                    graph_nodes(graph),
                    ops@,
                    h,
                    final(self).hlir_to_llir@[h],
                ),
            forall|h: usize| #[trigger]
                final(self).changed_hlir@.contains(h) <==> exists|n: usize| #[trigger]
                    is_input_node(graph_nodes(graph), ops@, h, n),
            prebuild == (old(self).last_dyn_map.count() > 0),
    {
        let hosts = host_nodes(&host_ops);
        let exec_graph = build_exec_graph(&graph, &hosts);
        let zero = zero_nodes(&graph, &host_ops);
        let (llir_to_hlir, hlir_to_llir, changed) = input_maps(&graph, &ops);
        self.buffers = HashMap::new();
        self.cached_buffer_ptrs = HashMap::new();
        self.runtime_replay = RuntimeReplayCache::new();
        self.buffers_requiring_zero = zero;
        self.exec_graph = exec_graph;
        self.llir_graph = graph;
        self.llir_ops = ops;
        self.host_ops = host_ops;
        self.llir_to_hlir = llir_to_hlir;
        self.hlir_to_llir = hlir_to_llir;
        self.changed_hlir = changed;
        self.last_dyn_map.len() > 0
    }

    /// Drop the intermediate buffers and the recording.
    pub fn clear_intermediate_buffers(&mut self)
        requires
            old(self).wf(),
        ensures
            final(self).wf(),
            old(self).in_order() ==> final(self).in_order(),
            final(self).same_graph(old(self)),
            final(self).hlir_buffers == old(self).hlir_buffers,
            final(self).changed_hlir == old(self).changed_hlir,
            final(self).last_dyn_map == old(self).last_dyn_map,
            final(self).intermediate_buffer_dims == old(self).intermediate_buffer_dims,
            final(self).buffers@ == Map::<usize, DeviceBuffer>::empty(),
            final(self).cached_buffer_ptrs@ == Map::<usize, u64>::empty(),
            final(self).runtime_replay.is_fresh(),
    {
        self.buffers = HashMap::new();
        self.cached_buffer_ptrs = HashMap::new();
        self.runtime_replay = RuntimeReplayCache::new();
    }
}

/// The members of a map's domain.
fn host_nodes(host_ops: &HashMap<usize, HostOpInfo>) -> (r: HashSet<usize>)
    ensures
        r@ == host_ops@.dom(),
{
    let keys = sorted_keys(host_ops);
    let mut r: HashSet<usize> = HashSet::new();
    let mut i: usize = 0;
    while i < keys.len()
        invariant
            i <= keys@.len(),
            forall|n: usize| #[trigger]
                r@.contains(n) <==> exists|k: int| 0 <= k < i && #[trigger] keys@[k] == n,
        decreases keys@.len() - i,
    {
        r.insert(keys[i]);
        i = i + 1;
    }
    assert forall|n: usize| #[trigger] r@.contains(n) <==> host_ops@.dom().contains(n) by {
        assert(host_ops@.dom().contains(n) <==> keys@.to_set().contains(n));
    }
    assert(r@ =~= host_ops@.dom());
    r
}

/// The nodes that some host operation needs zeroed.
fn zero_nodes(graph: &DiGraph, host_ops: &HashMap<usize, HostOpInfo>) -> (r: HashSet<usize>)
    ensures
        forall|n: usize| #[trigger]
            r@.contains(n) <==> exists|h: usize|
                graph_nodes(*graph).contains(h) && #[trigger] host_ops@.contains_key(h)
                    && host_ops@[h].zero_output_nodes@.contains(n),
{
    let nodes = node_indices(graph);
    let mut r: HashSet<usize> = HashSet::new();
    let mut i: usize = 0;
    while i < nodes.len()
        invariant
            nodes@.to_set() == graph_nodes(*graph),
            i <= nodes@.len(),
            forall|n: usize| #[trigger]
                r@.contains(n) <==> exists|k: int|
                    0 <= k < i && host_ops@.contains_key(#[trigger] nodes@[k])
                        && host_ops@[nodes@[k]].zero_output_nodes@.contains(n),
        decreases nodes@.len() - i,
    {
        let h = nodes[i];
        let ghost r0 = r@;
        if let Some(info) = host_ops.get(&h) {
            let zs = &info.zero_output_nodes;
            let mut j: usize = 0;
            while j < zs.len()
                invariant
                    j <= zs@.len(),
                    forall|n: usize| #[trigger]
                        r@.contains(n) <==> r0.contains(n) || exists|k: int|
                            0 <= k < j && #[trigger] zs@[k] == n,
                decreases zs@.len() - j,
            {
                r.insert(zs[j]);
                j = j + 1;
            }
            assert forall|n: usize| #[trigger] r@.contains(n) <==> r0.contains(n) || zs@.contains(n) by {
            }
        }
        proof {
            assert forall|n: usize| #[trigger] r@.contains(n) <==> exists|k: int|
                0 <= k < i + 1 && host_ops@.contains_key(#[trigger] nodes@[k])
                    && host_ops@[nodes@[k]].zero_output_nodes@.contains(n) by {
                assert(r@.contains(n) <==> r0.contains(n) || (host_ops@.contains_key(
                    nodes@[i as int],
                ) && host_ops@[nodes@[i as int]].zero_output_nodes@.contains(n)));
            }
        }
        i = i + 1;
    }
    proof {
        assert forall|n: usize| #[trigger] r@.contains(n) <==> exists|h: usize|
            graph_nodes(*graph).contains(h) && #[trigger] host_ops@.contains_key(h)
                && host_ops@[h].zero_output_nodes@.contains(n) by {
            if r@.contains(n) {
                let k = choose|k: int|
                    0 <= k < nodes@.len() && host_ops@.contains_key(#[trigger] nodes@[k])
                        && host_ops@[nodes@[k]].zero_output_nodes@.contains(n);
                assert(nodes@.to_set().contains(nodes@[k]));
                assert(host_ops@.contains_key(nodes@[k]));
            }
            if exists|h: usize|
                graph_nodes(*graph).contains(h) && #[trigger] host_ops@.contains_key(h)
                    && host_ops@[h].zero_output_nodes@.contains(n) {
                let h = choose|h: usize|
                    graph_nodes(*graph).contains(h) && #[trigger] host_ops@.contains_key(h)
                        && host_ops@[h].zero_output_nodes@.contains(n);
                assert(nodes@.to_set().contains(h));
                let k = choose|k: int| 0 <= k < nodes@.len() && nodes@[k] == h;
                assert(host_ops@.contains_key(nodes@[k]));
            }
        }
    }
    r
}

/// The maps between operation nodes that are inputs and their tensor nodes, and the
/// set of the latter.
fn input_maps(graph: &DiGraph, ops: &HashMap<usize, LlirOp>) -> (r: (
    HashMap<usize, usize>,
    HashMap<usize, usize>,
    HashSet<usize>,
))
    ensures
        forall|n: usize| #[trigger]
            r.0@.contains_key(n) <==> exists|h: usize| #[trigger]
                is_input_node(graph_nodes(*graph), ops@, h, n),
        forall|n: usize, h: usize| #[trigger]
            is_input_node(graph_nodes(*graph), ops@, h, n) ==> r.0@[n] == h,
        forall|h: usize| #[trigger]
            r.1@.contains_key(h) <==> exists|n: usize| #[trigger]
                is_input_node(graph_nodes(*graph), ops@, h, n),
        forall|h: usize| #[trigger]
            r.1@.contains_key(h) ==> last_input_node(graph_nodes(*graph), ops@, h, r.1@[h]),
        forall|h: usize| #[trigger]
            r.2@.contains(h) <==> exists|n: usize| #[trigger]
                is_input_node(graph_nodes(*graph), ops@, h, n),
{
    let nodes = node_indices(graph);
    let mut to_hlir: HashMap<usize, usize> = HashMap::new();
    let mut to_llir: HashMap<usize, usize> = HashMap::new();
    let mut changed: HashSet<usize> = HashSet::new();
    let ghost all = graph_nodes(*graph);
    let mut i: usize = 0;
    while i < nodes.len()
        invariant
            all == graph_nodes(*graph),
            nodes@.to_set() == all,
            forall|a: int, b: int| 0 <= a < b < nodes@.len() ==> nodes@[a] < nodes@[b],
            i <= nodes@.len(),
            forall|n: usize| #[trigger]
                to_hlir@.contains_key(n) ==> is_input_node(all, ops@, to_hlir@[n], n),
            forall|k: int, h: usize|
                0 <= k < i && #[trigger] is_input_node(all, ops@, h, nodes@[k])
                    ==> to_hlir@.contains_key(nodes@[k]) && to_hlir@[nodes@[k]] == h
                    && to_llir@.contains_key(h) && to_llir@[h] >= nodes@[k] && changed@.contains(h),
            forall|h: usize| #[trigger]
                to_llir@.contains_key(h) ==> is_input_node(all, ops@, h, to_llir@[h]) && exists|
                    k: int,
                | 0 <= k < i && nodes@[k] == to_llir@[h],
            forall|h: usize| #[trigger]
                changed@.contains(h) ==> exists|n: usize| #[trigger] is_input_node(all, ops@, h, n),
        decreases nodes@.len() - i,
    {
        let n = nodes[i];
        assert(nodes@.to_set().contains(n));
        let ghost (h0, l0, c0) = (to_hlir@, to_llir@, changed@);
        if let Some(op) = ops.get(&n) {
            if let OpKind::Input(h) = op.kind {
                assert(is_input_node(all, ops@, h, n));
                to_hlir.insert(n, h);
                to_llir.insert(h, n);
                changed.insert(h);
            }
        }
        proof {
            assert forall|k: int, h: usize|
                0 <= k < i + 1 && #[trigger] is_input_node(all, ops@, h, nodes@[k]) implies to_hlir@.contains_key(
            nodes@[k]) && to_hlir@[nodes@[k]] == h && to_llir@.contains_key(h) && to_llir@[h]
                >= nodes@[k] && changed@.contains(h) by {
                if k < i {
                    assert(nodes@[k] < nodes@[i as int]);
                    assert(h0.contains_key(nodes@[k]));
                }
            }
            assert forall|h: usize| #[trigger] to_llir@.contains_key(h) implies is_input_node(
                all,
                ops@,
                h,
                to_llir@[h],
            ) && exists|k: int| 0 <= k < i + 1 && nodes@[k] == to_llir@[h] by {
                if to_llir@[h] == n {
                    assert(nodes@[i as int] == to_llir@[h]);
                } else {
                    assert(l0.contains_key(h));
                    let k = choose|k: int| 0 <= k < i && nodes@[k] == l0[h];
                    assert(nodes@[k] == to_llir@[h]);
                }
            }
        }
        i = i + 1;
    }
    proof {
        assert forall|n: usize, h: usize| #[trigger] is_input_node(all, ops@, h, n) implies to_hlir@.contains_key(
        n) && to_hlir@[n] == h && to_llir@.contains_key(h) && to_llir@[h] >= n && changed@.contains(h) by {
            assert(nodes@.to_set().contains(n));
            let k = choose|k: int| 0 <= k < nodes@.len() && nodes@[k] == n;
            assert(is_input_node(all, ops@, h, nodes@[k]));
        }
        assert forall|n: usize| #[trigger] to_hlir@.contains_key(n) implies exists|h: usize| #[trigger]
            is_input_node(all, ops@, h, n) by {
            assert(is_input_node(all, ops@, to_hlir@[n], n));
        }
        assert forall|h: usize| #[trigger] to_llir@.contains_key(h) implies exists|n: usize| #[trigger]
            is_input_node(all, ops@, h, n) by {
            assert(is_input_node(all, ops@, h, to_llir@[h]));
        }
        assert forall|h: usize| #[trigger] to_llir@.contains_key(h) implies last_input_node(
            all,
            ops@,
            h,
            to_llir@[h],
        ) by {
            assert(is_input_node(all, ops@, h, to_llir@[h]));
        }
    }
    (to_hlir, to_llir, changed)
}

/// Nodes in ascending order.
pub open spec fn by_node(buffers: Seq<(usize, usize)>) -> bool {
    forall|i: int, j: int| 0 <= i < j < buffers.len() ==> (#[trigger] buffers[i]).0 < (
    #[trigger] buffers[j]).0
}

proof fn lemma_total_size(buffers: Seq<(usize, usize)>)
    ensures
        total_size(buffers) <= buffers.len() * usize::MAX,
    decreases buffers.len(),
{
    if buffers.len() > 0 {
        lemma_total_size(buffers.drop_last());
        assert((buffers.len() - 1) * usize::MAX + usize::MAX == buffers.len() * usize::MAX)
            by (nonlinear_arith)
            requires
                buffers.len() > 0,
        ;
    }
}

impl CudaRuntime {
    /// Some operation with an intermediate buffer has a size.
    pub open spec fn wants_buffer(&self, sizes: Map<usize, usize>, n: usize) -> bool {
        graph_nodes(self.llir_graph).contains(n) && has_intermediate(self.llir_ops@, n)
            && sizes.contains_key(n) && sizes[n] > 0
    }

    /// `n` is the first operation with an intermediate buffer whose size is not known.
    pub open spec fn first_unsized(&self, sizes: Map<usize, usize>, n: usize) -> bool {
        &&& graph_nodes(self.llir_graph).contains(n) && has_intermediate(self.llir_ops@, n)
            && !sizes.contains_key(n)
        &&& forall|m: usize|
            #[trigger] graph_nodes(self.llir_graph).contains(m) && has_intermediate(
                self.llir_ops@,
                m,
            ) && !sizes.contains_key(m) ==> n <= m
    }

    /// The intermediate buffers to allocate, given the output sizes in bytes that the
    /// dimensions at hand come to. Operations with an empty output get none. From now
    /// on the dimensions in the sizes of blocks and kernels are watched.
    ///
    /// Where an operation has no size, the first such is named and nothing changes.
    #[verifier::rlimit(50)]
    pub fn allocate_intermediate_buffers(&mut self, sizes: &HashMap<usize, usize>) -> (r: Result<
        AllocationPlan,
        usize,
    >)
        requires
            old(self).wf(),
        ensures
            final(self).wf(),
            old(self).in_order() ==> final(self).in_order(),
            final(self).same_graph(old(self)),
            final(self).hlir_buffers == old(self).hlir_buffers,
            final(self).buffers == old(self).buffers,
            final(self).changed_hlir == old(self).changed_hlir,
            final(self).cached_buffer_ptrs == old(self).cached_buffer_ptrs,
            final(self).last_dyn_map == old(self).last_dyn_map,
            final(self).runtime_replay == old(self).runtime_replay,
            r is Err ==> final(self).intermediate_buffer_dims == old(self).intermediate_buffer_dims,
            r matches Err(n) ==> old(self).first_unsized(sizes@, n),
            r is Ok ==> forall|n: usize| !#[trigger] old(self).first_unsized(sizes@, n),
            r matches Ok(plan) ==> by_node(plan.buffers@) && plan.total_bytes == total_size(
                plan.buffers@,
            ),
            r matches Ok(plan) ==> forall|n: usize, b: usize| #[trigger]
                plan.buffers@.contains((n, b)) <==> old(self).wants_buffer(sizes@, n) && sizes@[n]
                    == b,
            r is Ok ==> forall|d: char| #[trigger]
                final(self).intermediate_buffer_dims@.contains(d) <==> exists|n: usize| #[trigger]
                    old(self).wants_buffer(sizes@, n) && tracks_dims(old(self).llir_ops@, n) && old(self).llir_ops@[n].dyn_vars@.contains(d),
    {
        let nodes = node_indices(&self.llir_graph);
        let mut dims = DimSet::new();
        let mut buffers: Vec<(usize, usize)> = Vec::new();
        let mut total: u128 = 0;
        let mut i: usize = 0;
        while i < nodes.len()
            invariant
                self == old(self),
                self.wf(),
                nodes@.to_set() == graph_nodes(self.llir_graph),
                forall|k: int| 0 <= k < nodes@.len() ==> #[trigger] nodes@[k] < u32::MAX,
                forall|a: int, b: int| 0 <= a < b < nodes@.len() ==> nodes@[a] < nodes@[b],
                i <= nodes@.len(),
                dims.wf(),
                by_node(buffers@),
                buffers@.len() <= i,
                i <= u32::MAX,
                total == total_size(buffers@),
                forall|k: int|
                    0 <= k < i ==> !(has_intermediate(self.llir_ops@, #[trigger] nodes@[k])
                        && !sizes@.contains_key(nodes@[k])),
                forall|k: int| 0 <= k < buffers@.len() ==> exists|j: int|
                    0 <= j < i && nodes@[j] == (#[trigger] buffers@[k]).0,
                forall|n: usize, b: usize| #[trigger]
                    buffers@.contains((n, b)) <==> self.wants_buffer(sizes@, n) && sizes@[n] == b
                        && exists|j: int| 0 <= j < i && nodes@[j] == n,
                forall|d: char| #[trigger]
                    dims@.contains(d) <==> exists|n: usize| #[trigger]
                        self.wants_buffer(sizes@, n) && tracks_dims(self.llir_ops@, n)
                            && self.llir_ops@[n].dyn_vars@.contains(d) && exists|j: int|
                            0 <= j < i && nodes@[j] == n,
            decreases nodes@.len() - i,
        {
            let n = nodes[i];
            let ghost b0 = buffers@;
            let ghost d0 = dims@;
            proof {
                assert(nodes@.to_set().contains(n));
                crate::exec_graph::lemma_rising_len(nodes@, u32::MAX as nat);
                lemma_total_size(buffers@);
                assert(buffers@.len() * usize::MAX <= u32::MAX * usize::MAX) by (nonlinear_arith)
                    requires
                        buffers@.len() <= u32::MAX,
                ;
                assert(u32::MAX * usize::MAX + usize::MAX <= u128::MAX) by (nonlinear_arith)
                    requires
                        usize::MAX <= u64::MAX,
                        usize::MAX >= 0,
                ;
            }
            let mut found: Option<usize> = None;
            if let Some(op) = self.llir_ops.get(&n) {
                let wanted = match op.kind {
                    OpKind::Block | OpKind::Kernel | OpKind::Host => true,
                    _ => false,
                };
                if wanted {
                    match sizes.get(&n) {
                        Some(b) => {
                            if *b > 0 {
                                found = Some(*b);
                                let watched = match op.kind {
                                    OpKind::Block | OpKind::Kernel => true,
                                    _ => false,
                                };
                                if watched {
                                    dims.extend(&op.dyn_vars);
                                }
                            }
                        },
                        None => {
                            proof {
                                assert forall|m: usize|
                                    #[trigger] graph_nodes(self.llir_graph).contains(m)
                                        && has_intermediate(self.llir_ops@, m)
                                        && !sizes@.contains_key(m) implies n <= m by {
                                    assert(nodes@.to_set().contains(m));
                                    let k = choose|k: int| 0 <= k < nodes@.len() && nodes@[k] == m;
                                    if k > i {
                                        assert(nodes@[i as int] < nodes@[k]);
                                    }
                                }
                            }
                            return Err(n);
                        },
                    }
                }
            }
            if let Some(b) = found {
                buffers.push((n, b));
                total = total + b as u128;
                proof {
                    assert(buffers@.drop_last() =~= b0);
                }
            }
            proof {
                let new = found is Some;
                assert(new <==> self.wants_buffer(sizes@, n));
                assert(nodes@[i as int] == n);
                assert forall|m: usize, b: usize| #[trigger] buffers@.contains((m, b)) <==> self.wants_buffer(
                    sizes@,
                    m,
                ) && sizes@[m] == b && exists|j: int| 0 <= j < i + 1 && nodes@[j] == m by {
                    if buffers@.contains((m, b)) {
                        let k = choose|k: int| 0 <= k < buffers@.len() && buffers@[k] == (m, b);
                        if k < b0.len() {
                            assert(b0[k] == (m, b));
                            assert(b0.contains((m, b)));
                        } else {
                            assert(nodes@[i as int] == m);
                        }
                    }
                    if self.wants_buffer(sizes@, m) && sizes@[m] == b && exists|j: int|
                        0 <= j < i + 1 && nodes@[j] == m {
                        if m == n {
                            assert(buffers@[b0.len() as int] == (m, b));
                        } else {
                            let j = choose|j: int| 0 <= j < i + 1 && nodes@[j] == m;
                            assert(0 <= j < i && nodes@[j] == m);
                            assert(b0.contains((m, b)));
                            let k = choose|k: int| 0 <= k < b0.len() && b0[k] == (m, b);
                            assert(buffers@[k] == (m, b));
                        }
                    }
                }
                assert forall|k: int| 0 <= k < buffers@.len() implies exists|j: int|
                    0 <= j < i + 1 && nodes@[j] == (#[trigger] buffers@[k]).0 by {
                    if k < b0.len() {
                        assert(buffers@[k] == b0[k]);
                        let j = choose|j: int| 0 <= j < i && nodes@[j] == b0[k].0;
                        assert(nodes@[j] == buffers@[k].0);
                    } else {
                        assert(nodes@[i as int] == buffers@[k].0);
                    }
                }
                assert forall|a: int, b: int| 0 <= a < b < buffers@.len() implies (
                #[trigger] buffers@[a]).0 < (#[trigger] buffers@[b]).0 by {
                    if b == b0.len() {
                        assert(buffers@[a] == b0[a]);
                        let j = choose|j: int| 0 <= j < i && nodes@[j] == b0[a].0;
                        assert(nodes@[j] < nodes@[i as int]);
                    } else {
                        assert(b0[a].0 < b0[b].0);
                    }
                }
                assert forall|d: char| #[trigger] dims@.contains(d) <==> exists|m: usize| #[trigger]
                    self.wants_buffer(sizes@, m) && tracks_dims(self.llir_ops@, m)
                        && self.llir_ops@[m].dyn_vars@.contains(d) && exists|j: int|
                        0 <= j < i + 1 && nodes@[j] == m by {
                    let here = self.wants_buffer(sizes@, n) && tracks_dims(self.llir_ops@, n)
                        && self.llir_ops@[n].dyn_vars@.contains(d);
                    assert(dims@.contains(d) <==> d0.contains(d) || here);
                    if d0.contains(d) {
                        let m = choose|m: usize| #[trigger]
                            self.wants_buffer(sizes@, m) && tracks_dims(self.llir_ops@, m)
                                && self.llir_ops@[m].dyn_vars@.contains(d) && exists|j: int|
                                0 <= j < i && nodes@[j] == m;
                        let j = choose|j: int| 0 <= j < i && nodes@[j] == m;
                        assert(self.wants_buffer(sizes@, m) && 0 <= j < i + 1 && nodes@[j] == m);
                    }
                    if exists|m: usize| #[trigger]
                        self.wants_buffer(sizes@, m) && tracks_dims(self.llir_ops@, m)
                            && self.llir_ops@[m].dyn_vars@.contains(d) && exists|j: int|
                            0 <= j < i + 1 && nodes@[j] == m {
                        let m = choose|m: usize| #[trigger]
                            self.wants_buffer(sizes@, m) && tracks_dims(self.llir_ops@, m)
                                && self.llir_ops@[m].dyn_vars@.contains(d) && exists|j: int|
                                0 <= j < i + 1 && nodes@[j] == m;
                        let j = choose|j: int| 0 <= j < i + 1 && nodes@[j] == m;
                        if j < i {
                            assert(self.wants_buffer(sizes@, m) && 0 <= j < i && nodes@[j] == m);
                        }
                    }
                }
            }
            i = i + 1;
        }
        proof {
            assert forall|n: usize| graph_nodes(self.llir_graph).contains(n) implies exists|j: int|
                0 <= j < nodes@.len() && nodes@[j] == n by {
                assert(nodes@.to_set().contains(n));
            }
            assert forall|n: usize| !#[trigger] self.first_unsized(sizes@, n) by {
                if self.first_unsized(sizes@, n) {
                    let j = choose|j: int| 0 <= j < nodes@.len() && nodes@[j] == n;
                    assert(!(has_intermediate(self.llir_ops@, nodes@[j]) && !sizes@.contains_key(
                        nodes@[j],
                    )));
                }
            }
        }
        self.intermediate_buffer_dims = dims;
        Ok(AllocationPlan { buffers, total_bytes: total })
    }

    /// The buffer for node `n` was allocated.
    pub fn buffer_allocated(&mut self, n: usize, buffer: DeviceBuffer)
        requires
            old(self).wf(),
        ensures
            final(self).wf(),
            old(self).in_order() && has_intermediate(old(self).llir_ops@, n) ==> final(self).in_order(),
            final(self).same_graph(old(self)),
            final(self).hlir_buffers == old(self).hlir_buffers,
            final(self).changed_hlir == old(self).changed_hlir,
            final(self).last_dyn_map == old(self).last_dyn_map,
            final(self).intermediate_buffer_dims == old(self).intermediate_buffer_dims,
            final(self).runtime_replay == old(self).runtime_replay,
            final(self).buffers@ == old(self).buffers@.insert(n, buffer),
            final(self).cached_buffer_ptrs@ == old(self).cached_buffer_ptrs@.insert(n, buffer.ptr),
    {
        self.buffers.insert(n, buffer);
        self.cached_buffer_ptrs.insert(n, buffer.ptr);
    }
}

impl CudaRuntime {
    /// The intermediate buffers do not serve an execution with these dimensions: there are
    /// none, the number of dimensions changed, or one did that their sizes depend on.
    pub open spec fn needs_buffers(&self, dyn_map: DynMap) -> bool {
        ||| self.buffers@ == Map::<usize, DeviceBuffer>::empty()
        ||| dyn_map.count() != self.last_dyn_map.count()
        ||| buffer_dims_changed(
            dyn_map@,
            self.last_dyn_map@,
            self.intermediate_buffer_dims@,
        )
    }

    /// Whether the intermediate buffers must be allocated anew for these dimensions:
    /// there are none, the number of dimensions changed, or one did that their sizes
    /// depend on. If so, the recording goes.
    pub fn begin_execute(&mut self, dyn_map: &DynMap) -> (needs_realloc: bool)
        requires
            old(self).wf(),
            dyn_map.wf(),
        ensures
            final(self).wf(),
            old(self).in_order() ==> final(self).in_order(),
            needs_realloc == old(self).needs_buffers(*dyn_map),
            final(self).same_graph(old(self)),
            final(self).hlir_buffers == old(self).hlir_buffers,
            final(self).buffers == old(self).buffers,
            final(self).changed_hlir == old(self).changed_hlir,
            final(self).cached_buffer_ptrs == old(self).cached_buffer_ptrs,
            final(self).intermediate_buffer_dims == old(self).intermediate_buffer_dims,
            needs_realloc ==> final(self).last_dyn_map@ == dyn_map@ && final(self).last_dyn_map.count() == dyn_map.count() && final(self).runtime_replay.is_fresh(),
            !needs_realloc ==> final(self).last_dyn_map == old(self).last_dyn_map && final(self).runtime_replay == old(self).runtime_replay,
    {
        let none = self.buffers.is_empty();
        proof {
            if none {
                assert(self.buffers@ =~= Map::<usize, DeviceBuffer>::empty());
            }
        }
        let needs_realloc = none || dyn_map.len() != self.last_dyn_map.len()
            || self.buffer_dims_changed(dyn_map);
        if needs_realloc {
            self.last_dyn_map = dyn_map.duplicate();
            self.runtime_replay = RuntimeReplayCache::new();
        }
        needs_realloc
    }

    fn buffer_dims_changed(&self, dyn_map: &DynMap) -> (r: bool)
        requires
            self.wf(),
            dyn_map.wf(),
        ensures
            r == buffer_dims_changed(
                dyn_map@,
                self.last_dyn_map@,
                self.intermediate_buffer_dims@,
            ),
    {
        let entries = dyn_map.entries();
        let mut i: usize = 0;
        while i < entries.len()
            invariant
                self.wf(),
                ascending_entries(entries@),
                entry_map(entries@) == dyn_map@,
                i <= entries@.len(),
                forall|k: int|
                    0 <= k < i ==> !(self.intermediate_buffer_dims@.contains(
                        (#[trigger] entries@[k]).0,
                    ) && (!self.last_dyn_map@.contains_key(entries@[k].0)
                        || self.last_dyn_map@[entries@[k].0] != entries@[k].1)),
            decreases entries@.len() - i,
        {
            let (d, v): (char, usize) = entries[i];
            if self.intermediate_buffer_dims.contains(d) {
                let same = match self.last_dyn_map.get(d) {
                    Some(n) => n == v,
                    None => false,
                };
                if !same {
                    proof {
                        lemma_entry_map(entries@, i as int);
                        assert(dyn_map@.contains_key(d));
                    }
                    return true;
                }
            }
            i = i + 1;
        }
        proof {
            assert forall|d: char| #[trigger] dyn_map@.contains_key(d)
                && self.intermediate_buffer_dims@.contains(d) implies self.last_dyn_map@.contains_key(
            d) && self.last_dyn_map@[d] == dyn_map@[d] by {
                let k = choose|k: int| 0 <= k < entries@.len() && (#[trigger] entries@[k]).0 == d;
                lemma_entry_map(entries@, k);
            }
        }
        false
    }

    /// Cache the pointers of changed inputs that the graph reads. An input that the
    /// graph reads and that is not there is named, and nothing changes.
    pub fn cache_changed_inputs(&mut self) -> (r: Result<(), usize>)
        requires
            old(self).wf(),
        ensures
            final(self).wf(),
            old(self).in_order() ==> final(self).in_order(),
            final(self).same_graph(old(self)),
            final(self).hlir_buffers == old(self).hlir_buffers,
            final(self).buffers == old(self).buffers,
            final(self).last_dyn_map == old(self).last_dyn_map,
            final(self).intermediate_buffer_dims == old(self).intermediate_buffer_dims,
            final(self).runtime_replay == old(self).runtime_replay,
            r is Ok <==> forall|h: usize| #[trigger]
                old(self).changed_hlir@.contains(h) && old(self).hlir_to_llir@.contains_key(h)
                    ==> old(self).hlir_buffers@.contains_key(h),
            r matches Err(h) ==> old(self).changed_hlir@.contains(h) && old(self).hlir_to_llir@.contains_key(h) && !old(self).hlir_buffers@.contains_key(h) && final(self).changed_hlir == old(self).changed_hlir && final(self).cached_buffer_ptrs@ == old(self).cached_buffer_ptrs@,
            r is Ok ==> final(self).changed_hlir@ == Set::<usize>::empty() && final(self).cached_buffer_ptrs@ == cached_anew(
                old(self).cached_buffer_ptrs@,
                old(self).llir_to_hlir@,
                old(self).hlir_to_llir@,
                old(self).hlir_buffers@,
                old(self).changed_hlir@,
            ),
    {
        let changed = sorted_members(&self.changed_hlir);
        let mut i: usize = 0;
        while i < changed.len()
            invariant
                changed@.to_set() == self.changed_hlir@,
                i <= changed@.len(),
                self == old(self),
                self.wf(),
                forall|k: int|
                    0 <= k < i && self.hlir_to_llir@.contains_key(#[trigger] changed@[k])
                        ==> self.hlir_buffers@.contains_key(changed@[k]),
            decreases changed@.len() - i,
        {
            let h = changed[i];
            assert(changed@.to_set().contains(h));
            if self.hlir_to_llir.contains_key(&h) && !self.hlir_buffers.contains_key(&h) {
                return Err(h);
            }
            i = i + 1;
        }
        proof {
            assert forall|h: usize| #[trigger] self.changed_hlir@.contains(h)
                && self.hlir_to_llir@.contains_key(h) implies self.hlir_buffers@.contains_key(h) by {
                assert(changed@.to_set().contains(h));
                let k = choose|k: int| 0 <= k < changed@.len() && changed@[k] == h;
                assert(self.hlir_to_llir@.contains_key(changed@[k]));
            }
        }
        self.cache_inputs(&changed);
        self.changed_hlir = HashSet::new();
        proof {
            if old(self).in_order() {
                lemma_caching_keeps_order(*old(self), *self);
            }
        }
        Ok(())
    }

    /// Cache the pointers of the inputs of these tensor nodes, as far as they have one
    /// and the graph reads it.
    fn cache_inputs(&mut self, changed: &Vec<usize>)
        requires
            old(self).wf(),
        ensures
            final(self).wf(),
            final(self).same_graph(old(self)),
            final(self).hlir_buffers == old(self).hlir_buffers,
            final(self).buffers == old(self).buffers,
            final(self).changed_hlir == old(self).changed_hlir,
            final(self).last_dyn_map == old(self).last_dyn_map,
            final(self).intermediate_buffer_dims == old(self).intermediate_buffer_dims,
            final(self).runtime_replay == old(self).runtime_replay,
            final(self).cached_buffer_ptrs@ == cached_anew(
                old(self).cached_buffer_ptrs@,
                old(self).llir_to_hlir@,
                old(self).hlir_to_llir@,
                old(self).hlir_buffers@,
                changed@.to_set(),
            ),
    {
        let ghost c0 = self.cached_buffer_ptrs@;
        let ghost (lh, hl, hb) = (self.llir_to_hlir@, self.hlir_to_llir@, self.hlir_buffers@);
        let mut i: usize = 0;
        assert(c0 =~= cached_anew(c0, lh, hl, hb, changed@.take(0).to_set()));
        while i < changed.len()
            invariant
                i <= changed@.len(),
                self.wf(),
                self.same_graph(old(self)),
                self.hlir_buffers == old(self).hlir_buffers,
                self.buffers == old(self).buffers,
                self.changed_hlir == old(self).changed_hlir,
                self.last_dyn_map == old(self).last_dyn_map,
                self.intermediate_buffer_dims == old(self).intermediate_buffer_dims,
                self.runtime_replay == old(self).runtime_replay,
                lh == self.llir_to_hlir@,
                hl == self.hlir_to_llir@,
                hb == self.hlir_buffers@,
                self.cached_buffer_ptrs@ == cached_anew(
                    c0,
                    lh,
                    hl,
                    hb,
                    changed@.take(i as int).to_set(),
                ),
            decreases changed@.len() - i,
        {
            let h = changed[i];
            let ghost c1 = self.cached_buffer_ptrs@;
            let found = match (self.hlir_to_llir.get(&h), self.hlir_buffers.get(&h)) {
                (Some(n), Some(input)) => Some((*n, input.device_ptr())),
                (_, _) => None,
            };
            if let Some((n, p)) = found {
                self.cached_buffer_ptrs.insert(n, p);
            }
            proof {
                let t0 = changed@.take(i as int);
                let t1 = changed@.take(i + 1);
                assert(t1 =~= t0.push(h));
                t0.lemma_push_to_set_commute(h);
                let want = cached_anew(c0, lh, hl, hb, t1.to_set());
                assert forall|n: usize| #[trigger] self.cached_buffer_ptrs@.contains_key(n)
                    <==> want.contains_key(n) by {
                }
                assert forall|n: usize| self.cached_buffer_ptrs@.contains_key(n) implies #[trigger] self.cached_buffer_ptrs@[n]
                    == want[n] by {
                }
                assert(self.cached_buffer_ptrs@ =~= want);
            }
            i = i + 1;
        }
        assert(changed@.take(changed@.len() as int) =~= changed@);
    }

    /// Get ready to build graphs for these dimensions: whether intermediate buffers are
    /// to be allocated first, because there are none. The pointers of changed inputs
    /// are cached; inputs that are not there yet stay marked as changed.
    ///
    /// A changed input that the graph does not read is named, and nothing changes.
    pub fn prebuild_graphs(&mut self, dyn_map: &DynMap) -> (r: Result<bool, usize>)
        requires
            old(self).wf(),
            dyn_map.wf(),
        ensures
            final(self).wf(),
            old(self).in_order() ==> final(self).in_order(),
            final(self).same_graph(old(self)),
            final(self).hlir_buffers == old(self).hlir_buffers,
            final(self).buffers == old(self).buffers,
            final(self).intermediate_buffer_dims == old(self).intermediate_buffer_dims,
            final(self).runtime_replay == old(self).runtime_replay,
            r is Ok <==> forall|h: usize| #[trigger]
                old(self).changed_hlir@.contains(h) && old(self).hlir_buffers@.contains_key(h)
                    ==> old(self).hlir_to_llir@.contains_key(h),
            r matches Err(h) ==> old(self).changed_hlir@.contains(h) && old(self).hlir_buffers@.contains_key(h) && !old(self).hlir_to_llir@.contains_key(h) && final(self).changed_hlir@ == old(self).changed_hlir@ && final(self).cached_buffer_ptrs@ == old(self).cached_buffer_ptrs@ && final(self).last_dyn_map == old(self).last_dyn_map,
            r matches Ok(allocate) ==> allocate == (old(self).buffers@ == Map::<
                usize,
                DeviceBuffer,
            >::empty()),
            r matches Ok(allocate) ==> if allocate {
                final(self).last_dyn_map@ == dyn_map@
            } else {
                final(self).last_dyn_map == old(self).last_dyn_map
            },
            r is Ok ==> final(self).changed_hlir@ == old(self).changed_hlir@.difference(
                old(self).hlir_buffers@.dom(),
            ),
            r is Ok ==> final(self).cached_buffer_ptrs@ == cached_anew(
                old(self).cached_buffer_ptrs@,
                old(self).llir_to_hlir@,
                old(self).hlir_to_llir@,
                old(self).hlir_buffers@,
                old(self).changed_hlir@,
            ),
    {
        let changed = sorted_members(&self.changed_hlir);
        let mut left: HashSet<usize> = HashSet::new();
        let mut i: usize = 0;
        while i < changed.len()
            invariant
                changed@.to_set() == self.changed_hlir@,
                i <= changed@.len(),
                self == old(self),
                self.wf(),
                forall|k: int|
                    0 <= k < i && self.hlir_buffers@.contains_key(#[trigger] changed@[k])
                        ==> self.hlir_to_llir@.contains_key(changed@[k]),
                forall|h: usize| #[trigger]
                    left@.contains(h) <==> !self.hlir_buffers@.contains_key(h) && exists|k: int|
                        0 <= k < i && #[trigger] changed@[k] == h,
            decreases changed@.len() - i,
        {
            let h = changed[i];
            assert(changed@.to_set().contains(h));
            if self.hlir_buffers.contains_key(&h) {
                if !self.hlir_to_llir.contains_key(&h) {
                    return Err(h);
                }
            } else {
                left.insert(h);
            }
            i = i + 1;
        }
        proof {
            assert forall|h: usize| #[trigger] self.changed_hlir@.contains(h)
                && self.hlir_buffers@.contains_key(h) implies self.hlir_to_llir@.contains_key(h) by {
                assert(changed@.to_set().contains(h));
                let k = choose|k: int| 0 <= k < changed@.len() && changed@[k] == h;
                assert(self.hlir_buffers@.contains_key(changed@[k]));
            }
            assert(left@ =~= self.changed_hlir@.difference(self.hlir_buffers@.dom())) by {
                assert forall|h: usize| left@.contains(h) <==> #[trigger] self.changed_hlir@.difference(
                    self.hlir_buffers@.dom(),
                ).contains(h) by {
                    assert(self.changed_hlir@.contains(h) <==> changed@.to_set().contains(h));
                }
            }
        }
        let allocate = self.buffers.is_empty();
        proof {
            if allocate {
                assert(self.buffers@ =~= Map::<usize, DeviceBuffer>::empty());
            }
        }
        if allocate {
            self.last_dyn_map = dyn_map.duplicate();
        }
        self.cache_inputs(&changed);
        self.changed_hlir = left;
        proof {
            if old(self).in_order() {
                lemma_caching_keeps_order(*old(self), *self);
            }
        }
        Ok(allocate)
    }

    /// What to do in an execution with these dimensions.
    pub fn announce_execution(
        &mut self,
        dyn_map: &DynMap,
        force_zero_all: bool,
        settings: ReplaySettings,
    ) -> (r: ReplayAction)
        requires
            old(self).wf(),
            dyn_map.wf(),
        ensures
            final(self).wf(),
            old(self).in_order() ==> final(self).in_order(),
            final(self).same_graph(old(self)),
            final(self).hlir_buffers == old(self).hlir_buffers,
            final(self).buffers == old(self).buffers,
            final(self).changed_hlir == old(self).changed_hlir,
            final(self).cached_buffer_ptrs == old(self).cached_buffer_ptrs,
            final(self).last_dyn_map == old(self).last_dyn_map,
            final(self).intermediate_buffer_dims == old(self).intermediate_buffer_dims,
            ({
                let (state, graph_exec) = announced(
                    old(self).runtime_replay.state,
                    old(self).runtime_replay.graph_exec,
                    old(self).runtime_replay.last_signature(),
                    (dyn_map@, old(self).cached_buffer_ptrs@, force_zero_all),
                    settings,
                );
                &&& r == action_in(state, graph_exec)
                &&& final(self).runtime_replay.graph_exec == graph_exec
                &&& final(self).runtime_replay.state == if r == ReplayAction::Fallback {
                    crate::replay::RuntimeReplayState::WarmupPending
                } else {
                    state
                }
            }),
            settings.replay_enabled ==> final(self).runtime_replay.last_signature() == Some(
                (dyn_map@, old(self).cached_buffer_ptrs@, force_zero_all),
            ),
            old(self).runtime_replay.notes_kept(
                final(self).runtime_replay,
                (dyn_map@, old(self).cached_buffer_ptrs@, force_zero_all),
                settings,
            ),
    {
        let signature = RuntimeReplaySignature::new(
            dyn_map,
            &self.cached_buffer_ptrs,
            force_zero_all,
        );
        self.runtime_replay.announce(signature, settings)
    }

    /// A changed input that the graph reads is not there.
    pub open spec fn lacks_input(&self, h: usize) -> bool {
        self.changed_hlir@.contains(h) && self.hlir_to_llir@.contains_key(h)
            && !self.hlir_buffers@.contains_key(h)
    }

    /// The cached pointers with those of the changed inputs.
    pub open spec fn ptrs_now(&self) -> Map<usize, u64> {
        cached_anew(
            self.cached_buffer_ptrs@,
            self.llir_to_hlir@,
            self.hlir_to_llir@,
            self.hlir_buffers@,
            self.changed_hlir@,
        )
    }

    /// An execution with these dimensions left the runtime as `after` and came to `r`: the
    /// pointers of changed inputs are cached, and it is settled what the execution does.
    pub open spec fn executed_as(
        self,
        after: CudaRuntime,
        dims: Map<char, usize>,
        settings: ExecuteSettings,
        r: Result<(bool, ReplayAction), ExecuteRefusal>,
    ) -> bool {
        &&& after.same_graph(&self)
        &&& after.hlir_buffers == self.hlir_buffers
        &&& after.buffers == self.buffers
        &&& after.intermediate_buffer_dims == self.intermediate_buffer_dims
        &&& (r == Err::<(bool, ReplayAction), _>(ExecuteRefusal::ManyStreams) <==> !(
        settings.single_stream || settings.sync_debug))
        &&& (r is Ok <==> (settings.single_stream || settings.sync_debug) && forall|h: usize|
            !#[trigger] self.lacks_input(h))
        &&& (r matches Err(ExecuteRefusal::NoInput(h)) ==> self.lacks_input(h))
        &&& (r is Err ==> after.changed_hlir == self.changed_hlir && after.cached_buffer_ptrs@
            == self.cached_buffer_ptrs@ && after.last_dyn_map == self.last_dyn_map
            && after.runtime_replay == self.runtime_replay)
        &&& (r is Ok ==> after.changed_hlir@ == Set::<usize>::empty())
        &&& (r is Ok ==> after.cached_buffer_ptrs@ == self.ptrs_now())
        &&& (r matches Ok((allocate, _)) ==> allocate == (self.buffers@ == Map::<
            usize,
            DeviceBuffer,
        >::empty()))
        &&& (r matches Ok((allocate, _)) ==> if allocate {
            after.last_dyn_map@ == dims
        } else {
            after.last_dyn_map == self.last_dyn_map
        })
        &&& (r matches Ok((_, action)) ==> ({
            let replay = ReplaySettings {
                replay_enabled: !settings.sync_debug && settings.graph_replay,
                force_recapture: settings.force_recapture,
            };
            let signature = (dims, self.ptrs_now(), settings.force_zero_all);
            let (state, graph_exec) = announced(
                self.runtime_replay.state,
                self.runtime_replay.graph_exec,
                self.runtime_replay.last_signature(),
                signature,
                replay,
            );
            &&& action == action_in(state, graph_exec)
            &&& after.runtime_replay.graph_exec == graph_exec
            &&& after.runtime_replay.state == if action == ReplayAction::Fallback {
                crate::replay::RuntimeReplayState::WarmupPending
            } else {
                state
            }
            &&& replay.replay_enabled ==> after.runtime_replay.last_signature() == Some(signature)
            &&& self.runtime_replay.notes_kept(after.runtime_replay, signature, replay)
        }))
    }

    /// An execution with these dimensions, once the intermediate buffers are there that
    /// `begin_execute` asks for: the pointers of changed inputs are cached, and it is
    /// settled what the execution does. The flag tells whether buffers are allocated
    /// once more first, as there still are none.
    pub fn execute(&mut self, dyn_map: &DynMap, settings: ExecuteSettings) -> (r: Result<
        (bool, ReplayAction),
        ExecuteRefusal,
    >)
        requires
            old(self).wf(),
            dyn_map.wf(),
        ensures
            final(self).wf(),
            old(self).in_order() ==> final(self).in_order(),
            old(self).executed_as(*final(self), dyn_map@, settings, r),
    {
        if !settings.single_stream && !settings.sync_debug {
            return Err(ExecuteRefusal::ManyStreams);
        }
        let ghost before = *self;
        match self.cache_changed_inputs() {
            Ok(_) => {},
            Err(h) => {
                assert(before.lacks_input(h));
                return Err(ExecuteRefusal::NoInput(h));
            },
        }
        proof {
            assert forall|h: usize| !#[trigger] before.lacks_input(h) by {
                if before.changed_hlir@.contains(h) && before.hlir_to_llir@.contains_key(h) {
                    assert(before.hlir_buffers@.contains_key(h));
                }
            }
            law_caching_settles(before);
        }
        let allocate = self.prebuild_graphs(dyn_map).unwrap();
        assert(self.changed_hlir@ =~= Set::<usize>::empty());
        let replay = ReplaySettings {
            replay_enabled: !settings.sync_debug && settings.graph_replay,
            force_recapture: settings.force_recapture,
        };
        let action = self.announce_execution(dyn_map, settings.force_zero_all, replay);
        Ok((allocate, action))
    }

    /// The buffers to zero before an execution, by node in ascending order: all
    /// intermediate ones, or those that some host operation needs zeroed.
    pub fn zero_buffers_for_execute(&self, force_zero_all: bool) -> (r: Vec<usize>)
        ensures
            rising(r@),
            forall|n: usize| #[trigger]
                r@.contains(n) <==> self.buffers@.contains_key(n) && (force_zero_all
                    || self.buffers_requiring_zero@.contains(n)),
    {
        if force_zero_all {
            let r = sorted_keys(&self.buffers);
            assert forall|n: usize| #[trigger] r@.contains(n) <==> self.buffers@.contains_key(n) by {
                assert(r@.contains(n) <==> r@.to_set().contains(n));
            }
            return r;
        }
        let all = sorted_members(&self.buffers_requiring_zero);
        let mut r: Vec<usize> = Vec::new();
        let mut i: usize = 0;
        while i < all.len()
            invariant
                rising(all@),
                i <= all@.len(),
                rising(r@),
                forall|k: int| 0 <= k < r@.len() ==> exists|j: int|
                    0 <= j < i && all@[j] == #[trigger] r@[k],
                forall|n: usize| #[trigger]
                    r@.contains(n) <==> self.buffers@.contains_key(n) && exists|j: int|
                        0 <= j < i && #[trigger] all@[j] == n,
            decreases all@.len() - i,
        {
            let n = all[i];
            let ghost r0 = r@;
            if self.buffers.contains_key(&n) {
                r.push(n);
                proof {
                    assert(r@[r0.len() as int] == n);
                    assert forall|a: int, b: int| 0 <= a < b < r@.len() implies (#[trigger] r@[a])
                        < (#[trigger] r@[b]) by {
                        if b == r0.len() {
                            assert(r@[a] == r0[a]);
                            let j = choose|j: int| 0 <= j < i && all@[j] == r0[a];
                            assert(all@[j] < all@[i as int]);
                        } else {
                            assert(r0[a] < r0[b]);
                        }
                    }
                    assert forall|m: usize| #[trigger] r@.contains(m) <==> r0.contains(m) || m == n by {
                        if r0.contains(m) {
                            let k = choose|k: int| 0 <= k < r0.len() && r0[k] == m;
                            assert(r@[k] == m);
                        }
                    }
                    assert forall|k: int| 0 <= k < r@.len() implies exists|j: int|
                        0 <= j < i + 1 && all@[j] == #[trigger] r@[k] by {
                        if k < r0.len() {
                            assert(r@[k] == r0[k]);
                            let j = choose|j: int| 0 <= j < i && all@[j] == r0[k];
                            assert(all@[j] == r@[k]);
                        } else {
                            assert(all@[i as int] == r@[k]);
                        }
                    }
                }
            }
            i = i + 1;
        }
        proof {
            assert forall|n: usize| #[trigger] r@.contains(n) <==> self.buffers@.contains_key(n)
                && self.buffers_requiring_zero@.contains(n) by {
                assert(self.buffers_requiring_zero@.contains(n) <==> all@.to_set().contains(n));
            }
        }
        r
    }
}

/// After a tensor node got a new input, the pointer cached for the operation that reads
/// it is the new input's; and the pointers of nodes whose input did not change stay.
pub proof fn law_cached_pointer_is_current(rt: CudaRuntime, h: usize, input: CudaInput, other: usize)
    requires
        rt.wf(),
        rt.hlir_to_llir@.contains_key(h),
        rt.cached_buffer_ptrs@.contains_key(other),
        !(rt.llir_to_hlir@.contains_key(other) && rt.changed_hlir@.insert(h).contains(
            rt.llir_to_hlir@[other],
        )),
    ensures
        ({
            let cached = cached_anew(
                rt.cached_buffer_ptrs@,
                rt.llir_to_hlir@,
                rt.hlir_to_llir@,
                rt.hlir_buffers@.insert(h, input),
                rt.changed_hlir@.insert(h),
            );
            &&& cached.contains_key(rt.hlir_to_llir@[h])
            &&& cached[rt.hlir_to_llir@[h]] == input.address()
            &&& cached.contains_key(other)
            &&& cached[other] == rt.cached_buffer_ptrs@[other]
        }),
{
}

/// Caching the pointers of changed inputs twice is as good as once.
pub proof fn law_caching_settles(rt: CudaRuntime)
    requires
        rt.wf(),
    ensures
        ({
            let once = cached_anew(
                rt.cached_buffer_ptrs@,
                rt.llir_to_hlir@,
                rt.hlir_to_llir@,
                rt.hlir_buffers@,
                rt.changed_hlir@,
            );
            let twice = cached_anew(
                once,
                rt.llir_to_hlir@,
                rt.hlir_to_llir@,
                rt.hlir_buffers@,
                Set::empty(),
            );
            twice == once
        }),
{
    let once = cached_anew(
        rt.cached_buffer_ptrs@,
        rt.llir_to_hlir@,
        rt.hlir_to_llir@,
        rt.hlir_buffers@,
        rt.changed_hlir@,
    );
    assert(cached_anew(
        once,
        rt.llir_to_hlir@,
        rt.hlir_to_llir@,
        rt.hlir_buffers@,
        Set::empty(),
    ) =~= once);
}

/// A recorded execution is replayed as long as the dimensions, the setting and the inputs
/// are those that it was recorded under: data that was uploaded into the buffers that are
/// there does not count.
pub proof fn law_unchanged_inputs_replay(
    rt: CudaRuntime,
    dims: Map<char, usize>,
    force_zero_all: bool,
)
    requires
        rt.wf(),
        rt.changed_hlir@ == Set::<usize>::empty(),
        rt.runtime_replay.state == crate::replay::RuntimeReplayState::Ready,
        rt.runtime_replay.graph_exec,
        rt.runtime_replay.last_signature() == Some((dims, rt.cached_buffer_ptrs@, force_zero_all)),
    ensures
        ({
            let (state, graph_exec) = announced(
                rt.runtime_replay.state,
                rt.runtime_replay.graph_exec,
                rt.runtime_replay.last_signature(),
                (dims, rt.ptrs_now(), force_zero_all),
                (ReplaySettings { replay_enabled: true, force_recapture: false }),
            );
            action_in(state, graph_exec) == ReplayAction::Replay
        }),
{
    assert(rt.ptrs_now() =~= rt.cached_buffer_ptrs@);
}

/// Whether executions are replayed changes nothing but the recording and whether it is used:
/// two runtimes that agree on all else still do so after an execution with the same
/// dimensions, and both refuse it or neither.
pub proof fn law_replay_changes_only_the_recording(
    one: CudaRuntime,
    two: CudaRuntime,
    one_after: CudaRuntime,
    two_after: CudaRuntime,
    dims: Map<char, usize>,
    settings: ExecuteSettings,
    graph_replay: bool,
    force_recapture: bool,
    r1: Result<(bool, ReplayAction), ExecuteRefusal>,
    r2: Result<(bool, ReplayAction), ExecuteRefusal>,
)
    requires
        one.same_graph(&two),
        one.hlir_buffers@ == two.hlir_buffers@,
        one.buffers@ == two.buffers@,
        one.changed_hlir@ == two.changed_hlir@,
        one.cached_buffer_ptrs@ == two.cached_buffer_ptrs@,
        one.last_dyn_map@ == two.last_dyn_map@,
        one.executed_as(one_after, dims, settings, r1),
        two.executed_as(
            two_after,
            dims,
            (ExecuteSettings { graph_replay, force_recapture, ..settings }),
            r2,
        ),
    ensures
        r1 is Ok <==> r2 is Ok,
        r1 matches Ok((allocate, _)) ==> r2 matches Ok((allocate2, _)) && allocate == allocate2,
        one_after.same_graph(&two_after),
        one_after.hlir_buffers@ == two_after.hlir_buffers@,
        one_after.buffers@ == two_after.buffers@,
        one_after.changed_hlir@ == two_after.changed_hlir@,
        one_after.cached_buffer_ptrs@ == two_after.cached_buffer_ptrs@,
        one_after.last_dyn_map@ == two_after.last_dyn_map@,
        graph_replay == false && r2 is Ok ==> r2->Ok_0.1 == ReplayAction::Dispatch,
        r1 matches Ok((_, ReplayAction::Replay)) ==> one.runtime_replay.wf() ==> one.runtime_replay.last_signature()
            == Some((dims, two.ptrs_now(), settings.force_zero_all)),
{
    if r1 is Ok {
        assert forall|h: usize| !#[trigger] two.lacks_input(h) by {
            assert(!one.lacks_input(h));
        }
    }
    if r2 is Ok {
        assert forall|h: usize| !#[trigger] one.lacks_input(h) by {
            assert(!two.lacks_input(h));
        }
    }
}

/// Caching the pointers of changed inputs leaves the books in order.
proof fn lemma_caching_keeps_order(before: CudaRuntime, after: CudaRuntime)
    requires
        before.wf(),
        before.in_order(),
        after.same_graph(&before),
        after.hlir_buffers == before.hlir_buffers,
        after.cached_buffer_ptrs@ == before.ptrs_now(),
    ensures
        after.in_order(),
{
}

/// An input at another address drops the recording: the next execution does not replay it,
/// but warms up for a new one.
pub proof fn law_moved_input_is_not_replayed(
    rt: CudaRuntime,
    after: CudaRuntime,
    h: usize,
    input: CudaInput,
    dims: Map<char, usize>,
    force_zero_all: bool,
    settings: ReplaySettings,
)
    requires
        rt.wf(),
        settings.replay_enabled,
        rt.hlir_to_llir@.contains_key(h),
        rt.cached_buffer_ptrs@.contains_key(rt.hlir_to_llir@[h]),
        rt.cached_buffer_ptrs@[rt.hlir_to_llir@[h]] != input.address(),
        rt.runtime_replay.last_signature() == Some((dims, rt.cached_buffer_ptrs@, force_zero_all)),
        after.same_graph(&rt),
        after.hlir_buffers@ == rt.hlir_buffers@.insert(h, input),
        after.changed_hlir@ == rt.changed_hlir@.insert(h),
        after.cached_buffer_ptrs == rt.cached_buffer_ptrs,
        after.runtime_replay == rt.runtime_replay,
    ensures
        ({
            let (state, graph_exec) = announced(
                after.runtime_replay.state,
                after.runtime_replay.graph_exec,
                after.runtime_replay.last_signature(),
                (dims, after.ptrs_now(), force_zero_all),
                settings,
            );
            action_in(state, graph_exec) == ReplayAction::Warmup && !graph_exec
        }),
{
    let n = rt.hlir_to_llir@[h];
    assert(after.ptrs_now()[n] == input.address());
}

/// All but the recording is as in `before`.
pub open spec fn but_for_recording(after: CudaRuntime, before: CudaRuntime) -> bool {
    after == (CudaRuntime { runtime_replay: after.runtime_replay, ..before })
}

/// The recording that the runtime has, if any, is the one that was made when it was as
/// `then`: graph and buffers are those of then, and so is the signature. An input whose
/// pointer is not cached and that was not replaced is where it was.
pub open spec fn recorded_at(then: CudaRuntime, rt: CudaRuntime) -> bool {
    &&& rt.same_graph(&then)
    &&& rt.buffers@ == then.buffers@
    &&& rt.runtime_replay.graph_exec ==> rt.runtime_replay.last_signature() is Some
        && rt.runtime_replay.last_signature() == then.runtime_replay.last_signature()
    &&& forall|h: usize| #[trigger]
        then.hlir_buffers@.contains_key(h) ==> rt.hlir_buffers@.contains_key(h)
    &&& forall|h: usize|
        #[trigger] rt.hlir_buffers@.contains_key(h) && rt.hlir_to_llir@.contains_key(h)
            && !rt.changed_hlir@.contains(h) && !rt.cached_buffer_ptrs@.contains_key(
            rt.hlir_to_llir@[h],
        ) ==> then.hlir_buffers@.contains_key(h) && then.hlir_buffers@[h].address()
            == rt.hlir_buffers@[h].address()
}

/// An execution that is captured is recorded under its own dimensions and pointers.
pub proof fn law_capture_records_its_execution(
    rt: CudaRuntime,
    after: CudaRuntime,
    captured: CudaRuntime,
    dims: Map<char, usize>,
    settings: ExecuteSettings,
    allocate: bool,
)
    requires
        rt.executed_as(after, dims, settings, Ok((allocate, ReplayAction::Capture))),
        but_for_recording(captured, after),
        captured.runtime_replay.last_signature() == after.runtime_replay.last_signature(),
    ensures
        recorded_at(captured, captured),
        captured.changed_hlir@ == Set::<usize>::empty(),
        captured.runtime_replay.last_signature() == Some(
            (dims, captured.cached_buffer_ptrs@, settings.force_zero_all),
        ),
{
}

/// A new input leaves the recording what it was.
pub proof fn law_new_input_keeps_recording(
    then: CudaRuntime,
    rt: CudaRuntime,
    after: CudaRuntime,
    id: usize,
    input: CudaInput,
)
    requires
        recorded_at(then, rt),
        after.same_graph(&rt),
        after.hlir_buffers@ == rt.hlir_buffers@.insert(id, input),
        after.changed_hlir@ == rt.changed_hlir@.insert(id),
        after.buffers == rt.buffers,
        after.cached_buffer_ptrs == rt.cached_buffer_ptrs,
        after.runtime_replay == rt.runtime_replay,
    ensures
        recorded_at(then, after),
{
}

/// So does an execution, unless it drops it.
pub proof fn law_execution_keeps_recording(
    then: CudaRuntime,
    rt: CudaRuntime,
    after: CudaRuntime,
    dims: Map<char, usize>,
    settings: ExecuteSettings,
    r: Result<(bool, ReplayAction), ExecuteRefusal>,
)
    requires
        rt.wf(),
        recorded_at(then, rt),
        rt.executed_as(after, dims, settings, r),
    ensures
        recorded_at(then, after),
{
    if r is Ok {
        assert forall|h: usize|
            #[trigger] after.hlir_buffers@.contains_key(h) && after.hlir_to_llir@.contains_key(h)
                && !after.changed_hlir@.contains(h) && !after.cached_buffer_ptrs@.contains_key(
                after.hlir_to_llir@[h],
            ) implies then.hlir_buffers@.contains_key(h) && then.hlir_buffers@[h].address()
            == after.hlir_buffers@[h].address() by {
            assert(rt.hlir_buffers@.contains_key(h));
        }
    }
}

/// Two runtimes have inputs for the same tensors, at the same places.
pub open spec fn inputs_in_place(then: CudaRuntime, rt: CudaRuntime) -> bool {
    forall|h: usize| #[trigger]
        rt.hlir_to_llir@.contains_key(h) ==> (then.hlir_buffers@.contains_key(h)
            <==> rt.hlir_buffers@.contains_key(h)) && (rt.hlir_buffers@.contains_key(h)
            ==> then.hlir_buffers@[h].address() == rt.hlir_buffers@[h].address())
}

/// Where an execution is replayed, the inputs are where they were when it was recorded, and
/// the dimensions and the setting are those of then.
pub proof fn law_replay_finds_inputs_in_place(
    then: CudaRuntime,
    rt: CudaRuntime,
    after: CudaRuntime,
    recorded: (Map<char, usize>, bool),
    dims: Map<char, usize>,
    settings: ExecuteSettings,
    allocate: bool,
)
    requires
        then.in_order(),
        then.changed_hlir@ == Set::<usize>::empty(),
        then.runtime_replay.last_signature() == Some(
            (recorded.0, then.cached_buffer_ptrs@, recorded.1),
        ),
        rt.wf(),
        rt.in_order(),
        recorded_at(then, rt),
        rt.executed_as(after, dims, settings, Ok((allocate, ReplayAction::Replay))),
    ensures
        recorded == (dims, settings.force_zero_all),
        then.cached_buffer_ptrs@ == after.cached_buffer_ptrs@,
        inputs_in_place(then, after),
{
    lemma_caching_keeps_order(rt, after);
    law_execution_keeps_recording(
        then,
        rt,
        after,
        dims,
        settings,
        Ok((allocate, ReplayAction::Replay)),
    );
    assert forall|h: usize| #[trigger] after.hlir_to_llir@.contains_key(h) implies (
    then.hlir_buffers@.contains_key(h) <==> after.hlir_buffers@.contains_key(h)) && (
    after.hlir_buffers@.contains_key(h) ==> then.hlir_buffers@[h].address()
        == after.hlir_buffers@[h].address()) by {
        assert(then.hlir_to_llir@.contains_key(h));
        if then.hlir_buffers@.contains_key(h) {
            assert(after.hlir_buffers@.contains_key(h));
        }
    }
}

/// Executions with the same dimensions, inputs and settings warm up, capture, and then
/// replay, as long as the recording is not dropped between them.
pub proof fn law_executions_warm_up_capture_and_replay(
    rt: CudaRuntime,
    first: CudaRuntime,
    warmed: CudaRuntime,
    second: CudaRuntime,
    captured: CudaRuntime,
    third: CudaRuntime,
    dims: Map<char, usize>,
    settings: ExecuteSettings,
    results: Seq<(bool, ReplayAction)>,
)
    requires
        settings.graph_replay && !settings.sync_debug && !settings.force_recapture,
        results.len() == 3,
        rt.runtime_replay.is_fresh(),
        rt.executed_as(first, dims, settings, Ok(results[0])),
        but_for_recording(warmed, first),
        warmed.runtime_replay.state == crate::replay::RuntimeReplayState::CapturePending,
        warmed.runtime_replay.last_signature() == first.runtime_replay.last_signature(),
        warmed.executed_as(second, dims, settings, Ok(results[1])),
        but_for_recording(captured, second),
        captured.runtime_replay.state == crate::replay::RuntimeReplayState::Ready,
        captured.runtime_replay.graph_exec,
        captured.runtime_replay.last_signature() == second.runtime_replay.last_signature(),
        captured.executed_as(third, dims, settings, Ok(results[2])),
    ensures
        results[0].1 == ReplayAction::Warmup,
        results[1].1 == ReplayAction::Capture,
        results[2].1 == ReplayAction::Replay,
        third.runtime_replay.state == crate::replay::RuntimeReplayState::Ready,
        third.runtime_replay.graph_exec,
{
    assert(warmed.ptrs_now() =~= warmed.cached_buffer_ptrs@);
    assert(captured.ptrs_now() =~= captured.cached_buffer_ptrs@);
}

/// Where the graph needs no intermediate buffer, `begin_execute` drops the recording every
/// time, and every execution warms up.
pub proof fn law_without_buffers_executions_start_over(
    rt: CudaRuntime,
    begun: CudaRuntime,
    after: CudaRuntime,
    dyn_map: DynMap,
    settings: ExecuteSettings,
    r: (bool, ReplayAction),
)
    requires
        settings.graph_replay && !settings.sync_debug,
        rt.buffers@ == Map::<usize, DeviceBuffer>::empty(),
        rt.needs_buffers(dyn_map) ==> begun.runtime_replay.is_fresh(),
        begun.executed_as(after, dyn_map@, settings, Ok(r)),
    ensures
        rt.needs_buffers(dyn_map),
        r.1 == ReplayAction::Warmup,
{
}

/// With the dimensions that buffers were allocated for, they are kept.
pub proof fn law_same_dims_keep_buffers(rt: CudaRuntime, dyn_map: DynMap)
    requires
        rt.buffers@ != Map::<usize, DeviceBuffer>::empty(),
        dyn_map@ == rt.last_dyn_map@,
        dyn_map.count() == rt.last_dyn_map.count(),
    ensures
        !rt.needs_buffers(dyn_map),
{
}

/// Where no reallocation is asked for, every dimension of this execution that buffer sizes
/// depend on has the very value that the buffers were allocated for, neither less nor more.
pub proof fn law_kept_buffers_are_for_these_dims(rt: CudaRuntime, dyn_map: DynMap, d: char)
    requires
        !rt.needs_buffers(dyn_map),
        rt.intermediate_buffer_dims@.contains(d),
        dyn_map@.contains_key(d),
    ensures
        rt.last_dyn_map@.contains_key(d),
        rt.last_dyn_map@[d] == dyn_map@[d],
        dyn_map.count() == rt.last_dyn_map.count(),
        rt.buffers@ != Map::<usize, DeviceBuffer>::empty(),
{
}

/// A watched dimension with another value, or one that was not there, another number of
/// dimensions, and the lack of any buffer each lead to a reallocation.
pub proof fn law_other_dims_need_other_buffers(rt: CudaRuntime, dyn_map: DynMap, d: char)
    requires
        rt.buffers@ == Map::<usize, DeviceBuffer>::empty() || dyn_map.count()
            != rt.last_dyn_map.count() || (rt.intermediate_buffer_dims@.contains(d)
            && dyn_map@.contains_key(d) && (rt.last_dyn_map@.contains_key(d)
            ==> rt.last_dyn_map@[d] != dyn_map@[d])),
    ensures
        rt.needs_buffers(dyn_map),
{
}

/// Dimensions that no buffer size depends on may change freely.
pub proof fn law_unwatched_dims_keep_buffers(rt: CudaRuntime, dyn_map: DynMap)
    requires
        rt.buffers@ != Map::<usize, DeviceBuffer>::empty(),
        dyn_map.count() == rt.last_dyn_map.count(),
        forall|d: char|
            rt.intermediate_buffer_dims@.contains(d) && #[trigger] dyn_map@.contains_key(d)
                ==> rt.last_dyn_map@.contains_key(d) && rt.last_dyn_map@[d] == dyn_map@[d],
    ensures
        !rt.needs_buffers(dyn_map),
{
}

/// The size of an output depends on the operation's own dimensions alone.
pub open spec fn sized_by_own_dims(
    ops: Map<usize, LlirOp>,
    size: spec_fn(usize, Map<char, usize>) -> int,
) -> bool {
    forall|n: usize, a: Map<char, usize>, b: Map<char, usize>|
        (forall|d: char|
            ops[n].dyn_vars@.contains(d) ==> a.contains_key(d) && #[trigger] b.contains_key(d)
                && a[d] == b[d]) ==> #[trigger] size(n, a) == #[trigger] size(n, b)
}

/// Buffers that are kept have the sizes that the outputs of their operations have under the
/// dimensions of this execution.
pub proof fn law_kept_buffers_have_the_right_size(
    rt: CudaRuntime,
    dyn_map: DynMap,
    size: spec_fn(usize, Map<char, usize>) -> int,
    n: usize,
)
    requires
        !rt.needs_buffers(dyn_map),
        sized_by_own_dims(rt.llir_ops@, size),
        rt.buffers@.contains_key(n),
        rt.buffers@[n].len == size(n, rt.last_dyn_map@),
        forall|d: char| #[trigger]
            rt.llir_ops@[n].dyn_vars@.contains(d) ==> rt.intermediate_buffer_dims@.contains(d)
                && dyn_map@.contains_key(d),
    ensures
        rt.buffers@[n].len == size(n, dyn_map@),
{
    assert forall|d: char| rt.llir_ops@[n].dyn_vars@.contains(d) implies rt.last_dyn_map@.contains_key(
        d,
    ) && #[trigger] dyn_map@.contains_key(d) && rt.last_dyn_map@[d] == dyn_map@[d] by {
        law_kept_buffers_are_for_these_dims(rt, dyn_map, d);
    }
    assert(size(n, rt.last_dyn_map@) == size(n, dyn_map@));
}

/// Blocks, kernels and host operations of the graph get a buffer of the size of their output
/// unless that is empty; inputs, outputs and other operations get none. The dimensions of
/// blocks and kernels that get one are watched.
pub proof fn law_who_gets_a_buffer(rt: CudaRuntime, sizes: Map<usize, usize>, n: usize)
    requires
        graph_nodes(rt.llir_graph).contains(n),
        rt.llir_ops@.contains_key(n),
        sizes.contains_key(n),
    ensures
        rt.llir_ops@[n].kind is Block || rt.llir_ops@[n].kind is Kernel
            || rt.llir_ops@[n].kind is Host ==> (rt.wants_buffer(sizes, n) <==> sizes[n] != 0),
        !(rt.llir_ops@[n].kind is Block || rt.llir_ops@[n].kind is Kernel
            || rt.llir_ops@[n].kind is Host) ==> !rt.wants_buffer(sizes, n),
        rt.llir_ops@[n].kind is Block || rt.llir_ops@[n].kind is Kernel <==> tracks_dims(
            rt.llir_ops@,
            n,
        ),
{
}

/// An operation that gets a buffer and has no size is found, and the first such is.
pub proof fn law_unsized_operation_is_found(rt: CudaRuntime, sizes: Map<usize, usize>, n: usize)
    requires
        graph_nodes(rt.llir_graph).contains(n),
        rt.llir_ops@.contains_key(n),
        rt.llir_ops@[n].kind is Block || rt.llir_ops@[n].kind is Kernel
            || rt.llir_ops@[n].kind is Host,
        !sizes.contains_key(n),
        forall|m: usize| #[trigger]
            graph_nodes(rt.llir_graph).contains(m) && m < n && rt.llir_ops@.contains_key(m)
                ==> sizes.contains_key(m),
    ensures
        rt.first_unsized(sizes, n),
        forall|m: usize| #[trigger] rt.first_unsized(sizes, m) ==> m == n,
{
    assert forall|m: usize|
        #[trigger] graph_nodes(rt.llir_graph).contains(m) && has_intermediate(rt.llir_ops@, m)
            && !sizes.contains_key(m) implies n <= m by {}
}

/// The bytes of two lists of buffers together are those of the one and those of the other.
pub proof fn law_bytes_add_up(a: Seq<(usize, usize)>, b: Seq<(usize, usize)>)
    ensures
        total_size(a + b) == total_size(a) + total_size(b),
        forall|n: usize, bytes: usize| #[trigger] total_size(seq![(n, bytes)]) == bytes,
    decreases b.len(),
{
    assert forall|n: usize, bytes: usize| #[trigger] total_size(seq![(n, bytes)]) == bytes by {
        let one = seq![(n, bytes)];
        assert(one.drop_last() =~= Seq::<(usize, usize)>::empty());
        assert(one.last() == (n, bytes));
        assert(total_size(one.drop_last()) == 0);
    }
    if b.len() == 0 {
        assert(a + b =~= a);
    } else {
        law_bytes_add_up(a, b.drop_last());
        assert((a + b).drop_last() =~= a + b.drop_last());
        assert((a + b).last() == b.last());
    }
}

/// An execution is refused for want of an input if and only if the graph reads a tensor that
/// was changed and has none; and where it goes on, each input that was changed and that the
/// graph reads is at hand at its own address, whatever was cached before.
pub proof fn law_execution_has_its_inputs(
    rt: CudaRuntime,
    after: CudaRuntime,
    dims: Map<char, usize>,
    settings: ExecuteSettings,
    r: Result<(bool, ReplayAction), ExecuteRefusal>,
    h: usize,
)
    requires
        rt.wf(),
        rt.executed_as(after, dims, settings, r),
        rt.changed_hlir@.contains(h),
        rt.hlir_to_llir@.contains_key(h),
    ensures
        !rt.hlir_buffers@.contains_key(h) ==> r is Err,
        r is Ok ==> after.cached_buffer_ptrs@.contains_key(rt.hlir_to_llir@[h])
            && after.cached_buffer_ptrs@[rt.hlir_to_llir@[h]] == (match rt.hlir_buffers@[h] {
            CudaInput::Buffer(b) => b.ptr,
            CudaInput::Ptr(p) => p,
        }),
        r is Ok ==> !after.changed_hlir@.contains(h),
{
    if !rt.hlir_buffers@.contains_key(h) {
        assert(rt.lacks_input(h));
    }
}

/// Where replay is off or the runtime is watched step by step, the operations run one by one.
pub proof fn law_without_replay_operations_run(
    rt: CudaRuntime,
    after: CudaRuntime,
    dims: Map<char, usize>,
    settings: ExecuteSettings,
    r: (bool, ReplayAction),
)
    requires
        rt.executed_as(after, dims, settings, Ok(r)),
        settings.sync_debug || !settings.graph_replay,
    ensures
        r.1 == ReplayAction::Dispatch,
        !after.runtime_replay.graph_exec,
        after.runtime_replay.last_signature() is None,
        settings.single_stream || settings.sync_debug,
        r.0 <==> rt.buffers@ == Map::<usize, DeviceBuffer>::empty(),
{
}

/// Of the nodes that stand for one input the last counts, and of those for one output the
/// first.
pub proof fn law_one_node_for_an_input_or_output(
    nodes: Set<usize>,
    ops: Map<usize, LlirOp>,
    id: usize,
    n: usize,
    m: usize,
)
    requires
        nodes.contains(m) && ops.contains_key(m),
    ensures
        last_input_node(nodes, ops, id, n) ==> nodes.contains(n) && ops.contains_key(n)
            && ops[n].kind == OpKind::Input(id) && (ops[m].kind == OpKind::Input(id) ==> m <= n),
        first_output_node(nodes, ops, id, n) ==> nodes.contains(n) && ops.contains_key(n)
            && ops[n].kind == OpKind::Output(id) && (ops[m].kind == OpKind::Output(id) ==> n <= m),
{
    assert(is_input_node(nodes, ops, id, m) <==> ops[m].kind == OpKind::Input(id));
    assert(is_output_node(nodes, ops, id, m) <==> ops[m].kind == OpKind::Output(id));
}

} // verus!
