//! The logic of a tensor runtime for CUDA devices, verified.
//!
//! Three parts stand side by side. The planning of executions: which kernels go into one
//! CUDA graph (`partition`, `host_plan`), in which order host operations run
//! (`exec_graph`, `runtime_graph`), which buffers there are (`runtime`, `device`), when a
//! graph or a whole execution can be replayed (`cuda_graph_op`, `replay`), what single
//! operations hand to the device (`matmul`, `flash_attn`, `kernel_params`), and what all that
//! comes to in the device's memory (`device_memory`). Layers and imported graphs:
//! convolutions as programs of tensor operations (`tensor`, `convolution`) with the laws of
//! these layers (`conv_laws`), and the reading of exported PyTorch graphs (`torch`) with what
//! the programs compute (`torch_data`) and what each function of such a graph does
//! (`torch_laws`). And what is reported of executions (`block_stats`, `timing`, `report`).
//!
//! Nothing here touches a device. Functions say what is to be done, and are told what came
//! of it.

pub mod bitset;
pub mod block_stats;
pub mod components;
pub mod conv_laws;
pub mod convolution;
pub mod cuda_graph_op;
pub mod device;
pub mod device_memory;
pub mod digraph;
pub mod dims;
pub mod exec_graph;
pub mod flash_attn;
pub mod host_plan;
pub mod inputs;
pub mod kernel_params;
pub mod loader;
pub mod matmul;
pub mod names;
pub mod node_list;
pub mod op_term;
pub mod parse;
pub mod partition;
pub mod reachability;
pub mod replay;
pub mod report;
pub mod runtime;
pub mod runtime_graph;
pub mod sort;
pub mod tensor;
pub mod text;
pub mod timing;
pub mod torch;
pub mod torch_data;
pub mod torch_laws;
pub mod walk;
