# luminal_runtime

The logic of a tensor runtime for CUDA devices, written in Rust and verified with Verus.

`src/` is the verified library. It plans: it decides which kernels form one CUDA graph, in
which order host operations run, which buffers are allocated, zeroed and kept, when a recorded
execution may be replayed, and what cuBLAS, cuBLASLt and attention kernels are called with. It
also builds convolution layers as programs of tensor operations, reads exported PyTorch graphs
into such programs, and prepares statistics. Functions state in their contracts what they
return; the `law_` proof functions state what holds across functions.

`app/` is ordinary Rust around the library. It owns the handles of the CUDA driver, of cuBLAS
and cuBLASLt, reads files and the environment, and carries out what the library plans. Tensor
compilers take part through the traits in `app/frontend.rs`.

`tests/` run the library on concrete values. The convolution tests compare it with
`candle-core`.

Items that the proofs rest on without proof are marked `external_body`,
`external_type_specification` or `assume_specification`; a comment above each names the outside
function or type and what is claimed of it. They concern `fixedbitset`, `petgraph`,
`safetensors`, `pretty-duration` and two functions of the standard library.
