[package]
name = "luminal_runtime"
version = "0.1.0"
edition = "2021"
publish = false

[dependencies]
anyhow = "1"
as-any = "*"
bytemuck = "1"
cudarc = { version = "0.18", default-features = false, features = ["std", "driver", "cublas", "cublaslt", "nvrtc", "dynamic-loading", "cuda-12040"] }
fixedbitset = "0.5"
half = "2"
memmap2 = "0.9"
petgraph = "0.8"
pretty-duration = "*"
prost = "*"
pyo3 = { version = "*", features = ["abi3-py38"] }
safetensors = "*"
tracing = "0.1"
tracing-perfetto-sdk-schema = "*"
uuid = { version = "1", features = ["v4"] }

[dev-dependencies]
candle-core = "*"
