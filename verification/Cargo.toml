[package]
name = "rspack_core"
version = "0.1.0"
edition = "2021"
publish = false

[dependencies]
dashmap = "=6.2.1"
tokio = { version = "=1.54.1", features = ["rt-multi-thread", "sync", "macros"] }
napi = { version = "=2.16.17", features = ["tokio_rt", "napi4"] }
napi-derive = "=2.16.13"
serde = { version = "=1.0.229", features = ["derive"] }
serde_json = "=1.0.154"
nodejs-resolver = "=0.1.1"
swc_ecma_parser = "=46.1.2"
swc_ecma_ast = "=29.0.2"
swc_ecma_visit = "=29.0.0"
swc_common = "=26.0.0"
swc_atoms = "=10.0.0"
tracing = "=0.1.44"
tracing-chrome = "=0.7.2"
tracing-subscriber = "=0.3.23"
futures = "=0.3.34"
once_cell = "=1.21.4"
mimalloc-rust = "=0.2.1"

[dev-dependencies]
swc_ecma_codegen = "*"
