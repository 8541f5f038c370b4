[package]
name = "js2ts_migrator"
version = "1.1.0"
edition = "2021"
publish = false

[dependencies]
anyhow = "1"
axum = { version = "*", features = ["multipart"] }
clap = { version = "4", features = ["derive"] }
serde = { version = "1", features = ["derive"] }
swc_common = "*"
swc_ecma_ast = "*"
swc_ecma_codegen = "*"
swc_ecma_parser = "*"
swc_ecma_visit = "*"
tokio = { version = "1", features = ["rt-multi-thread", "macros", "net"] }
tower-http = { version = "*", features = ["fs"] }
walkdir = "2"
