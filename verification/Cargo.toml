[package]
name = "weight"
version = "0.1.0"
edition = "2021"
publish = false

[dependencies]
brotli = "*"
clap = { version = "*", features = ["derive"] }
colored = "*"
swc_common = "*"
swc_ecma_ast = "*"
swc_ecma_codegen = "*"
swc_ecma_minifier = "*"
swc_ecma_parser = "*"
swc_ecma_transforms_typescript = "*"
swc_ecma_visit = "*"
