[package]
name = "script_passes"
version = "0.1.0"
edition = "2021"
rust-version = "1.95"
publish = false

[dependencies]
oxc_allocator = "0.120"
oxc_ast = "0.120"
oxc_ast_visit = "0.120"
oxc_diagnostics = "0.120"
oxc_parser = "0.120"
oxc_semantic = "0.120"
oxc_span = "0.120"
serde_json = "=1.0.154"
