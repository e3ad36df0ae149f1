[package]
name = "miden-hir"
version = "0.1.0"
edition = "2021"
publish = false

[dependencies]
anyhow = "1.0"
intrusive-collections = "0.9"
log = "0.4"
miden-diagnostics = "0.1"
