[package]
name = "miden-mast"
version = "0.1.0"
edition = "2021"
publish = false

[dependencies]
miden-crypto = "=0.25.1"
midenc-hir-type = "=0.8.0"
smallvec = "=1.15.2"
log = "=0.4.35"
thiserror = "=2.0.21"
serde = { version = "=1.0.229", features = ["derive"] }
