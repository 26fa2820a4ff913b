[package]
name = "compute_pass"
version = "0.1.0"
edition = "2021"
publish = false

[dependencies]
log = "0.4"
profiling = { version = "1", default-features = false }
serde = { version = "1", features = ["derive"] }
thiserror = "1"
