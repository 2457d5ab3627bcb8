[package]
name = "charta"
version = "0.1.0"
edition = "2021"
publish = false

[dependencies]
scxml = "*"
z3 = "*"
anyhow = "*"
thiserror = "*"
tempfile = "*"
serde = { version = "*", features = ["derive"] }
schemars = "*"
rmcp = { version = "*", features = ["server", "macros", "transport-io"] }
tokio = { version = "*", features = ["macros", "rt-multi-thread", "process", "io-std"] }
