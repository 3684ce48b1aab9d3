[package]
name = "stack_engine"
version = "0.1.0"
edition = "2021"
publish = false

[dependencies]
anyhow = "1"
bstr = "1"
git2 = { version = "*", default-features = false }
git2-hooks = "*"
gix = "*"
itertools = "*"
petgraph = "*"
serde = { version = "1", features = ["derive"] }
serde_json = "1"
tracing = "0.1"
uuid = { version = "1", features = ["v4"] }
