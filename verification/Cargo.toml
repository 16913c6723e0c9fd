[package]
name = "codesage_graph"
version = "0.1.0"
edition = "2021"
publish = false

[dependencies]
anyhow = "=1.0.104"
globset = "=0.4.21"
libc = "=0.2.191"
rayon = "1"
rustix = { version = "=1.1.6", features = ["fs", "process"] }
serde = { version = "=1.0.229", features = ["derive"] }
serde_json = "=1.0.154"
toml = "=1.1.8"
tracing = "=0.1.44"
tree-sitter = "=0.27.1"
