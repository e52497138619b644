[package]
name = "v8_heap_analyzer"
version = "0.1.0"
edition = "2021"
publish = false

[dependencies]
ahash = "*"
anyhow = "*"
clap = { version = "*", features = ["derive"] }
crossterm = "*"
fixedbitset = "*"
indicatif = "*"
itertools = "*"
petgraph = "*"
ratatui = "*"
serde = { version = "*", features = ["derive"] }
serde_json = "*"
thiserror = "*"
