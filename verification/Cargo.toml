[package]
name = "mcts"
version = "0.1.0"
edition = "2021"
publish = false

[dependencies]
anyhow = "1"
axum = "0.8"
chrono = "0.4"
crossbeam = "0.8"
dashmap = "6"
futures = "0.3"
json = "0.12"
libc = "0.2"
memmap2 = "0.9"
numpy = "*"
pyo3 = "*"
rand = "*"
rand_distr = "*"
rayon = "1"
rmp-serde = "1"
rusqlite = { version = "*", features = ["bundled"] }
rustc-hash = "2"
serde = { version = "1", features = ["derive"] }
serde_json = "1"
tokio = { version = "1", features = ["rt-multi-thread", "macros", "net", "sync", "time"] }
