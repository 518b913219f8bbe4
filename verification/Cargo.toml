[package]
name = "graph_db"
version = "0.1.0"
edition = "2021"
publish = false

[dependencies]
md5 = "0.7"
petgraph = { version = "0.6", features = ["serde-1"] }
rand = "0.8"
url = "2"
actix = "0.13"
actix-interop = "0.4"
actix-rt = "2"
bincode = "1"
env_logger = "0.10"
futures-util = "0.3"
log = "0.4"
prost = "0.11"
rusqlite = { version = "0.29", features = ["bundled"] }
savefile = "*"
serde = { version = "1", features = ["derive"] }
tokio = { version = "1", features = ["rt-multi-thread", "macros", "time", "sync"] }
tonic = "0.9"
